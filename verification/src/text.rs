//! Characters and strings: the primitives the scanners are built from.

use vstd::prelude::*;

verus! {

/// Whether `c` has the Unicode property White_Space.
pub open spec fn is_whitespace(c: char) -> bool {
    let n = c as u32;
    ||| 0x09 <= n <= 0x0D
    ||| n == 0x20
    ||| n == 0x85
    ||| n == 0xA0
    ||| n == 0x1680
    ||| 0x2000 <= n <= 0x200A
    ||| n == 0x2028
    ||| n == 0x2029
    ||| n == 0x202F
    ||| n == 0x205F
    ||| n == 0x3000
}

/// The views of a list of strings.
pub open spec fn string_views(strings: Seq<String>) -> Seq<Seq<char>> {
    strings.map_values(|s: String| s@)
}

/// `s` without the whitespace at its start.
pub open spec fn trim_start(s: Seq<char>) -> Seq<char>
    decreases s.len(),
{
    if s.len() > 0 && is_whitespace(s[0]) {
        trim_start(s.drop_first())
    } else {
        s
    }
}

/// `s` without the whitespace at its end.
pub open spec fn trim_end(s: Seq<char>) -> Seq<char>
    decreases s.len(),
{
    if s.len() > 0 && is_whitespace(s.last()) {
        trim_end(s.drop_last())
    } else {
        s
    }
}

/// `s` without the whitespace at either end.
pub open spec fn trimmed(s: Seq<char>) -> Seq<char> {
    trim_end(trim_start(s))
}

/// Where `trimmed(s)` starts in `s`.
pub open spec fn trimmed_start(s: Seq<char>) -> int {
    s.len() - trim_start(s).len()
}

/// `String::push` of the standard library: the string afterwards is the
/// string before with `ch` added at its end.
pub assume_specification[ String::push ](s: &mut String, ch: char)
    ensures
        final(s)@ == old(s)@.push(ch),
;

/// Tests a character for the Unicode property White_Space.
pub fn is_whitespace_char(c: char) -> (b: bool)
    ensures
        b == is_whitespace(c),
{
    let n: u32 = c as u32;
    (0x09 <= n && n <= 0x0D) || n == 0x20 || n == 0x85 || n == 0xA0 || n == 0x1680 || (0x2000 <= n
        && n <= 0x200A) || n == 0x2028 || n == 0x2029 || n == 0x202F || n == 0x205F || n == 0x3000
}

/// The characters of a string, in order.
pub fn to_chars(s: &str) -> (v: Vec<char>)
    ensures
        v@ == s@,
{
    let mut v: Vec<char> = Vec::new();
    let it = s.chars();
    for c in iter: it
        invariant
            v@ == iter.seq().take(iter.index() as int),
    {
        v.push(c);
    }
    v
}

/// The string made of the characters `chars[from..to]`.
pub fn string_of(chars: &Vec<char>, from: usize, to: usize) -> (s: String)
    requires
        from <= to <= chars.len(),
    ensures
        s@ == chars@.subrange(from as int, to as int),
{
    let mut s = String::new();
    let mut i: usize = from;
    while i < to
        invariant
            from <= i <= to <= chars.len(),
            s@ == chars@.subrange(from as int, i as int),
        decreases to - i,
    {
        s.push(chars[i]);
        i += 1;
    }
    s
}

/// Adds the characters of `more` at the end of `chars`.
pub fn push_all(chars: &mut Vec<char>, more: &Vec<char>)
    ensures
        final(chars)@ == old(chars)@ + more@,
{
    let mut i: usize = 0;
    while i < more.len()
        invariant
            i <= more.len(),
            chars@ == old(chars)@ + more@.subrange(0, i as int),
        decreases more.len() - i,
    {
        chars.push(more[i]);
        i += 1;
    }
}

/// The place of the first character of `chars` that is no whitespace; its
/// length, where there is none.
fn skip_whitespace(chars: &Vec<char>) -> (start: usize)
    ensures
        start <= chars.len(),
        trim_start(chars@) == chars@.subrange(start as int, chars.len() as int),
{
    let mut start: usize = 0;
    assert(chars@.subrange(0, chars.len() as int) == chars@);
    while start < chars.len() && is_whitespace_char(chars[start])
        invariant
            start <= chars.len(),
            trim_start(chars@) == trim_start(chars@.subrange(start as int, chars.len() as int)),
        decreases chars.len() - start,
    {
        assert(chars@.subrange(start as int, chars.len() as int).drop_first()
            == chars@.subrange(start + 1, chars.len() as int));
        start += 1;
    }
    start
}

/// A copy of `chars` without the whitespace at either end.
pub fn trim(chars: &Vec<char>) -> (s: String)
    ensures
        s@ == trimmed(chars@),
{
    let start = skip_whitespace(chars);
    let mut end: usize = chars.len();
    while end > start && is_whitespace_char(chars[end - 1])
        invariant
            start <= end <= chars.len(),
            trimmed(chars@) == trim_end(chars@.subrange(start as int, end as int)),
        decreases end - start,
    {
        assert(chars@.subrange(start as int, end as int).drop_last() == chars@.subrange(
            start as int,
            end - 1,
        ));
        end -= 1;
    }
    string_of(chars, start, end)
}

/// Whether `s` holds whitespace only.
pub open spec fn is_blank(s: Seq<char>) -> bool {
    forall|i: int| 0 <= i < s.len() ==> is_whitespace(#[trigger] s[i])
}

/// Whether `s` is trimmed: it neither starts nor ends in whitespace.
pub open spec fn is_tight(s: Seq<char>) -> bool {
    s.len() > 0 ==> !is_whitespace(s[0]) && !is_whitespace(s.last())
}

/// `trim_start` takes whitespace from the start of `s`, all there is of it,
/// and nothing else.
pub proof fn lemma_trim_start(s: Seq<char>)
    ensures
        trim_start(s).len() <= s.len(),
        trim_start(s) == s.skip(s.len() - trim_start(s).len()),
        forall|j: int| 0 <= j < s.len() - trim_start(s).len() ==> is_whitespace(#[trigger] s[j]),
        trim_start(s).len() > 0 ==> !is_whitespace(trim_start(s)[0]),
    decreases s.len(),
{
    if s.len() > 0 && is_whitespace(s[0]) {
        let rest = s.drop_first();
        lemma_trim_start(rest);
        let k = rest.len() - trim_start(rest).len();
        assert(rest.skip(k) =~= s.skip(k + 1));
        assert forall|j: int| 0 <= j < s.len() - trim_start(s).len() implies is_whitespace(
            #[trigger] s[j],
        ) by {
            if j > 0 {
                assert(s[j] == rest[j - 1]);
            }
        }
    } else {
        assert(s.skip(0) =~= s);
    }
}

/// `trim_end` takes whitespace from the end of `s`, all there is of it, and
/// nothing else.
pub proof fn lemma_trim_end(s: Seq<char>)
    ensures
        trim_end(s).len() <= s.len(),
        trim_end(s) == s.take(trim_end(s).len() as int),
        forall|j: int| trim_end(s).len() <= j < s.len() ==> is_whitespace(#[trigger] s[j]),
        trim_end(s).len() > 0 ==> !is_whitespace(trim_end(s).last()),
    decreases s.len(),
{
    if s.len() > 0 && is_whitespace(s.last()) {
        let rest = s.drop_last();
        lemma_trim_end(rest);
        let k = trim_end(rest).len() as int;
        assert(rest.take(k) =~= s.take(k));
        assert forall|j: int| trim_end(s).len() <= j < s.len() implies is_whitespace(
            #[trigger] s[j],
        ) by {
            if j < s.len() - 1 {
                assert(s[j] == rest[j]);
            }
        }
    } else {
        assert(s.take(s.len() as int) =~= s);
    }
}

/// `trimmed(s)` is a part of `s`, and neither starts nor ends in whitespace.
pub proof fn lemma_trimmed(s: Seq<char>)
    ensures
        0 <= trimmed_start(s) <= trimmed_start(s) + trimmed(s).len() <= s.len(),
        trimmed(s) == s.subrange(trimmed_start(s), trimmed_start(s) + trimmed(s).len()),
        trimmed(s).len() > 0 ==> !is_whitespace(trimmed(s)[0]) && !is_whitespace(
            trimmed(s).last(),
        ),
{
    lemma_trim_start(s);
    let t = trim_start(s);
    lemma_trim_end(t);
    let a = trimmed_start(s);
    assert(t.take(trimmed(s).len() as int) =~= s.subrange(a, a + trimmed(s).len()));
    if trimmed(s).len() > 0 {
        assert(trimmed(s)[0] == t[0]);
    }
}

/// A text that neither starts nor ends in whitespace is its own trimmed text.
pub proof fn lemma_trimmed_unchanged(s: Seq<char>)
    requires
        s.len() > 0 ==> !is_whitespace(s[0]) && !is_whitespace(s.last()),
    ensures
        trimmed(s) == s,
{
}

/// Trimming a trimmed text changes nothing.
pub proof fn lemma_trimmed_twice(s: Seq<char>)
    ensures
        trimmed(trimmed(s)) == trimmed(s),
{
    lemma_trimmed(s);
    lemma_trimmed_unchanged(trimmed(s));
}

/// Whitespace after a trimmed text is trimmed away again.
pub proof fn lemma_trimmed_push(s: Seq<char>, c: char)
    requires
        is_whitespace(c),
    ensures
        trimmed(trimmed(s).push(c)) == trimmed(s),
{
    lemma_trimmed(s);
    let t = trimmed(s);
    let u = t.push(c);
    assert(u.drop_last() =~= t);
    if t.len() == 0 {
        assert(u.drop_first() =~= Seq::<char>::empty());
        assert(trim_start(u) == trim_start(u.drop_first()));
        assert(trim_start(u.drop_first()) == Seq::<char>::empty());
    } else {
        assert(u[0] == t[0]);
        assert(trim_start(u) == u);
        assert(trim_end(u) == trim_end(t));
        lemma_trimmed_unchanged(t);
    }
}

/// Whitespace is taken from the start of a text up to its first character
/// that is none.
pub proof fn lemma_trim_start_before(a: Seq<char>, b: Seq<char>)
    requires
        b.len() > 0,
        !is_whitespace(b[0]),
    ensures
        trim_start(a + b) == trim_start(a) + b,
    decreases a.len(),
{
    let s = a + b;
    if a.len() == 0 {
        assert(s =~= b);
        assert(trim_start(a) + b =~= b);
    } else {
        assert(s[0] == a[0]);
        if is_whitespace(a[0]) {
            assert(s.drop_first() =~= a.drop_first() + b);
            lemma_trim_start_before(a.drop_first(), b);
        }
    }
}

/// Whitespace before a text that starts in none is all that `trim_start`
/// takes.
pub proof fn lemma_trim_start_blank(blank: Seq<char>, rest: Seq<char>)
    requires
        is_blank(blank),
        rest.len() > 0 ==> !is_whitespace(rest[0]),
    ensures
        trim_start(blank + rest) == rest,
    decreases blank.len(),
{
    let s = blank + rest;
    if blank.len() == 0 {
        assert(s =~= rest);
    } else {
        assert(s[0] == blank[0]);
        assert(is_whitespace(blank[0]));
        assert(s.drop_first() =~= blank.drop_first() + rest);
        assert(is_blank(blank.drop_first())) by {
            assert forall|i: int| 0 <= i < blank.drop_first().len() implies is_whitespace(
                #[trigger] blank.drop_first()[i],
            ) by {
                assert(blank.drop_first()[i] == blank[i + 1]);
            }
        }
        lemma_trim_start_blank(blank.drop_first(), rest);
    }
}

/// Whitespace after a text that ends in none is all that `trim_end` takes.
pub proof fn lemma_trim_end_blank(rest: Seq<char>, blank: Seq<char>)
    requires
        is_blank(blank),
        rest.len() > 0 ==> !is_whitespace(rest.last()),
    ensures
        trim_end(rest + blank) == rest,
    decreases blank.len(),
{
    let s = rest + blank;
    if blank.len() == 0 {
        assert(s =~= rest);
    } else {
        assert(s.last() == blank.last());
        assert(is_whitespace(blank[blank.len() - 1]));
        assert(s.drop_last() =~= rest + blank.drop_last());
        assert(is_blank(blank.drop_last())) by {
            assert forall|i: int| 0 <= i < blank.drop_last().len() implies is_whitespace(
                #[trigger] blank.drop_last()[i],
            ) by {
                assert(blank.drop_last()[i] == blank[i]);
            }
        }
        lemma_trim_end_blank(rest, blank.drop_last());
    }
}

/// A trimmed text with whitespace round it is what trimming gives back.
pub proof fn lemma_trimmed_of_padded(before: Seq<char>, text: Seq<char>, after: Seq<char>)
    requires
        is_blank(before),
        is_blank(after),
        is_tight(text),
    ensures
        trimmed(before + text + after) == text,
{
    let s = before + text + after;
    if text.len() == 0 {
        assert(s =~= (before + after) + text);
        assert(is_blank(before + after)) by {
            assert forall|i: int| 0 <= i < (before + after).len() implies is_whitespace(
                #[trigger] (before + after)[i],
            ) by {
                if i < before.len() {
                    assert((before + after)[i] == before[i]);
                } else {
                    assert((before + after)[i] == after[i - before.len()]);
                }
            }
        }
        lemma_trim_start_blank(before + after, text);
    } else {
        assert(s =~= before + (text + after));
        assert((text + after)[0] == text[0]);
        lemma_trim_start_blank(before, text + after);
        lemma_trim_end_blank(text, after);
    }
}

/// A text is its trimmed text with whitespace round it.
pub proof fn lemma_trimmed_parts(s: Seq<char>)
    ensures
        0 <= trimmed_start(s) <= trimmed_start(s) + trimmed(s).len() <= s.len(),
        s == s.take(trimmed_start(s)) + trimmed(s) + s.skip(trimmed_start(s) + trimmed(s).len()),
        is_blank(s.take(trimmed_start(s))),
        is_blank(s.skip(trimmed_start(s) + trimmed(s).len())),
        is_tight(trimmed(s)),
{
    lemma_trimmed(s);
    lemma_trim_start(s);
    let cut = trim_start(s);
    lemma_trim_end(cut);
    let a = trimmed_start(s);
    let b = a + trimmed(s).len();
    assert(s =~= s.take(a) + trimmed(s) + s.skip(b));
    assert forall|i: int| 0 <= i < s.skip(b).len() implies is_whitespace(
        #[trigger] s.skip(b)[i],
    ) by {
        assert(s.skip(b)[i] == s[b + i]);
        assert(cut[trimmed(s).len() + i] == s[b + i]);
        assert(is_whitespace(cut[trimmed(s).len() + i]));
    }
}

} // verus!
