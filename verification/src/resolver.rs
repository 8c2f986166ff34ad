//! The reference resolver: one pass over the text that puts the value of a
//! field in the place of each reference to it.
//!
//! A reference is an `@`, an id, and the character that ends the id. The id
//! names an entity and, after a colon, a field of it. After `^` the value
//! comes in sentence case, after `!` in title case. A backslash takes the
//! meaning from the character after it.

use vstd::prelude::*;
use crate::casing::{sentence_case, title_case, to_sentence_case, to_title_case};
use crate::entity::{entity_fields, field_text, get_field_by_name, EntityTable, EntryView};
use crate::text::{
    is_blank, is_whitespace, is_whitespace_char, push_all, string_of, string_views, to_chars,
    trim, trimmed,
};

verus! {

/// Whether `c` is one of the characters that no id holds:
/// `` , . < > ! @ # $ % ^ & * ( ) [ ] | \ ; ' " ? / ` ~ + = ``.
pub open spec fn is_forbidden(c: char) -> bool {
    ||| c == ','
    ||| c == '.'
    ||| c == '<'
    ||| c == '>'
    ||| c == '!'
    ||| c == '@'
    ||| c == '#'
    ||| c == '$'
    ||| c == '%'
    ||| c == '^'
    ||| c == '&'
    ||| c == '*'
    ||| c == '('
    ||| c == ')'
    ||| c == '['
    ||| c == ']'
    ||| c == '|'
    ||| c == '\\'
    ||| c == ';'
    ||| c == '\''
    ||| c == '"'
    ||| c == '?'
    ||| c == '/'
    ||| c == '`'
    ||| c == '~'
    ||| c == '+'
    ||| c == '='
}

/// Whether `c` ends the id of a reference.
pub open spec fn ends_reference(c: char) -> bool {
    is_whitespace(c) || is_forbidden(c)
}

/// Whether the part of `id` that names the entity ends before place `k`:
/// at the first colon, or at the end of an id without one.
pub open spec fn entity_part_ends(id: Seq<char>, k: int) -> bool {
    &&& 0 <= k <= id.len()
    &&& k < id.len() ==> id[k] == ':'
    &&& forall|j: int| 0 <= j < k ==> id[j] != ':'
}

/// Whether the part of `id` that names the field starts at place `k`:
/// after the last colon, or at the start of an id without one.
pub open spec fn field_part_starts(id: Seq<char>, k: int) -> bool {
    &&& 0 <= k <= id.len()
    &&& k > 0 ==> id[k - 1] == ':'
    &&& forall|j: int| k <= j < id.len() ==> id[j] != ':'
}

/// The name of the entity in `id`: what stands before the first colon.
pub open spec fn entity_part(id: Seq<char>) -> Seq<char> {
    id.take(choose|k: int| entity_part_ends(id, k))
}

/// The name of the field in `id`: what stands after the last colon. An id
/// without a colon names a field as it names the entity.
pub open spec fn field_part(id: Seq<char>) -> Seq<char> {
    id.skip(choose|k: int| field_part_starts(id, k))
}

/// The text that stands for a reference that cannot be resolved.
pub open spec fn unknown() -> Seq<char> {
    seq!['*', 'u', 'n', 'k', 'n', 'o', 'w', 'n', '*']
}

/// `value` in the case that the character after the id asks for.
pub open spec fn transformed(value: Seq<char>, terminator: Option<char>) -> Seq<char> {
    if terminator == Some('^') {
        sentence_case(value)
    } else if terminator == Some('!') {
        title_case(value)
    } else {
        value
    }
}

/// The text that takes the place of the reference `id`, which `terminator`
/// ended (`None`: the end of the text).
pub open spec fn substitution(
    table: Seq<EntryView>,
    id: Seq<char>,
    terminator: Option<char>,
) -> Seq<char> {
    match entity_fields(table, entity_part(id)) {
        Some(fields) => match field_text(fields, field_part(id)) {
            Some(value) => transformed(value, terminator),
            None => unknown(),
        },
        None => unknown(),
    }
}

/// What the resolver is reading.
#[derive(Clone, Copy, Debug, PartialEq, Eq, Structural)]
pub enum ResolveMode {
    /// Text.
    Plain,
    /// The character after a backslash.
    Escape,
    /// The id of a reference.
    Capture,
}

/// The state of the resolver between two characters.
pub struct ResolveState {
    pub mode: ResolveMode,
    /// What has been read of an id.
    pub id: Seq<char>,
    /// The text resolved so far.
    pub out: Seq<char>,
}

/// The state before the first character.
pub open spec fn resolve_start() -> ResolveState {
    ResolveState { mode: ResolveMode::Plain, id: Seq::empty(), out: Seq::empty() }
}

/// The state after the character `c`.
pub open spec fn resolve_step(table: Seq<EntryView>, s: ResolveState, c: char) -> ResolveState {
    match s.mode {
        ResolveMode::Plain => {
            if c == '\\' {
                ResolveState { mode: ResolveMode::Escape, ..s }
            } else if c == '@' {
                ResolveState { mode: ResolveMode::Capture, id: Seq::empty(), ..s }
            } else if c == '^' || c == '!' {
                s
            } else {
                ResolveState { out: s.out.push(c), ..s }
            }
        },
        ResolveMode::Escape => {
            if c == '\\' {
                s
            } else {
                ResolveState { mode: ResolveMode::Plain, out: s.out.push(c), ..s }
            }
        },
        ResolveMode::Capture => {
            if ends_reference(c) {
                let out = s.out + substitution(table, s.id, Some(c));
                if c == '\\' {
                    ResolveState { mode: ResolveMode::Escape, id: Seq::empty(), out }
                } else if c == '@' {
                    ResolveState { mode: ResolveMode::Capture, id: Seq::empty(), out }
                } else if c == '^' || c == '!' {
                    ResolveState { mode: ResolveMode::Plain, id: Seq::empty(), out }
                } else {
                    ResolveState { mode: ResolveMode::Plain, id: Seq::empty(), out: out.push(c) }
                }
            } else {
                ResolveState { id: s.id.push(c), ..s }
            }
        },
    }
}

/// The state after the characters of `input`, from the state `s`.
pub open spec fn resolve_run(table: Seq<EntryView>, s: ResolveState, input: Seq<char>) -> ResolveState
    decreases input.len(),
{
    if input.len() == 0 {
        s
    } else {
        resolve_step(table, resolve_run(table, s, input.drop_last()), input.last())
    }
}

/// The text resolved when the input ends in the state `s`: the end of the
/// input ends a reference as a character without a meaning of its own does.
pub open spec fn resolve_finish(table: Seq<EntryView>, s: ResolveState) -> Seq<char> {
    if s.mode == ResolveMode::Capture {
        s.out + substitution(table, s.id, None)
    } else {
        s.out
    }
}

/// The segments in one text, a space between each two.
pub open spec fn joined(segments: Seq<Seq<char>>) -> Seq<char>
    decreases segments.len(),
{
    if segments.len() == 0 {
        Seq::empty()
    } else if segments.len() == 1 {
        segments[0]
    } else {
        joined(segments.drop_last()).push(' ') + segments.last()
    }
}

/// The resolved text of `segments`.
pub open spec fn resolved(table: Seq<EntryView>, segments: Seq<Seq<char>>) -> Seq<char> {
    trimmed(resolve_finish(table, resolve_run(table, resolve_start(), joined(segments))))
}

/// Whether `c` is one of the characters that the resolver gives a meaning:
/// `@`, `\`, `^` and `!`.
pub open spec fn is_marker(c: char) -> bool {
    c == '@' || c == '\\' || c == '^' || c == '!'
}

/// Whether `text` holds no character that the resolver gives a meaning.
pub open spec fn marker_free(text: Seq<char>) -> bool {
    forall|i: int| 0 <= i < text.len() ==> !is_marker(#[trigger] text[i])
}

/// Whether `id` can stand as the id of a reference: none of its characters
/// ends one.
pub open spec fn is_id(id: Seq<char>) -> bool {
    forall|i: int| 0 <= i < id.len() ==> !ends_reference(#[trigger] id[i])
}

/// Whether `name` holds no colon.
pub open spec fn colon_free(name: Seq<char>) -> bool {
    forall|i: int| 0 <= i < name.len() ==> #[trigger] name[i] != ':'
}

/// What the character that ended a reference leaves in the text: itself,
/// unless it is a marker.
pub open spec fn echo(c: char) -> Seq<char> {
    if is_marker(c) {
        Seq::empty()
    } else {
        seq![c]
    }
}

/// What the resolver reads after a reference that `c` ended.
pub open spec fn mode_after(c: char) -> ResolveMode {
    if c == '\\' {
        ResolveMode::Escape
    } else if c == '@' {
        ResolveMode::Capture
    } else {
        ResolveMode::Plain
    }
}

/// Whether `c` asks for a change of case where it ends a reference: `^`
/// and `!`. In the text such a character is dropped.
pub open spec fn is_modifier(c: char) -> bool {
    c == '^' || c == '!'
}

/// `text` without the characters that ask for a change of case.
pub open spec fn without_modifiers(text: Seq<char>) -> Seq<char>
    decreases text.len(),
{
    if text.len() == 0 {
        text
    } else if is_modifier(text.last()) {
        without_modifiers(text.drop_last())
    } else {
        without_modifiers(text.drop_last()).push(text.last())
    }
}

/// Whether `text` holds nothing that starts a reference or escapes: no `@`
/// and no backslash.
pub open spec fn reference_free(text: Seq<char>) -> bool {
    forall|i: int| 0 <= i < text.len() ==> #[trigger] text[i] != '@' && text[i] != '\\'
}

/// Tests whether a character is one that no id holds.
pub fn is_forbidden_char(c: char) -> (b: bool)
    ensures
        b == is_forbidden(c),
{
    c == ',' || c == '.' || c == '<' || c == '>' || c == '!' || c == '@' || c == '#' || c == '$'
        || c == '%' || c == '^' || c == '&' || c == '*' || c == '(' || c == ')' || c == '[' || c
        == ']' || c == '|' || c == '\\' || c == ';' || c == '\'' || c == '"' || c == '?' || c == '/'
        || c == '`' || c == '~' || c == '+' || c == '='
}

/// The name of the entity in `id`.
fn entity_name(id: &Vec<char>) -> (name: String)
    ensures
        name@ == entity_part(id@),
{
    let mut k: usize = 0;
    while k < id.len() && id[k] != ':'
        invariant
            k <= id.len(),
            forall|j: int| 0 <= j < k ==> id[j] != ':',
        decreases id.len() - k,
    {
        k += 1;
    }
    proof {
        lemma_entity_part(id@, k as int);
    }
    string_of(id, 0, k)
}

/// The name of the field in `id`.
fn field_name(id: &Vec<char>) -> (name: String)
    ensures
        name@ == field_part(id@),
{
    let mut k: usize = id.len();
    while k > 0 && id[k - 1] != ':'
        invariant
            k <= id.len(),
            forall|j: int| k <= j < id.len() ==> id[j] != ':',
        decreases k,
    {
        k -= 1;
    }
    proof {
        lemma_field_part(id@, k as int);
    }
    string_of(id, k, id.len())
}

/// The text that takes the place of the reference `id`, which `terminator`
/// ended (`None`: the end of the text): the text of the field, in the case
/// that the terminator asks for, or `*unknown*` where the table has no such
/// entity, the entity no such field, or the field no text.
pub fn substitute(table: &EntityTable, id: &Vec<char>, terminator: Option<char>) -> (r: String)
    ensures
        r@ == substitution(table@, id@, terminator),
{
    let entity = entity_name(id);
    let field = field_name(id);
    let found = match table.get(entity.as_str()) {
        Some(e) => get_field_by_name(e, field.as_str()),
        None => None,
    };
    match found {
        Some(value) => {
            if terminator == Some('^') {
                to_sentence_case(value.as_str())
            } else if terminator == Some('!') {
                to_title_case(value.as_str())
            } else {
                value
            }
        },
        None => {
            proof {
                reveal_strlit("*unknown*");
            }
            let r = "*unknown*".to_owned();
            assert(r@ =~= unknown());
            r
        },
    }
}

/// The resolver at work: its state, held in buffers.
struct Resolver {
    mode: ResolveMode,
    id: Vec<char>,
    out: Vec<char>,
}

impl View for Resolver {
    type V = ResolveState;

    closed spec fn view(&self) -> ResolveState {
        ResolveState { mode: self.mode, id: self.id@, out: self.out@ }
    }
}

impl Resolver {
    /// The resolver before the first character.
    fn new() -> (r: Resolver)
        ensures
            r@ == resolve_start(),
    {
        Resolver { mode: ResolveMode::Plain, id: Vec::new(), out: Vec::new() }
    }

    /// Puts the value of the reference read in its place.
    fn emit(&mut self, table: &EntityTable, terminator: Option<char>)
        ensures
            final(self).out@ == old(self).out@ + substitution(table@, old(self).id@, terminator),
            final(self).id@ == Seq::<char>::empty(),
            final(self).mode == old(self).mode,
    {
        let value = substitute(table, &self.id, terminator);
        let chars = to_chars(value.as_str());
        push_all(&mut self.out, &chars);
        self.id.clear();
    }

    /// Reads the character `c`.
    fn step(&mut self, table: &EntityTable, c: char)
        ensures
            final(self)@ == resolve_step(table@, old(self)@, c),
    {
        match self.mode {
            ResolveMode::Plain => {
                if c == '\\' {
                    self.mode = ResolveMode::Escape;
                } else if c == '@' {
                    self.id.clear();
                    self.mode = ResolveMode::Capture;
                } else if c == '^' || c == '!' {
                } else {
                    self.out.push(c);
                }
            },
            ResolveMode::Escape => {
                if c != '\\' {
                    self.out.push(c);
                    self.mode = ResolveMode::Plain;
                }
            },
            ResolveMode::Capture => {
                if is_whitespace_char(c) || is_forbidden_char(c) {
                    self.emit(table, Some(c));
                    if c == '\\' {
                        self.mode = ResolveMode::Escape;
                    } else if c == '@' {
                        self.mode = ResolveMode::Capture;
                    } else if c == '^' || c == '!' {
                        self.mode = ResolveMode::Plain;
                    } else {
                        self.out.push(c);
                        self.mode = ResolveMode::Plain;
                    }
                } else {
                    self.id.push(c);
                }
            },
        }
    }

    /// Reads the characters of `input`.
    fn run(&mut self, table: &EntityTable, input: &Vec<char>)
        ensures
            final(self)@ == resolve_run(table@, old(self)@, input@),
    {
        let mut i: usize = 0;
        assert(input@.take(0) =~= Seq::<char>::empty());
        while i < input.len()
            invariant
                i <= input.len(),
                self@ == resolve_run(table@, old(self)@, input@.take(i as int)),
            decreases input.len() - i,
        {
            proof {
                assert(input@.take(i + 1).drop_last() =~= input@.take(i as int));
            }
            self.step(table, input[i]);
            i += 1;
        }
        assert(input@.take(i as int) =~= input@);
    }

    /// Ends the text: the output, with the reference that was being read
    /// resolved.
    fn finish(self, table: &EntityTable) -> (out: Vec<char>)
        ensures
            out@ == resolve_finish(table@, self@),
    {
        let mut r = self;
        if r.mode == ResolveMode::Capture {
            r.emit(table, None);
        }
        r.out
    }
}

/// Resolves the references in `segments` against `table`.
///
/// The segments are read as one text with a space between each two of
/// them. The text that comes back is trimmed.
pub fn resolve_references(segments: &Vec<String>, table: &EntityTable) -> (text: String)
    ensures
        text@ == resolved(table@, string_views(segments@)),
{
    let ghost views = string_views(segments@);
    let mut resolver = Resolver::new();
    let mut i: usize = 0;
    assert(views.take(0) =~= Seq::<Seq<char>>::empty());
    while i < segments.len()
        invariant
            i <= segments.len(),
            views == string_views(segments@),
            resolver@ == resolve_run(table@, resolve_start(), joined(views.take(i as int))),
        decreases segments.len() - i,
    {
        let ghost before = joined(views.take(i as int));
        let ghost start = resolver@;
        if i > 0 {
            resolver.step(table, ' ');
        }
        let chars = to_chars(segments[i].as_str());
        resolver.run(table, &chars);
        proof {
            let upto = views.take(i + 1);
            assert(upto.drop_last() =~= views.take(i as int));
            assert(upto.last() == chars@);
            if i > 0 {
                assert(before.push(' ').drop_last() =~= before);
                assert(resolve_run(table@, resolve_start(), before.push(' ')) == resolve_step(
                    table@,
                    start,
                    ' ',
                ));
                lemma_resolve_run_concat(table@, resolve_start(), before.push(' '), chars@);
            } else {
                assert(joined(upto) == chars@);
            }
        }
        i += 1;
    }
    assert(views.take(i as int) =~= views);
    let out = resolver.finish(table);
    trim(&out)
}

/// The entity part of an id ends where the first colon stands.
pub proof fn lemma_entity_part(id: Seq<char>, k: int)
    requires
        entity_part_ends(id, k),
    ensures
        entity_part(id) == id.take(k),
{
    let m = choose|m: int| entity_part_ends(id, m);
    assert(entity_part_ends(id, m));
    assert(m == k) by {
        if m < k {
            assert(id[m] != ':');
        }
        if k < m {
            assert(id[k] != ':');
        }
    }
}

/// The field part of an id starts after the last colon.
pub proof fn lemma_field_part(id: Seq<char>, k: int)
    requires
        field_part_starts(id, k),
    ensures
        field_part(id) == id.skip(k),
{
    let m = choose|m: int| field_part_starts(id, m);
    assert(field_part_starts(id, m));
    assert(m == k) by {
        if m < k {
            assert(id[k - 1] != ':');
        }
        if k < m {
            assert(id[m - 1] != ':');
        }
    }
}

/// Running over two texts one after the other is running over both in one.
pub proof fn lemma_resolve_run_concat(
    table: Seq<EntryView>,
    s: ResolveState,
    a: Seq<char>,
    b: Seq<char>,
)
    ensures
        resolve_run(table, s, a + b) == resolve_run(table, resolve_run(table, s, a), b),
    decreases b.len(),
{
    if b.len() == 0 {
        assert(a + b =~= a);
    } else {
        assert((a + b).drop_last() =~= a + b.drop_last());
        lemma_resolve_run_concat(table, s, a, b.drop_last());
    }
}

/// Running over one character is one step.
pub proof fn lemma_resolve_run_one(table: Seq<EntryView>, s: ResolveState, c: char)
    ensures
        resolve_run(table, s, seq![c]) == resolve_step(table, s, c),
{
    assert(seq![c].drop_last() =~= Seq::<char>::empty());
    assert(resolve_run(table, s, Seq::<char>::empty()) == s);
}

/// Text without markers goes to the output as it is.
pub proof fn lemma_resolve_plain(table: Seq<EntryView>, s: ResolveState, text: Seq<char>)
    requires
        s.mode == ResolveMode::Plain,
        marker_free(text),
    ensures
        resolve_run(table, s, text) == (ResolveState { out: s.out + text, ..s }),
    decreases text.len(),
{
    if text.len() == 0 {
        assert(s.out + text =~= s.out);
    } else {
        let rest = text.drop_last();
        assert(marker_free(rest)) by {
            assert forall|i: int| 0 <= i < rest.len() implies !is_marker(#[trigger] rest[i]) by {
                assert(rest[i] == text[i]);
            }
        }
        lemma_resolve_plain(table, s, rest);
        assert(!is_marker(text[text.len() - 1]));
        assert((s.out + rest).push(text.last()) =~= s.out + text);
    }
}

/// While it reads an id the resolver only collects it.
pub proof fn lemma_resolve_id(table: Seq<EntryView>, s: ResolveState, id: Seq<char>)
    requires
        s.mode == ResolveMode::Capture,
        is_id(id),
    ensures
        resolve_run(table, s, id) == (ResolveState { id: s.id + id, ..s }),
    decreases id.len(),
{
    if id.len() == 0 {
        assert(s.id + id =~= s.id);
    } else {
        let rest = id.drop_last();
        assert(is_id(rest)) by {
            assert forall|i: int| 0 <= i < rest.len() implies !ends_reference(#[trigger] rest[i]) by {
                assert(rest[i] == id[i]);
            }
        }
        lemma_resolve_id(table, s, rest);
        assert(!ends_reference(id[id.len() - 1]));
        assert((s.id + rest).push(id.last()) =~= s.id + id);
    }
}

/// A part of a text without markers holds no marker either.
pub proof fn lemma_part_without_markers(doc: Seq<char>, from: int, to: int)
    requires
        0 <= from <= to <= doc.len(),
        marker_free(doc),
    ensures
        marker_free(doc.subrange(from, to)),
{
    let part = doc.subrange(from, to);
    assert forall|i: int| 0 <= i < part.len() implies !is_marker(#[trigger] part[i]) by {
        assert(part[i] == doc[from + i]);
    }
}

/// Text without references goes to the output without its modifiers.
pub proof fn lemma_resolve_without_references(
    table: Seq<EntryView>,
    s: ResolveState,
    text: Seq<char>,
)
    requires
        s.mode == ResolveMode::Plain,
        reference_free(text),
    ensures
        resolve_run(table, s, text) == (ResolveState {
            out: s.out + without_modifiers(text),
            ..s
        }),
    decreases text.len(),
{
    if text.len() == 0 {
        assert(s.out + without_modifiers(text) =~= s.out);
    } else {
        let rest = text.drop_last();
        assert(reference_free(rest)) by {
            assert forall|i: int| 0 <= i < rest.len() implies #[trigger] rest[i] != '@' && rest[i]
                != '\\' by {
                assert(rest[i] == text[i]);
            }
        }
        lemma_resolve_without_references(table, s, rest);
        assert(text[text.len() - 1] != '@' && text[text.len() - 1] != '\\');
        if !is_modifier(text.last()) {
            assert((s.out + without_modifiers(rest)).push(text.last()) =~= s.out
                + without_modifiers(text));
        }
    }
}

/// Taking the modifiers from two texts is taking them from both in one.
pub proof fn lemma_without_modifiers_concat(a: Seq<char>, b: Seq<char>)
    ensures
        without_modifiers(a + b) == without_modifiers(a) + without_modifiers(b),
    decreases b.len(),
{
    if b.len() == 0 {
        assert(a + b =~= a);
        assert(without_modifiers(a) + without_modifiers(b) =~= without_modifiers(a));
    } else {
        assert((a + b).drop_last() =~= a + b.drop_last());
        assert((a + b).last() == b.last());
        lemma_without_modifiers_concat(a, b.drop_last());
        if !is_modifier(b.last()) {
            assert((without_modifiers(a) + without_modifiers(b.drop_last())).push(b.last())
                =~= without_modifiers(a) + without_modifiers(b));
        }
    }
}

/// Whitespace holds no modifier.
pub proof fn lemma_without_modifiers_blank(blank: Seq<char>)
    requires
        is_blank(blank),
    ensures
        without_modifiers(blank) == blank,
    decreases blank.len(),
{
    if blank.len() > 0 {
        let rest = blank.drop_last();
        assert(is_blank(rest)) by {
            assert forall|i: int| 0 <= i < rest.len() implies is_whitespace(#[trigger] rest[i]) by {
                assert(rest[i] == blank[i]);
            }
        }
        lemma_without_modifiers_blank(rest);
        assert(is_whitespace(blank[blank.len() - 1]));
        assert(rest.push(blank.last()) =~= blank);
    }
}

} // verus!
