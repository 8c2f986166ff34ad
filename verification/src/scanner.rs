//! The declaration scanner: one pass over a document that parts the text
//! from the declarations.
//!
//! A declaration is the keyword `def `, a name that ends at the next space,
//! and a block in braces. The scanner holds back what may be the start of a
//! declaration and returns it to the text when the declaration fails: at a
//! character that does not fit, and at the end of the document.
//!
//! Names and blocks are listed apart. A block needs a name before it only
//! to start: after a block a second one may follow at once.

use vstd::prelude::*;
use crate::text::{is_whitespace, lemma_trimmed, push_all, string_of, string_views, trim, trimmed};

verus! {

/// The keyword that starts a declaration.
pub open spec fn keyword() -> Seq<char> {
    seq!['d', 'e', 'f', ' ']
}

/// What the scanner is reading.
#[derive(Clone, Copy, Debug, PartialEq, Eq, Structural)]
pub enum ScanMode {
    /// Text; up to three characters of the keyword may be held back.
    Text,
    /// The name of a declaration.
    Name,
    /// A name or a block has just ended: an opening brace starts a block.
    AwaitBlock,
    /// A block.
    Block,
}

/// The state of the scanner between two characters.
pub struct ScanState {
    pub mode: ScanMode,
    /// How many braces are open; 0 outside a block.
    pub depth: nat,
    /// The text segment that is being read.
    pub text: Seq<char>,
    /// What has been read of a declaration and may still turn out to be text.
    pub held: Seq<char>,
    /// What has been read of a name.
    pub name: Seq<char>,
    /// What has been read of a block.
    pub block: Seq<char>,
    pub segments: Seq<Seq<char>>,
    pub names: Seq<Seq<char>>,
    pub blocks: Seq<Seq<char>>,
}

/// What a scan yields: the text segments, the names declared and the blocks,
/// each list in the order of the document.
pub struct ScanView {
    pub segments: Seq<Seq<char>>,
    pub names: Seq<Seq<char>>,
    pub blocks: Seq<Seq<char>>,
}

/// The state before the first character.
pub open spec fn scan_start() -> ScanState {
    ScanState {
        mode: ScanMode::Text,
        depth: 0,
        text: Seq::empty(),
        held: Seq::empty(),
        name: Seq::empty(),
        block: Seq::empty(),
        segments: Seq::empty(),
        names: Seq::empty(),
        blocks: Seq::empty(),
    }
}

/// `segments` after the segment `text` has ended: it is trimmed, and
/// dropped where nothing is left of it.
pub open spec fn close_segment(segments: Seq<Seq<char>>, text: Seq<char>) -> Seq<Seq<char>> {
    if trimmed(text).len() == 0 {
        segments
    } else {
        segments.push(trimmed(text))
    }
}

/// The state after the character `c`.
pub open spec fn scan_step(s: ScanState, c: char) -> ScanState {
    match s.mode {
        ScanMode::Text => {
            if s.held.len() < 4 && c == keyword()[s.held.len() as int] {
                ScanState {
                    mode: if s.held.len() == 3 {
                        ScanMode::Name
                    } else {
                        ScanMode::Text
                    },
                    held: s.held.push(c),
                    ..s
                }
            } else {
                ScanState { text: (s.text + s.held).push(c), held: Seq::empty(), ..s }
            }
        },
        ScanMode::Name => {
            if c == ' ' {
                ScanState {
                    mode: ScanMode::AwaitBlock,
                    names: s.names.push(s.name),
                    name: Seq::empty(),
                    held: s.held.push(c),
                    ..s
                }
            } else {
                ScanState { name: s.name.push(c), held: s.held.push(c), ..s }
            }
        },
        ScanMode::AwaitBlock => {
            if c == '{' {
                ScanState {
                    mode: ScanMode::Block,
                    depth: 1,
                    segments: close_segment(s.segments, s.text),
                    text: Seq::empty(),
                    held: Seq::empty(),
                    block: seq![c],
                    ..s
                }
            } else {
                ScanState {
                    mode: ScanMode::Text,
                    text: (s.text + s.held).push(c),
                    held: Seq::empty(),
                    ..s
                }
            }
        },
        ScanMode::Block => {
            if c == '{' {
                ScanState { depth: s.depth + 1, block: s.block.push(c), ..s }
            } else if c == '}' && s.depth <= 1 {
                ScanState {
                    mode: ScanMode::AwaitBlock,
                    depth: 0,
                    blocks: s.blocks.push(s.block.push(c)),
                    block: Seq::empty(),
                    ..s
                }
            } else if c == '}' {
                ScanState { depth: (s.depth - 1) as nat, block: s.block.push(c), ..s }
            } else {
                ScanState { block: s.block.push(c), ..s }
            }
        },
    }
}

/// The state after the characters of `input`, from the state `s`.
pub open spec fn scan_run(s: ScanState, input: Seq<char>) -> ScanState
    decreases input.len(),
{
    if input.len() == 0 {
        s
    } else {
        scan_step(scan_run(s, input.drop_last()), input.last())
    }
}

/// What the scan yields when the document ends in the state `s`.
///
/// A block that is still open is kept as far as it came. Otherwise what is
/// held back returns to the text, and the last segment is the trimmed text
/// with a line feed after it.
pub open spec fn scan_finish(s: ScanState) -> ScanView {
    if s.mode == ScanMode::Block {
        ScanView { segments: s.segments, names: s.names, blocks: s.blocks.push(s.block) }
    } else {
        ScanView {
            segments: s.segments.push(trimmed(s.text + s.held).push('\n')),
            names: s.names,
            blocks: s.blocks,
        }
    }
}

/// What the scan of the document `input` yields.
pub open spec fn scan(input: Seq<char>) -> ScanView {
    scan_finish(scan_run(scan_start(), input))
}

/// The parts of a scanned document.
#[derive(Clone, Debug, PartialEq, Eq)]
pub struct Scan {
    /// The text outside the blocks, one segment for each run of it.
    pub segments: Vec<String>,
    /// The names declared.
    pub names: Vec<String>,
    /// The blocks, braces included.
    pub blocks: Vec<String>,
}

impl View for Scan {
    type V = ScanView;

    open spec fn view(&self) -> ScanView {
        ScanView {
            segments: string_views(self.segments@),
            names: string_views(self.names@),
            blocks: string_views(self.blocks@),
        }
    }
}

/// Whether the keyword stands in `doc` at place `i`.
pub open spec fn keyword_at(doc: Seq<char>, i: int) -> bool {
    &&& 0 <= i
    &&& i + 4 <= doc.len()
    &&& doc[i] == 'd'
    &&& doc[i + 1] == 'e'
    &&& doc[i + 2] == 'f'
    &&& doc[i + 3] == ' '
}

/// Whether the keyword stands anywhere in `doc`.
pub open spec fn has_keyword(doc: Seq<char>) -> bool {
    exists|i: int| keyword_at(doc, i)
}

/// Whether `s` is reading text and holds nothing back.
pub open spec fn in_text(s: ScanState) -> bool {
    &&& s.mode == ScanMode::Text
    &&& s.depth == 0
    &&& s.held.len() == 0
    &&& s.name.len() == 0
    &&& s.block.len() == 0
}

/// How many braces `text` leaves open: those it opens less those it closes.
pub open spec fn open_braces(text: Seq<char>) -> int
    decreases text.len(),
{
    if text.len() == 0 {
        0
    } else if text.last() == '{' {
        open_braces(text.drop_last()) + 1
    } else if text.last() == '}' {
        open_braces(text.drop_last()) - 1
    } else {
        open_braces(text.drop_last())
    }
}

/// Whether `block` is a whole block: it starts with an opening brace, and
/// the brace that closes that one is its last character. Braces are counted
/// as characters, in strings too.
pub open spec fn is_block(block: Seq<char>) -> bool {
    &&& block.len() > 0
    &&& block[0] == '{'
    &&& open_braces(block) == 0
    &&& forall|k: int| 0 < k < block.len() ==> open_braces(#[trigger] block.take(k)) > 0
}

/// Whether `name` holds no space.
pub open spec fn space_free(name: Seq<char>) -> bool {
    forall|i: int| 0 <= i < name.len() ==> #[trigger] name[i] != ' '
}

/// Whether a declaration can start after `text`: the scanner holds back
/// nothing of a text that does not end in `d`, `e` or `f`.
pub open spec fn ends_clear(text: Seq<char>) -> bool {
    text.len() > 0 ==> text.last() != 'd' && text.last() != 'e' && text.last() != 'f'
}

/// Whether `segment` is a text segment that has ended before the end of
/// the document: it is not empty, and it neither starts nor ends in
/// whitespace.
pub open spec fn is_closed_segment(segment: Seq<char>) -> bool {
    &&& segment.len() > 0
    &&& !is_whitespace(segment[0])
    &&& !is_whitespace(segment.last())
}

/// Whether the scanner in the state `later` has only added to what it had
/// listed in the state `earlier`.
pub open spec fn extends(earlier: ScanState, later: ScanState) -> bool {
    &&& earlier.segments.is_prefix_of(later.segments)
    &&& earlier.names.is_prefix_of(later.names)
    &&& earlier.blocks.is_prefix_of(later.blocks)
    &&& forall|i: int|
        earlier.segments.len() <= i < later.segments.len() ==> is_closed_segment(
            #[trigger] later.segments[i],
        )
}

/// Whether a block that is still open has been read so far as one: it
/// starts with an opening brace, and has left a brace open ever since.
pub open spec fn is_open_block(block: Seq<char>) -> bool {
    &&& block.len() > 0
    &&& block[0] == '{'
    &&& forall|k: int| 0 < k <= block.len() ==> open_braces(#[trigger] block.take(k)) > 0
}

/// Whether the state `s` is one that the scanner can be in: what it holds
/// and what it has listed fit what it is reading.
pub open spec fn is_sound(s: ScanState) -> bool {
    &&& forall|i: int| 0 <= i < s.names.len() ==> space_free(#[trigger] s.names[i])
    &&& forall|i: int| 0 <= i < s.blocks.len() ==> is_block(#[trigger] s.blocks[i])
    &&& match s.mode {
        ScanMode::Text => {
            &&& s.held.len() <= 3
            &&& s.held == keyword().take(s.held.len() as int)
            &&& s.name.len() == 0
            &&& s.block.len() == 0
            &&& s.depth == 0
        },
        ScanMode::Name => {
            &&& s.held == keyword() + s.name
            &&& space_free(s.name)
            &&& s.block.len() == 0
            &&& s.depth == 0
        },
        ScanMode::AwaitBlock => {
            &&& s.name.len() == 0
            &&& s.block.len() == 0
            &&& s.depth == 0
        },
        ScanMode::Block => {
            &&& is_open_block(s.block)
            &&& s.depth == open_braces(s.block)
            &&& s.text.len() == 0
            &&& s.held.len() == 0
            &&& s.name.len() == 0
        },
    }
}

/// The character of the keyword at place `i`.
fn keyword_char(i: usize) -> (c: char)
    requires
        i < 4,
    ensures
        c == keyword()[i as int],
{
    if i == 0 {
        'd'
    } else if i == 1 {
        'e'
    } else if i == 2 {
        'f'
    } else {
        ' '
    }
}

/// The scanner at work: its state, held in buffers.
struct Scanner {
    mode: ScanMode,
    depth: usize,
    text: Vec<char>,
    held: Vec<char>,
    name: Vec<char>,
    block: Vec<char>,
    segments: Vec<String>,
    names: Vec<String>,
    blocks: Vec<String>,
}

impl View for Scanner {
    type V = ScanState;

    closed spec fn view(&self) -> ScanState {
        ScanState {
            mode: self.mode,
            depth: self.depth as nat,
            text: self.text@,
            held: self.held@,
            name: self.name@,
            block: self.block@,
            segments: string_views(self.segments@),
            names: string_views(self.names@),
            blocks: string_views(self.blocks@),
        }
    }
}

impl Scanner {
    /// The scanner before the first character.
    fn new() -> (s: Scanner)
        ensures
            s@ == scan_start(),
            s.depth == 0,
    {
        let s = Scanner {
            mode: ScanMode::Text,
            depth: 0,
            text: Vec::new(),
            held: Vec::new(),
            name: Vec::new(),
            block: Vec::new(),
            segments: Vec::new(),
            names: Vec::new(),
            blocks: Vec::new(),
        };
        assert(string_views(s.segments@) =~= Seq::empty());
        assert(string_views(s.names@) =~= Seq::empty());
        assert(string_views(s.blocks@) =~= Seq::empty());
        s
    }

    /// Returns what is held back to the text, and adds `c` to it.
    fn release(&mut self, c: char)
        ensures
            final(self).text@ == (old(self).text@ + old(self).held@).push(c),
            final(self).held@ == Seq::<char>::empty(),
            final(self).mode == old(self).mode,
            final(self).depth == old(self).depth,
            final(self).name == old(self).name,
            final(self).block == old(self).block,
            final(self).segments == old(self).segments,
            final(self).names == old(self).names,
            final(self).blocks == old(self).blocks,
    {
        push_all(&mut self.text, &self.held);
        self.held.clear();
        self.text.push(c);
    }

    /// Ends the text segment that is being read.
    fn close_segment(&mut self)
        ensures
            string_views(final(self).segments@) == close_segment(
                string_views(old(self).segments@),
                old(self).text@,
            ),
            final(self).text@ == Seq::<char>::empty(),
            final(self).held == old(self).held,
            final(self).mode == old(self).mode,
            final(self).depth == old(self).depth,
            final(self).name == old(self).name,
            final(self).block == old(self).block,
            final(self).names == old(self).names,
            final(self).blocks == old(self).blocks,
    {
        let segment = trim(&self.text);
        if !segment.as_str().is_empty() {
            self.segments.push(segment);
            assert(string_views(self.segments@) =~= string_views(old(self).segments@).push(
                segment@,
            ));
        }
        self.text.clear();
    }

    /// Reads the character `c`.
    fn step(&mut self, c: char)
        requires
            old(self).depth < usize::MAX,
        ensures
            final(self)@ == scan_step(old(self)@, c),
            final(self).depth <= old(self).depth + 1,
    {
        match self.mode {
            ScanMode::Text => {
                let matched = self.held.len();
                if matched < 4 && c == keyword_char(matched) {
                    self.held.push(c);
                    if matched == 3 {
                        self.mode = ScanMode::Name;
                    }
                } else {
                    self.release(c);
                }
            },
            ScanMode::Name => {
                self.held.push(c);
                if c == ' ' {
                    let name = string_of(&self.name, 0, self.name.len());
                    assert(self.name@.subrange(0, self.name.len() as int) == self.name@);
                    self.names.push(name);
                    assert(string_views(self.names@) =~= string_views(old(self).names@).push(
                        name@,
                    ));
                    self.name.clear();
                    self.mode = ScanMode::AwaitBlock;
                } else {
                    self.name.push(c);
                }
            },
            ScanMode::AwaitBlock => {
                if c == '{' {
                    self.close_segment();
                    self.held.clear();
                    self.block.clear();
                    self.block.push(c);
                    assert(self.block@ =~= seq![c]);
                    self.depth = 1;
                    self.mode = ScanMode::Block;
                } else {
                    self.release(c);
                    self.mode = ScanMode::Text;
                }
            },
            ScanMode::Block => {
                self.block.push(c);
                if c == '{' {
                    self.depth = self.depth + 1;
                } else if c == '}' && self.depth <= 1 {
                    let block = string_of(&self.block, 0, self.block.len());
                    assert(self.block@.subrange(0, self.block.len() as int) == self.block@);
                    self.blocks.push(block);
                    assert(string_views(self.blocks@) =~= string_views(old(self).blocks@).push(
                        block@,
                    ));
                    self.block.clear();
                    self.depth = 0;
                    self.mode = ScanMode::AwaitBlock;
                } else if c == '}' {
                    self.depth = self.depth - 1;
                }
            },
        }
    }

    /// Ends the scan with the document.
    fn finish(self) -> (r: Scan)
        ensures
            r@ == scan_finish(self@),
    {
        let mut s = self;
        if s.mode == ScanMode::Block {
            let block = string_of(&s.block, 0, s.block.len());
            assert(s.block@.subrange(0, s.block.len() as int) == s.block@);
            s.blocks.push(block);
            assert(string_views(s.blocks@) =~= string_views(self.blocks@).push(block@));
        } else {
            push_all(&mut s.text, &s.held);
            let mut segment = trim(&s.text);
            segment.push('\n');
            s.segments.push(segment);
            assert(string_views(s.segments@) =~= string_views(self.segments@).push(segment@));
        }
        Scan { segments: s.segments, names: s.names, blocks: s.blocks }
    }
}

/// Scans a document: parts its text from its declarations.
///
/// The text comes back as trimmed segments, one for each run of text
/// between blocks; the last one ends in a line feed. The names and the
/// blocks come back in two lists of their own, each in the order of the
/// document.
pub fn scan_declarations(text: &str) -> (r: Scan)
    ensures
        r@ == scan(text@),
{
    let chars = crate::text::to_chars(text);
    let mut scanner = Scanner::new();
    let mut i: usize = 0;
    assert(chars@.take(0) =~= Seq::<char>::empty());
    while i < chars.len()
        invariant
            i <= chars.len(),
            scanner.depth <= i,
            scanner@ == scan_run(scan_start(), chars@.take(i as int)),
        decreases chars.len() - i,
    {
        proof {
            assert(chars@.take(i + 1).drop_last() =~= chars@.take(i as int));
        }
        scanner.step(chars[i]);
        i += 1;
    }
    assert(chars@.take(i as int) =~= chars@);
    scanner.finish()
}

/// Running over two texts one after the other is running over both in one.
pub proof fn lemma_scan_run_concat(s: ScanState, a: Seq<char>, b: Seq<char>)
    ensures
        scan_run(s, a + b) == scan_run(scan_run(s, a), b),
    decreases b.len(),
{
    if b.len() == 0 {
        assert(a + b =~= a);
    } else {
        assert((a + b).drop_last() =~= a + b.drop_last());
        lemma_scan_run_concat(s, a, b.drop_last());
    }
}

/// Running over one character is one step.
pub proof fn lemma_scan_run_one(s: ScanState, c: char)
    ensures
        scan_run(s, seq![c]) == scan_step(s, c),
{
    assert(seq![c].drop_last() =~= Seq::<char>::empty());
    assert(scan_run(s, Seq::<char>::empty()) == s);
}

/// In a text without the keyword the scanner stays in the text: what it
/// has read is the text and what it holds back, and it holds back no more
/// than a start of the keyword.
pub proof fn lemma_scan_without_keyword(s: ScanState, text: Seq<char>, n: int)
    requires
        in_text(s),
        !has_keyword(text),
        0 <= n <= text.len(),
    ensures
        ({
            let end = scan_run(s, text.take(n));
            &&& end.text + end.held == s.text + text.take(n)
            &&& end.held.len() <= 3
            &&& end.held.len() <= n
            &&& end.held == keyword().take(end.held.len() as int)
            &&& end == ScanState { text: end.text, held: end.held, ..s }
        }),
    decreases n,
{
    if n == 0 {
        assert(text.take(0) =~= Seq::<char>::empty());
        assert(s.text + s.held =~= s.text + text.take(0));
        assert(s.held =~= keyword().take(0));
    } else {
        lemma_scan_without_keyword(s, text, n - 1);
        let before = scan_run(s, text.take(n - 1));
        let c = text[n - 1];
        assert(text.take(n).drop_last() =~= text.take(n - 1));
        assert(text.take(n).last() == c);
        let after = scan_step(before, c);
        assert(scan_run(s, text.take(n)) == after);
        let k = before.held.len() as int;
        let read = s.text + text.take(n - 1);
        assert(before.text.len() + k == read.len()) by {
            assert((before.text + before.held).len() == read.len());
        }
        if c == keyword()[k] {
            if k == 3 {
                assert forall|j: int| 0 <= j < 3 implies text[n - 4 + j] == keyword()[j] by {
                    assert((before.text + before.held)[read.len() - 3 + j] == before.held[j]);
                    assert(read[read.len() - 3 + j] == text[n - 4 + j]);
                    assert(before.held[j] == keyword().take(3)[j]);
                }
                assert(text[n - 4] == keyword()[0]);
                assert(text[n - 3] == keyword()[1]);
                assert(text[n - 2] == keyword()[2]);
                assert(keyword_at(text, n - 4));
                assert(false);
            }
            assert(after.text + after.held =~= s.text + text.take(n));
            assert(after.held =~= keyword().take(k + 1));
        } else {
            assert(after.text + after.held =~= s.text + text.take(n));
            assert(after.held =~= keyword().take(0));
        }
    }
}

/// A document without the keyword is one segment, the document trimmed,
/// and declares nothing.
pub proof fn lemma_scan_plain(doc: Seq<char>)
    requires
        !has_keyword(doc),
    ensures
        scan(doc).segments == seq![trimmed(doc).push('\n')],
        scan(doc).names == Seq::<Seq<char>>::empty(),
        scan(doc).blocks == Seq::<Seq<char>>::empty(),
{
    lemma_scan_without_keyword(scan_start(), doc, doc.len() as int);
    assert(doc.take(doc.len() as int) =~= doc);
    let s = scan_run(scan_start(), doc);
    assert(s.text + s.held =~= doc);
    assert(scan(doc).segments =~= seq![trimmed(doc).push('\n')]);
    assert(scan(doc).names =~= Seq::<Seq<char>>::empty());
    assert(scan(doc).blocks =~= Seq::<Seq<char>>::empty());
}

/// From the text, the keyword takes the scanner to the name.
pub proof fn lemma_scan_keyword(s: ScanState)
    requires
        in_text(s),
    ensures
        scan_run(s, keyword()) == (ScanState { mode: ScanMode::Name, held: keyword(), ..s }),
{
    let k = keyword();
    let s1 = scan_step(s, 'd');
    let s2 = scan_step(s1, 'e');
    let s3 = scan_step(s2, 'f');
    let s4 = scan_step(s3, ' ');
    assert(k.take(0) =~= Seq::<char>::empty());
    assert(scan_run(s, k.take(0)) == s);
    assert(k.take(1).drop_last() =~= k.take(0));
    assert(scan_run(s, k.take(1)) == s1);
    assert(k.take(2).drop_last() =~= k.take(1));
    assert(scan_run(s, k.take(2)) == s2);
    assert(k.take(3).drop_last() =~= k.take(2));
    assert(scan_run(s, k.take(3)) == s3);
    assert(k.drop_last() =~= k.take(3));
    assert(scan_run(s, k) == s4);
    assert(s4.held =~= k);
}

/// While it reads a name the scanner collects it, and holds it back.
pub proof fn lemma_scan_name(s: ScanState, name: Seq<char>)
    requires
        s.mode == ScanMode::Name,
        space_free(name),
    ensures
        scan_run(s, name) == (ScanState { name: s.name + name, held: s.held + name, ..s }),
    decreases name.len(),
{
    if name.len() == 0 {
        assert(s.name + name =~= s.name);
        assert(s.held + name =~= s.held);
    } else {
        let rest = name.drop_last();
        assert(space_free(rest)) by {
            assert forall|i: int| 0 <= i < rest.len() implies #[trigger] rest[i] != ' ' by {
                assert(rest[i] == name[i]);
            }
        }
        lemma_scan_name(s, rest);
        assert(name[name.len() - 1] != ' ');
        assert((s.name + rest).push(name.last()) =~= s.name + name);
        assert((s.held + rest).push(name.last()) =~= s.held + name);
    }
}

/// While a block is open the scanner collects it and counts its braces.
pub proof fn lemma_scan_inside_block(s: ScanState, block: Seq<char>, n: int)
    requires
        s.mode == ScanMode::AwaitBlock,
        is_block(block),
        0 < n < block.len(),
    ensures
        scan_run(s, block.take(n)) == (ScanState {
            mode: ScanMode::Block,
            depth: open_braces(block.take(n)) as nat,
            segments: close_segment(s.segments, s.text),
            text: Seq::empty(),
            held: Seq::empty(),
            block: block.take(n),
            ..s
        }),
    decreases n,
{
    assert(block.take(n).drop_last() =~= block.take(n - 1));
    assert(block.take(n).last() == block[n - 1]);
    if n == 1 {
        assert(block.take(0) =~= Seq::<char>::empty());
        assert(scan_run(s, block.take(0)) == s);
        assert(open_braces(block.take(0)) == 0);
        assert(block.take(1) =~= seq![block[0]]);
    } else {
        lemma_scan_inside_block(s, block, n - 1);
        let before = scan_run(s, block.take(n - 1));
        assert(open_braces(block.take(n - 1)) > 0);
        assert(open_braces(block.take(n)) > 0);
        assert(before.block.push(block[n - 1]) =~= block.take(n));
    }
}

/// A block after a name is read as a block, to its last brace.
pub proof fn lemma_scan_block(s: ScanState, block: Seq<char>)
    requires
        s.mode == ScanMode::AwaitBlock,
        is_block(block),
    ensures
        scan_run(s, block) == (ScanState {
            mode: ScanMode::AwaitBlock,
            depth: 0,
            segments: close_segment(s.segments, s.text),
            text: Seq::empty(),
            held: Seq::empty(),
            block: Seq::empty(),
            blocks: s.blocks.push(block),
            ..s
        }),
{
    let n = block.len() as int;
    assert(block.take(n) =~= block);
    assert(block.take(0) =~= Seq::<char>::empty());
    assert(open_braces(block.take(0)) == 0);
    assert(block.take(1) =~= seq![block[0]]);
    assert(block.take(1).drop_last() =~= block.take(0));
    assert(open_braces(block.take(1)) == 1);
    assert(n > 1);
    lemma_scan_inside_block(s, block, n - 1);
    let before = scan_run(s, block.take(n - 1));
    assert(block.drop_last() =~= block.take(n - 1));
    assert(open_braces(block.take(n - 1)) > 0);
    assert(before.block.push(block.last()) =~= block);
}

/// After a text without the keyword that ends clear, the scanner has read
/// all of it as text and holds nothing back.
pub proof fn lemma_scan_text(s: ScanState, text: Seq<char>)
    requires
        in_text(s),
        !has_keyword(text),
        ends_clear(text),
    ensures
        scan_run(s, text) == (ScanState { text: s.text + text, ..s }),
{
    lemma_scan_without_keyword(s, text, text.len() as int);
    assert(text.take(text.len() as int) =~= text);
    let end = scan_run(s, text);
    let h = end.held.len() as int;
    if h > 0 {
        assert((end.text + end.held).last() == end.held[h - 1]);
        assert(end.held[h - 1] == keyword().take(h)[h - 1]);
        assert((s.text + text).last() == text.last());
        assert(false);
    }
    assert(end.text + end.held =~= end.text);
    assert(end.held =~= s.held);
}

/// After a block, a text without the keyword that does not start with a
/// brace is read as text: what the scanner has read and what it holds back
/// make up the text.
pub proof fn lemma_scan_after_block(s: ScanState, text: Seq<char>)
    requires
        s.mode == ScanMode::AwaitBlock,
        s.depth == 0,
        s.name.len() == 0,
        s.block.len() == 0,
        !has_keyword(text),
        text.len() > 0,
        text[0] != '{',
    ensures
        ({
            let end = scan_run(s, text);
            &&& end.text + end.held == s.text + s.held + text
            &&& end == ScanState { mode: ScanMode::Text, text: end.text, held: end.held, ..s }
        }),
{
    let first = seq![text[0]];
    let rest = text.drop_first();
    assert(text =~= first + rest);
    lemma_scan_run_one(s, text[0]);
    let s1 = scan_step(s, text[0]);
    lemma_scan_run_concat(s, first, rest);
    assert(!has_keyword(rest)) by {
        if has_keyword(rest) {
            let i = choose|i: int| keyword_at(rest, i);
            assert(keyword_at(text, i + 1));
        }
    }
    lemma_scan_without_keyword(s1, rest, rest.len() as int);
    assert(rest.take(rest.len() as int) =~= rest);
    let end = scan_run(s1, rest);
    assert(end.text + end.held =~= s.text + s.held + text);
}

/// A part of a text without the keyword holds no keyword either.
pub proof fn lemma_part_without_keyword(doc: Seq<char>, from: int, to: int)
    requires
        0 <= from <= to <= doc.len(),
        !has_keyword(doc),
    ensures
        !has_keyword(doc.subrange(from, to)),
{
    let part = doc.subrange(from, to);
    if has_keyword(part) {
        let i = choose|i: int| keyword_at(part, i);
        assert(keyword_at(doc, from + i));
    }
}

/// A step only adds to the lists, and a segment that it adds is trimmed and
/// not empty.
pub proof fn lemma_scan_step_extends(s: ScanState, c: char)
    ensures
        extends(s, scan_step(s, c)),
{
    let after = scan_step(s, c);
    lemma_trimmed(s.text);
    assert(s.segments.is_prefix_of(after.segments));
    assert(s.names.is_prefix_of(after.names));
    assert(s.blocks.is_prefix_of(after.blocks));
}

/// The scanner only adds to the lists, and the segments that it adds are
/// trimmed and not empty.
pub proof fn lemma_scan_run_extends(s: ScanState, input: Seq<char>)
    ensures
        extends(s, scan_run(s, input)),
    decreases input.len(),
{
    if input.len() > 0 {
        let before = scan_run(s, input.drop_last());
        lemma_scan_run_extends(s, input.drop_last());
        lemma_scan_step_extends(before, input.last());
        let after = scan_run(s, input);
        assert(s.segments.is_prefix_of(after.segments));
        assert(s.names.is_prefix_of(after.names));
        assert(s.blocks.is_prefix_of(after.blocks));
        assert forall|i: int| s.segments.len() <= i < after.segments.len() implies is_closed_segment(
            #[trigger] after.segments[i],
        ) by {
            if i < before.segments.len() {
                assert(after.segments[i] == before.segments[i]);
            }
        }
    }
}

/// A step takes the scanner from one sound state to another.
pub proof fn lemma_scan_step_sound(s: ScanState, c: char)
    requires
        is_sound(s),
    ensures
        is_sound(scan_step(s, c)),
{
    let after = scan_step(s, c);
    match s.mode {
        ScanMode::Text => {
            let k = s.held.len() as int;
            if k < 4 && c == keyword()[k] {
                assert(after.held =~= keyword().take(k + 1));
                if k == 3 {
                    assert(keyword().take(4) =~= keyword());
                    assert(after.held =~= keyword() + after.name);
                }
            } else {
                assert(after.held =~= keyword().take(0));
            }
        },
        ScanMode::Name => {
            if c == ' ' {
                assert forall|i: int| 0 <= i < after.names.len() implies space_free(
                    #[trigger] after.names[i],
                ) by {
                    if i < s.names.len() {
                        assert(after.names[i] == s.names[i]);
                    }
                }
            } else {
                assert(after.held =~= keyword() + after.name);
            }
        },
        ScanMode::AwaitBlock => {
            if c == '{' {
                let block = seq![c];
                assert(is_open_block(block)) by {
                    assert forall|k: int| 0 < k <= block.len() implies open_braces(
                        #[trigger] block.take(k),
                    ) > 0 by {
                        assert(block.take(k) =~= block);
                        assert(block.drop_last() =~= Seq::<char>::empty());
                        assert(open_braces(block.drop_last()) == 0);
                    }
                }
                assert(block.take(1) =~= block);
                assert(open_braces(block.take(1)) > 0);
                assert(block.drop_last() =~= Seq::<char>::empty());
                assert(open_braces(block.drop_last()) == 0);
                assert(open_braces(block) == 1);
            } else {
                assert(after.held =~= keyword().take(0));
            }
        },
        ScanMode::Block => {
            let block = s.block.push(c);
            assert(block.drop_last() =~= s.block);
            assert(s.block.take(s.block.len() as int) =~= s.block);
            assert(open_braces(s.block) > 0);
            assert forall|k: int| 0 < k < block.len() implies open_braces(
                #[trigger] block.take(k),
            ) > 0 by {
                assert(block.take(k) =~= s.block.take(k));
            }
            assert(block.take(block.len() as int) =~= block);
            if c == '}' && s.depth <= 1 {
                assert(open_braces(block) == 0);
                assert(is_block(block));
                assert forall|i: int| 0 <= i < after.blocks.len() implies is_block(
                    #[trigger] after.blocks[i],
                ) by {
                    if i < s.blocks.len() {
                        assert(after.blocks[i] == s.blocks[i]);
                    }
                }
            } else {
                assert(open_braces(block) > 0);
                assert(is_open_block(block)) by {
                    assert forall|k: int| 0 < k <= block.len() implies open_braces(
                        #[trigger] block.take(k),
                    ) > 0 by {
                        if k < block.len() {
                            assert(block.take(k) =~= s.block.take(k));
                        }
                    }
                }
            }
        },
    }
}

/// From a sound state the scanner reaches sound states only.
pub proof fn lemma_scan_run_sound(s: ScanState, input: Seq<char>)
    requires
        is_sound(s),
    ensures
        is_sound(scan_run(s, input)),
    decreases input.len(),
{
    if input.len() > 0 {
        lemma_scan_run_sound(s, input.drop_last());
        lemma_scan_step_sound(scan_run(s, input.drop_last()), input.last());
    }
}

} // verus!
