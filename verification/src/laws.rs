//! What holds of every document, of every table and of every text: the
//! laws of the engine, each proved from the definitions of the scanner, the
//! compiler and the resolver.

use vstd::prelude::*;
use crate::bank::{is_index, lemma_bank_is_index, BankEntryView};
use crate::casing::{sentence_case, title_case};
use crate::compiler::{
    block_entity, compiled_from, lemma_table_upto, lemma_table_upto_is_mapping,
    lemma_table_upto_without, paired, table_of, table_upto,
};
use crate::engine::{document_bank, document_table, named_blocks, resolved_text};
use crate::entity::{
    entity_fields, entry_names, field_text, field_value, is_mapping, lemma_first_index_absent,
    lemma_with_entry, lemma_with_field, with_entry, with_field, EntryView, FieldView,
};
use crate::resolver::{
    colon_free, echo, ends_reference, entity_part, entity_part_ends, field_part,
    field_part_starts, is_id, is_marker, joined, lemma_entity_part, lemma_field_part,
    lemma_part_without_markers, lemma_resolve_id, lemma_resolve_plain, lemma_resolve_run_concat,
    lemma_resolve_run_one, lemma_resolve_without_references, lemma_without_modifiers_blank,
    lemma_without_modifiers_concat, marker_free, mode_after, reference_free, resolve_finish,
    resolve_run, resolve_start, without_modifiers,
    resolve_step, resolved, substitution, transformed, unknown, ResolveMode, ResolveState,
};
use crate::scanner::{
    close_segment, ends_clear, has_keyword, in_text, is_block,
    is_closed_segment, is_open_block, is_sound, keyword, lemma_scan_run_extends,
    lemma_scan_run_sound,
    lemma_part_without_keyword, lemma_scan_after_block,
    lemma_scan_block, lemma_scan_keyword, lemma_scan_name, lemma_scan_plain,
    lemma_scan_run_concat, lemma_scan_run_one, lemma_scan_text, scan, scan_run, scan_start,
    scan_step, space_free, ScanMode, ScanState, ScanView,
};
use crate::text::{
    is_blank, is_whitespace, lemma_trim_start, lemma_trim_start_before, lemma_trimmed_of_padded,
    lemma_trimmed_parts,
    lemma_trimmed, lemma_trimmed_push, lemma_trimmed_twice, trim_end, trim_start, trimmed,
    trimmed_start,
};

verus! {

/// A field that is put into an entity is found there under its name, and
/// every other name finds what it found before.
pub proof fn law_field_put_in_is_found(fields: Seq<FieldView>, f: FieldView, name: Seq<char>)
    ensures
        field_value(with_field(fields, f), f.name) == Some(f.value),
        name != f.name ==> field_value(with_field(fields, f), name) == field_value(fields, name),
{
    lemma_with_field(fields, f, f.name);
    lemma_with_field(fields, f, name);
}

/// An entity that is put into a table is found there under its name, and
/// every other name finds what it found before.
pub proof fn law_entity_put_in_is_found(entries: Seq<EntryView>, e: EntryView, name: Seq<char>)
    ensures
        entity_fields(with_entry(entries, e), e.name) == Some(e.fields),
        name != e.name ==> entity_fields(with_entry(entries, e), name) == entity_fields(
            entries,
            name,
        ),
{
    lemma_with_entry(entries, e, e.name);
    lemma_with_entry(entries, e, name);
}

/// The table of a document is a mapping of records: it holds one entity
/// under a name, and an entity one field.
pub proof fn law_table_is_a_mapping(
    names: Seq<Seq<char>>,
    blocks: Seq<Seq<char>>,
    compiled: Seq<Option<Seq<FieldView>>>,
)
    requires
        compiled_from(blocks, compiled),
    ensures
        is_mapping(table_of(names, compiled)),
{
    lemma_table_upto_is_mapping(
        names,
        blocks,
        compiled,
        paired(names.len() as int, compiled.len() as int),
    );
}

/// The object bank of a document names each entity once, and under an
/// entity each of its fields once.
pub proof fn law_bank_names_each_once(doc: Seq<char>, compiled: Seq<Option<Seq<FieldView>>>)
    requires
        compiled_from(named_blocks(doc), compiled),
    ensures
        is_index(document_bank(doc, compiled)),
{
    law_table_is_a_mapping(scan(doc).names, named_blocks(doc), compiled);
    lemma_bank_is_index(document_table(doc, compiled));
}

/// A declaration in the text is cut out of it: after the keyword, a name
/// without a space, a space and a whole block, the text before has ended as
/// a segment, the name stands in the list of names and the block in the
/// list of blocks.
pub proof fn law_declaration_is_cut_out(s: ScanState, name: Seq<char>, block: Seq<char>)
    requires
        in_text(s),
        space_free(name),
        is_block(block),
    ensures
        scan_run(s, keyword() + name + seq![' '] + block) == (ScanState {
            mode: ScanMode::AwaitBlock,
            text: Seq::empty(),
            segments: close_segment(s.segments, s.text),
            names: s.names.push(name),
            blocks: s.blocks.push(block),
            ..s
        }),
{
    lemma_scan_keyword(s);
    let s1 = scan_run(s, keyword());
    lemma_scan_name(s1, name);
    let s2 = scan_run(s1, name);
    assert(s2.name =~= name);
    lemma_scan_run_one(s2, ' ');
    let s3 = scan_step(s2, ' ');
    lemma_scan_block(s3, block);
    let s4 = scan_run(s3, block);
    lemma_scan_run_concat(s, keyword(), name);
    lemma_scan_run_concat(s, keyword() + name, seq![' ']);
    lemma_scan_run_concat(s, keyword() + name + seq![' '], block);
    assert(s4.name =~= s.name);
    assert(s4.held =~= s.held);
    assert(s4.block =~= s.block);
}

/// A document with one declaration: the text before it, the keyword, a
/// name, a space, a whole block and the text after it.
pub open spec fn declaring(
    pre: Seq<char>,
    name: Seq<char>,
    block: Seq<char>,
    tail: Seq<char>,
) -> Seq<char> {
    pre + keyword() + name + seq![' '] + block + tail
}

/// The scan of a document with one declaration: the text before it and the
/// text after it are the segments, the name and the block are its one name
/// and its one block. The texts hold no keyword, the text before ends
/// clear, and the text after does not go on with a second block.
pub proof fn law_scan_of_declaring_document(
    pre: Seq<char>,
    name: Seq<char>,
    block: Seq<char>,
    tail: Seq<char>,
)
    requires
        !has_keyword(pre),
        ends_clear(pre),
        space_free(name),
        is_block(block),
        !has_keyword(tail),
        tail.len() > 0 ==> tail[0] != '{',
    ensures
        scan(declaring(pre, name, block, tail)) == (ScanView {
            segments: close_segment(Seq::empty(), pre).push(trimmed(tail).push('\n')),
            names: seq![name],
            blocks: seq![block],
        }),
{
    let start = scan_start();
    let declaration = keyword() + name + seq![' '] + block;
    lemma_scan_text(start, pre);
    let s1 = scan_run(start, pre);
    assert(s1.text =~= pre);
    law_declaration_is_cut_out(s1, name, block);
    let s2 = scan_run(s1, declaration);
    lemma_scan_run_concat(start, pre, declaration);
    lemma_scan_run_concat(start, pre + declaration, tail);
    assert(declaring(pre, name, block, tail) =~= pre + declaration + tail);
    assert(s2.names =~= seq![name]);
    assert(s2.blocks =~= seq![block]);
    let end = scan_run(s2, tail);
    if tail.len() == 0 {
        assert(end == s2);
        assert(s2.text + s2.held =~= tail);
    } else {
        lemma_scan_after_block(s2, tail);
        assert(end.text + end.held =~= tail);
    }
}

/// The segments of a scan are trimmed: each segment that ended before the
/// document did is not empty and neither starts nor ends in whitespace, and
/// the segment that the end of the document ended is what was left of the
/// text, trimmed, and a line feed. There is no such segment where the
/// document ends in a block.
pub proof fn law_segments_are_trimmed(doc: Seq<char>)
    ensures
        ({
            let end = scan_run(scan_start(), doc);
            let segments = scan(doc).segments;
            if end.mode == ScanMode::Block {
                forall|i: int| 0 <= i < segments.len() ==> is_closed_segment(#[trigger] segments[i])
            } else {
                &&& segments.len() > 0
                &&& forall|i: int|
                    0 <= i < segments.len() - 1 ==> is_closed_segment(#[trigger] segments[i])
                &&& segments.last().last() == '\n'
                &&& segments.last() == trimmed(end.text + end.held).push('\n')
            }
        }),
{
    let end = scan_run(scan_start(), doc);
    let segments = scan(doc).segments;
    lemma_scan_run_extends(scan_start(), doc);
    if end.mode == ScanMode::Block {
        assert(segments == end.segments);
    } else {
        let last = trimmed(end.text + end.held).push('\n');
        assert(segments == end.segments.push(last));
        assert forall|i: int| 0 <= i < segments.len() - 1 implies is_closed_segment(
            #[trigger] segments[i],
        ) by {
            assert(segments[i] == end.segments[i]);
        }
    }
}

/// The names and the blocks of a scan are what they are called: a name
/// holds no space, and a block is whole, from its opening brace to the
/// brace that closes it. Only the last block of a document that ends in it
/// is not: it has left a brace open from its start.
pub proof fn law_names_and_blocks_are_whole(doc: Seq<char>)
    ensures
        ({
            let end = scan_run(scan_start(), doc);
            let found = scan(doc);
            &&& forall|i: int| 0 <= i < found.names.len() ==> space_free(#[trigger] found.names[i])
            &&& forall|i: int|
                0 <= i < found.blocks.len() - 1 ==> is_block(#[trigger] found.blocks[i])
            &&& found.blocks.len() > 0 ==> if end.mode == ScanMode::Block {
                is_open_block(found.blocks.last())
            } else {
                is_block(found.blocks.last())
            }
        }),
{
    let end = scan_run(scan_start(), doc);
    let found = scan(doc);
    assert(is_sound(scan_start())) by {
        assert(scan_start().held =~= keyword().take(0));
    }
    lemma_scan_run_sound(scan_start(), doc);
    if end.mode == ScanMode::Block {
        assert forall|i: int| 0 <= i < found.blocks.len() - 1 implies is_block(
            #[trigger] found.blocks[i],
        ) by {
            assert(found.blocks[i] == end.blocks[i]);
        }
    }
}

/// Names and blocks go together by their places: the entity of the k-th
/// name is what the k-th block compiled to, wherever the two stand in the
/// document, unless a later place holds the same name with a block that
/// compiled.
pub proof fn law_name_goes_with_block_at_its_place(
    names: Seq<Seq<char>>,
    compiled: Seq<Option<Seq<FieldView>>>,
    k: int,
)
    requires
        0 <= k < names.len(),
        k < compiled.len(),
        compiled[k] is Some,
        forall|j: int|
            k < j < names.len() && j < compiled.len() && names[j] == names[k] ==> compiled[j]
                is None,
    ensures
        entity_fields(table_of(names, compiled), names[k]) == compiled[k],
{
    lemma_table_upto(names, compiled, paired(names.len() as int, compiled.len() as int), k);
}

/// A name has no entity where no block at one of its places compiled: a
/// block that does not compile is dropped, and so is a name that has no
/// block.
pub proof fn law_name_without_compiled_block_has_no_entity(
    names: Seq<Seq<char>>,
    compiled: Seq<Option<Seq<FieldView>>>,
    name: Seq<char>,
)
    requires
        forall|j: int|
            0 <= j < names.len() && j < compiled.len() && names[j] == name ==> compiled[j]
                is None,
    ensures
        entity_fields(table_of(names, compiled), name) is None,
{
    lemma_table_upto_without(
        names,
        compiled,
        paired(names.len() as int, compiled.len() as int),
        name,
    );
}

/// In a document the entity of the k-th name is the entity of the k-th
/// block, where that block compiled and no later block took the name.
pub proof fn law_document_pairs_by_place(
    doc: Seq<char>,
    compiled: Seq<Option<Seq<FieldView>>>,
    k: int,
)
    requires
        compiled_from(named_blocks(doc), compiled),
        0 <= k < compiled.len(),
        compiled[k] is Some,
        forall|j: int|
            k < j < compiled.len() && scan(doc).names[j] == scan(doc).names[k] ==> compiled[j]
                is None,
    ensures
        k < scan(doc).names.len(),
        k < scan(doc).blocks.len(),
        entity_fields(document_table(doc, compiled), scan(doc).names[k]) == Some(
            block_entity(scan(doc).blocks[k]),
        ),
{
    law_name_goes_with_block_at_its_place(scan(doc).names, compiled, k);
    assert(named_blocks(doc)[k] == scan(doc).blocks[k]);
}

/// A declaration gives its name its entity, wherever in the document it
/// stands: where the scanner reads the declaration from the text, as many
/// names as blocks stand before it, its block compiled, and no later
/// declaration of the name has a block that compiled, the table holds what
/// the block compiled to under the name.
pub proof fn law_declaration_names_its_entity(
    pre: Seq<char>,
    name: Seq<char>,
    block: Seq<char>,
    tail: Seq<char>,
    compiled: Seq<Option<Seq<FieldView>>>,
)
    requires
        in_text(scan_run(scan_start(), pre)),
        scan_run(scan_start(), pre).names.len() == scan_run(scan_start(), pre).blocks.len(),
        space_free(name),
        is_block(block),
        compiled_from(named_blocks(declaring(pre, name, block, tail)), compiled),
        compiled[scan_run(scan_start(), pre).names.len() as int] is Some,
        forall|j: int|
            scan_run(scan_start(), pre).names.len() < j < compiled.len() && scan(
                declaring(pre, name, block, tail),
            ).names[j] == name ==> compiled[j] is None,
    ensures
        entity_fields(document_table(declaring(pre, name, block, tail), compiled), name) == Some(
            block_entity(block),
        ),
{
    let doc = declaring(pre, name, block, tail);
    let start = scan_start();
    let declaration = keyword() + name + seq![' '] + block;
    let s1 = scan_run(start, pre);
    let k = s1.names.len() as int;
    law_declaration_is_cut_out(s1, name, block);
    let s2 = scan_run(s1, declaration);
    lemma_scan_run_concat(start, pre, declaration);
    lemma_scan_run_concat(start, pre + declaration, tail);
    assert(doc =~= pre + declaration + tail);
    let end = scan_run(s2, tail);
    lemma_scan_run_extends(s2, tail);
    assert(end.names[k] == s2.names[k]);
    assert(end.blocks[k] == s2.blocks[k]);
    assert(scan(doc).names == end.names);
    assert(scan(doc).blocks.len() >= end.blocks.len());
    assert(scan(doc).blocks[k] == end.blocks[k]);
    assert(scan(doc).names[k] == name);
    assert(scan(doc).blocks[k] == block);
    law_document_pairs_by_place(doc, compiled, k);
}

/// A reference in the text gives way to its substitution, once: after `@`,
/// the id and the character `c` that ends it, the output has grown by the
/// substitution and by `c`, unless `c` is a marker.
pub proof fn law_reference_is_replaced(
    table: Seq<EntryView>,
    s: ResolveState,
    id: Seq<char>,
    c: char,
)
    requires
        s.mode == ResolveMode::Plain,
        is_id(id),
        ends_reference(c),
    ensures
        resolve_run(table, s, seq!['@'] + id + seq![c]) == (ResolveState {
            mode: mode_after(c),
            id: Seq::empty(),
            out: s.out + substitution(table, id, Some(c)) + echo(c),
        }),
{
    let at = resolve_step(table, s, '@');
    lemma_resolve_run_one(table, s, '@');
    lemma_resolve_run_concat(table, s, seq!['@'], id);
    lemma_resolve_id(table, at, id);
    let read = resolve_run(table, s, seq!['@'] + id);
    assert(read.id =~= id);
    lemma_resolve_run_concat(table, s, seq!['@'] + id, seq![c]);
    lemma_resolve_run_one(table, read, c);
    let end = resolve_step(table, read, c);
    assert(end.out =~= s.out + substitution(table, id, Some(c)) + echo(c));
}

/// A reference that the end of the text ends gives way to its substitution
/// as it stands.
pub proof fn law_reference_at_the_end_is_replaced(
    table: Seq<EntryView>,
    s: ResolveState,
    id: Seq<char>,
)
    requires
        s.mode == ResolveMode::Plain,
        is_id(id),
    ensures
        resolve_finish(table, resolve_run(table, s, seq!['@'] + id)) == s.out + substitution(
            table,
            id,
            None,
        ),
{
    let at = resolve_step(table, s, '@');
    lemma_resolve_run_one(table, s, '@');
    lemma_resolve_run_concat(table, s, seq!['@'], id);
    lemma_resolve_id(table, at, id);
    let read = resolve_run(table, s, seq!['@'] + id);
    assert(read.id =~= id);
}

/// A reference in a text gives way to its substitution, once: where the
/// resolver reads the text before the reference as text to its end, the
/// whole resolves as the rest does from the state in which the output is
/// that of the text before, the substitution and the character that ended
/// the reference, unless that is a marker.
pub proof fn law_reference_in_text(
    table: Seq<EntryView>,
    before: Seq<char>,
    id: Seq<char>,
    c: char,
    rest: Seq<char>,
)
    requires
        resolve_run(table, resolve_start(), before).mode == ResolveMode::Plain,
        is_id(id),
        ends_reference(c),
    ensures
        resolve_run(table, resolve_start(), before + (seq!['@'] + id + seq![c]) + rest)
            == resolve_run(
            table,
            ResolveState {
                mode: mode_after(c),
                id: Seq::empty(),
                out: resolve_run(table, resolve_start(), before).out + substitution(
                    table,
                    id,
                    Some(c),
                ) + echo(c),
            },
            rest,
        ),
        marker_free(before) ==> resolve_run(table, resolve_start(), before).out == before,
{
    let start = resolve_start();
    let token = seq!['@'] + id + seq![c];
    let s1 = resolve_run(table, start, before);
    law_reference_is_replaced(table, s1, id, c);
    lemma_resolve_run_concat(table, start, before, token);
    lemma_resolve_run_concat(table, start, before + token, rest);
    if marker_free(before) {
        lemma_resolve_plain(table, start, before);
        assert(s1.out =~= before);
    }
}

/// In the id `name:field` the entity is `name` and the field is `field`.
pub proof fn law_id_names_entity_and_field(name: Seq<char>, field: Seq<char>)
    requires
        colon_free(name),
        colon_free(field),
    ensures
        entity_part(name + seq![':'] + field) == name,
        field_part(name + seq![':'] + field) == field,
{
    let id = name + seq![':'] + field;
    let k = name.len() as int;
    assert(entity_part_ends(id, k)) by {
        assert(id[k] == ':');
        assert forall|j: int| 0 <= j < k implies id[j] != ':' by {
            assert(id[j] == name[j]);
        }
    }
    lemma_entity_part(id, k);
    assert(id.take(k) =~= name);
    assert(field_part_starts(id, k + 1)) by {
        assert forall|j: int| k + 1 <= j < id.len() implies id[j] != ':' by {
            assert(id[j] == field[j - k - 1]);
        }
    }
    lemma_field_part(id, k + 1);
    assert(id.skip(k + 1) =~= field);
}

/// In an id without a colon the entity and the field have the same name:
/// the id.
pub proof fn law_id_without_colon(id: Seq<char>)
    requires
        colon_free(id),
    ensures
        entity_part(id) == id,
        field_part(id) == id,
{
    assert(entity_part_ends(id, id.len() as int));
    lemma_entity_part(id, id.len() as int);
    assert(id.take(id.len() as int) =~= id);
    assert(field_part_starts(id, 0));
    lemma_field_part(id, 0);
    assert(id.skip(0) =~= id);
}

/// The substitution of a reference to a field that holds a text is that
/// text: in sentence case after `^`, in title case after `!`, as it stands
/// after anything else.
pub proof fn law_known_field_is_substituted(
    table: Seq<EntryView>,
    name: Seq<char>,
    field: Seq<char>,
    fields: Seq<FieldView>,
    value: Seq<char>,
    terminator: Option<char>,
)
    requires
        colon_free(name),
        colon_free(field),
        entity_fields(table, name) == Some(fields),
        field_text(fields, field) == Some(value),
    ensures
        substitution(table, name + seq![':'] + field, terminator) == transformed(
            value,
            terminator,
        ),
        terminator == Some('^') ==> transformed(value, terminator) == sentence_case(value),
        terminator == Some('!') ==> transformed(value, terminator) == title_case(value),
        terminator != Some('^') && terminator != Some('!') ==> transformed(value, terminator)
            == value,
{
    law_id_names_entity_and_field(name, field);
}

/// The substitution of a reference that cannot be resolved is `*unknown*`:
/// where the table has no entity of that name, where the entity has no
/// field of that name, and where the field holds no text.
pub proof fn law_unknown_reference(
    table: Seq<EntryView>,
    id: Seq<char>,
    terminator: Option<char>,
)
    requires
        match entity_fields(table, entity_part(id)) {
            Some(fields) => field_text(fields, field_part(id)) is None,
            None => true,
        },
    ensures
        substitution(table, id, terminator) == unknown(),
{
}

/// A character after a backslash goes to the output as it is, and starts
/// nothing: not a reference, where it is `@`.
pub proof fn law_escaped_character_is_literal(table: Seq<EntryView>, s: ResolveState, c: char)
    requires
        s.mode == ResolveMode::Plain,
        c != '\\',
    ensures
        resolve_run(table, s, seq!['\\', c]) == (ResolveState { out: s.out.push(c), ..s }),
{
    lemma_resolve_run_one(table, s, '\\');
    lemma_resolve_run_concat(table, s, seq!['\\'], seq![c]);
    lemma_resolve_run_one(table, resolve_step(table, s, '\\'), c);
    assert(seq!['\\'] + seq![c] =~= seq!['\\', c]);
}

/// A run of backslashes leaves nothing in the output: however long it is,
/// it escapes the one character after it.
pub proof fn law_backslashes_vanish(table: Seq<EntryView>, s: ResolveState, n: nat)
    requires
        s.mode == ResolveMode::Plain,
        n > 0,
    ensures
        resolve_run(table, s, Seq::new(n, |i: int| '\\')) == (ResolveState {
            mode: ResolveMode::Escape,
            ..s
        }),
    decreases n,
{
    let run = Seq::new(n, |i: int| '\\');
    let rest = Seq::new((n - 1) as nat, |i: int| '\\');
    assert(run.drop_last() =~= rest);
    if n == 1 {
        assert(resolve_run(table, s, rest) == s);
    } else {
        law_backslashes_vanish(table, s, (n - 1) as nat);
    }
}

/// A resolved text is trimmed: it neither starts nor ends in whitespace.
pub proof fn law_resolved_text_is_trimmed(table: Seq<EntryView>, segments: Seq<Seq<char>>)
    ensures
        ({
            let text = resolved(table, segments);
            &&& text.len() > 0 ==> !is_whitespace(text[0]) && !is_whitespace(text.last())
            &&& trimmed(text) == text
        }),
{
    let raw = resolve_finish(table, resolve_run(table, resolve_start(), joined(segments)));
    lemma_trimmed(raw);
    lemma_trimmed_twice(raw);
}

/// A document that holds neither the keyword nor a reference nor a
/// backslash resolves to itself, without its modifiers and trimmed.
pub proof fn law_document_without_references_loses_its_modifiers(
    doc: Seq<char>,
    compiled: Seq<Option<Seq<FieldView>>>,
)
    requires
        !has_keyword(doc),
        reference_free(doc),
    ensures
        resolved_text(doc, compiled) == trimmed(without_modifiers(doc)),
{
    lemma_scan_plain(doc);
    let table = document_table(doc, compiled);
    let core = trimmed(doc);
    let segment = core.push('\n');
    assert(joined(seq![segment]) == segment);
    lemma_trimmed_parts(doc);
    let before = doc.take(trimmed_start(doc));
    let after = doc.skip(trimmed_start(doc) + core.len());
    assert(reference_free(segment)) by {
        assert forall|i: int| 0 <= i < segment.len() implies #[trigger] segment[i] != '@'
            && segment[i] != '\\' by {
            if i < core.len() {
                assert(segment[i] == doc[trimmed_start(doc) + i]);
            }
        }
    }
    lemma_resolve_without_references(table, resolve_start(), segment);
    let kept = without_modifiers(core);
    assert(segment.drop_last() =~= core);
    assert(without_modifiers(segment) == kept.push('\n'));
    let end = resolve_run(table, resolve_start(), segment);
    assert(end.out =~= kept.push('\n'));
    assert(resolved_text(doc, compiled) == trimmed(kept.push('\n')));
    // Both texts are the trimmed middle with whitespace round it.
    lemma_trimmed_parts(kept);
    let left = kept.take(trimmed_start(kept));
    let right = kept.skip(trimmed_start(kept) + trimmed(kept).len());
    assert(trimmed(kept.push('\n')) == trimmed(kept)) by {
        assert(kept.push('\n') =~= left + trimmed(kept) + right.push('\n'));
        assert(is_blank(right.push('\n'))) by {
            assert forall|i: int| 0 <= i < right.push('\n').len() implies is_whitespace(
                #[trigger] right.push('\n')[i],
            ) by {
                if i < right.len() {
                    assert(right.push('\n')[i] == right[i]);
                }
            }
        }
        lemma_trimmed_of_padded(left, trimmed(kept), right.push('\n'));
    }
    assert(trimmed(without_modifiers(doc)) == trimmed(kept)) by {
        lemma_without_modifiers_concat(before + core, after);
        lemma_without_modifiers_concat(before, core);
        lemma_without_modifiers_blank(before);
        lemma_without_modifiers_blank(after);
        assert(without_modifiers(doc) =~= (before + left) + trimmed(kept) + (right + after));
        assert(is_blank(before + left)) by {
            assert forall|i: int| 0 <= i < (before + left).len() implies is_whitespace(
                #[trigger] (before + left)[i],
            ) by {
                if i < before.len() {
                    assert((before + left)[i] == before[i]);
                } else {
                    assert((before + left)[i] == left[i - before.len()]);
                }
            }
        }
        assert(is_blank(right + after)) by {
            assert forall|i: int| 0 <= i < (right + after).len() implies is_whitespace(
                #[trigger] (right + after)[i],
            ) by {
                if i < right.len() {
                    assert((right + after)[i] == right[i]);
                } else {
                    assert((right + after)[i] == after[i - right.len()]);
                }
            }
        }
        lemma_trimmed_of_padded(before + left, trimmed(kept), right + after);
    }
}

/// A document that holds neither the keyword nor a marker resolves to
/// itself, trimmed, and its object bank is empty.
pub proof fn law_plain_document_resolves_to_itself(
    doc: Seq<char>,
    compiled: Seq<Option<Seq<FieldView>>>,
)
    requires
        !has_keyword(doc),
        marker_free(doc),
    ensures
        resolved_text(doc, compiled) == trimmed(doc),
        document_bank(doc, compiled) == Seq::<BankEntryView>::empty(),
{
    lemma_scan_plain(doc);
    let table = document_table(doc, compiled);
    assert(table =~= Seq::<EntryView>::empty());
    assert(document_bank(doc, compiled) =~= Seq::<BankEntryView>::empty());
    let segment = trimmed(doc).push('\n');
    assert(joined(seq![segment]) == segment);
    lemma_trimmed(doc);
    lemma_part_without_markers(doc, trimmed_start(doc), trimmed_start(doc) + trimmed(doc).len());
    assert(marker_free(segment)) by {
        assert forall|i: int| 0 <= i < segment.len() implies !is_marker(#[trigger] segment[i]) by {
            if i < trimmed(doc).len() {
                assert(segment[i] == trimmed(doc)[i]);
            }
        }
    }
    lemma_resolve_plain(table, resolve_start(), segment);
    let end = resolve_run(table, resolve_start(), segment);
    assert(end.out =~= segment);
    assert(resolve_finish(table, end) == segment);
    lemma_trimmed_push(doc, '\n');
}

/// Resolving a resolved text again changes nothing, where that text holds
/// neither the keyword nor a marker.
pub proof fn law_resolved_text_is_stable(
    doc: Seq<char>,
    compiled: Seq<Option<Seq<FieldView>>>,
    again: Seq<Option<Seq<FieldView>>>,
)
    requires
        !has_keyword(resolved_text(doc, compiled)),
        marker_free(resolved_text(doc, compiled)),
    ensures
        resolved_text(resolved_text(doc, compiled), again) == resolved_text(doc, compiled),
{
    let once = resolved_text(doc, compiled);
    law_plain_document_resolves_to_itself(once, again);
    let raw = resolve_finish(
        document_table(doc, compiled),
        resolve_run(document_table(doc, compiled), resolve_start(), joined(scan(doc).segments)),
    );
    assert(once == trimmed(raw));
    lemma_trimmed_twice(raw);
}

/// Resolving a document twice gives what resolving it once gives, where the
/// document holds neither the keyword nor a marker.
pub proof fn law_plain_document_is_stable(
    doc: Seq<char>,
    compiled: Seq<Option<Seq<FieldView>>>,
    again: Seq<Option<Seq<FieldView>>>,
)
    requires
        !has_keyword(doc),
        marker_free(doc),
    ensures
        resolved_text(resolved_text(doc, compiled), again) == resolved_text(doc, compiled),
{
    law_plain_document_resolves_to_itself(doc, compiled);
    lemma_trimmed(doc);
    let from = trimmed_start(doc);
    let to = from + trimmed(doc).len();
    lemma_part_without_keyword(doc, from, to);
    lemma_part_without_markers(doc, from, to);
    law_resolved_text_is_stable(doc, compiled, again);
}

/// The reference to the field `field` of the entity `name`.
pub open spec fn reference(name: Seq<char>, field: Seq<char>) -> Seq<char> {
    seq!['@'] + (name + seq![':'] + field)
}

/// What the text before a declaration leaves at the start of the resolved
/// text: itself, trimmed, and the space that parts it from the text after
/// the declaration.
pub open spec fn lead(pre: Seq<char>) -> Seq<char> {
    if trimmed(pre).len() == 0 {
        Seq::empty()
    } else {
        trimmed(pre).push(' ')
    }
}

/// The table of a document with one name and one block that compiled holds
/// the one entity.
proof fn lemma_table_of_one(
    name: Seq<char>,
    fields: Seq<FieldView>,
    compiled: Seq<Option<Seq<FieldView>>>,
)
    requires
        compiled.len() == 1,
        compiled[0] == Some(fields),
    ensures
        table_of(seq![name], compiled) == seq![EntryView { name, fields }],
        entity_fields(seq![EntryView { name, fields }], name) == Some(fields),
{
    let entry = EntryView { name, fields };
    let none = Seq::<EntryView>::empty();
    let names = seq![name];
    lemma_first_index_absent(entry_names(none), name);
    assert(with_entry(none, entry) =~= seq![entry]);
    assert(table_upto(names, compiled, 0) == none);
    assert(table_upto(names, compiled, 1) == with_entry(none, entry));
    lemma_with_entry(none, entry, name);
}

/// The segments of a document with one declaration, in one text.
proof fn lemma_joined_round_declaration(pre: Seq<char>, tail: Seq<char>)
    ensures
        joined(close_segment(Seq::empty(), pre).push(tail)) == lead(pre) + tail,
{
    if trimmed(pre).len() == 0 {
        assert(close_segment(Seq::empty(), pre).push(tail) =~= seq![tail]);
        assert(lead(pre) + tail =~= tail);
    } else {
        let both = seq![trimmed(pre), tail];
        assert(close_segment(Seq::empty(), pre).push(tail) =~= both);
        assert(both.drop_last() =~= seq![trimmed(pre)]);
        assert(joined(seq![trimmed(pre)]) == trimmed(pre));
    }
}

/// What a text without markers leaves at the start of the resolved text
/// holds no marker, and neither does a text without markers after it.
proof fn lemma_lead_without_markers(pre: Seq<char>, mid: Seq<char>)
    requires
        marker_free(pre),
        marker_free(mid),
    ensures
        marker_free(lead(pre) + mid),
{
    lemma_trimmed(pre);
    lemma_part_without_markers(pre, trimmed_start(pre), trimmed_start(pre) + trimmed(pre).len());
    let before = lead(pre) + mid;
    assert forall|i: int| 0 <= i < before.len() implies !is_marker(#[trigger] before[i]) by {
        if i < lead(pre).len() {
            if i < trimmed(pre).len() {
                assert(before[i] == trimmed(pre)[i]);
            }
        } else {
            assert(before[i] == mid[i - lead(pre).len()]);
        }
    }
}

/// A name, a colon and a field make an id.
proof fn lemma_id_of_name_and_field(name: Seq<char>, field: Seq<char>)
    requires
        is_id(name),
        is_id(field),
    ensures
        is_id(name + seq![':'] + field),
        space_free(name),
{
    let id = name + seq![':'] + field;
    assert forall|i: int| 0 <= i < id.len() implies !ends_reference(#[trigger] id[i]) by {
        if i < name.len() {
            assert(id[i] == name[i]);
        } else if i > name.len() {
            assert(id[i] == field[i - name.len() - 1]);
        }
    }
    assert forall|i: int| 0 <= i < name.len() implies #[trigger] name[i] != ' ' by {
        assert(!ends_reference(name[i]));
    }
}

/// A text that ends in no whitespace loses to trimming the whitespace
/// before its reference at most.
proof fn lemma_trimmed_round_reference(mid: Seq<char>, token: Seq<char>, post: Seq<char>)
    requires
        token.len() > 0,
        token[0] == '@',
        !is_whitespace((mid + token + post).last()),
    ensures
        trimmed(mid + token + post) == trim_start(mid) + token + post,
{
    let tail = mid + token + post;
    assert(tail =~= mid + (token + post));
    lemma_trim_start_before(mid, token + post);
    let cut = trim_start(mid) + (token + post);
    assert(cut.last() == tail.last());
    assert(trim_end(cut) == cut);
    assert(cut =~= trim_start(mid) + token + post);
}

/// A text without markers holds none after the whitespace at its start is
/// taken away.
proof fn lemma_trim_start_without_markers(mid: Seq<char>)
    requires
        marker_free(mid),
    ensures
        marker_free(trim_start(mid)),
{
    lemma_trim_start(mid);
    let k = mid.len() - trim_start(mid).len();
    assert(mid.skip(k) =~= mid.subrange(k, mid.len() as int));
    lemma_part_without_markers(mid, k, mid.len() as int);
}

/// A declared field reaches the text, once for each reference to it.
///
/// The document declares the entity `name` in a whole block and refers to
/// its field `field` in the text after the block; `c` ends the reference.
/// Where the block compiled, the field holds the text `value`, and the
/// resolver reads the reference from the text, the resolved text is made of
/// what the text before the reference resolves to, `value` in the case that
/// `c` asks for, `c` itself unless it is a marker, and what the rest of the
/// document resolves to from there. Where the text before the reference
/// holds no marker, it resolves to itself.
///
/// The texts round the declaration hold no keyword, the text before it
/// ends clear, and the document does not end in whitespace.
pub proof fn law_declared_field_is_substituted(
    pre: Seq<char>,
    name: Seq<char>,
    block: Seq<char>,
    mid: Seq<char>,
    field: Seq<char>,
    c: char,
    post: Seq<char>,
    compiled: Seq<Option<Seq<FieldView>>>,
    value: Seq<char>,
)
    requires
        !has_keyword(pre),
        ends_clear(pre),
        is_id(name),
        colon_free(name),
        is_block(block),
        is_id(field),
        colon_free(field),
        ends_reference(c),
        ({
            let tail = mid + reference(name, field) + seq![c] + post;
            &&& !has_keyword(tail)
            &&& tail[0] != '{'
            &&& !is_whitespace(tail.last())
            &&& compiled_from(named_blocks(declaring(pre, name, block, tail)), compiled)
        }),
        compiled.len() > 0 ==> compiled[0] is Some,
        field_text(block_entity(block), field) == Some(value),
        resolve_run(
            seq![EntryView { name, fields: block_entity(block) }],
            resolve_start(),
            lead(pre) + trim_start(mid),
        ).mode == ResolveMode::Plain,
    ensures
        ({
            let tail = mid + reference(name, field) + seq![c] + post;
            let doc = declaring(pre, name, block, tail);
            let table = seq![EntryView { name, fields: block_entity(block) }];
            let before = resolve_run(table, resolve_start(), lead(pre) + trim_start(mid));
            &&& document_table(doc, compiled) == table
            &&& resolved_text(doc, compiled) == trimmed(
                resolve_finish(
                    table,
                    resolve_run(
                        table,
                        ResolveState {
                            mode: mode_after(c),
                            id: Seq::empty(),
                            out: before.out + transformed(value, Some(c)) + echo(c),
                        },
                        post.push('\n'),
                    ),
                ),
            )
            &&& marker_free(pre) && marker_free(mid) ==> before.out == lead(pre) + trim_start(mid)
        }),
{
    let id = name + seq![':'] + field;
    let tail = mid + reference(name, field) + seq![c] + post;
    let doc = declaring(pre, name, block, tail);
    let table = seq![EntryView { name, fields: block_entity(block) }];
    let token = seq!['@'] + id + seq![c];
    let rest = post.push('\n');
    lemma_id_of_name_and_field(name, field);
    law_scan_of_declaring_document(pre, name, block, tail);
    assert(document_table(doc, compiled) == table && entity_fields(table, name) == Some(
        block_entity(block),
    )) by {
        assert(named_blocks(doc) =~= seq![block]);
        lemma_table_of_one(name, block_entity(block), compiled);
    }
    let text = joined(scan(doc).segments);
    assert(text == lead(pre) + trim_start(mid) + token + rest) by {
        assert(tail =~= mid + token + post);
        lemma_trimmed_round_reference(mid, token, post);
        lemma_joined_round_declaration(pre, trimmed(tail).push('\n'));
        assert(lead(pre) + trimmed(tail).push('\n') =~= lead(pre) + trim_start(mid) + token
            + rest);
    }
    law_reference_in_text(table, lead(pre) + trim_start(mid), id, c, rest);
    law_known_field_is_substituted(table, name, field, block_entity(block), value, Some(c));
    if marker_free(pre) && marker_free(mid) {
        lemma_trim_start_without_markers(mid);
        lemma_lead_without_markers(pre, trim_start(mid));
    }
}

} // verus!
