//! The engine: from a document to its resolved text and its object bank.

use vstd::prelude::*;
use crate::bank::{bank_of, bank_views, is_index, object_bank, BankEntry, BankEntryView};
use crate::compiler::{compile_entities, compiled_from, paired, table_of};
use crate::entity::{EntryView, FieldView};
use crate::resolver::{resolve_references, resolved};
use crate::scanner::{scan, scan_declarations};

verus! {

/// A resolved document.
#[derive(Clone, Debug, PartialEq, Eq)]
pub struct Resolved {
    /// The text, each reference resolved.
    pub text: String,
    /// For each entity of the document the names of its fields.
    pub object_bank: Vec<BankEntry>,
}

/// The blocks of the document `doc` that have a name, in order.
pub open spec fn named_blocks(doc: Seq<char>) -> Seq<Seq<char>> {
    scan(doc).blocks.take(
        paired(scan(doc).names.len() as int, scan(doc).blocks.len() as int) as int,
    )
}

/// The table of the document `doc`, where compiling its blocks gave
/// `compiled`.
pub open spec fn document_table(
    doc: Seq<char>,
    compiled: Seq<Option<Seq<FieldView>>>,
) -> Seq<EntryView> {
    table_of(scan(doc).names, compiled)
}

/// The resolved text of the document `doc`, where compiling its blocks gave
/// `compiled`.
pub open spec fn resolved_text(
    doc: Seq<char>,
    compiled: Seq<Option<Seq<FieldView>>>,
) -> Seq<char> {
    resolved(document_table(doc, compiled), scan(doc).segments)
}

/// The object bank of the document `doc`, where compiling its blocks gave
/// `compiled`.
pub open spec fn document_bank(
    doc: Seq<char>,
    compiled: Seq<Option<Seq<FieldView>>>,
) -> Seq<BankEntryView> {
    bank_of(document_table(doc, compiled))
}

/// Resolves a document.
///
/// The document is scanned, the blocks that have a name are compiled, and
/// the references in the text are resolved against the entities. Which
/// blocks compile is for the compiler to say: the text and the object bank
/// are those that `resolved_text` and `document_bank` give for some outcomes
/// that `compiled_from` admits for the named blocks. Whatever they are, the
/// object bank names each entity once, and each of its fields once.
pub fn parse_text(text_to_parse: &str) -> (r: Resolved)
    ensures
        exists|compiled: Seq<Option<Seq<FieldView>>>|
            #![trigger document_table(text_to_parse@, compiled)]
            {
                &&& compiled_from(named_blocks(text_to_parse@), compiled)
                &&& r.text@ == resolved_text(text_to_parse@, compiled)
                &&& bank_views(r.object_bank@) == document_bank(text_to_parse@, compiled)
            },
        is_index(bank_views(r.object_bank@)),
{
    let parts = scan_declarations(text_to_parse);
    let table = compile_entities(&parts.names, &parts.blocks);
    let text = resolve_references(&parts.segments, &table);
    let object_bank = object_bank(&table);
    proof {
        let compiled = choose|compiled: Seq<Option<Seq<FieldView>>>|
            compiled_from(named_blocks(text_to_parse@), compiled) && table@ == #[trigger] table_of(
                parts@.names,
                compiled,
            );
        assert(table@ == document_table(text_to_parse@, compiled));
    }
    Resolved { text, object_bank }
}

} // verus!
