//! The entity compiler: from the blocks of a document to its table of
//! entities.
//!
//! A block is compiled by the crate `json5`. The k-th name of the document
//! goes with its k-th block, wherever in the document the two stand; a block
//! that does not compile leaves its name without an entity.

use vstd::prelude::*;
use crate::entity::{
    entity_fields, field_views, fields_from, is_mapping, is_record, lemma_fields_from_is_record,
    lemma_first_index_absent, lemma_with_entry, lemma_with_entry_is_mapping, entry_names,
    with_entry, Entity, EntityTable, EntryView, Field, FieldValue, FieldView,
};
use crate::text::string_views;

verus! {

/// The fields that the block `raw` holds, in the order in which `json5` and
/// `serde_json` hand them out, where `json5` accepts the block as an object.
pub uninterp spec fn block_fields(raw: Seq<char>) -> Seq<FieldView>;

/// The entity that the block `raw` compiles to, where it compiles.
pub open spec fn block_entity(raw: Seq<char>) -> Seq<FieldView> {
    fields_from(block_fields(raw))
}

/// Whether `compiled` can be what compiling `blocks` one by one gave: one
/// outcome for each block, and each entity that of its block.
pub open spec fn compiled_from(
    blocks: Seq<Seq<char>>,
    compiled: Seq<Option<Seq<FieldView>>>,
) -> bool {
    &&& compiled.len() == blocks.len()
    &&& forall|k: int|
        0 <= k < compiled.len() ==> (#[trigger] compiled[k] matches Some(fields) ==> fields
            == block_entity(blocks[k]))
}

/// The table that the first `n` names and outcomes give.
pub open spec fn table_upto(
    names: Seq<Seq<char>>,
    compiled: Seq<Option<Seq<FieldView>>>,
    n: nat,
) -> Seq<EntryView>
    decreases n,
{
    if n == 0 {
        Seq::empty()
    } else {
        let table = table_upto(names, compiled, (n - 1) as nat);
        match compiled[n - 1] {
            Some(fields) => with_entry(table, EntryView { name: names[n - 1], fields }),
            None => table,
        }
    }
}

/// How many names have a block.
pub open spec fn paired(names: int, blocks: int) -> nat {
    if names <= blocks {
        names as nat
    } else {
        blocks as nat
    }
}

/// The table of a document: each name with the outcome of the block at its
/// place, as far as both lists go. Of two entities of one name the later
/// one stays.
pub open spec fn table_of(
    names: Seq<Seq<char>>,
    compiled: Seq<Option<Seq<FieldView>>>,
) -> Seq<EntryView> {
    table_upto(names, compiled, paired(names.len() as int, compiled.len() as int))
}

/// The views of a list of outcomes.
pub open spec fn compiled_views(compiled: Seq<Option<Entity>>) -> Seq<Option<Seq<FieldView>>> {
    compiled.map_values(
        |c: Option<Entity>|
            match c {
                Some(e) => Some(e@),
                None => None,
            },
    )
}

/// `json5::from_str` of the crate `json5`, asked for a `serde_json::Map`.
///
/// Whether the call succeeds is not a matter of the text alone: the parser
/// below it, `pest`, gives up where the thread has little stack left, and
/// where a limit on its calls that holds for the whole process is reached.
/// So the contract says nothing of when a list comes back. Where one does,
/// it holds the fields of the object that the text denotes, in the order in
/// which the map hands them out, and those the text alone decides: they are
/// `block_fields` of it. Of a value that is no string the list keeps the
/// kind.
#[verifier::external_body]
fn parse_block(raw: &str) -> (r: Option<Vec<Field>>)
    ensures
        r matches Some(fields) ==> field_views(fields@) == block_fields(raw@),
{
    let object = json5::from_str::<serde_json::Map<String, serde_json::Value>>(raw).ok()?;
    Some(object.into_iter().map(|(name, value)| Field { name, value: match value {
        serde_json::Value::Null => FieldValue::Null,
        serde_json::Value::Bool(b) => FieldValue::Bool(b),
        serde_json::Value::Number(_) => FieldValue::Number,
        serde_json::Value::String(s) => FieldValue::Text(s),
        serde_json::Value::Array(_) => FieldValue::Array,
        serde_json::Value::Object(_) => FieldValue::Object,
    } }).collect())
}

/// Compiles one block. `None`: the block did not compile.
pub fn compile_block(raw: &str) -> (r: Option<Entity>)
    ensures
        r matches Some(e) ==> e@ == block_entity(raw@) && is_record(e@),
{
    match parse_block(raw) {
        Some(fields) => Some(Entity::from_fields(fields)),
        None => None,
    }
}

/// Builds the table from the names and the outcomes of their blocks.
pub fn build_table(names: &Vec<String>, compiled: Vec<Option<Entity>>) -> (table: EntityTable)
    ensures
        table@ == table_of(string_views(names@), compiled_views(compiled@)),
        is_mapping(table@),
{
    let ghost name_views = string_views(names@);
    let ghost outcomes = compiled_views(compiled@);
    let mut table = EntityTable::new();
    let mut k: usize = 0;
    let n = compiled.len();
    for outcome in it: compiled
        invariant
            k == it.index(),
            it.seq().len() == n,
            outcomes == compiled_views(it.seq()),
            name_views == string_views(names@),
            table@ == table_upto(name_views, outcomes, paired(names.len() as int, k as int)),
            is_mapping(table@),
    {
        if k < names.len() {
            assert(outcomes[k as int] == match outcome {
                Some(e) => Some(e@),
                None => None,
            });
            if let Some(entity) = outcome {
                table.insert(names[k].clone(), entity);
            }
        }
        k += 1;
    }
    table
}

/// Compiles the blocks of a document and builds its table.
///
/// Only a block that has a name is compiled. Which blocks compile is for
/// `json5` to say: the table is the one that `table_of` gives for some
/// outcomes that `compiled_from` admits.
pub fn compile_entities(names: &Vec<String>, blocks: &Vec<String>) -> (table: EntityTable)
    ensures
        exists|compiled: Seq<Option<Seq<FieldView>>>|
            compiled_from(
                string_views(blocks@).take(paired(names.len() as int, blocks.len() as int) as int),
                compiled,
            ) && table@ == #[trigger] table_of(string_views(names@), compiled),
        is_mapping(table@),
{
    let n = if names.len() <= blocks.len() {
        names.len()
    } else {
        blocks.len()
    };
    let ghost block_views = string_views(blocks@);
    let mut compiled: Vec<Option<Entity>> = Vec::new();
    let mut k: usize = 0;
    while k < n
        invariant
            k <= n <= blocks.len(),
            block_views == string_views(blocks@),
            compiled.len() == k,
            compiled_from(block_views.take(k as int), compiled_views(compiled@)),
        decreases n - k,
    {
        let ghost before = compiled_views(compiled@);
        let outcome = compile_block(blocks[k].as_str());
        compiled.push(outcome);
        proof {
            let after = compiled_views(compiled@);
            assert(after[k as int] == match outcome {
                Some(e) => Some(e@),
                None => None,
            });
            assert forall|j: int| 0 <= j < k + 1 implies (#[trigger] after[j] matches Some(fields)
                ==> fields == block_entity(block_views.take(k + 1)[j])) by {
                if j < k {
                    assert(after[j] == before[j]);
                    assert(block_views.take(k + 1)[j] == block_views.take(k as int)[j]);
                }
            }
        }
        k += 1;
    }
    build_table(names, compiled)
}

/// Among the first `n` names, the entity of a name is the outcome at the
/// last place where the name stands and its block compiled.
pub proof fn lemma_table_upto(
    names: Seq<Seq<char>>,
    compiled: Seq<Option<Seq<FieldView>>>,
    n: nat,
    k: int,
)
    requires
        0 <= k < n,
        compiled[k] is Some,
        forall|j: int| k < j < n && names[j] == names[k] ==> compiled[j] is None,
    ensures
        entity_fields(table_upto(names, compiled, n), names[k]) == compiled[k],
    decreases n,
{
    let before = table_upto(names, compiled, (n - 1) as nat);
    match compiled[n - 1] {
        Some(fields) => {
            lemma_with_entry(before, EntryView { name: names[n - 1], fields }, names[k]);
            if k < n - 1 {
                lemma_table_upto(names, compiled, (n - 1) as nat, k);
            }
        },
        None => {
            lemma_table_upto(names, compiled, (n - 1) as nat, k);
        },
    }
}

/// Among the first `n` names, a name none of whose blocks compiled has no
/// entity.
pub proof fn lemma_table_upto_without(
    names: Seq<Seq<char>>,
    compiled: Seq<Option<Seq<FieldView>>>,
    n: nat,
    name: Seq<char>,
)
    requires
        forall|j: int| 0 <= j < n && names[j] == name ==> compiled[j] is None,
    ensures
        entity_fields(table_upto(names, compiled, n), name) is None,
    decreases n,
{
    if n == 0 {
        lemma_first_index_absent(entry_names(Seq::<EntryView>::empty()), name);
    } else {
        let before = table_upto(names, compiled, (n - 1) as nat);
        lemma_table_upto_without(names, compiled, (n - 1) as nat, name);
        match compiled[n - 1] {
            Some(fields) => {
                lemma_with_entry(before, EntryView { name: names[n - 1], fields }, name);
            },
            None => {},
        }
    }
}

/// The table of the first `n` names is a mapping of records, where the
/// entities are what blocks compiled to.
pub proof fn lemma_table_upto_is_mapping(
    names: Seq<Seq<char>>,
    blocks: Seq<Seq<char>>,
    compiled: Seq<Option<Seq<FieldView>>>,
    n: nat,
)
    requires
        compiled_from(blocks, compiled),
        n <= compiled.len(),
    ensures
        is_mapping(table_upto(names, compiled, n)),
    decreases n,
{
    if n > 0 {
        let before = table_upto(names, compiled, (n - 1) as nat);
        lemma_table_upto_is_mapping(names, blocks, compiled, (n - 1) as nat);
        match compiled[n - 1] {
            Some(fields) => {
                lemma_fields_from_is_record(block_fields(blocks[n - 1]));
                lemma_with_entry_is_mapping(before, EntryView { name: names[n - 1], fields });
            },
            None => {},
        }
    }
}

} // verus!
