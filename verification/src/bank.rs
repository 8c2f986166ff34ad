//! The object bank: for each entity of a document the names of its fields.

use vstd::prelude::*;
use crate::entity::{
    distinct, entry_names, field_names, is_mapping, is_record, EntityTable, EntryView,
};
use crate::text::string_views;

verus! {

/// The names of the fields of one entity.
#[derive(Clone, Debug, PartialEq, Eq)]
pub struct BankEntry {
    pub name: String,
    pub fields: Vec<String>,
}

/// The mathematical value of a [`BankEntry`].
pub struct BankEntryView {
    pub name: Seq<char>,
    pub fields: Seq<Seq<char>>,
}

impl View for BankEntry {
    type V = BankEntryView;

    open spec fn view(&self) -> BankEntryView {
        BankEntryView { name: self.name@, fields: string_views(self.fields@) }
    }
}

/// The views of a list of bank entries.
pub open spec fn bank_views(bank: Seq<BankEntry>) -> Seq<BankEntryView> {
    bank.map_values(|e: BankEntry| e@)
}

/// The object bank of a table: its entities in order, each with the names
/// of its fields in order, the values left out.
pub open spec fn bank_of(table: Seq<EntryView>) -> Seq<BankEntryView> {
    table.map_values(|e: EntryView| BankEntryView { name: e.name, fields: field_names(e.fields) })
}

/// Whether `bank` is an index: it names each entity once, and under an
/// entity each of its fields once.
pub open spec fn is_index(bank: Seq<BankEntryView>) -> bool {
    &&& forall|i: int, j: int| 0 <= i < j < bank.len() ==> bank[i].name != bank[j].name
    &&& forall|i: int| 0 <= i < bank.len() ==> distinct(#[trigger] bank[i].fields)
}

/// The object bank of `table`: its entities in order, each with the names of
/// its fields in order. No name comes twice.
pub fn object_bank(table: &EntityTable) -> (bank: Vec<BankEntry>)
    ensures
        bank_views(bank@) == bank_of(table@),
        is_index(bank_views(bank@)),
{
    let mut bank: Vec<BankEntry> = Vec::new();
    let mut i: usize = 0;
    let n = table.len();
    proof {
        lemma_bank_is_index(table@);
    }
    while i < n
        invariant
            n == table@.len(),
            i <= n,
            bank.len() == i,
            bank_views(bank@) == bank_of(table@).take(i as int),
        decreases n - i,
    {
        let entry = table.entry(i);
        bank.push(BankEntry { name: entry.name.clone(), fields: entry.entity.names() });
        assert(bank_views(bank@) =~= bank_of(table@).take(i + 1));
        i += 1;
    }
    assert(bank_of(table@).take(i as int) =~= bank_of(table@));
    bank
}

/// The object bank of a mapping of records is an index.
pub proof fn lemma_bank_is_index(table: Seq<EntryView>)
    requires
        is_mapping(table),
    ensures
        is_index(bank_of(table)),
{
    let bank = bank_of(table);
    assert forall|i: int, j: int| 0 <= i < j < bank.len() implies bank[i].name != bank[j].name by {
        assert(entry_names(table)[i] != entry_names(table)[j]);
    }
    assert forall|i: int| 0 <= i < bank.len() implies distinct(#[trigger] bank[i].fields) by {
        assert(is_record(table[i].fields));
    }
}

} // verus!
