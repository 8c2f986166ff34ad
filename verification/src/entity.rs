//! Entities: the records that declarations compile to, and the table that
//! holds them by name.

use vstd::prelude::*;
use crate::text::string_views;

verus! {

/// The value of one field of an entity.
///
/// Only `Text` takes part in the resolution of references; of the other
/// kinds the engine keeps the tag alone.
#[derive(Debug, PartialEq, Eq)]
pub enum FieldValue {
    Null,
    Bool(bool),
    Number,
    Text(String),
    Array,
    Object,
}

/// The mathematical value of a [`FieldValue`].
pub enum FieldValueView {
    Null,
    Bool(bool),
    Number,
    Text(Seq<char>),
    Array,
    Object,
}

impl View for FieldValue {
    type V = FieldValueView;

    open spec fn view(&self) -> FieldValueView {
        match self {
            FieldValue::Null => FieldValueView::Null,
            FieldValue::Bool(b) => FieldValueView::Bool(*b),
            FieldValue::Number => FieldValueView::Number,
            FieldValue::Text(s) => FieldValueView::Text(s@),
            FieldValue::Array => FieldValueView::Array,
            FieldValue::Object => FieldValueView::Object,
        }
    }
}

/// A field of an entity: a name and a value.
#[derive(Debug, PartialEq, Eq)]
pub struct Field {
    pub name: String,
    pub value: FieldValue,
}

/// The mathematical value of a [`Field`].
pub struct FieldView {
    pub name: Seq<char>,
    pub value: FieldValueView,
}

impl View for Field {
    type V = FieldView;

    open spec fn view(&self) -> FieldView {
        FieldView { name: self.name@, value: self.value@ }
    }
}

/// The views of a list of fields.
pub open spec fn field_views(fields: Seq<Field>) -> Seq<FieldView> {
    fields.map_values(|f: Field| f@)
}

/// Whether `i` is the first place in `names` that holds `name`.
pub open spec fn first_at(names: Seq<Seq<char>>, name: Seq<char>, i: int) -> bool {
    &&& 0 <= i < names.len()
    &&& names[i] == name
    &&& forall|j: int| 0 <= j < i ==> names[j] != name
}

/// The first place in `names` that holds `name`, if there is one.
pub open spec fn first_index(names: Seq<Seq<char>>, name: Seq<char>) -> Option<int> {
    if exists|i: int| first_at(names, name, i) {
        Some(choose|i: int| first_at(names, name, i))
    } else {
        None
    }
}

/// The names of a list of fields, in order.
pub open spec fn field_names(fields: Seq<FieldView>) -> Seq<Seq<char>> {
    fields.map_values(|f: FieldView| f.name)
}

/// The value of the field called `name`, if there is such a field.
pub open spec fn field_value(fields: Seq<FieldView>, name: Seq<char>) -> Option<FieldValueView> {
    match first_index(field_names(fields), name) {
        Some(i) => Some(fields[i].value),
        None => None,
    }
}

/// The text of the field called `name`: present only where the field
/// exists and holds a string.
pub open spec fn field_text(fields: Seq<FieldView>, name: Seq<char>) -> Option<Seq<char>> {
    match field_value(fields, name) {
        Some(FieldValueView::Text(t)) => Some(t),
        _ => None,
    }
}

/// `fields` with `f` put in: in the place of the field of the same name, or
/// at the end where there is none.
pub open spec fn with_field(fields: Seq<FieldView>, f: FieldView) -> Seq<FieldView> {
    match first_index(field_names(fields), f.name) {
        Some(i) => fields.update(i, f),
        None => fields.push(f),
    }
}

/// The fields that putting in the items of `list` one after another leaves.
pub open spec fn fields_from(list: Seq<FieldView>) -> Seq<FieldView>
    decreases list.len(),
{
    if list.len() == 0 {
        Seq::empty()
    } else {
        with_field(fields_from(list.drop_last()), list.last())
    }
}

/// Whether no two places of `names` hold the same name.
pub open spec fn distinct(names: Seq<Seq<char>>) -> bool {
    forall|i: int, j: int| 0 <= i < j < names.len() ==> names[i] != names[j]
}

/// `names` after `name` is put in: as they are where `name` stands among
/// them, and with `name` at their end where it does not.
pub open spec fn put_name(names: Seq<Seq<char>>, name: Seq<char>) -> Seq<Seq<char>> {
    match first_index(names, name) {
        Some(_) => names,
        None => names.push(name),
    }
}

/// The place at which `name` stands once it is put into `names`.
pub open spec fn place_of(names: Seq<Seq<char>>, name: Seq<char>) -> int {
    match first_index(names, name) {
        Some(i) => i,
        None => names.len() as int,
    }
}

/// Whether `fields` are the fields of a record: no name occurs twice.
pub open spec fn is_record(fields: Seq<FieldView>) -> bool {
    distinct(field_names(fields))
}

/// A record: fields by name, in the order in which their names first came.
/// No name occurs twice: `is_record` holds of every entity.
#[derive(Debug, PartialEq, Eq)]
pub struct Entity {
    fields: Vec<Field>,
}

impl View for Entity {
    type V = Seq<FieldView>;

    closed spec fn view(&self) -> Seq<FieldView> {
        field_views(self.fields@)
    }
}

/// An entity under its name.
#[derive(Debug, PartialEq, Eq)]
pub struct Entry {
    pub name: String,
    pub entity: Entity,
}

/// The mathematical value of an [`Entry`].
pub struct EntryView {
    pub name: Seq<char>,
    pub fields: Seq<FieldView>,
}

impl View for Entry {
    type V = EntryView;

    open spec fn view(&self) -> EntryView {
        EntryView { name: self.name@, fields: self.entity@ }
    }
}

/// The views of a list of entries.
pub open spec fn entry_views(entries: Seq<Entry>) -> Seq<EntryView> {
    entries.map_values(|e: Entry| e@)
}

/// The names of a list of entries, in order.
pub open spec fn entry_names(entries: Seq<EntryView>) -> Seq<Seq<char>> {
    entries.map_values(|e: EntryView| e.name)
}

/// The fields of the entity called `name`, if the table holds one.
pub open spec fn entity_fields(entries: Seq<EntryView>, name: Seq<char>) -> Option<Seq<FieldView>> {
    match first_index(entry_names(entries), name) {
        Some(i) => Some(entries[i].fields),
        None => None,
    }
}

/// `entries` with `e` put in: in the place of the entity of the same name,
/// or at the end where there is none.
pub open spec fn with_entry(entries: Seq<EntryView>, e: EntryView) -> Seq<EntryView> {
    match first_index(entry_names(entries), e.name) {
        Some(i) => entries.update(i, e),
        None => entries.push(e),
    }
}

/// Whether `table` is a mapping of records: no name of an entity occurs
/// twice, and each entity is a record.
pub open spec fn is_mapping(table: Seq<EntryView>) -> bool {
    &&& distinct(entry_names(table))
    &&& forall|i: int| 0 <= i < table.len() ==> is_record(#[trigger] table[i].fields)
}

/// The entities of a document by name, in the order in which their names
/// first came. No name occurs twice: `is_mapping` holds of every table.
#[derive(Debug, PartialEq, Eq)]
pub struct EntityTable {
    entries: Vec<Entry>,
}

impl View for EntityTable {
    type V = Seq<EntryView>;

    closed spec fn view(&self) -> Seq<EntryView> {
        entry_views(self.entries@)
    }
}

impl Clone for FieldValue {
    /// A copy of the value.
    fn clone(&self) -> (r: FieldValue)
        ensures
            r == *self,
    {
        match self {
            FieldValue::Null => FieldValue::Null,
            FieldValue::Bool(b) => FieldValue::Bool(*b),
            FieldValue::Number => FieldValue::Number,
            FieldValue::Text(text) => FieldValue::Text(text.clone()),
            FieldValue::Array => FieldValue::Array,
            FieldValue::Object => FieldValue::Object,
        }
    }
}

impl Clone for Field {
    /// A copy of the field.
    fn clone(&self) -> (r: Field)
        ensures
            r == *self,
    {
        Field { name: self.name.clone(), value: self.value.clone() }
    }
}

impl Clone for Entity {
    /// A copy that holds the same fields.
    fn clone(&self) -> (r: Entity)
        ensures
            r@ == self@,
    {
        proof {
            use_type_invariant(self);
        }
        let mut fields: Vec<Field> = Vec::new();
        let mut i: usize = 0;
        while i < self.fields.len()
            invariant
                i <= self.fields.len(),
                fields@ == self.fields@.take(i as int),
            decreases self.fields.len() - i,
        {
            fields.push(self.fields[i].clone());
            assert(fields@ =~= self.fields@.take(i + 1));
            i += 1;
        }
        assert(fields@ =~= self.fields@);
        Entity { fields }
    }
}

impl Clone for Entry {
    /// A copy that holds the same entity under the same name.
    fn clone(&self) -> (r: Entry)
        ensures
            r@ == self@,
    {
        Entry { name: self.name.clone(), entity: self.entity.clone() }
    }
}

impl Clone for EntityTable {
    /// A copy that holds the same entities.
    fn clone(&self) -> (r: EntityTable)
        ensures
            r@ == self@,
    {
        proof {
            use_type_invariant(self);
        }
        let mut entries: Vec<Entry> = Vec::new();
        let mut i: usize = 0;
        while i < self.entries.len()
            invariant
                i <= self.entries.len(),
                entries.len() == i,
                entry_views(entries@) == entry_views(self.entries@).take(i as int),
            decreases self.entries.len() - i,
        {
            entries.push(self.entries[i].clone());
            assert(entry_views(entries@) =~= entry_views(self.entries@).take(i + 1));
            i += 1;
        }
        assert(entry_views(entries@) =~= entry_views(self.entries@));
        EntityTable { entries }
    }
}

/// What a list holds under a name.
trait Named {
    /// The name, as a text.
    spec fn key_view(&self) -> Seq<char>;

    /// The name.
    fn key(&self) -> (k: &String)
        ensures
            k@ == self.key_view(),
    ;
}

impl Named for Field {
    spec fn key_view(&self) -> Seq<char> {
        self.name@
    }

    fn key(&self) -> (k: &String) {
        &self.name
    }
}

impl Named for Entry {
    spec fn key_view(&self) -> Seq<char> {
        self.name@
    }

    fn key(&self) -> (k: &String) {
        &self.name
    }
}

/// The names of the items of a list, in order.
spec fn keys_of<T: Named>(items: Seq<T>) -> Seq<Seq<char>> {
    items.map_values(|item: T| item.key_view())
}

/// The place of the first item of `items` called `name`.
fn find<T: Named>(items: &Vec<T>, name: &String) -> (r: Option<usize>)
    ensures
        match r {
            Some(i) => i < items.len() && first_index(keys_of(items@), name@) == Some(i as int),
            None => first_index(keys_of(items@), name@) is None,
        },
{
    let ghost names = keys_of(items@);
    let mut i: usize = 0;
    while i < items.len()
        invariant
            i <= items.len(),
            names == keys_of(items@),
            forall|j: int| 0 <= j < i ==> names[j] != name@,
        decreases items.len() - i,
    {
        if *items[i].key() == *name {
            proof {
                assert(names[i as int] == name@);
                lemma_first_index_found(names, name@, i as int);
            }
            return Some(i);
        }
        i += 1;
    }
    proof {
        lemma_first_index_absent(names, name@);
    }
    None
}

impl Entity {
    /// No two fields have the same name.
    #[verifier::type_invariant]
    spec fn sound(&self) -> bool {
        is_record(field_views(self.fields@))
    }

    /// An entity without fields.
    pub fn new() -> (e: Entity)
        ensures
            e@ == Seq::<FieldView>::empty(),
            is_record(e@),
    {
        let e = Entity { fields: Vec::new() };
        assert(e@ =~= Seq::<FieldView>::empty());
        e
    }

    /// Gives the field `name` the value `value`, whether or not the entity
    /// had a field of that name.
    pub fn insert(&mut self, name: String, value: FieldValue)
        ensures
            final(self)@ == with_field(old(self)@, FieldView { name: name@, value: value@ }),
            is_record(final(self)@),
    {
        let ghost f = FieldView { name: name@, value: value@ };
        proof {
            use_type_invariant(&*self);
            lemma_names_with_field(self@, f);
            lemma_put_name(field_names(self@), name@, name@);
        }
        let mut taken = Entity::new();
        core::mem::swap(self, &mut taken);
        let mut fields = taken.fields;
        assert(keys_of(fields@) =~= field_names(field_views(fields@)));
        match find(&fields, &name) {
            Some(i) => {
                fields.set(i, Field { name, value });
                assert(field_views(fields@) =~= old(self)@.update(i as int, f));
            },
            None => {
                fields.push(Field { name, value });
                assert(field_views(fields@) =~= old(self)@.push(f));
            },
        }
        *self = Entity { fields };
    }

    /// The entity that putting in `fields` one after another gives.
    pub fn from_fields(fields: Vec<Field>) -> (e: Entity)
        ensures
            e@ == fields_from(field_views(fields@)),
            is_record(e@),
    {
        let mut e = Entity::new();
        let ghost all = field_views(fields@);
        assert(all.take(0) =~= Seq::<FieldView>::empty());
        for f in it: fields
            invariant
                all == field_views(it.seq()),
                e@ == fields_from(all.take(it.index() as int)),
                is_record(e@),
        {
            proof {
                let k = it.index() as int;
                assert(all.take(k + 1).drop_last() =~= all.take(k));
                assert(all.take(k + 1).last() == f@);
            }
            e.insert(f.name, f.value);
        }
        assert(all.take(all.len() as int) =~= all);
        e
    }

    /// The names of the fields, in order. No name comes twice.
    pub fn names(&self) -> (names: Vec<String>)
        ensures
            string_views(names@) == field_names(self@),
            distinct(string_views(names@)),
    {
        proof {
            use_type_invariant(self);
        }
        let mut names: Vec<String> = Vec::new();
        let mut i: usize = 0;
        while i < self.fields.len()
            invariant
                i <= self.fields.len(),
                names.len() == i,
                field_names(self@).len() == self.fields.len(),
                string_views(names@) == field_names(self@).take(i as int),
            decreases self.fields.len() - i,
        {
            names.push(self.fields[i].name.clone());
            assert(string_views(names@) =~= field_names(self@).take(i + 1));
            i += 1;
        }
        assert(field_names(self@).take(i as int) =~= field_names(self@));
        names
    }

    /// The number of fields.
    pub fn len(&self) -> (n: usize)
        ensures
            n == self@.len(),
            is_record(self@),
    {
        proof {
            use_type_invariant(self);
        }
        self.fields.len()
    }

    /// The field at place `i`.
    pub fn field(&self, i: usize) -> (f: &Field)
        requires
            i < self@.len(),
        ensures
            f@ == self@[i as int],
    {
        &self.fields[i]
    }
}

/// The text of the field `field` of `entity`: `None` where the entity has no
/// such field, and where the field holds anything but a string.
pub fn get_field_by_name(entity: &Entity, field: &str) -> (r: Option<String>)
    ensures
        match r {
            Some(text) => field_text(entity@, field@) == Some(text@),
            None => field_text(entity@, field@) is None,
        },
{
    let key = field.to_owned();
    assert(keys_of(entity.fields@) =~= field_names(entity@));
    match find(&entity.fields, &key) {
        Some(i) => match &entity.fields[i].value {
            FieldValue::Text(text) => Some(text.clone()),
            _ => None,
        },
        None => None,
    }
}

impl EntityTable {
    /// No two entities have the same name, and each entity is a record.
    #[verifier::type_invariant]
    spec fn sound(&self) -> bool {
        is_mapping(entry_views(self.entries@))
    }

    /// A table without entities.
    pub fn new() -> (t: EntityTable)
        ensures
            t@ == Seq::<EntryView>::empty(),
            is_mapping(t@),
    {
        let t = EntityTable { entries: Vec::new() };
        assert(t@ =~= Seq::<EntryView>::empty());
        t
    }

    /// Puts `entity` in under `name`; an entity that the table held under
    /// that name gives way to it.
    pub fn insert(&mut self, name: String, entity: Entity)
        ensures
            final(self)@ == with_entry(old(self)@, EntryView { name: name@, fields: entity@ }),
            is_mapping(final(self)@),
    {
        let ghost e = EntryView { name: name@, fields: entity@ };
        proof {
            use_type_invariant(&*self);
            use_type_invariant(&entity);
            lemma_with_entry_is_mapping(self@, e);
        }
        let mut taken = EntityTable::new();
        core::mem::swap(self, &mut taken);
        let mut entries = taken.entries;
        assert(keys_of(entries@) =~= entry_names(entry_views(entries@)));
        match find(&entries, &name) {
            Some(i) => {
                entries.set(i, Entry { name, entity });
                assert(entry_views(entries@) =~= old(self)@.update(i as int, e));
            },
            None => {
                entries.push(Entry { name, entity });
                assert(entry_views(entries@) =~= old(self)@.push(e));
            },
        }
        *self = EntityTable { entries };
    }

    /// The entity called `name`, if the table holds one.
    pub fn get(&self, name: &str) -> (r: Option<&Entity>)
        ensures
            match r {
                Some(entity) => entity_fields(self@, name@) == Some(entity@),
                None => entity_fields(self@, name@) is None,
            },
    {
        let key = name.to_owned();
        assert(keys_of(self.entries@) =~= entry_names(self@));
        match find(&self.entries, &key) {
            Some(i) => Some(&self.entries[i].entity),
            None => None,
        }
    }

    /// The number of entities.
    pub fn len(&self) -> (n: usize)
        ensures
            n == self@.len(),
            is_mapping(self@),
    {
        proof {
            use_type_invariant(self);
        }
        self.entries.len()
    }

    /// The entry at place `i`.
    pub fn entry(&self, i: usize) -> (e: &Entry)
        requires
            i < self@.len(),
        ensures
            e@ == self@[i as int],
    {
        &self.entries[i]
    }
}

/// The first place that holds a name is the only one that `first_index` gives.
pub proof fn lemma_first_index_found(names: Seq<Seq<char>>, name: Seq<char>, i: int)
    requires
        first_at(names, name, i),
    ensures
        first_index(names, name) == Some(i),
{
    let k = choose|k: int| first_at(names, name, k);
    assert(first_at(names, name, k));
    assert(k == i) by {
        if k < i {
            assert(names[k] != name);
        }
        if i < k {
            assert(names[i] != name);
        }
    }
}

/// A name that no place holds has no first index.
pub proof fn lemma_first_index_absent(names: Seq<Seq<char>>, name: Seq<char>)
    requires
        forall|j: int| 0 <= j < names.len() ==> names[j] != name,
    ensures
        first_index(names, name) is None,
{
    assert forall|i: int| !first_at(names, name, i) by {
        if 0 <= i < names.len() {
            assert(names[i] != name);
        }
    }
}

/// What `first_index` says of its result.
pub proof fn lemma_first_index_is_first(names: Seq<Seq<char>>, name: Seq<char>)
    ensures
        match first_index(names, name) {
            Some(i) => first_at(names, name, i),
            None => forall|j: int| 0 <= j < names.len() ==> names[j] != name,
        },
{
    if exists|i: int| first_at(names, name, i) {
        let k = choose|k: int| first_at(names, name, k);
        assert(first_at(names, name, k));
    } else {
        assert forall|j: int| 0 <= j < names.len() implies names[j] != name by {
            if names[j] == name {
                lemma_some_first(names, name, j);
            }
        }
    }
}

/// A name that some place holds has a first place.
proof fn lemma_some_first(names: Seq<Seq<char>>, name: Seq<char>, j: int)
    requires
        0 <= j < names.len(),
        names[j] == name,
    ensures
        exists|i: int| first_at(names, name, i),
    decreases j,
{
    if forall|k: int| 0 <= k < j ==> names[k] != name {
        assert(first_at(names, name, j));
    } else {
        let k = choose|k: int| 0 <= k < j && names[k] == name;
        lemma_some_first(names, name, k);
    }
}

/// What putting a name into a list of names does to the first places: the
/// name stands where it stood or at the end, every other name stands where
/// it stood, and names that differed still differ.
pub proof fn lemma_put_name(names: Seq<Seq<char>>, name: Seq<char>, other: Seq<char>)
    ensures
        0 <= place_of(names, name) <= names.len(),
        place_of(names, name) < put_name(names, name).len(),
        first_index(put_name(names, name), name) == Some(place_of(names, name)),
        other != name ==> first_index(put_name(names, name), other) == first_index(names, other),
        distinct(names) ==> distinct(put_name(names, name)),
{
    let after = put_name(names, name);
    lemma_first_index_is_first(names, name);
    lemma_first_index_is_first(names, other);
    match first_index(names, name) {
        Some(i) => {},
        None => {
            assert(first_at(after, name, names.len() as int));
            lemma_first_index_found(after, name, names.len() as int);
            if other != name {
                match first_index(names, other) {
                    Some(j) => {
                        assert(first_at(after, other, j));
                        lemma_first_index_found(after, other, j);
                    },
                    None => {
                        lemma_first_index_absent(after, other);
                    },
                }
            }
        },
    }
}

/// The names of fields after a field is put in.
pub proof fn lemma_names_with_field(fields: Seq<FieldView>, f: FieldView)
    ensures
        field_names(with_field(fields, f)) == put_name(field_names(fields), f.name),
        with_field(fields, f)[place_of(field_names(fields), f.name)] == f,
        forall|j: int|
            0 <= j < fields.len() && j != place_of(field_names(fields), f.name) ==> with_field(
                fields,
                f,
            )[j] == fields[j],
{
    lemma_put_name(field_names(fields), f.name, f.name);
    lemma_first_index_is_first(field_names(fields), f.name);
    assert(field_names(with_field(fields, f)) =~= put_name(field_names(fields), f.name));
}

/// The names of entities after an entity is put in.
pub proof fn lemma_names_with_entry(entries: Seq<EntryView>, e: EntryView)
    ensures
        entry_names(with_entry(entries, e)) == put_name(entry_names(entries), e.name),
        with_entry(entries, e)[place_of(entry_names(entries), e.name)] == e,
        forall|j: int|
            0 <= j < entries.len() && j != place_of(entry_names(entries), e.name) ==> with_entry(
                entries,
                e,
            )[j] == entries[j],
{
    lemma_put_name(entry_names(entries), e.name, e.name);
    lemma_first_index_is_first(entry_names(entries), e.name);
    assert(entry_names(with_entry(entries, e)) =~= put_name(entry_names(entries), e.name));
}

/// After `f` is put in, its name gives its value, and every other name
/// gives what it gave before.
pub proof fn lemma_with_field(fields: Seq<FieldView>, f: FieldView, name: Seq<char>)
    ensures
        field_value(with_field(fields, f), name) == if name == f.name {
            Some(f.value)
        } else {
            field_value(fields, name)
        },
{
    lemma_names_with_field(fields, f);
    lemma_put_name(field_names(fields), f.name, name);
    lemma_first_index_is_first(field_names(fields), name);
}

/// After `e` is put in, its name gives its fields, and every other name
/// gives what it gave before.
pub proof fn lemma_with_entry(entries: Seq<EntryView>, e: EntryView, name: Seq<char>)
    ensures
        entity_fields(with_entry(entries, e), name) == if name == e.name {
            Some(e.fields)
        } else {
            entity_fields(entries, name)
        },
{
    lemma_names_with_entry(entries, e);
    lemma_put_name(entry_names(entries), e.name, name);
    lemma_first_index_is_first(entry_names(entries), name);
}

/// A mapping of records is one still after a record is put in.
pub proof fn lemma_with_entry_is_mapping(entries: Seq<EntryView>, e: EntryView)
    requires
        is_mapping(entries),
        is_record(e.fields),
    ensures
        is_mapping(with_entry(entries, e)),
{
    let after = with_entry(entries, e);
    lemma_names_with_entry(entries, e);
    lemma_put_name(entry_names(entries), e.name, e.name);
    assert forall|i: int| 0 <= i < after.len() implies is_record(#[trigger] after[i].fields) by {
        if i != place_of(entry_names(entries), e.name) {
            assert(after[i] == entries[i]);
        }
    }
}

/// Whatever the list, the fields that it leaves are those of a record.
pub proof fn lemma_fields_from_is_record(list: Seq<FieldView>)
    ensures
        is_record(fields_from(list)),
    decreases list.len(),
{
    if list.len() > 0 {
        let before = fields_from(list.drop_last());
        lemma_fields_from_is_record(list.drop_last());
        lemma_names_with_field(before, list.last());
        lemma_put_name(field_names(before), list.last().name, list.last().name);
    }
}

} // verus!
