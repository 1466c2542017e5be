use vstd::prelude::*;
use crate::keymap::KeyMap;

verus! {

/// One field of a stored JSON object. Values that the logic does not read
/// field by field are kept whole, as their JSON text.
pub enum JsonField {
    Null,
    Bool(bool),
    Str(String),
    /// An array whose items are all strings.
    Strs(Vec<String>),
    /// Any other JSON value, as text.
    Other(String),
}

pub enum FieldModel {
    Null,
    Bool(bool),
    Str(Seq<char>),
    Strs(Seq<Seq<char>>),
    Other(Seq<char>),
}

pub open spec fn strings_view(v: Seq<String>) -> Seq<Seq<char>> {
    v.map_values(|s: String| s@)
}

impl View for JsonField {
    type V = FieldModel;

    open spec fn view(&self) -> FieldModel {
        match self {
            JsonField::Null => FieldModel::Null,
            JsonField::Bool(b) => FieldModel::Bool(*b),
            JsonField::Str(s) => FieldModel::Str(s@),
            JsonField::Strs(v) => FieldModel::Strs(strings_view(v@)),
            JsonField::Other(t) => FieldModel::Other(t@),
        }
    }
}

/// A copy of a list of strings.
pub fn copy_strings(v: &Vec<String>) -> (r: Vec<String>)
    ensures
        strings_view(r@) == strings_view(v@),
{
    let mut r: Vec<String> = Vec::new();
    let mut i: usize = 0;
    while i < v.len()
        invariant
            i <= v@.len(),
            r@.len() == i,
            forall|j: int| 0 <= j < i ==> r@[j]@ == #[trigger] v@[j]@,
        decreases v@.len() - i,
    {
        r.push(v[i].clone());
        i = i + 1;
    }
    assert(strings_view(r@) =~= strings_view(v@));
    r
}

impl JsonField {
    pub fn copy(&self) -> (r: JsonField)
        ensures
            r@ == self@,
    {
        match self {
            JsonField::Null => JsonField::Null,
            JsonField::Bool(b) => JsonField::Bool(*b),
            JsonField::Str(s) => JsonField::Str(s.clone()),
            JsonField::Strs(v) => JsonField::Strs(copy_strings(v)),
            JsonField::Other(t) => JsonField::Other(t.clone()),
        }
    }
}

/// One member of a stored map: an object read field by field, or any other
/// JSON value kept as text.
pub enum StoredEntry {
    Object(KeyMap<JsonField>),
    Other(String),
}

pub enum EntryModel {
    Object(Seq<(Seq<char>, FieldModel)>),
    Other(Seq<char>),
}

impl View for StoredEntry {
    type V = EntryModel;

    open spec fn view(&self) -> EntryModel {
        match self {
            StoredEntry::Object(m) => EntryModel::Object(m.pairs()),
            StoredEntry::Other(t) => EntryModel::Other(t@),
        }
    }
}

/// A value under one key of the configuration store: an object whose members
/// are read one by one, or any other JSON value kept as text.
pub enum StoredValue {
    Object(KeyMap<StoredEntry>),
    Other(String),
}

pub enum ValueModel {
    Object(Seq<(Seq<char>, EntryModel)>),
    Other(Seq<char>),
}

impl View for StoredValue {
    type V = ValueModel;

    open spec fn view(&self) -> ValueModel {
        match self {
            StoredValue::Object(m) => ValueModel::Object(m.pairs()),
            StoredValue::Other(t) => ValueModel::Other(t@),
        }
    }
}

} // verus!
