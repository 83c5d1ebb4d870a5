//! Localised text: the three string tables of a plugin.
use std::collections::BTreeMap;
use vstd::prelude::*;
use vstd::std_specs::btree::*;

verus! {

/// Which string table an id belongs to.
#[derive(Debug, Clone, Copy, PartialEq, Eq, Structural)]
pub enum StringKind {
    Strings,
    DlStrings,
    IlStrings,
}

/// The three string tables, each from id to text.
#[derive(Debug)]
pub struct Localization {
    pub strings: BTreeMap<u32, String>,
    pub dlstrings: BTreeMap<u32, String>,
    pub ilstrings: BTreeMap<u32, String>,
}

/// The text that `table` gives to `id`.
pub open spec fn table_text(table: Map<u32, String>, id: u32) -> Option<Seq<char>> {
    if table.contains_key(id) {
        Some(table[id]@)
    } else {
        None
    }
}

impl Localization {
    /// The text of `id` in the table `kind`.
    pub open spec fn text_of(&self, kind: StringKind, id: u32) -> Option<Seq<char>> {
        match kind {
            StringKind::Strings => table_text(self.strings@, id),
            StringKind::DlStrings => table_text(self.dlstrings@, id),
            StringKind::IlStrings => table_text(self.ilstrings@, id),
        }
    }

    /// The text of `id` in the table `kind`.
    pub fn lookup(&self, kind: StringKind, id: u32) -> (r: Option<&str>)
        ensures
            match r {
                Some(s) => self.text_of(kind, id) == Some(s@),
                None => self.text_of(kind, id) is None,
            },
    {
        let table: &BTreeMap<u32, String> = match kind {
            StringKind::Strings => &self.strings,
            StringKind::DlStrings => &self.dlstrings,
            StringKind::IlStrings => &self.ilstrings,
        };
        match table.get(&id) {
            Some(s) => Some(s.as_str()),
            None => None,
        }
    }
}

} // verus!
