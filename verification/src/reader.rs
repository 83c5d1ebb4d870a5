//! Records in memory.
use crate::error::Error;
use crate::format::{le4, read_u32, Signature};
use crate::formid::FormId;
use crate::text::{
    before_nul, chars_of, find_char, find_in, find_nul, from_lossy, from_utf8, lossy,
    skip_whitespace, str_eq, string_of, trim_front,
};
use std::collections::BTreeMap;
use vstd::prelude::*;
use vstd::slice::slice_subrange;
use vstd::utf8::*;

verus! {

/// A subrecord: its tag, its bytes and its place in the record.
#[derive(Debug)]
pub struct OwnedSubrecord {
    pub signature: Signature,
    pub data: Vec<u8>,
    pub doc_index: usize,
}

/// A subrecord as mathematics.
pub struct Sub {
    pub sig: Seq<char>,
    pub data: Seq<u8>,
    pub doc: int,
}

impl View for OwnedSubrecord {
    type V = Sub;

    open spec fn view(&self) -> Sub {
        Sub { sig: self.signature.text(), data: self.data@, doc: self.doc_index as int }
    }
}

/// Subrecords as mathematics.
pub open spec fn subs(list: Seq<OwnedSubrecord>) -> Seq<Sub> {
    list.map_values(|s: OwnedSubrecord| s@)
}

/// Where a record lies in its file, and what it is.
#[derive(Debug, Clone, Copy)]
pub struct RecordMeta {
    pub offset: u64,
    pub signature: Signature,
    pub flags: u32,
    pub form_version: u16,
}

/// The header of a record as it is presented.
#[derive(Debug, Clone)]
pub struct RecordHeaderInfo {
    pub signature: String,
    pub form_id: FormId,
    pub flags: u32,
    pub form_version: u16,
}

/// A record with its subrecords.
#[derive(Debug)]
pub struct ParsedRecord {
    pub header: RecordHeaderInfo,
    pub subrecords: Vec<OwnedSubrecord>,
}

/// The position of the first subrecord with signature `sig`, or the length.
pub open spec fn find_sig(list: Seq<Sub>, sig: Seq<char>) -> int
    decreases list.len(),
{
    if list.len() == 0 || list[0].sig == sig {
        0
    } else {
        1 + find_sig(list.drop_first(), sig)
    }
}

/// The first subrecord with signature `sig`.
pub open spec fn first_sig(list: Seq<Sub>, sig: Seq<char>) -> Option<Sub> {
    let i = find_sig(list, sig);
    if 0 <= i < list.len() {
        Some(list[i])
    } else {
        None
    }
}

/// The search for a signature ends at an entry with it, or at the end.
pub proof fn lemma_find_sig(list: Seq<Sub>, sig: Seq<char>)
    ensures
        0 <= find_sig(list, sig) <= list.len(),
        find_sig(list, sig) < list.len() ==> list[find_sig(list, sig)].sig == sig,
        forall|j: int| 0 <= j < find_sig(list, sig) ==> (#[trigger] list[j]).sig != sig,
    decreases list.len(),
{
    if !(list.len() == 0 || list[0].sig == sig) {
        lemma_find_sig(list.drop_first(), sig);
        assert forall|j: int| 0 <= j < find_sig(list, sig) implies (#[trigger] list[j]).sig
            != sig by {
            if j > 0 {
                assert(list[j] == list.drop_first()[j - 1]);
            }
        }
    }
}

/// The position of the first subrecord with signature `sig`, or the length.
pub fn find_subrecord(list: &Vec<OwnedSubrecord>, sig: &str) -> (i: usize)
    ensures
        i <= list.len(),
        i == find_sig(subs(list@), sig@),
        i < list.len() ==> subs(list@)[i as int].sig == sig@,
{
    let mut i: usize = 0;
    let ghost all = subs(list@);
    assert(all.skip(0) =~= all);
    while i < list.len()
        invariant
            i <= list.len(),
            all == subs(list@),
            find_sig(all, sig@) == i + find_sig(all.skip(i as int), sig@),
        decreases list.len() - i,
    {
        assert(all.skip(i as int)[0] == list@[i as int]@);
        if str_eq(list[i].signature.as_str(), sig) {
            return i;
        }
        assert(all.skip(i as int).drop_first() =~= all.skip(i + 1));
        i += 1;
    }
    i
}

/// Text stored inline: the part before the first zero byte, without an
/// `<ID=...>` marker in front.
pub open spec fn inline_text(data: Seq<u8>) -> Seq<char> {
    strip_marker(lossy(before_nul(data)))
}

/// `s` without a leading `<ID=...>` marker and the white space after it.
pub open spec fn strip_marker(s: Seq<char>) -> Seq<char> {
    let close = find_char(s, '>');
    if s.len() >= 4 && s[0] == '<' && s[1] == 'I' && s[2] == 'D' && s[3] == '=' && 0 <= close
        < s.len() {
        trim_front(s.skip(close + 1))
    } else {
        s
    }
}

/// Text stored inline.
pub fn read_inline(data: &[u8]) -> (s: String)
    ensures
        s@ == inline_text(data@),
{
    let n: usize = find_nul(data);
    let part = slice_subrange(data, 0, n);
    assert(part@ =~= data@.take(n as int));
    let raw = from_lossy(part);
    let v = chars_of(&raw);
    assert(v@.skip(0) =~= v@);
    let close: usize = find_in(&v, 0, '>');
    if v.len() >= 4 && v[0] == '<' && v[1] == 'I' && v[2] == 'D' && v[3] == '=' && close
        < v.len() {
        let i: usize = skip_whitespace(&v, close + 1);
        let s = string_of(&v, i, v.len());
        assert(s@ =~= v@.skip(i as int));
        s
    } else {
        raw
    }
}

/// The text of the bytes before the first zero, where they are UTF-8.
pub open spec fn editor_text(data: Seq<u8>) -> Option<Seq<char>> {
    if valid_utf8(before_nul(data)) {
        Some(decode_utf8(before_nul(data)))
    } else {
        None
    }
}

/// The text of the bytes before the first zero, where they are UTF-8.
pub fn read_editor_text(data: &[u8]) -> (r: Option<String>)
    ensures
        match r {
            Some(s) => editor_text(data@) == Some(s@),
            None => editor_text(data@) is None,
        },
{
    let n: usize = find_nul(data);
    let part = slice_subrange(data, 0, n);
    assert(part@ =~= data@.take(n as int));
    match from_utf8(part) {
        Some(s) => Some(s.to_owned()),
        None => None,
    }
}

/// The EditorID among `list`.
pub open spec fn edid_of(list: Seq<Sub>) -> Option<Seq<char>> {
    match first_sig(list, "EDID"@) {
        Some(s) => editor_text(s.data),
        None => None,
    }
}

/// The string id that the subrecord `sig` holds.
pub open spec fn lstring_id_of(list: Seq<Sub>, sig: Seq<char>) -> Option<u32> {
    match first_sig(list, sig) {
        Some(s) => if s.data.len() >= 4 {
            Some(le4(s.data, 0) as u32)
        } else {
            None
        },
        None => None,
    }
}

/// The inline text that the subrecord `sig` holds, unless it is empty.
pub open spec fn inline_string_of(list: Seq<Sub>, sig: Seq<char>) -> Option<Seq<char>> {
    match first_sig(list, sig) {
        Some(s) => if inline_text(s.data).len() > 0 {
            Some(inline_text(s.data))
        } else {
            None
        },
        None => None,
    }
}

/// The EditorID among `list`.
pub fn edid_from_subrecords(list: &Vec<OwnedSubrecord>) -> (r: Option<String>)
    ensures
        match r {
            Some(s) => edid_of(subs(list@)) == Some(s@),
            None => edid_of(subs(list@)) is None,
        },
{
    let i: usize = find_subrecord(list, "EDID");
    if i < list.len() {
        read_editor_text(&list[i].data)
    } else {
        None
    }
}

/// The string id that the subrecord `sig` holds.
pub fn lstring_id_from_subrecords(list: &Vec<OwnedSubrecord>, sig: &str) -> (r: Option<u32>)
    ensures
        r == lstring_id_of(subs(list@), sig@),
{
    let i: usize = find_subrecord(list, sig);
    if i < list.len() && list[i].data.len() >= 4 {
        Some(read_u32(&list[i].data, 0))
    } else {
        None
    }
}

/// The inline text that the subrecord `sig` holds, unless it is empty.
pub fn inline_string_from_subrecords(list: &Vec<OwnedSubrecord>, sig: &str) -> (r: Option<String>)
    ensures
        match r {
            Some(s) => inline_string_of(subs(list@), sig@) == Some(s@),
            None => inline_string_of(subs(list@), sig@) is None,
        },
{
    let i: usize = find_subrecord(list, sig);
    if i < list.len() {
        let s = read_inline(&list[i].data);
        if s.as_str().is_empty() {
            None
        } else {
            Some(s)
        }
    } else {
        None
    }
}

// ── Files in memory ────────────────────────────────────────────────────────
/// A record as a file holds it.
#[derive(Debug)]
pub struct StoredRecord {
    pub meta: RecordMeta,
    /// The record's data, decompressed.
    pub payload: Vec<u8>,
    /// The record itself, unless its data is damaged.
    pub record: Option<ParsedRecord>,
}

/// A plugin file in memory: its bytes, its records by offset, and their
/// offsets in the order of the file.
#[derive(Debug)]
pub struct EsmFile {
    pub path: String,
    pub data: Vec<u8>,
    pub order: Vec<u64>,
    pub records: BTreeMap<u64, StoredRecord>,
}

/// The record at `offset`, where it can be read.
pub open spec fn record_at(records: Map<u64, StoredRecord>, offset: u64) -> Option<ParsedRecord> {
    if records.contains_key(offset) {
        records[offset].record
    } else {
        None
    }
}

impl EsmFile {
    /// The record at `offset`.
    pub open spec fn at(&self, offset: u64) -> Option<ParsedRecord> {
        record_at(self.records@, offset)
    }

    /// Reads the record at `offset`.
    pub fn parse_record_at(&self, offset: u64) -> (r: Result<&ParsedRecord, Error>)
        ensures
            match r {
                Ok(p) => self.at(offset) == Some(*p),
                Err(e) => self.at(offset) is None && e == Error::Unreadable(offset),
            },
    {
        match self.records.get(&offset) {
            Some(s) => match &s.record {
                Some(p) => Ok(p),
                None => Err(Error::Unreadable(offset)),
            },
            None => Err(Error::Unreadable(offset)),
        }
    }

    /// The data of the record at `offset`.
    pub fn record_payload_at(&self, offset: u64) -> (r: Result<&Vec<u8>, Error>)
        ensures
            match r {
                Ok(p) => self.records@.contains_key(offset) && self.records@[offset].payload == *p,
                Err(e) => !self.records@.contains_key(offset) && e == Error::Unreadable(offset),
            },
    {
        match self.records.get(&offset) {
            Some(s) => Ok(&s.payload),
            None => Err(Error::Unreadable(offset)),
        }
    }
}

} // verus!
