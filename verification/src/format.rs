//! The fixed-size headers of the file format. All integers are little-endian.
use crate::error::Error;
use crate::text::from_utf8;
use vstd::prelude::*;
use vstd::utf8::*;

verus! {

pub const HEADER_SIZE: u64 = 24;

pub const SUBRECORD_HEADER_SIZE: usize = 6;

pub const COMPRESSED_FLAG: u32 = 0x0004_0000;

pub const TES4_SIG: [u8; 4] = [84, 69, 83, 52];

pub const GRUP_SIG: [u8; 4] = [71, 82, 85, 80];

pub const XXXX_SIG: [u8; 4] = [88, 88, 88, 88];

/// The two-byte integer at `pos`.
pub open spec fn le2(data: Seq<u8>, pos: int) -> int {
    data[pos] + 256 * data[pos + 1]
}

/// The four-byte integer at `pos`.
pub open spec fn le4(data: Seq<u8>, pos: int) -> int {
    le2(data, pos) + 65536 * le2(data, pos + 2)
}

/// The eight-byte integer at `pos`.
pub open spec fn le8(data: Seq<u8>, pos: int) -> int {
    le4(data, pos) + 0x1_0000_0000 * le4(data, pos + 4)
}

/// The signed number with the two's complement pattern `n` of `bits` bits.
pub open spec fn signed(n: int, half: int) -> int {
    if n >= half {
        n - 2 * half
    } else {
        n
    }
}

/// Reads the two-byte integer at `pos`.
pub fn read_u16(data: &[u8], pos: usize) -> (r: u16)
    requires
        pos + 2 <= data.len(),
    ensures
        r as int == le2(data@, pos as int),
{
    data[pos] as u16 + 256 * (data[pos + 1] as u16)
}

/// Reads the four-byte integer at `pos`.
pub fn read_u32(data: &[u8], pos: usize) -> (r: u32)
    requires
        pos + 4 <= data.len(),
    ensures
        r as int == le4(data@, pos as int),
{
    read_u16(data, pos) as u32 + 65536 * (read_u16(data, pos + 2) as u32)
}

/// Reads the eight-byte integer at `pos`.
pub fn read_u64(data: &[u8], pos: usize) -> (r: u64)
    requires
        pos + 8 <= data.len(),
    ensures
        r as int == le8(data@, pos as int),
{
    read_u32(data, pos) as u64 + 0x1_0000_0000 * (read_u32(data, pos + 4) as u64)
}

/// Reads the signed four-byte integer at `pos`.
pub fn read_i32(data: &[u8], pos: usize) -> (r: i32)
    requires
        pos + 4 <= data.len(),
    ensures
        r as int == signed(le4(data@, pos as int), 0x8000_0000),
{
    let n: u32 = read_u32(data, pos);
    if n >= 0x8000_0000 {
        (n as i64 - 0x1_0000_0000) as i32
    } else {
        n as i32
    }
}

/// A four-byte type tag.
#[derive(Debug, Clone, Copy, PartialEq, Eq, Hash, PartialOrd, Ord)]
pub struct Signature(pub [u8; 4]);

/// The text of four tag bytes: empty when they are not UTF-8.
pub open spec fn tag_text(bytes: Seq<u8>) -> Seq<char> {
    if valid_utf8(bytes) {
        decode_utf8(bytes)
    } else {
        Seq::empty()
    }
}

/// The first four bytes of `s`, filled up with zeros.
pub open spec fn tag_bytes(s: Seq<u8>) -> Seq<u8> {
    Seq::new(
        4,
        |i: int|
            if 0 <= i < s.len() {
                s[i]
            } else {
                0u8
            },
    )
}

impl Signature {
    /// The tag as text.
    pub open spec fn text(&self) -> Seq<char> {
        tag_text(self.0@)
    }

    /// The first four bytes of `s`, filled up with zeros.
    pub fn from_slice(s: &[u8]) -> (r: Signature)
        ensures
            r.0@ == tag_bytes(s@),
    {
        let a: u8 = if s.len() > 0 {
            s[0]
        } else {
            0
        };
        let b: u8 = if s.len() > 1 {
            s[1]
        } else {
            0
        };
        let c: u8 = if s.len() > 2 {
            s[2]
        } else {
            0
        };
        let d: u8 = if s.len() > 3 {
            s[3]
        } else {
            0
        };
        let r = Signature([a, b, c, d]);
        assert(r.0@ =~= tag_bytes(s@));
        r
    }

    /// Whether two tags have the same bytes.
    pub fn same(&self, other: &Signature) -> (b: bool)
        ensures
            b == (self.0@ == other.0@),
    {
        let b = self.0[0] == other.0[0] && self.0[1] == other.0[1] && self.0[2] == other.0[2]
            && self.0[3] == other.0[3];
        assert(b ==> self.0@ =~= other.0@);
        assert(!b ==> !(self.0@[0] == other.0@[0] && self.0@[1] == other.0@[1] && self.0@[2]
            == other.0@[2] && self.0@[3] == other.0@[3]));
        b
    }

    /// The tag as text, empty when it is not UTF-8.
    pub fn as_str(&self) -> (r: &str)
        ensures
            r@ == self.text(),
    {
        match from_utf8(self.0.as_slice()) {
            Some(s) => s,
            None => {
                proof {
                    reveal_strlit("");
                    assert(""@ =~= Seq::<char>::empty());
                }
                ""
            },
        }
    }
}

/// The header of a record.
#[derive(Debug, Clone, Copy)]
pub struct RecordHeader {
    pub signature: Signature,
    pub data_size: u32,
    pub flags: u32,
    pub form_id: u32,
    pub vcs1: u32,
    pub form_version: u16,
    pub vcs2: u16,
}

impl RecordHeader {
    /// Whether this is the header that the first 24 bytes of `data` hold.
    pub open spec fn reads(&self, data: Seq<u8>) -> bool {
        &&& self.signature.0@ == data.take(4)
        &&& self.data_size as int == le4(data, 4)
        &&& self.flags as int == le4(data, 8)
        &&& self.form_id as int == le4(data, 12)
        &&& self.vcs1 as int == le4(data, 16)
        &&& self.form_version as int == le2(data, 20)
        &&& self.vcs2 as int == le2(data, 22)
    }

    /// Reads a header; fails when `data` has fewer than 24 bytes.
    pub fn parse(data: &[u8]) -> (r: Result<RecordHeader, Error>)
        ensures
            match r {
                Ok(h) => data@.len() >= HEADER_SIZE && h.reads(data@),
                Err(e) => data@.len() < HEADER_SIZE && e == Error::ShortHeader,
            },
    {
        if data.len() < 24 {
            return Err(Error::ShortHeader);
        }
        let h = RecordHeader {
            signature: Signature([data[0], data[1], data[2], data[3]]),
            data_size: read_u32(data, 4),
            flags: read_u32(data, 8),
            form_id: read_u32(data, 12),
            vcs1: read_u32(data, 16),
            form_version: read_u16(data, 20),
            vcs2: read_u16(data, 22),
        };
        assert(h.signature.0@ =~= data@.take(4));
        Ok(h)
    }

    /// Whether the record's data is compressed.
    pub fn is_compressed(&self) -> (b: bool)
        ensures
            b == (self.flags & COMPRESSED_FLAG != 0),
    {
        self.flags & COMPRESSED_FLAG != 0
    }

    /// The size of the record with its header.
    pub fn total_size(&self) -> (n: u64)
        ensures
            n == HEADER_SIZE + self.data_size,
    {
        HEADER_SIZE + self.data_size as u64
    }
}

/// The header of a group.
#[derive(Debug, Clone, Copy)]
pub struct GroupHeader {
    pub signature: Signature,
    pub group_size: u32,
    pub label: u32,
    pub group_type: i32,
    pub stamp: u32,
    pub unknown: u32,
}

impl GroupHeader {
    /// Whether this is the header that the first 24 bytes of `data` hold.
    pub open spec fn reads(&self, data: Seq<u8>) -> bool {
        &&& self.signature.0@ == data.take(4)
        &&& self.group_size as int == le4(data, 4)
        &&& self.label as int == le4(data, 8)
        &&& self.group_type as int == signed(le4(data, 12), 0x8000_0000)
        &&& self.stamp as int == le4(data, 16)
        &&& self.unknown as int == le4(data, 20)
    }

    /// Reads a header; fails when `data` has fewer than 24 bytes.
    pub fn parse(data: &[u8]) -> (r: Result<GroupHeader, Error>)
        ensures
            match r {
                Ok(h) => data@.len() >= HEADER_SIZE && h.reads(data@),
                Err(e) => data@.len() < HEADER_SIZE && e == Error::ShortHeader,
            },
    {
        if data.len() < 24 {
            return Err(Error::ShortHeader);
        }
        let h = GroupHeader {
            signature: Signature([data[0], data[1], data[2], data[3]]),
            group_size: read_u32(data, 4),
            label: read_u32(data, 8),
            group_type: read_i32(data, 12),
            stamp: read_u32(data, 16),
            unknown: read_u32(data, 20),
        };
        assert(h.signature.0@ =~= data@.take(4));
        Ok(h)
    }

    /// The record type of a top-level group: its label, byte by byte.
    pub fn record_signature(&self) -> (r: Option<Signature>)
        ensures
            match r {
                Some(s) => self.group_type == 0 && le4(s.0@, 0) == self.label,
                None => self.group_type != 0,
            },
    {
        if self.group_type == 0 {
            let n: u32 = self.label;
            Some(
                Signature(
                    [
                        (n % 256) as u8,
                        (n / 256 % 256) as u8,
                        (n / 65536 % 256) as u8,
                        (n / 0x100_0000) as u8,
                    ],
                ),
            )
        } else {
            None
        }
    }
}

/// The header of a subrecord.
#[derive(Debug, Clone)]
pub struct SubrecordHeader {
    pub signature: Signature,
    pub size: u16,
}

impl SubrecordHeader {
    /// Reads a header; fails when `data` has fewer than 6 bytes.
    pub fn parse(data: &[u8]) -> (r: Result<SubrecordHeader, Error>)
        ensures
            match r {
                Ok(h) => data@.len() >= SUBRECORD_HEADER_SIZE && h.signature.0@ == data@.take(4)
                    && h.size as int == le2(data@, 4),
                Err(e) => data@.len() < SUBRECORD_HEADER_SIZE && e == Error::ShortHeader,
            },
    {
        if data.len() < 6 {
            return Err(Error::ShortHeader);
        }
        let h = SubrecordHeader {
            signature: Signature([data[0], data[1], data[2], data[3]]),
            size: read_u16(data, 4),
        };
        assert(h.signature.0@ =~= data@.take(4));
        Ok(h)
    }
}

/// A subrecord of a record in memory.
#[derive(Debug, Clone)]
pub struct Subrecord<'a> {
    pub signature: Signature,
    pub data: &'a [u8],
}

} // verus!
