//! The description of the record types: what members a record has and how
//! the bytes of each are read.
use crate::text::{opt_slice, str_eq};
use vstd::prelude::*;

verus! {

/// The width and signedness of a stored integer.
#[derive(Debug, Clone, Copy, PartialEq, Eq, Structural)]
pub enum IntegerWidth {
    U8,
    S8,
    U16,
    S16,
    U32,
    S32,
    U64,
    S64,
}

/// The names of an enumeration: by position, or by number.
#[derive(Debug)]
pub enum EnumFormat {
    Dense(Vec<String>),
    /// From the number, in decimal or as `0x` and hexadecimal digits, to its
    /// name.
    Sparse(Vec<(String, String)>),
}

/// How an integer is presented.
#[derive(Debug)]
pub enum ValueFormat {
    Enum { values: EnumFormat },
    Flags { flags: Vec<String> },
    Plain,
}

/// The string table that an LString belongs to.
#[derive(Debug, Clone, Copy, PartialEq, Eq, Structural)]
pub enum LStringTable {
    Strings,
    Dlstrings,
    Ilstrings,
}

/// How many elements an array has.
#[derive(Debug)]
pub enum ArrayCount {
    Fixed(usize),
    /// As many as an earlier field says.
    CountPath(String),
    /// As many as a prefix of so many bytes says.
    CountPrefix(usize),
    FillToEnd,
}

/// A range of form versions; without `max` it has no end.
#[derive(Debug, Clone, Copy)]
pub struct VersionRange {
    pub min: u16,
    pub max: Option<u16>,
}

/// A mask and the variant it selects.
#[derive(Debug, Clone, Copy)]
pub struct BitChoice {
    pub mask: u64,
    pub variant: usize,
}

/// How the variant of a union is chosen.
#[derive(Debug)]
pub enum UnionDecider {
    FormVersion { form_version: VersionRange },
    FormVersionThresholds { form_version_thresholds: Vec<u16> },
    EdidPrefix { edid_prefix: Vec<(String, usize)>, edid_default: Option<usize> },
    FromVersion { from_version: u16 },
    BelowVersion { below_version: u16 },
    ByteAtOffset {
        byte_offset: usize,
        map: Vec<(String, usize)>,
        default_variant: Option<usize>,
        width_bytes: usize,
    },
    FieldValue {
        field: String,
        map: Vec<(String, usize)>,
        default_variant: Option<usize>,
        bits: Vec<BitChoice>,
    },
    PresentSignature { present_signature: Vec<Vec<String>> },
    FormIdTargetType {
        form_id_target_type: String,
        map: Vec<(String, usize)>,
        default_variant: Option<usize>,
    },
    PayloadSize { payload_size: Vec<(String, usize)>, default_variant: Option<usize> },
    Raw,
}

/// One member of a record, or one field of a struct.
#[derive(Debug)]
pub enum MemberDef {
    Struct {
        sig: Option<String>,
        name: String,
        fields: Vec<MemberDef>,
        from_version: Option<u16>,
        below_version: Option<u16>,
    },
    Integer {
        sig: Option<String>,
        name: String,
        width: IntegerWidth,
        signed: bool,
        format: Option<ValueFormat>,
        from_version: Option<u16>,
        below_version: Option<u16>,
        from_size: Option<usize>,
        stop_before: Vec<String>,
    },
    Float {
        sig: Option<String>,
        name: String,
        from_version: Option<u16>,
        below_version: Option<u16>,
        from_size: Option<usize>,
    },
    String { sig: Option<String>, name: String, sized: Option<u32> },
    LString { sig: Option<String>, name: String, table: LStringTable },
    FormId {
        sig: Option<String>,
        name: String,
        valid_refs: Vec<String>,
        from_version: Option<u16>,
        below_version: Option<u16>,
        from_size: Option<usize>,
    },
    Bytes {
        sig: Option<String>,
        name: String,
        len: Option<usize>,
        from_version: Option<u16>,
        below_version: Option<u16>,
        from_size: Option<usize>,
    },
    ByteRgba { sig: Option<String>, name: String, from_size: Option<usize> },
    Vec3 { sig: Option<String>, name: String },
    RStruct { name: String, members: Vec<MemberDef> },
    RArray {
        name: String,
        element: Box<MemberDef>,
        count: Option<ArrayCount>,
        stop_before: Vec<String>,
    },
    Array {
        sig: Option<String>,
        name: String,
        element: Box<MemberDef>,
        count: Option<ArrayCount>,
    },
    Union {
        sig: Option<String>,
        name: String,
        decider: UnionDecider,
        variants: Vec<MemberDef>,
    },
    Empty {
        sig: Option<String>,
        name: String,
        from_version: Option<u16>,
        below_version: Option<u16>,
    },
    Unused {
        bytes: usize,
        sig: Option<String>,
        from_version: Option<u16>,
        below_version: Option<u16>,
    },
    Unknown { sig: Option<String>, name: String },
    RawFallback { sig: Option<String>, name: String, reason: String },
    Vmad { sig: Option<String>, name: String },
    Ctda { sig: Option<String>, name: String },
    ModelInfo { sig: Option<String>, name: String },
}

/// A field of a struct is described as a member is.
pub type FieldDef = MemberDef;

/// A record type.
#[derive(Debug)]
pub struct RecordDef {
    pub name: String,
    pub members: Vec<MemberDef>,
}

/// The record types by signature.
#[derive(Debug)]
pub struct Schema {
    pub records: Vec<(String, RecordDef)>,
}

/// The text of an optional string.
pub open spec fn opt_text(s: Option<String>) -> Option<Seq<char>> {
    match s {
        Some(s) => Some(s@),
        None => None,
    }
}

/// The first value that `map` gives to `key`.
pub open spec fn lookup<V>(map: Seq<(String, V)>, key: Seq<char>) -> Option<V>
    decreases map.len(),
{
    if map.len() == 0 {
        None
    } else if map[0].0@ == key {
        Some(map[0].1)
    } else {
        lookup(map.drop_first(), key)
    }
}

/// The position of the first entry for `key`, or the length.
pub fn lookup_index<V>(map: &Vec<(String, V)>, key: &str) -> (i: usize)
    ensures
        i <= map.len(),
        i < map.len() ==> lookup(map@, key@) == Some(map@[i as int].1),
        i == map.len() ==> lookup(map@, key@) is None,
{
    let mut i: usize = 0;
    assert(map@.skip(0) =~= map@);
    while i < map.len()
        invariant
            i <= map.len(),
            lookup(map@, key@) == lookup(map@.skip(i as int), key@),
        decreases map.len() - i,
    {
        if str_eq(&map[i].0, key) {
            return i;
        }
        assert(map@.skip(i as int).drop_first() =~= map@.skip(i + 1));
        i += 1;
    }
    i
}

/// The first number that `map` gives to `key`.
pub fn lookup_usize(map: &Vec<(String, usize)>, key: &str) -> (r: Option<usize>)
    ensures
        r == lookup(map@, key@),
{
    let i: usize = lookup_index(map, key);
    if i < map.len() {
        Some(map[i].1)
    } else {
        None
    }
}

impl Schema {
    /// The description of the record type `sig`.
    pub fn record(&self, sig: &str) -> (r: Option<&RecordDef>)
        ensures
            match r {
                Some(d) => lookup(self.records@, sig@) == Some(*d),
                None => lookup(self.records@, sig@) is None,
            },
    {
        let i: usize = lookup_index(&self.records, sig);
        if i < self.records.len() {
            Some(&self.records[i].1)
        } else {
            None
        }
    }
}

impl MemberDef {
    /// The signature of the subrecord that holds this member.
    pub open spec fn sig_of(&self) -> Option<Seq<char>> {
        match *self {
            MemberDef::Struct { sig, .. } => opt_text(sig),
            MemberDef::Integer { sig, .. } => opt_text(sig),
            MemberDef::Float { sig, .. } => opt_text(sig),
            MemberDef::String { sig, .. } => opt_text(sig),
            MemberDef::LString { sig, .. } => opt_text(sig),
            MemberDef::FormId { sig, .. } => opt_text(sig),
            MemberDef::Bytes { sig, .. } => opt_text(sig),
            MemberDef::ByteRgba { sig, .. } => opt_text(sig),
            MemberDef::Vec3 { sig, .. } => opt_text(sig),
            MemberDef::RStruct { .. } => None,
            MemberDef::RArray { .. } => None,
            MemberDef::Array { sig, .. } => opt_text(sig),
            MemberDef::Union { sig, .. } => opt_text(sig),
            MemberDef::Empty { sig, .. } => opt_text(sig),
            MemberDef::Unused { sig, .. } => opt_text(sig),
            MemberDef::Unknown { sig, .. } => opt_text(sig),
            MemberDef::RawFallback { sig, .. } => opt_text(sig),
            MemberDef::Vmad { sig, .. } => opt_text(sig),
            MemberDef::Ctda { sig, .. } => opt_text(sig),
            MemberDef::ModelInfo { sig, .. } => opt_text(sig),
        }
    }

    /// The signature of the subrecord that holds this member.
    pub fn sig(&self) -> (r: Option<&str>)
        ensures
            match r {
                Some(s) => self.sig_of() == Some(s@),
                None => self.sig_of() is None,
            },
    {
        let sig: &Option<String> = match self {
            MemberDef::Struct { sig, .. } => sig,
            MemberDef::Integer { sig, .. } => sig,
            MemberDef::Float { sig, .. } => sig,
            MemberDef::String { sig, .. } => sig,
            MemberDef::LString { sig, .. } => sig,
            MemberDef::FormId { sig, .. } => sig,
            MemberDef::Bytes { sig, .. } => sig,
            MemberDef::ByteRgba { sig, .. } => sig,
            MemberDef::Vec3 { sig, .. } => sig,
            MemberDef::RStruct { .. } => {
                return None;
            },
            MemberDef::RArray { .. } => {
                return None;
            },
            MemberDef::Array { sig, .. } => sig,
            MemberDef::Union { sig, .. } => sig,
            MemberDef::Empty { sig, .. } => sig,
            MemberDef::Unused { sig, .. } => sig,
            MemberDef::Unknown { sig, .. } => sig,
            MemberDef::RawFallback { sig, .. } => sig,
            MemberDef::Vmad { sig, .. } => sig,
            MemberDef::Ctda { sig, .. } => sig,
            MemberDef::ModelInfo { sig, .. } => sig,
        };
        match sig {
            Some(s) => Some(s.as_str()),
            None => None,
        }
    }

    /// Whether this member, or a member within it, is held by subrecord `s`.
    pub open spec fn uses_sig(&self, s: Seq<char>) -> bool
        decreases self,
    {
        self.sig_of() == Some(s) || match *self {
            MemberDef::RStruct { members, .. } => exists|i: int|
                0 <= i < members.len() && (#[trigger] members@[i]).uses_sig(s),
            MemberDef::RArray { element, .. } => element.uses_sig(s),
            MemberDef::Union { variants, .. } => exists|i: int|
                0 <= i < variants.len() && (#[trigger] variants@[i]).uses_sig(s),
            _ => false,
        }
    }

    /// Whether this member, or a member within it, is held by subrecord `s`.
    #[verifier::loop_isolation(false)]
    pub fn contains_sig(&self, s: &str) -> (r: bool)
        ensures
            r == self.uses_sig(s@),
        decreases self,
    {
        if let Some(sig) = self.sig() {
            if str_eq(sig, s) {
                return true;
            }
        }
        match self {
            MemberDef::RStruct { members, .. } => {
                let mut i: usize = 0;
                while i < members.len()
                    invariant
                        i <= members.len(),
                        forall|j: int| 0 <= j < i ==> !(#[trigger] members@[j]).uses_sig(s@),
                    decreases members.len() - i,
                {
                    if members[i].contains_sig(s) {
                        return true;
                    }
                    i += 1;
                }
                false
            },
            MemberDef::RArray { element, .. } => element.contains_sig(s),
            MemberDef::Union { variants, .. } => {
                let mut i: usize = 0;
                while i < variants.len()
                    invariant
                        i <= variants.len(),
                        forall|j: int| 0 <= j < i ==> !(#[trigger] variants@[j]).uses_sig(s@),
                    decreases variants.len() - i,
                {
                    if variants[i].contains_sig(s) {
                        return true;
                    }
                    i += 1;
                }
                false
            },
            _ => false,
        }
    }
}

/// A borrowed string that may be absent.
pub fn slice_of(s: &Option<String>) -> (r: Option<&str>)
    ensures
        opt_slice(r) == opt_text(*s),
{
    match s {
        Some(s) => Some(s.as_str()),
        None => None,
    }
}

/// A copy of a string that may be absent.
pub fn copy_opt(s: &Option<String>) -> (r: Option<String>)
    ensures
        opt_text(r) == opt_text(*s),
{
    match s {
        Some(s) => Some(s.as_str().to_owned()),
        None => None,
    }
}

/// An owned copy of a text that may be absent.
pub fn own_opt(s: Option<&str>) -> (r: Option<String>)
    ensures
        opt_text(r) == opt_slice(s),
{
    match s {
        Some(s) => Some(s.to_owned()),
        None => None,
    }
}

} // verus!
