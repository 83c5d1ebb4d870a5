//! The groups of a plugin as a tree: what is shown of the children of a group.
use crate::database::Database;
use crate::error::Error;
use crate::format::{
    le2, le4, tag_text, RecordHeader, SubrecordHeader, COMPRESSED_FLAG, HEADER_SIZE,
    SUBRECORD_HEADER_SIZE,
};
use crate::formid::FormId;
use crate::reader::{editor_text, read_editor_text};
use crate::schema::opt_text;
use crate::text::{from_lossy, hex8, lossy, str_eq, trim_nuls, trim_nuls_string};
use vstd::prelude::*;
use vstd::slice::slice_subrange;

verus! {

/// What is shown of a record without decoding it.
#[derive(Debug)]
pub struct TreeRecordStub {
    pub form_id: String,
    pub editor_id: Option<String>,
    pub record_type: String,
    pub offset: u64,
}

/// What is shown of a record, as mathematics.
#[verifier::ext_equal]
pub ghost struct TreeStubView {
    pub form_id: Seq<char>,
    pub editor_id: Option<Seq<char>>,
    pub record_type: Seq<char>,
    pub offset: u64,
}

impl View for TreeRecordStub {
    type V = TreeStubView;

    open spec fn view(&self) -> TreeStubView {
        TreeStubView {
            form_id: self.form_id@,
            editor_id: opt_text(self.editor_id),
            record_type: self.record_type@,
            offset: self.offset,
        }
    }
}

/// A child of a group: another group, by its place among the groups, or a
/// record.
#[derive(Debug, Clone, Copy)]
pub enum ChildRef {
    Group(u32),
    Record { form_id: u32, offset: u64, sig: [u8; 4] },
}

/// What is shown of a child of a group.
#[derive(Debug)]
pub enum GroupChild {
    Group(u32),
    Record(TreeRecordStub),
}

/// What is shown of a child, as mathematics.
pub ghost enum ChildView {
    Group(u32),
    Record(TreeStubView),
}

impl View for GroupChild {
    type V = ChildView;

    open spec fn view(&self) -> ChildView {
        match self {
            GroupChild::Group(i) => ChildView::Group(*i),
            GroupChild::Record(s) => ChildView::Record(s@),
        }
    }
}

/// The EditorID of the record whose header is at `at`, where it is the first
/// subrecord of data that is not compressed. What lies beyond the end of the
/// file is left out.
pub open spec fn first_edid(data: Seq<u8>, at: int, flags: u32) -> Option<Seq<char>> {
    let sub = at + HEADER_SIZE;
    let start = sub + SUBRECORD_HEADER_SIZE;
    if flags & COMPRESSED_FLAG == 0 && start <= data.len() && tag_text(data.subrange(sub, sub + 4))
        == "EDID"@ {
        let end = if start + le2(data, sub + 4) <= data.len() {
            start + le2(data, sub + 4)
        } else {
            data.len() as int
        };
        editor_text(data.subrange(start, end))
    } else {
        None
    }
}

/// What is shown of the record whose header is at `offset`; nothing where the
/// file ends before the header does.
pub open spec fn stub_at(data: Seq<u8>, offset: u64) -> Option<TreeStubView> {
    let at = offset as int;
    if at + HEADER_SIZE > data.len() {
        None
    } else {
        Some(
            TreeStubView {
                form_id: hex8(le4(data, at + 12) as u32),
                editor_id: first_edid(data, at, le4(data, at + 8) as u32),
                record_type: tag_text(data.subrange(at, at + 4)),
                offset,
            },
        )
    }
}

/// The EditorID of the record whose header is at `at`.
fn read_first_edid(data: &[u8], at: usize, flags: u32) -> (r: Option<String>)
    requires
        at + HEADER_SIZE <= data.len(),
    ensures
        opt_text(r) == first_edid(data@, at as int, flags),
{
    if flags & COMPRESSED_FLAG != 0 {
        return None;
    }
    let sub: usize = at + 24;
    let tail = slice_subrange(data, sub, data.len());
    assert(tail@ =~= data@.skip(sub as int));
    let hdr = match SubrecordHeader::parse(tail) {
        Ok(h) => h,
        Err(_) => {
            return None;
        },
    };
    assert(tail@.take(4) =~= data@.subrange(sub as int, sub + 4));
    assert(le2(tail@, 4) == le2(data@, sub + 4));
    if !str_eq(hdr.signature.as_str(), "EDID") {
        return None;
    }
    let start: usize = sub + 6;
    let end: usize = if hdr.size as usize <= data.len() - start {
        start + hdr.size as usize
    } else {
        data.len()
    };
    let raw = slice_subrange(data, start, end);
    assert(raw@ =~= data@.subrange(start as int, end as int));
    read_editor_text(raw)
}

/// What is shown of the record whose header is at `offset`.
pub fn read_stub_at(data: &[u8], offset: u64) -> (r: Result<TreeRecordStub, Error>)
    ensures
        match r {
            Ok(s) => stub_at(data@, offset) == Some(s@),
            Err(e) => stub_at(data@, offset) is None && e == Error::OffsetOutOfRange(offset),
        },
{
    if data.len() < 24 || offset > (data.len() - 24) as u64 {
        return Err(Error::OffsetOutOfRange(offset));
    }
    let at: usize = offset as usize;
    let tail = slice_subrange(data, at, data.len());
    assert(tail@ =~= data@.skip(at as int));
    let hdr = match RecordHeader::parse(tail) {
        Ok(h) => h,
        Err(_) => {
            return Err(Error::OffsetOutOfRange(offset));
        },
    };
    assert(tail@.take(4) =~= data@.subrange(at as int, at + 4));
    assert(le4(tail@, 8) == le4(data@, at + 8));
    assert(le4(tail@, 12) == le4(data@, at + 12));
    Ok(
        TreeRecordStub {
            form_id: FormId(hdr.form_id).display(),
            editor_id: read_first_edid(data, at, hdr.flags),
            record_type: hdr.signature.as_str().to_owned(),
            offset,
        },
    )
}

/// What is shown of a child of a group. The EditorID is read from the file.
pub open spec fn child_view(data: Seq<u8>, c: ChildRef) -> ChildView {
    match c {
        ChildRef::Group(i) => ChildView::Group(i),
        ChildRef::Record { form_id, offset, sig } => ChildView::Record(
            TreeStubView {
                form_id: hex8(form_id),
                editor_id: match stub_at(data, offset) {
                    Some(s) => s.editor_id,
                    None => None,
                },
                record_type: trim_nuls(lossy(sig@)),
                offset,
            },
        ),
    }
}

/// Children as mathematics.
pub open spec fn child_views(list: Seq<GroupChild>) -> Seq<ChildView> {
    list.map_values(|c: GroupChild| c@)
}

impl Database {
    /// What is shown of the record at `offset`, without decoding it.
    pub fn record_stub_at(&self, offset: u64) -> (r: Result<TreeRecordStub, Error>)
        ensures
            match r {
                Ok(s) => stub_at(self.esm.data@, offset) == Some(s@),
                Err(e) => stub_at(self.esm.data@, offset) is None && e
                    == Error::OffsetOutOfRange(offset),
            },
    {
        read_stub_at(self.esm.data.as_slice(), offset)
    }

    /// What is shown of the children of a group.
    pub fn group_children_at(&self, children: &Vec<ChildRef>) -> (r: Vec<GroupChild>)
        ensures
            child_views(r@) == children@.map_values(|c: ChildRef| child_view(self.esm.data@, c)),
    {
        let mut out: Vec<GroupChild> = Vec::new();
        let mut i: usize = 0;
        while i < children.len()
            invariant
                i <= children.len(),
                out.len() == i,
                forall|j: int|
                    0 <= j < i ==> (#[trigger] out@[j])@ == child_view(
                        self.esm.data@,
                        children@[j],
                    ),
            decreases children.len() - i,
        {
            match children[i] {
                ChildRef::Group(idx) => out.push(GroupChild::Group(idx)),
                ChildRef::Record { form_id, offset, sig } => {
                    let editor_id: Option<String> = match self.record_stub_at(offset) {
                        Ok(s) => s.editor_id,
                        Err(_) => None,
                    };
                    out.push(
                        GroupChild::Record(
                            TreeRecordStub {
                                form_id: FormId(form_id).display(),
                                editor_id,
                                record_type: trim_nuls_string(&from_lossy(sig.as_slice())),
                                offset,
                            },
                        ),
                    );
                },
            }
            i += 1;
        }
        assert(child_views(out@) =~= children@.map_values(
            |c: ChildRef| child_view(self.esm.data@, c),
        ));
        out
    }
}

} // verus!
