//! The subrecords of a record that no member has taken yet, and the part of
//! the record that a member may take from.
use crate::decode::context::{earlier, opt_int, DecodeContext, Env};
use crate::decode::scalars::{field_int_value, field_uint};
use crate::json::{Entries, Object};
use crate::reader::{find_sig, first_sig, OwnedSubrecord, Sub};
use crate::schema::{ArrayCount, MemberDef};
use crate::text::{opt_slice, str_eq};
use vstd::prelude::*;

verus! {

/// The subrecords that no member has taken yet, in the order of the record.
pub struct Pool<'a> {
    pub items: Vec<&'a OwnedSubrecord>,
}

impl<'a> View for Pool<'a> {
    type V = Seq<Sub>;

    open spec fn view(&self) -> Seq<Sub> {
        self.items@.map_values(|s: &OwnedSubrecord| s@)
    }
}

/// The pool after its first subrecord with signature `sig` is taken.
pub open spec fn taken(pool: Seq<Sub>, sig: Seq<char>) -> Seq<Sub> {
    if first_sig(pool, sig) is Some {
        pool.remove(find_sig(pool, sig))
    } else {
        pool
    }
}

/// The first subrecord with signature `sig`, where it is in scope.
pub open spec fn scoped_sig<R>(e: Env<R>, pool: Seq<Sub>, sig: Seq<char>) -> Option<Sub> {
    match first_sig(pool, sig) {
        Some(s) => if e.in_scope(s.doc) {
            Some(s)
        } else {
            None
        },
        None => None,
    }
}

/// The pool after its first subrecord with signature `sig` is taken, where it
/// is in scope.
pub open spec fn scoped_taken<R>(e: Env<R>, pool: Seq<Sub>, sig: Seq<char>) -> Seq<Sub> {
    if scoped_sig(e, pool, sig) is Some {
        taken(pool, sig)
    } else {
        pool
    }
}

/// The subrecords with signature `sig`.
pub open spec fn with_sig(pool: Seq<Sub>, sig: Seq<char>) -> Seq<Sub> {
    pool.filter(|s: Sub| s.sig == sig)
}

/// The subrecords with another signature than `sig`.
pub open spec fn without_sig(pool: Seq<Sub>, sig: Seq<char>) -> Seq<Sub> {
    pool.filter(|s: Sub| s.sig != sig)
}

impl<'a> Pool<'a> {
    /// The pool of all subrecords of a record.
    pub fn new(list: &'a Vec<OwnedSubrecord>) -> (r: Pool<'a>)
        ensures
            r@ == crate::reader::subs(list@),
    {
        let mut items: Vec<&'a OwnedSubrecord> = Vec::new();
        let mut i: usize = 0;
        while i < list.len()
            invariant
                i <= list.len(),
                items@.len() == i,
                forall|j: int| 0 <= j < i ==> *(#[trigger] items@[j]) == list@[j],
            decreases list.len() - i,
        {
            items.push(&list[i]);
            i += 1;
        }
        let r = Pool { items };
        assert(r@ =~= crate::reader::subs(list@));
        r
    }

    /// The empty pool.
    pub fn empty() -> (r: Pool<'a>)
        ensures
            r@ == Seq::<Sub>::empty(),
    {
        let r = Pool { items: Vec::new() };
        assert(r@ =~= Seq::<Sub>::empty());
        r
    }

    /// The number of subrecords.
    pub fn len(&self) -> (n: usize)
        ensures
            n == self@.len(),
    {
        self.items.len()
    }

    /// The position of the first subrecord with signature `sig`.
    pub fn find(&self, sig: &str) -> (i: usize)
        ensures
            i == find_sig(self@, sig@),
            i <= self@.len(),
            i < self@.len() ==> first_sig(self@, sig@) == Some(self@[i as int]),
            i == self@.len() ==> first_sig(self@, sig@) is None,
    {
        let mut i: usize = 0;
        assert(self@.skip(0) =~= self@);
        while i < self.items.len()
            invariant
                i <= self.items.len(),
                find_sig(self@, sig@) == i + find_sig(self@.skip(i as int), sig@),
            decreases self.items.len() - i,
        {
            assert(self@.skip(i as int)[0] == self.items@[i as int]@);
            if str_eq(self.items[i].signature.as_str(), sig) {
                return i;
            }
            assert(self@.skip(i as int).drop_first() =~= self@.skip(i + 1));
            i += 1;
        }
        i
    }

    /// The place of the first subrecord with signature `sig`.
    pub fn front_doc(&self, sig: &str) -> (r: Option<usize>)
        ensures
            match r {
                Some(d) => first_sig(self@, sig@) is Some && first_sig(self@, sig@)->0.doc == d,
                None => first_sig(self@, sig@) is None,
            },
    {
        let i: usize = self.find(sig);
        if i < self.items.len() {
            Some(self.items[i].doc_index)
        } else {
            None
        }
    }

    /// Takes the first subrecord with signature `sig`.
    pub fn take_first(&mut self, sig: &str) -> (r: Option<&'a OwnedSubrecord>)
        ensures
            final(self)@ == taken(old(self)@, sig@),
            final(self)@.len() <= old(self)@.len(),
            match r {
                Some(s) => first_sig(old(self)@, sig@) == Some(s@) && final(self)@.len() < old(
                    self,
                )@.len(),
                None => first_sig(old(self)@, sig@) is None && final(self)@ == old(self)@,
            },
    {
        let i: usize = self.find(sig);
        if i < self.items.len() {
            let s = self.items.remove(i);
            assert(self@ =~= old(self)@.remove(i as int));
            Some(s)
        } else {
            None
        }
    }

    /// Takes the first subrecord with signature `sig` where it is in scope.
    /// One that is out of scope stays for the element that it belongs to.
    pub fn take_first_in_scope<R>(&mut self, sig: &str, ctx: &DecodeContext<'_, R>) -> (r: Option<
        &'a OwnedSubrecord,
    >)
        ensures
            final(self)@ == scoped_taken(ctx.env(), old(self)@, sig@),
            final(self)@.len() <= old(self)@.len(),
            match r {
                Some(s) => scoped_sig(ctx.env(), old(self)@, sig@) == Some(s@),
                None => scoped_sig(ctx.env(), old(self)@, sig@) is None,
            },
    {
        match self.front_doc(sig) {
            Some(d) => if ctx.in_scope(d) {
                self.take_first(sig)
            } else {
                None
            },
            None => None,
        }
    }

    /// Takes every subrecord with signature `sig`.
    pub fn take_all(&mut self, sig: &str) -> (r: Vec<&'a OwnedSubrecord>)
        ensures
            r@.map_values(|s: &OwnedSubrecord| s@) == with_sig(old(self)@, sig@),
            final(self)@ == without_sig(old(self)@, sig@),
            final(self)@.len() <= old(self)@.len(),
    {
        let mut out: Vec<&'a OwnedSubrecord> = Vec::new();
        let mut kept: Vec<&'a OwnedSubrecord> = Vec::new();
        let mut i: usize = 0;
        let ghost all = self@;
        proof {
            reveal(Seq::filter);
        }
        assert(all.take(0) =~= Seq::<Sub>::empty());
        while i < self.items.len()
            invariant
                i <= self.items.len(),
                all == self@,
                self@ == old(self)@,
                kept@.len() <= i,
                out@.map_values(|s: &OwnedSubrecord| s@) =~= with_sig(all.take(i as int), sig@),
                kept@.map_values(|s: &OwnedSubrecord| s@) =~= without_sig(
                    all.take(i as int),
                    sig@,
                ),
            decreases self.items.len() - i,
        {
            proof {
                reveal(Seq::filter);
                assert(all.take(i + 1).drop_last() =~= all.take(i as int));
                assert(all.take(i + 1).last() == self.items@[i as int]@);
            }
            let s = self.items[i];
            if str_eq(s.signature.as_str(), sig) {
                out.push(s);
            } else {
                kept.push(s);
            }
            i += 1;
        }
        assert(all.take(all.len() as int) =~= all);
        self.items = kept;
        out
    }
}

// ── Anchors ────────────────────────────────────────────────────────────────
/// The earliest place at which a subrecord of `member` is waiting.
pub open spec fn first_anchor(pool: Seq<Sub>, member: MemberDef) -> Option<int>
    decreases member, 0nat,
{
    match member.sig_of() {
        Some(sig) => match first_sig(pool, sig) {
            Some(s) => Some(s.doc),
            None => None,
        },
        None => match member {
            MemberDef::RStruct { members, .. } => first_anchors(pool, members, members.len() as nat),
            MemberDef::RArray { element, .. } => first_anchor(pool, *element),
            _ => None,
        },
    }
}

/// The earliest place at which a subrecord of one of the first `n` members is
/// waiting.
pub open spec fn first_anchors(pool: Seq<Sub>, members: Vec<MemberDef>, n: nat) -> Option<int>
    decreases members, n,
{
    if n == 0 || n > members.len() {
        None
    } else {
        earlier(
            first_anchors(pool, members, (n - 1) as nat),
            first_anchor(pool, members@[n - 1]),
        )
    }
}

/// The earlier of two optional places.
fn earlier_index(a: Option<usize>, b: Option<usize>) -> (r: Option<usize>)
    ensures
        opt_int(r) == earlier(opt_int(a), opt_int(b)),
{
    match (a, b) {
        (Some(x), Some(y)) => Some(
            if x <= y {
                x
            } else {
                y
            },
        ),
        (Some(x), None) => Some(x),
        (None, y) => y,
    }
}

/// The earliest place at which a subrecord of `member` is waiting.
pub fn first_anchor_doc_index(pool: &Pool<'_>, member: &MemberDef) -> (r: Option<usize>)
    ensures
        opt_int(r) == first_anchor(pool@, *member),
    decreases member, 0nat,
{
    match member.sig() {
        Some(sig) => pool.front_doc(sig),
        None => match member {
            MemberDef::RStruct { members, .. } => first_anchors_doc_index(pool, members),
            MemberDef::RArray { element, .. } => first_anchor_doc_index(pool, element),
            _ => None,
        },
    }
}

/// The earliest place at which a subrecord of one of the members is waiting.
pub fn first_anchors_doc_index(pool: &Pool<'_>, members: &Vec<MemberDef>) -> (r: Option<usize>)
    ensures
        opt_int(r) == first_anchors(pool@, *members, members.len() as nat),
    decreases members, members.len() + 1,
{
    let mut best: Option<usize> = None;
    let mut i: usize = 0;
    while i < members.len()
        invariant
            i <= members.len(),
            opt_int(best) == first_anchors(pool@, *members, i as nat),
        decreases members.len() - i,
    {
        best = earlier_index(best, first_anchor_doc_index(pool, &members[i]));
        i += 1;
    }
    best
}

/// The earliest place after `lo` of a subrecord with signature `sig` among the
/// first `n`.
pub open spec fn next_after(pool: Seq<Sub>, sig: Seq<char>, lo: int, n: nat) -> Option<int>
    decreases n,
{
    if n == 0 || n > pool.len() {
        None
    } else if pool[n - 1].sig == sig && pool[n - 1].doc > lo {
        earlier(next_after(pool, sig, lo, (n - 1) as nat), Some(pool[n - 1].doc))
    } else {
        next_after(pool, sig, lo, (n - 1) as nat)
    }
}

/// The part of the record that a group of members lies in: from the first
/// place at which one of them is waiting, up to the next end marker.
pub open spec fn group_scope(pool: Seq<Sub>, members: Vec<MemberDef>) -> (
    Option<int>,
    Option<int>,
) {
    let lo = first_anchors(pool, members, members.len() as nat);
    let hi = match lo {
        Some(lo) => next_after(pool, "ALED"@, lo, pool.len()),
        None => None,
    };
    (lo, hi)
}

/// The part of the record that a group of members lies in.
pub fn rstruct_present_signature_scope(pool: &Pool<'_>, members: &Vec<MemberDef>) -> (r: (
    Option<usize>,
    Option<usize>,
))
    ensures
        (opt_int(r.0), opt_int(r.1)) == group_scope(pool@, *members),
{
    let lo = first_anchors_doc_index(pool, members);
    let mut hi: Option<usize> = None;
    if let Some(min) = lo {
        let mut i: usize = 0;
        while i < pool.items.len()
            invariant
                i <= pool.items.len(),
                opt_int(hi) == next_after(pool@, "ALED"@, min as int, i as nat),
            decreases pool.items.len() - i,
        {
            let s = pool.items[i];
            assert(pool@[i as int] == s@);
            if str_eq(s.signature.as_str(), "ALED") && s.doc_index > min {
                hi = earlier_index(hi, Some(s.doc_index));
            }
            i += 1;
        }
    }
    (lo, hi)
}

/// The signature of the first subrecord of `member` in the schema.
pub open spec fn anchor_of(member: MemberDef) -> Option<Seq<char>>
    decreases member, 0nat,
{
    if member.sig_of() is Some {
        member.sig_of()
    } else {
        match member {
            MemberDef::RStruct { members, .. } => first_anchor_sig(members, 0),
            _ => None,
        }
    }
}

/// The signature of the first subrecord of the members from `i` on.
pub open spec fn first_anchor_sig(members: Vec<MemberDef>, i: nat) -> Option<Seq<char>>
    decreases members, members.len() - i,
{
    if i >= members.len() {
        None
    } else if anchor_of(members@[i as int]) is Some {
        anchor_of(members@[i as int])
    } else {
        first_anchor_sig(members, i + 1)
    }
}

/// The signature of the first subrecord of `member` in the schema.
#[verifier::loop_isolation(false)]
pub fn anchor_sig(member: &MemberDef) -> (r: Option<&str>)
    ensures
        opt_slice(r) == anchor_of(*member),
    decreases member,
{
    match member.sig() {
        Some(sig) => Some(sig),
        None => match member {
            MemberDef::RStruct { members, .. } => {
                let mut i: usize = 0;
                while i < members.len()
                    invariant
                        i <= members.len(),
                        first_anchor_sig(*members, 0) == first_anchor_sig(*members, i as nat),
                    decreases members.len() - i,
                {
                    if let Some(s) = anchor_sig(&members[i]) {
                        return Some(s);
                    }
                    i += 1;
                }
                None
            },
            _ => None,
        },
    }
}

/// The end marker of an element: the signature of its last member, where that
/// is empty and no other member uses the signature.
pub open spec fn terminator_of(element: MemberDef) -> Option<Seq<char>> {
    match element {
        MemberDef::RStruct { members, .. } => if members.len() == 0 {
            None
        } else {
            match members@[members.len() - 1] {
                MemberDef::Empty { sig: Some(sig), .. } => if exists|i: int|
                    0 <= i < members.len() - 1 && (#[trigger] members@[i]).uses_sig(sig@) {
                    None
                } else {
                    Some(sig@)
                },
                _ => None,
            }
        },
        _ => None,
    }
}

/// The end marker of an element.
#[verifier::loop_isolation(false)]
pub fn element_terminator_sig(element: &MemberDef) -> (r: Option<&str>)
    ensures
        opt_slice(r) == terminator_of(*element),
{
    match element {
        MemberDef::RStruct { members, .. } => {
            if members.len() == 0 {
                return None;
            }
            match &members[members.len() - 1] {
                MemberDef::Empty { sig: Some(sig), .. } => {
                    let mut i: usize = 0;
                    while i < members.len() - 1
                        invariant
                            i <= members.len() - 1,
                            forall|j: int| 0 <= j < i ==> !(#[trigger] members@[j]).uses_sig(sig@),
                        decreases members.len() - i,
                    {
                        if members[i].contains_sig(sig) {
                            return None;
                        }
                        i += 1;
                    }
                    Some(sig.as_str())
                },
                _ => None,
            }
        },
        _ => None,
    }
}

/// How many elements a repeated group has: a fixed number, or the number of a
/// field of this or the enclosing struct.
pub open spec fn group_count<R>(
    count: Option<ArrayCount>,
    out: Entries,
    e: Env<R>,
) -> Option<int> {
    match count {
        Some(ArrayCount::Fixed(n)) => Some(n as int),
        Some(ArrayCount::CountPath(path)) => if field_uint(out, path@) is Some {
            field_uint(out, path@)
        } else {
            match e.outer {
                Some(o) => field_uint(o, path@),
                None => None,
            }
        },
        _ => None,
    }
}

/// How many elements a repeated group has.
pub fn rarray_count<R>(
    count: &Option<ArrayCount>,
    out: &Object,
    ctx: &DecodeContext<'_, R>,
) -> (r: Option<u64>)
    ensures
        match r {
            Some(n) => group_count(*count, out@, ctx.env()) == Some(n as int),
            None => group_count(*count, out@, ctx.env()) is None,
        },
{
    match count {
        Some(ArrayCount::Fixed(n)) => Some(*n as u64),
        Some(ArrayCount::CountPath(path)) => match field_int_value(out, path) {
            Some(n) => Some(n),
            None => match &ctx.outer_struct {
                Some(o) => field_int_value(o, path),
                None => None,
            },
        },
        _ => None,
    }
}

/// Whether a repeated group ends: its anchor is not waiting, or a boundary
/// signature waits at an earlier place.
pub open spec fn stops(pool: Seq<Sub>, anchor: Seq<char>, stop_before: Seq<String>) -> bool {
    match first_sig(pool, anchor) {
        None => true,
        Some(a) => exists|i: int|
            0 <= i < stop_before.len() && (first_sig(pool, (#[trigger] stop_before[i])@) matches Some(
                s,
            ) && s.doc < a.doc),
    }
}

/// Whether a repeated group ends.
pub fn stop_before_check(pool: &Pool<'_>, anchor: &str, stop_before: &Vec<String>) -> (b: bool)
    ensures
        b == stops(pool@, anchor@, stop_before@),
{
    let anchor_idx: usize = match pool.front_doc(anchor) {
        Some(d) => d,
        None => {
            return true;
        },
    };
    let mut i: usize = 0;
    while i < stop_before.len()
        invariant
            i <= stop_before.len(),
            first_sig(pool@, anchor@) is Some,
            first_sig(pool@, anchor@)->0.doc == anchor_idx,
            forall|j: int|
                0 <= j < i ==> !(first_sig(pool@, (#[trigger] stop_before@[j])@) matches Some(s)
                    && s.doc < anchor_idx),
        decreases stop_before.len() - i,
    {
        if let Some(d) = pool.front_doc(&stop_before[i]) {
            if d < anchor_idx {
                return true;
            }
        }
        i += 1;
    }
    false
}

} // verus!
