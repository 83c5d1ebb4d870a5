//! Alignment of two lists by a longest common subsequence.
use crate::json::{same, views, Json, Value};
use vstd::prelude::*;

verus! {

/// The length of the longest common subsequence of `a` from `i` on and `b`
/// from `j` on.
pub open spec fn lcs(a: Seq<Json>, b: Seq<Json>, i: int, j: int) -> int
    decreases a.len() - i + b.len() - j,
{
    if i < 0 || j < 0 || i >= a.len() || j >= b.len() {
        0
    } else if same(a[i], b[j]) {
        1 + lcs(a, b, i + 1, j + 1)
    } else if lcs(a, b, i + 1, j) >= lcs(a, b, i, j + 1) {
        lcs(a, b, i + 1, j)
    } else {
        lcs(a, b, i, j + 1)
    }
}

/// The elements of `a` from `i` on that a longest common subsequence with `b`
/// from `j` on leaves out, after `acc`.
pub open spec fn left_out_a(
    a: Seq<Json>,
    b: Seq<Json>,
    i: int,
    j: int,
    acc: Seq<Json>,
) -> Seq<Json>
    decreases a.len() - i + b.len() - j,
{
    if i < 0 || j < 0 || i >= a.len() || j >= b.len() {
        acc + a.skip(i)
    } else if same(a[i], b[j]) {
        left_out_a(a, b, i + 1, j + 1, acc)
    } else if lcs(a, b, i + 1, j) >= lcs(a, b, i, j + 1) {
        left_out_a(a, b, i + 1, j, acc.push(a[i]))
    } else {
        left_out_a(a, b, i, j + 1, acc)
    }
}

/// The elements of `b` from `j` on that a longest common subsequence with `a`
/// from `i` on leaves out, after `acc`.
pub open spec fn left_out_b(
    a: Seq<Json>,
    b: Seq<Json>,
    i: int,
    j: int,
    acc: Seq<Json>,
) -> Seq<Json>
    decreases a.len() - i + b.len() - j,
{
    if i < 0 || j < 0 || i >= a.len() || j >= b.len() {
        acc + b.skip(j)
    } else if same(a[i], b[j]) {
        left_out_b(a, b, i + 1, j + 1, acc)
    } else if lcs(a, b, i + 1, j) >= lcs(a, b, i, j + 1) {
        left_out_b(a, b, i + 1, j, acc)
    } else {
        left_out_b(a, b, i, j + 1, acc.push(b[j]))
    }
}

/// The number of elements that `a` and `b` have in common at their starts,
/// from `i` on.
pub open spec fn common_start(a: Seq<Json>, b: Seq<Json>, i: int) -> int
    decreases a.len() - i,
{
    if 0 <= i < a.len() && i < b.len() && same(a[i], b[i]) {
        common_start(a, b, i + 1)
    } else {
        i
    }
}

/// The number of elements that `a` and `b`, but for the first `start`, have
/// in common at their ends, from the `k`-th last on.
pub open spec fn common_end(a: Seq<Json>, b: Seq<Json>, start: int, k: int) -> int
    decreases a.len() - k,
{
    if 0 <= k && 0 <= start && a.len() - k > start && b.len() - k > start && same(
        a[a.len() - k - 1],
        b[b.len() - k - 1],
    ) {
        common_end(a, b, start, k + 1)
    } else {
        k
    }
}

/// The alignment of two lists: what only `a` has, what only `b` has, and how
/// many elements both have.
pub struct Aligned {
    pub removed: Seq<Json>,
    pub added: Seq<Json>,
    pub unchanged: int,
}

/// The largest product of lengths for which the alignment is computed.
pub open spec fn align_cap() -> int {
    250000
}

/// The alignment of two lists. Common elements at the start and the end are
/// aligned first; what is left between them is aligned by a longest common
/// subsequence, unless it is too large.
pub open spec fn aligned(a: Seq<Json>, b: Seq<Json>) -> Aligned {
    let start = common_start(a, b, 0);
    let end = common_end(a, b, start, 0);
    let ma = a.subrange(start, a.len() - end);
    let mb = b.subrange(start, b.len() - end);
    if ma.len() * mb.len() > align_cap() {
        Aligned { removed: ma, added: mb, unchanged: start + end }
    } else {
        Aligned {
            removed: left_out_a(ma, mb, 0, 0, Seq::empty()),
            added: left_out_b(ma, mb, 0, 0, Seq::empty()),
            unchanged: start + end + lcs(ma, mb, 0, 0),
        }
    }
}

proof fn lemma_lcs_bounds(a: Seq<Json>, b: Seq<Json>, i: int, j: int)
    requires
        0 <= i <= a.len(),
        0 <= j <= b.len(),
    ensures
        0 <= lcs(a, b, i, j) <= a.len() - i,
        lcs(a, b, i, j) <= b.len() - j,
    decreases a.len() - i + b.len() - j,
{
    if i < a.len() && j < b.len() {
        lemma_lcs_bounds(a, b, i + 1, j + 1);
        lemma_lcs_bounds(a, b, i + 1, j);
        lemma_lcs_bounds(a, b, i, j + 1);
    }
}

proof fn lemma_left_out_lens(
    a: Seq<Json>,
    b: Seq<Json>,
    i: int,
    j: int,
    ra: Seq<Json>,
    rb: Seq<Json>,
)
    requires
        0 <= i <= a.len(),
        0 <= j <= b.len(),
    ensures
        left_out_a(a, b, i, j, ra).len() == ra.len() + a.len() - i - lcs(a, b, i, j),
        left_out_b(a, b, i, j, rb).len() == rb.len() + b.len() - j - lcs(a, b, i, j),
    decreases a.len() - i + b.len() - j,
{
    if i < a.len() && j < b.len() {
        if same(a[i], b[j]) {
            lemma_left_out_lens(a, b, i + 1, j + 1, ra, rb);
        } else if lcs(a, b, i + 1, j) >= lcs(a, b, i, j + 1) {
            lemma_left_out_lens(a, b, i + 1, j, ra.push(a[i]), rb);
        } else {
            lemma_left_out_lens(a, b, i, j + 1, ra, rb.push(b[j]));
        }
    }
}

proof fn lemma_common_bounds(a: Seq<Json>, b: Seq<Json>)
    ensures
        0 <= common_start(a, b, 0) <= a.len(),
        common_start(a, b, 0) <= b.len(),
        0 <= common_end(a, b, common_start(a, b, 0), 0) <= a.len() - common_start(a, b, 0),
        common_end(a, b, common_start(a, b, 0), 0) <= b.len() - common_start(a, b, 0),
{
    lemma_common_start(a, b, 0);
    lemma_common_end(a, b, common_start(a, b, 0), 0);
}

proof fn lemma_common_start(a: Seq<Json>, b: Seq<Json>, i: int)
    requires
        0 <= i <= a.len(),
        i <= b.len(),
    ensures
        i <= common_start(a, b, i) <= a.len(),
        common_start(a, b, i) <= b.len(),
    decreases a.len() - i,
{
    if i < a.len() && i < b.len() && same(a[i], b[i]) {
        lemma_common_start(a, b, i + 1);
    }
}

proof fn lemma_common_end(a: Seq<Json>, b: Seq<Json>, start: int, k: int)
    requires
        0 <= k <= a.len() - start,
        k <= b.len() - start,
        start >= 0,
    ensures
        k <= common_end(a, b, start, k) <= a.len() - start,
        common_end(a, b, start, k) <= b.len() - start,
    decreases a.len() - k,
{
    if a.len() - k > start && b.len() - k > start && same(
        a[a.len() - k - 1],
        b[b.len() - k - 1],
    ) {
        lemma_common_end(a, b, start, k + 1);
    }
}

/// An alignment accounts for every element of both lists: each is either
/// unchanged or reported, and none is reported twice.
pub proof fn law_alignment_accounts_for_all(a: Seq<Json>, b: Seq<Json>)
    ensures
        aligned(a, b).unchanged <= a.len(),
        aligned(a, b).unchanged <= b.len(),
        aligned(a, b).unchanged >= 0,
        aligned(a, b).removed.len() + aligned(a, b).unchanged == a.len(),
        aligned(a, b).added.len() + aligned(a, b).unchanged == b.len(),
{
    lemma_common_bounds(a, b);
    let start = common_start(a, b, 0);
    let end = common_end(a, b, start, 0);
    let ma = a.subrange(start, a.len() - end);
    let mb = b.subrange(start, b.len() - end);
    lemma_lcs_bounds(ma, mb, 0, 0);
    lemma_left_out_lens(ma, mb, 0, 0, Seq::empty(), Seq::empty());
}

/// The alignment of two lists in memory.
pub struct Alignment {
    pub removed: Vec<Value>,
    pub added: Vec<Value>,
    pub unchanged: usize,
}

impl View for Alignment {
    type V = Aligned;

    open spec fn view(&self) -> Aligned {
        Aligned {
            removed: views(self.removed@),
            added: views(self.added@),
            unchanged: self.unchanged as int,
        }
    }
}

/// Whether `rows` holds the lengths of the longest common subsequences, last
/// positions first.
pub open spec fn is_table(
    rows: Seq<Vec<usize>>,
    ma: Seq<Json>,
    mb: Seq<Json>,
) -> bool {
    forall|k: int|
        0 <= k < rows.len() ==> (#[trigger] rows[k]).len() == mb.len() + 1 && is_row(
            rows[k]@,
            ma,
            mb,
            ma.len() - k,
        )
}

/// Whether `row` holds the lengths for position `i`, last positions first.
pub open spec fn is_row(row: Seq<usize>, ma: Seq<Json>, mb: Seq<Json>, i: int) -> bool {
    forall|t: int| 0 <= t < row.len() ==> #[trigger] row[t] as int == lcs(ma, mb, i, mb.len() - t)
}

/// The part of a list from `from` to before `to`.
fn copy_part(items: &Vec<Value>, from: usize, to: usize) -> (r: Vec<Value>)
    requires
        from <= to <= items.len(),
    ensures
        views(r@) == views(items@).subrange(from as int, to as int),
{
    let mut r: Vec<Value> = Vec::new();
    let mut i: usize = from;
    while i < to
        invariant
            from <= i <= to <= items.len(),
            views(r@) =~= views(items@).subrange(from as int, i as int),
        decreases to - i,
    {
        let ghost prior = views(r@);
        r.push(items[i].copy());
        i += 1;
        assert(views(r@) =~= prior.push(views(items@)[i - 1]));
    }
    r
}

/// Aligns the parts `a[a0..an]` and `b[b0..bn]` by a longest common
/// subsequence.
#[verifier::loop_isolation(false)]
pub fn lcs_dp(a: &Vec<Value>, b: &Vec<Value>, a0: usize, an: usize, b0: usize, bn: usize) -> (r:
    Alignment)
    requires
        a0 <= an <= a.len(),
        b0 <= bn <= b.len(),
    ensures
        ({
            let ma = views(a@).subrange(a0 as int, an as int);
            let mb = views(b@).subrange(b0 as int, bn as int);
            r@ == Aligned {
                removed: left_out_a(ma, mb, 0, 0, Seq::empty()),
                added: left_out_b(ma, mb, 0, 0, Seq::empty()),
                unchanged: lcs(ma, mb, 0, 0),
            }
        }),
{
    let n: usize = an - a0;
    let m: usize = bn - b0;
    let ghost ma = views(a@).subrange(a0 as int, an as int);
    let ghost mb = views(b@).subrange(b0 as int, bn as int);
    let mut rows: Vec<Vec<usize>> = Vec::new();
    while rows.len() <= n
        invariant
            rows.len() <= n + 1,
            is_table(rows@, ma, mb),
        decreases n + 1 - rows.len(),
    {
        let k: usize = rows.len();
        let mut row: Vec<usize> = Vec::new();
        row.push(0);
        let mut t: usize = 0;
        while t < m
            invariant
                t <= m,
                row.len() == t + 1,
                is_row(row@, ma, mb, n - k),
            decreases m - t,
        {
            t += 1;
            let ghost i = n - k;
            let ghost j = m - t;
            let x: usize = if k == 0 {
                0
            } else {
                proof {
                    lemma_lcs_bounds(ma, mb, i + 1, j + 1);
                    assert(rows@[k - 1]@[t - 1] as int == lcs(ma, mb, i + 1, j + 1));
                    assert(rows@[k - 1]@[t as int] as int == lcs(ma, mb, i + 1, j));
                    assert(row@[t - 1] as int == lcs(ma, mb, i, j + 1));
                    assert(ma[i] == a@[a0 + i]@);
                    assert(mb[j] == b@[b0 + j]@);
                }
                if a[a0 + (n - k)].equals(&b[b0 + (m - t)]) {
                    rows[k - 1][t - 1] + 1
                } else if rows[k - 1][t] >= row[t - 1] {
                    rows[k - 1][t]
                } else {
                    row[t - 1]
                }
            };
            let ghost prior = row@;
            row.push(x);
            assert(forall|u: int| 0 <= u < prior.len() ==> row@[u] == prior[u]);
            assert(x as int == lcs(ma, mb, i, j));
        }
        let ghost prior = rows@;
        rows.push(row);
        assert(forall|u: int| 0 <= u < prior.len() ==> rows@[u] == prior[u]);
        assert(rows@[k as int] == row);
    }
    let mut removed: Vec<Value> = Vec::new();
    let mut added: Vec<Value> = Vec::new();
    assert(views(removed@) =~= Seq::<Json>::empty());
    assert(views(added@) =~= Seq::<Json>::empty());
    let mut i: usize = 0;
    let mut j: usize = 0;
    while i < n && j < m
        invariant
            i <= n,
            j <= m,
            left_out_a(ma, mb, 0, 0, Seq::empty()) == left_out_a(
                ma,
                mb,
                i as int,
                j as int,
                views(removed@),
            ),
            left_out_b(ma, mb, 0, 0, Seq::empty()) == left_out_b(
                ma,
                mb,
                i as int,
                j as int,
                views(added@),
            ),
        decreases n - i + m - j,
    {
        assert(ma[i as int] == a@[a0 + i]@);
        assert(mb[j as int] == b@[b0 + j]@);
        if a[a0 + i].equals(&b[b0 + j]) {
            i += 1;
            j += 1;
        } else {
            assert(rows@[n - i - 1]@[m - j] as int == lcs(ma, mb, i + 1, j as int));
            assert(rows@[n - i]@[m - j - 1] as int == lcs(ma, mb, i as int, j + 1));
            if rows[n - i - 1][m - j] >= rows[n - i][m - j - 1] {
                let ghost prior = views(removed@);
                removed.push(a[a0 + i].copy());
                assert(views(removed@) =~= prior.push(ma[i as int]));
                i += 1;
            } else {
                let ghost prior = views(added@);
                added.push(b[b0 + j].copy());
                assert(views(added@) =~= prior.push(mb[j as int]));
                j += 1;
            }
        }
    }
    let mut tail_a = copy_part(a, a0 + i, an);
    let mut tail_b = copy_part(b, b0 + j, bn);
    assert(views(tail_a@) =~= ma.skip(i as int));
    assert(views(tail_b@) =~= mb.skip(j as int));
    let ghost ra = views(removed@);
    let ghost rb = views(added@);
    let ghost ta = views(tail_a@);
    let ghost tb = views(tail_b@);
    removed.append(&mut tail_a);
    added.append(&mut tail_b);
    assert(views(removed@) =~= ra + ta);
    assert(views(added@) =~= rb + tb);
    assert(rows@[n as int]@[m as int] as int == lcs(ma, mb, 0, 0));
    Alignment { removed, added, unchanged: rows[n][m] }
}

/// Aligns two lists.
pub fn lcs_align(a: &Vec<Value>, b: &Vec<Value>) -> (r: Alignment)
    ensures
        r@ == aligned(views(a@), views(b@)),
{
    let ghost va = views(a@);
    let ghost vb = views(b@);
    let mut start: usize = 0;
    while start < a.len() && start < b.len() && a[start].equals(&b[start])
        invariant
            start <= a.len(),
            start <= b.len(),
            va == views(a@),
            vb == views(b@),
            common_start(va, vb, 0) == common_start(va, vb, start as int),
        decreases a.len() - start,
    {
        assert(va[start as int] == a@[start as int]@);
        assert(vb[start as int] == b@[start as int]@);
        start += 1;
    }
    assert(start < a.len() ==> va[start as int] == a@[start as int]@);
    assert(start < b.len() ==> vb[start as int] == b@[start as int]@);
    let mut end: usize = 0;
    while a.len() - end > start && b.len() - end > start && a[a.len() - end - 1].equals(
        &b[b.len() - end - 1],
    )
        invariant
            start <= a.len(),
            start <= b.len(),
            end <= a.len() - start,
            end <= b.len() - start,
            va == views(a@),
            vb == views(b@),
            common_end(va, vb, start as int, 0) == common_end(va, vb, start as int, end as int),
        decreases a.len() - end,
    {
        assert(va[a.len() - end - 1] == a@[a.len() - end - 1]@);
        assert(vb[b.len() - end - 1] == b@[b.len() - end - 1]@);
        end += 1;
    }
    assert(a.len() - end > start ==> va[a.len() - end - 1] == a@[a.len() - end - 1]@);
    assert(b.len() - end > start ==> vb[b.len() - end - 1] == b@[b.len() - end - 1]@);
    let an: usize = a.len() - end;
    let bn: usize = b.len() - end;
    let la: u128 = (an - start) as u128;
    let lb: u128 = (bn - start) as u128;
    assert(la * lb <= 0xFFFF_FFFF_FFFF_FFFF * 0xFFFF_FFFF_FFFF_FFFF) by (nonlinear_arith)
        requires
            la <= 0xFFFF_FFFF_FFFF_FFFF,
            lb <= 0xFFFF_FFFF_FFFF_FFFF,
    ;
    if la * lb > 250000 {
        let removed = copy_part(a, start, an);
        let added = copy_part(b, start, bn);
        return Alignment { removed, added, unchanged: start + end };
    }
    let mid = lcs_dp(a, b, start, an, start, bn);
    proof {
        lemma_lcs_bounds(va.subrange(start as int, an as int), vb.subrange(start as int, bn as int), 0, 0);
    }
    Alignment {
        removed: mid.removed,
        added: mid.added,
        unchanged: start + end + mid.unchanged,
    }
}

} // verus!
