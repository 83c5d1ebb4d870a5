//! Lists that hold what is picked from others.
use vstd::prelude::*;

verus! {

/// What `f` gives for the first `n` positions, where it gives something.
pub open spec fn picked<T>(f: spec_fn(int) -> Option<T>, n: nat) -> Seq<T>
    decreases n,
{
    if n == 0 {
        Seq::empty()
    } else {
        let before = picked(f, (n - 1) as nat);
        match f(n - 1) {
            Some(x) => before.push(x),
            None => before,
        }
    }
}

/// Whether a list holds what `f` gives for the positions `at`, which increase
/// and are all those below `n` for which it gives something.
pub open spec fn picks<T>(
    list: Seq<T>,
    f: spec_fn(int) -> Option<T>,
    n: nat,
    at: Seq<int>,
) -> bool {
    &&& at.len() == list.len()
    &&& forall|t: int| 0 <= t < at.len() ==> 0 <= #[trigger] at[t] < n
    &&& forall|t: int| 0 <= t < list.len() ==> f(at[t]) == Some(#[trigger] list[t])
    &&& forall|t: int, u: int| 0 <= t < u < at.len() ==> #[trigger] at[t] < #[trigger] at[u]
    &&& forall|i: int| 0 <= i < n && (#[trigger] f(i)) is Some ==> at.contains(i)
}

/// Whether a list holds what `f` gives for the positions below `n` where it
/// gives something, in order and nothing else.
pub open spec fn holds_picks<T>(list: Seq<T>, f: spec_fn(int) -> Option<T>, n: nat) -> bool {
    exists|at: Seq<int>| #[trigger] picks(list, f, n, at)
}

/// What is picked is a list of picks.
pub proof fn lemma_picked<T>(f: spec_fn(int) -> Option<T>, n: nat) -> (at: Seq<int>)
    ensures
        picks(picked(f, n), f, n, at),
        holds_picks(picked(f, n), f, n),
    decreases n,
{
    if n == 0 {
        Seq::empty()
    } else {
        let was = lemma_picked(f, (n - 1) as nat);
        let before = picked(f, (n - 1) as nat);
        match f(n - 1) {
            Some(x) => {
                let at = was.push(n - 1);
                let list = before.push(x);
                assert forall|t: int| 0 <= t < at.len() implies 0 <= #[trigger] at[t] < n by {
                    if t < was.len() {
                        assert(at[t] == was[t]);
                    }
                }
                assert forall|t: int| 0 <= t < list.len() implies f(at[t]) == Some(
                    #[trigger] list[t],
                ) by {
                    if t < before.len() {
                        assert(list[t] == before[t] && at[t] == was[t]);
                    }
                }
                assert forall|t: int, u: int| 0 <= t < u < at.len() implies #[trigger] at[t]
                    < #[trigger] at[u] by {
                    assert(at[t] == was[t]);
                    assert(f(was[t]) == Some(before[t]));
                    if u < was.len() {
                        assert(at[u] == was[u]);
                    }
                }
                assert forall|i: int| 0 <= i < n && (#[trigger] f(i)) is Some implies at.contains(
                    i,
                ) by {
                    if i < n - 1 {
                        let t = choose|t: int| 0 <= t < was.len() && was[t] == i;
                        assert(at[t] == i);
                    } else {
                        assert(at[was.len() as int] == i);
                    }
                }
                assert(picks(list, f, n, at));
                at
            },
            None => {
                assert forall|i: int| 0 <= i < n && (#[trigger] f(i)) is Some implies was.contains(
                    i,
                ) by {
                    assert(i < n - 1);
                }
                assert(picks(before, f, n, was));
                was
            },
        }
    }
}

} // verus!
