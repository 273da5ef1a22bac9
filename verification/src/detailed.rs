//! Detailed (importance-weighted) mode: a first pass guarantees that every
//! selected task is covered once, a second pass deals the remaining
//! weighted pool out to the remaining participants.

use vstd::prelude::*;
use crate::names_of;
use crate::allocator::{Assignment, AssignmentResult, task_view, task_views, participant_names};
use crate::shuffle::shuffle_names;

verus! {

/// The weighted pool as it stands after the coverage pass has taken one
/// occurrence of each of the first `m` task names out of it (taking
/// nothing for a name that is no longer present).
pub open spec fn pool_after_coverage(pool: Seq<Seq<char>>, tasks: Seq<Seq<char>>, m: int) -> Seq<
    Seq<char>,
>
    decreases m,
{
    if m <= 0 {
        pool
    } else {
        pool_after_coverage(pool, tasks, m - 1).remove_value(tasks[m - 1])
    }
}

/// Removing the first occurrence of a value takes exactly that one
/// occurrence out of the sequence's multiset, and does nothing when the
/// value is absent.
proof fn lemma_remove_value_multiset(s: Seq<Seq<char>>, x: Seq<char>)
    ensures
        s.contains(x) ==> s.remove_value(x).to_multiset() == s.to_multiset().remove(x)
            && s.remove_value(x).len() == s.len() - 1,
        !s.contains(x) ==> s.remove_value(x) == s,
{
    broadcast use vstd::multiset::group_multiset_axioms;
    broadcast use vstd::seq_lib::group_to_multiset_ensures;

    s.index_of_first_ensures(x);
    if s.contains(x) {
        let i = s.index_of_first(x)->0;
        assert(s.remove_value(x) == s.remove(i));
        assert(s.remove(i).to_multiset() == s.to_multiset().remove(s[i]));
    }
}

proof fn lemma_coverage_removals(pl: Seq<Seq<char>>, ts: Seq<Seq<char>>, m: int)
    requires
        0 <= m <= ts.len(),
        ts.no_duplicates(),
        forall|i: int| 0 <= i < m ==> pl.to_multiset().count(ts[i]) >= 1,
    ensures
        pool_after_coverage(pl, ts, m).len() == pl.len() - m,
        forall|j: int|
            0 <= j < m ==> pool_after_coverage(pl, ts, m).to_multiset().count(ts[j])
                == pl.to_multiset().count(ts[j]) - 1,
        forall|x: Seq<char>|
            (forall|j: int| 0 <= j < m ==> ts[j] != x) ==> pool_after_coverage(
                pl,
                ts,
                m,
            ).to_multiset().count(x) == pl.to_multiset().count(x),
    decreases m,
{
    broadcast use vstd::multiset::group_multiset_axioms;
    broadcast use vstd::seq_lib::group_to_multiset_ensures;

    if m > 0 {
        lemma_coverage_removals(pl, ts, m - 1);
        let before = pool_after_coverage(pl, ts, m - 1);
        let x = ts[m - 1];
        assert(forall|j: int| 0 <= j < m - 1 ==> ts[j] != x);
        assert(before.to_multiset().count(x) == pl.to_multiset().count(x));
        assert(before.to_multiset().count(x) >= 1);
        assert(before.contains(x));
        lemma_remove_value_multiset(before, x);
    }
}

/// The pool never grows under the coverage pass: every count in the
/// leftover pool is bounded by its count in the starting pool.
proof fn lemma_coverage_counts_bounded(pl: Seq<Seq<char>>, ts: Seq<Seq<char>>, m: int, x: Seq<char>)
    ensures
        pool_after_coverage(pl, ts, m).to_multiset().count(x) <= pl.to_multiset().count(x),
    decreases m,
{
    broadcast use vstd::multiset::group_multiset_axioms;
    broadcast use vstd::seq_lib::group_to_multiset_ensures;

    if m > 0 {
        lemma_coverage_counts_bounded(pl, ts, m - 1, x);
        let before = pool_after_coverage(pl, ts, m - 1);
        lemma_remove_value_multiset(before, ts[m - 1]);
    }
}

/// Removes the first occurrence of `t` from `pool`, if one is present.
fn remove_first_occurrence(pool: &mut Vec<String>, t: &String)
    ensures
        names_of(final(pool)@) == names_of(old(pool)@).remove_value(t@),
{
    let ghost p0 = names_of(old(pool)@);
    let mut j: usize = 0;
    while j < pool.len()
        invariant
            j <= pool@.len(),
            pool@ == old(pool)@,
            p0 == names_of(pool@),
            forall|i: int| 0 <= i < j ==> p0[i] != t@,
        decreases pool@.len() - j,
    {
        if pool[j].eq(t) {
            assert(p0[j as int] == t@);
            pool.remove(j);
            proof {
                p0.index_of_first_ensures(t@);
                let found = p0.index_of_first(t@);
                assert(found is Some);
                let idx = found->0;
                assert(p0[idx] == t@);
                assert(idx == j as int);
                assert(names_of(pool@) =~= p0.remove(j as int));
            }
            return ;
        }
        j = j + 1;
    }
    proof {
        assert(forall|i: int| 0 <= i < p0.len() ==> p0[i] != t@);
        p0.index_of_first_ensures(t@);
        if p0.contains(t@) {
            let w = choose|w: int| 0 <= w < p0.len() && p0[w] == t@;
            assert(false);
        }
        assert(names_of(pool@) =~= p0.remove_value(t@));
    }
}

/// The deterministic heart of the detailed mode, on inputs whose order is
/// already fixed (the callers shuffle first). Pass one pairs participant
/// `i` with task `i` while both last, taking one occurrence of that task
/// out of the pool; pass two serves the remaining participants from the
/// end of the leftover pool until it runs dry, then hands out the
/// "no service" marker.
pub fn assign_detailed_core(
    participants: Vec<String>,
    unique_tasks: Vec<String>,
    pool: Vec<String>,
) -> (out: Vec<Assignment>)
    ensures
        ({
            let ps = names_of(participants@);
            let ts = names_of(unique_tasks@);
            let pl = names_of(pool@);
            let n = ps.len() as int;
            let k = ts.len() as int;
            let m = if n < k {
                n
            } else {
                k
            };
            let rem = pool_after_coverage(pl, ts, m);
            let r = rem.len() as int;
            &&& out@.len() == n
            &&& forall|i: int|
                #![trigger out@[i]]
                0 <= i < n ==> out@[i].participant@ == ps[i]
            &&& forall|i: int| 0 <= i < m ==> task_views(out@)[i] == Some(ts[i])
            &&& forall|j: int|
                m <= j < n ==> task_views(out@)[j] == if j - m < r {
                    Some(rem[r - 1 - (j - m)])
                } else {
                    None::<Seq<char>>
                }
        }),
{
    let ghost ps = names_of(participants@);
    let ghost ts = names_of(unique_tasks@);
    let ghost pl = names_of(pool@);
    let n = participants.len();
    let k = unique_tasks.len();
    let m = if n < k {
        n
    } else {
        k
    };
    let mut pool = pool;
    let mut out: Vec<Assignment> = Vec::new();
    let mut i: usize = 0;
    while i < m
        invariant
            i <= m,
            m == if n < k {
                n as int
            } else {
                k as int
            },
            n == participants@.len(),
            k == unique_tasks@.len(),
            ps == names_of(participants@),
            ts == names_of(unique_tasks@),
            out@.len() == i,
            forall|j: int|
                #![trigger out@[j]]
                0 <= j < i ==> out@[j].participant@ == ps[j] && task_view(out@[j].task) == Some(
                    ts[j],
                ),
            names_of(pool@) == pool_after_coverage(pl, ts, i as int),
        decreases m - i,
    {
        let a = Assignment {
            participant: participants[i].clone(),
            task: Some(unique_tasks[i].clone()),
        };
        assert(a.participant@ == ps[i as int]);
        assert(task_view(a.task) == Some(ts[i as int]));
        out.push(a);
        remove_first_occurrence(&mut pool, &unique_tasks[i]);
        i = i + 1;
        assert(names_of(pool@) == pool_after_coverage(pl, ts, i as int));
    }
    let ghost rem = names_of(pool@);
    let ghost r = rem.len() as int;
    let mut j = m;
    while j < n
        invariant
            m <= j <= n,
            n == participants@.len(),
            ps == names_of(participants@),
            out@.len() == j,
            r == rem.len(),
            names_of(pool@) == rem.take(if r >= j - m {
                r - (j - m)
            } else {
                0
            }),
            forall|j2: int|
                #![trigger out@[j2]]
                0 <= j2 < m ==> out@[j2].participant@ == ps[j2],
            forall|j2: int| 0 <= j2 < m ==> task_view(out@[j2].task) == Some(ts[j2]),
            forall|j2: int|
                #![trigger out@[j2]]
                m <= j2 < j ==> out@[j2].participant@ == ps[j2] && task_view(out@[j2].task) == (
                if j2 - m < r {
                    Some(rem[r - 1 - (j2 - m)])
                } else {
                    None::<Seq<char>>
                }),
        decreases n - j,
    {
        let ghost left = if r >= j - m {
            r - (j as int - m as int)
        } else {
            0
        };
        assert(pool@.len() == names_of(pool@).len());
        let picked = pool.pop();
        let a = match picked {
            Some(t) => {
                proof {
                    assert(left > 0);
                    assert(names_of(pool@) =~= rem.take(left - 1));
                    assert(t@ == rem.take(left)[left - 1]);
                    assert(rem.take(left)[left - 1] == rem[left - 1]);
                    assert(left - 1 == r - 1 - (j - m));
                }
                Assignment { participant: participants[j].clone(), task: Some(t) }
            },
            None => {
                proof {
                    assert(left == 0);
                    assert(j - m >= r);
                    assert(names_of(pool@) =~= rem.take(0));
                }
                Assignment { participant: participants[j].clone(), task: None }
            },
        };
        assert(a.participant@ == ps[j as int]);
        out.push(a);
        j = j + 1;
    }
    proof {
        assert(forall|i2: int| 0 <= i2 < m ==> task_views(out@)[i2] == Some(ts[i2]));
        assert forall|j2: int| m <= j2 < n implies task_views(out@)[j2] == (if j2 - m < r {
            Some(rem[r - 1 - (j2 - m)])
        } else {
            None::<Seq<char>>
        }) by {
            assert(task_views(out@)[j2] == task_view(out@[j2].task));
        }
    }
    out
}

/// What the detailed mode promises of a produced assignment list, over
/// the participant names `ps`, the distinct selected task names `ts` and
/// the weighted pool `pl`: one line per participant, the participants a
/// permutation of `ps`, every served task drawn from the selection or the
/// pool; with enough participants every selected task covered at least
/// once, with too few exactly one distinct task per participant and no
/// sentinel; and when the whole pool is smaller than the roster, served
/// lines exactly up to the pool's size and the sentinel on the rest.
pub open spec fn detailed_outcome_ok(
    ps: Seq<Seq<char>>,
    ts: Seq<Seq<char>>,
    pl: Seq<Seq<char>>,
    out: Seq<Assignment>,
) -> bool {
    let n = ps.len() as int;
    let k = ts.len() as int;
    let w = pl.len() as int;
    &&& out.len() == n
    &&& participant_names(out).to_multiset() == ps.to_multiset()
    &&& forall|i: int|
        0 <= i < n && task_views(out)[i] is Some ==> ts.contains(task_views(out)[i]->0)
            || pl.contains(task_views(out)[i]->0)
    &&& n >= k ==> forall|t: Seq<char>|
        ts.contains(t) ==> exists|i: int| 0 <= i < n && task_views(out)[i] == Some(t)
    &&& n < k ==> (forall|i: int|
        0 <= i < n ==> task_views(out)[i] is Some && ts.contains(task_views(out)[i]->0)) && (
    forall|i1: int, i2: int| 0 <= i1 < i2 < n ==> task_views(out)[i1] != task_views(out)[i2])
    &&& ((forall|t: Seq<char>| ts.contains(t) ==> pl.to_multiset().count(t) >= 1) && w < n) ==> (
    forall|j: int| 0 <= j < n ==> (task_views(out)[j] is None <==> w <= j))
}

/// Detailed (importance-weighted) mode: permutes the participants and the
/// weighted pool independently, then runs the two passes of
/// `assign_detailed_core` with the distinct selected task names in their
/// given order. Rejects an empty roster or an empty pool.
pub fn assign_detailed(
    participants: Vec<String>,
    unique_tasks: Vec<String>,
    pool: Vec<String>,
) -> (r: AssignmentResult)
    requires
        names_of(unique_tasks@).no_duplicates(),
    ensures
        r is InsufficientInput <==> (participants@.len() == 0 || pool@.len() == 0),
        r matches AssignmentResult::Assigned(out) ==> detailed_outcome_ok(
            names_of(participants@),
            names_of(unique_tasks@),
            names_of(pool@),
            out@,
        ),
{
    broadcast use vstd::multiset::group_multiset_axioms;
    broadcast use vstd::seq_lib::group_to_multiset_ensures;

    if participants.len() == 0 || pool.len() == 0 {
        return AssignmentResult::InsufficientInput;
    }
    let ghost ps0 = names_of(participants@);
    let ghost ts = names_of(unique_tasks@);
    let ghost pl0 = names_of(pool@);
    let n = participants.len();
    let ghost k = ts.len() as int;
    let ghost w = pl0.len() as int;
    let ghost m: int = if (n as int) < k {
        n as int
    } else {
        k
    };
    let mut participants = participants;
    shuffle_names(&mut participants);
    let ghost ps1 = names_of(participants@);
    let mut pool = pool;
    shuffle_names(&mut pool);
    let ghost pl1 = names_of(pool@);
    let ghost rem = pool_after_coverage(pl1, ts, m);
    let ghost r_len = rem.len() as int;
    let out = assign_detailed_core(participants, unique_tasks, pool);
    proof {
        assert(participant_names(out@) =~= ps1);
        assert forall|i: int| 0 <= i < n && task_views(out@)[i] is Some implies ts.contains(
            task_views(out@)[i]->0,
        ) || pl0.contains(task_views(out@)[i]->0) by {
            if i < m {
                assert(task_views(out@)[i] == Some(ts[i]));
                assert(ts.contains(ts[i]));
            } else {
                if i - m < r_len {
                    let x = rem[r_len - 1 - (i - m)];
                    assert(task_views(out@)[i] == Some(x));
                    assert(rem.contains(x));
                    assert(rem.to_multiset().count(x) > 0);
                    lemma_coverage_counts_bounded(pl1, ts, m, x);
                    assert(pl1.to_multiset().count(x) > 0);
                    assert(pl0.to_multiset().count(x) > 0);
                    assert(pl0.contains(x));
                }
            }
        }
        if n >= k {
            assert forall|t: Seq<char>| ts.contains(t) implies exists|i: int|
                0 <= i < n && task_views(out@)[i] == Some(t) by {
                let j = choose|j: int| 0 <= j < ts.len() && ts[j] == t;
                assert(task_views(out@)[j] == Some(t));
            }
        }
        if (n as int) < k {
            assert forall|i: int| 0 <= i < n implies task_views(out@)[i] is Some && ts.contains(
                task_views(out@)[i]->0,
            ) by {
                assert(task_views(out@)[i] == Some(ts[i]));
                assert(ts.contains(ts[i]));
            }
            assert forall|i1: int, i2: int| 0 <= i1 < i2 < n implies task_views(out@)[i1]
                != task_views(out@)[i2] by {
                assert(task_views(out@)[i1] == Some(ts[i1]));
                assert(task_views(out@)[i2] == Some(ts[i2]));
            }
        }
        if (forall|t: Seq<char>| ts.contains(t) ==> pl0.to_multiset().count(t) >= 1) && w
            < n as int {
            assert forall|i: int| 0 <= i < m implies pl1.to_multiset().count(ts[i]) >= 1 by {
                assert(ts.contains(ts[i]));
            }
            lemma_coverage_removals(pl1, ts, m);
            assert(r_len == w - m);
            assert forall|j: int| 0 <= j < n implies (task_views(out@)[j] is None <==> w <= j) by {
                if j < m {
                    assert(task_views(out@)[j] == Some(ts[j]));
                } else {
                    assert(task_views(out@)[j] == if j - m < r_len {
                        Some(rem[r_len - 1 - (j - m)])
                    } else {
                        None::<Seq<char>>
                    });
                }
            }
        }
    }
    AssignmentResult::Assigned(out)
}

} // verus!
