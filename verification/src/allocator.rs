//! The allocator: both allocation modes, their helper bookkeeping, and the
//! lemmas that carry the fairness guarantees through the random shuffles.

use vstd::prelude::*;
use vstd::multiset::Multiset;
use crate::names_of;
use crate::model::{
    Participant, Task, enabled_names_spec, enabled_participants, repeat_name, selected_names_spec,
    selected_tasks, weighted_pool, weighted_pool_spec,
};
use crate::detailed::{assign_detailed, detailed_outcome_ok};
use crate::shuffle::shuffle_names;

verus! {

/// One line of the output: a participant paired with the task they were
/// given, or with nothing when the pool ran out.
pub struct Assignment {
    pub participant: String,
    pub task: Option<String>,
}

/// What an allocation run produces: an assignment list, or the diagnostic
/// for an empty roster or an empty task selection.
pub enum AssignmentResult {
    Assigned(Vec<Assignment>),
    InsufficientInput,
}

/// The view of an assigned task: the task name, or nothing for the
/// "no service available" sentinel.
pub open spec fn task_view(t: Option<String>) -> Option<Seq<char>> {
    match t {
        Some(name) => Some(name@),
        None => None,
    }
}

/// The participant column of an assignment list, as name views.
pub open spec fn participant_names(out: Seq<Assignment>) -> Seq<Seq<char>> {
    out.map_values(|a: Assignment| a.participant@)
}

/// The task column of an assignment list, as task views.
pub open spec fn task_views(out: Seq<Assignment>) -> Seq<Option<Seq<char>>> {
    out.map_values(|a: Assignment| task_view(a.task))
}

/// How many times a task name occurs in an assignment list.
pub open spec fn service_count(out: Seq<Assignment>, t: Seq<char>) -> nat {
    task_views(out).to_multiset().count(Some(t))
}

/// The pool the basic mode pairs against: with `base = n / k` and
/// `extra = n % k`, the first `extra` of the `k` task names contribute
/// `base + 1` copies each and the rest `base` copies each, in order.
pub open spec fn basic_pool_prefix(tasks: Seq<Seq<char>>, base: nat, extra: nat, i: nat) -> Seq<
    Seq<char>,
>
    decreases i,
{
    if i == 0 {
        Seq::empty()
    } else {
        basic_pool_prefix(tasks, base, extra, (i - 1) as nat) + repeat_name(
            tasks[i - 1],
            base + if i - 1 < extra {
                1nat
            } else {
                0nat
            },
        )
    }
}

/// The full basic-mode pool over all `k` task names, sized for `n`
/// participants.
pub open spec fn basic_pool_spec(tasks: Seq<Seq<char>>, n: nat) -> Seq<Seq<char>>
    recommends
        tasks.len() >= 1,
{
    basic_pool_prefix(tasks, n / tasks.len(), n % tasks.len(), tasks.len())
}

proof fn lemma_repeat_name_len(name: Seq<char>, count: nat)
    ensures
        repeat_name(name, count).len() == count,
    decreases count,
{
    if count > 0 {
        lemma_repeat_name_len(name, (count - 1) as nat);
    }
}

proof fn lemma_repeat_name_count(name: Seq<char>, count: nat, x: Seq<char>)
    ensures
        repeat_name(name, count).to_multiset().count(x) == if x == name {
            count
        } else {
            0nat
        },
    decreases count,
{
    broadcast use vstd::seq_lib::group_to_multiset_ensures;
    broadcast use vstd::multiset::group_multiset_axioms;

    if count == 0 {
        assert(repeat_name(name, count).to_multiset() =~= Multiset::<Seq<char>>::empty());
    } else {
        lemma_repeat_name_count(name, (count - 1) as nat, x);
    }
}

proof fn lemma_basic_pool_prefix_len(tasks: Seq<Seq<char>>, base: nat, extra: nat, i: nat)
    requires
        extra <= tasks.len(),
        i <= tasks.len(),
    ensures
        basic_pool_prefix(tasks, base, extra, i).len() == i * base + if i < extra {
            i
        } else {
            extra
        },
    decreases i,
{
    if i == 0 {
        assert(basic_pool_prefix(tasks, base, extra, 0) == Seq::<Seq<char>>::empty());
        assert(basic_pool_prefix(tasks, base, extra, 0).len() == 0);
        assert(i * base == 0) by (nonlinear_arith)
            requires
                i == 0,
        ;
    } else {
        let prev = (i - 1) as nat;
        let c: nat = base + if prev < extra {
            1nat
        } else {
            0nat
        };
        lemma_basic_pool_prefix_len(tasks, base, extra, prev);
        lemma_repeat_name_len(tasks[prev as int], c);
        assert(basic_pool_prefix(tasks, base, extra, i).len() == prev * base + (if prev < extra {
            prev
        } else {
            extra
        }) + c);
        assert(prev * base + base == i * base) by (nonlinear_arith)
            requires
                prev == i - 1,
                i >= 1,
        ;
    }
}

/// With `base` and `extra` taken from dividing `n` by the number of tasks,
/// the full pool holds exactly `n` entries.
proof fn lemma_basic_pool_len(tasks: Seq<Seq<char>>, n: nat)
    requires
        tasks.len() >= 1,
    ensures
        basic_pool_spec(tasks, n).len() == n,
{
    let k = tasks.len();
    let base = n / k;
    let extra = n % k;
    vstd::arithmetic::div_mod::lemma_fundamental_div_mod(n as int, k as int);
    lemma_basic_pool_prefix_len(tasks, base, extra, k);
    assert(k * base == base * k) by (nonlinear_arith);
}

proof fn lemma_basic_pool_prefix_count_absent(
    tasks: Seq<Seq<char>>,
    base: nat,
    extra: nat,
    i: nat,
    x: Seq<char>,
)
    requires
        i <= tasks.len(),
        forall|j: int| 0 <= j < i ==> tasks[j] != x,
    ensures
        basic_pool_prefix(tasks, base, extra, i).to_multiset().count(x) == 0,
    decreases i,
{
    broadcast use vstd::multiset::group_multiset_axioms;
    broadcast use vstd::seq_lib::group_to_multiset_ensures;

    if i == 0 {
        assert(!basic_pool_prefix(tasks, base, extra, i).contains(x));
    } else {
        let prev = (i - 1) as nat;
        let c: nat = base + if prev < extra {
            1nat
        } else {
            0nat
        };
        lemma_basic_pool_prefix_count_absent(tasks, base, extra, prev, x);
        lemma_repeat_name_count(tasks[prev as int], c, x);
        vstd::seq_lib::lemma_multiset_commutative(
            basic_pool_prefix(tasks, base, extra, prev),
            repeat_name(tasks[prev as int], c),
        );
    }
}

proof fn lemma_basic_pool_prefix_count_at(
    tasks: Seq<Seq<char>>,
    base: nat,
    extra: nat,
    i: nat,
    j: int,
)
    requires
        tasks.no_duplicates(),
        0 <= j < i,
        i <= tasks.len(),
    ensures
        basic_pool_prefix(tasks, base, extra, i).to_multiset().count(tasks[j]) == base + if j
            < extra {
            1nat
        } else {
            0nat
        },
    decreases i,
{
    broadcast use vstd::multiset::group_multiset_axioms;

    let x = tasks[j];
    let prev = (i - 1) as nat;
    let c: nat = base + if prev < extra {
        1nat
    } else {
        0nat
    };
    lemma_repeat_name_count(tasks[prev as int], c, x);
    vstd::seq_lib::lemma_multiset_commutative(
        basic_pool_prefix(tasks, base, extra, prev),
        repeat_name(tasks[prev as int], c),
    );
    if j == i - 1 {
        assert(forall|j2: int| 0 <= j2 < prev ==> tasks[j2] != x);
        lemma_basic_pool_prefix_count_absent(tasks, base, extra, prev, x);
    } else {
        lemma_basic_pool_prefix_count_at(tasks, base, extra, prev, j);
        assert(tasks[prev as int] != x);
    }
}

/// Builds the basic-mode pool for `n` participants from the (already
/// permuted) task names: the first `n % k` names get one extra copy.
pub fn build_basic_pool(tasks: &Vec<String>, n: usize) -> (r: Vec<String>)
    requires
        tasks@.len() >= 1,
    ensures
        names_of(r@) == basic_pool_spec(names_of(tasks@), n as nat),
        r@.len() == n,
{
    let ghost ts = names_of(tasks@);
    let k = tasks.len();
    let base = n / k;
    let extra = n % k;
    proof {
        vstd::arithmetic::div_mod::lemma_fundamental_div_mod(n as int, k as int);
    }
    let mut r: Vec<String> = Vec::new();
    let mut i: usize = 0;
    while i < k
        invariant
            i <= k,
            k == tasks@.len(),
            ts == names_of(tasks@),
            base == n as int / k as int,
            extra == n as int % k as int,
            n == k * base + extra,
            names_of(r@) == basic_pool_prefix(ts, base as nat, extra as nat, i as nat),
        decreases k - i,
    {
        let copies = if i < extra {
            proof {
                assert(extra >= 1 && extra < k);
                assert(k * base >= 2 * base) by (nonlinear_arith)
                    requires
                        k >= 2,
                        base >= 0,
                ;
            }
            base + 1
        } else {
            base
        };
        let ghost before = names_of(r@);
        let mut c: usize = 0;
        while c < copies
            invariant
                c <= copies,
                i < tasks@.len(),
                ts == names_of(tasks@),
                names_of(r@) == before + repeat_name(ts[i as int], c as nat),
            decreases copies - c,
        {
            let ghost prev = names_of(r@);
            r.push(tasks[i].clone());
            proof {
                assert(names_of(r@) =~= prev.push(ts[i as int]));
                assert(prev.push(ts[i as int]) =~= before + repeat_name(ts[i as int], (c + 1) as nat));
            }
            c = c + 1;
        }
        i = i + 1;
        proof {
            assert(names_of(r@) =~= basic_pool_prefix(ts, base as nat, extra as nat, i as nat));
        }
    }
    proof {
        lemma_basic_pool_len(ts, n as nat);
        assert(r@.len() == names_of(r@).len());
    }
    r
}

/// Every name wrapped in `Some`, as the task column of a fully served
/// assignment list reads.
spec fn somes(s: Seq<Seq<char>>) -> Seq<Option<Seq<char>>> {
    s.map_values(|x: Seq<char>| Some(x))
}

proof fn lemma_somes_count(s: Seq<Seq<char>>, t: Seq<char>)
    ensures
        somes(s).to_multiset().count(Some(t)) == s.to_multiset().count(t),
    decreases s.len(),
{
    broadcast use vstd::multiset::group_multiset_axioms;
    broadcast use vstd::seq_lib::group_to_multiset_ensures;

    if s.len() == 0 {
        assert(!s.contains(t));
        assert(!somes(s).contains(Some(t)));
    } else {
        let d = s.drop_last();
        lemma_somes_count(d, t);
        assert(s =~= d.push(s.last()));
        assert(somes(s) =~= somes(d).push(Some(s.last())));
        assert(s.to_multiset() == d.push(s.last()).to_multiset());
        assert(somes(s).to_multiset() == somes(d).push(Some(s.last())).to_multiset());
    }
}

/// A permutation keeps distinctness: two name lists with the same multiset
/// are either both duplicate-free or neither.
proof fn lemma_permutation_keeps_no_duplicates(a: Seq<Seq<char>>, b: Seq<Seq<char>>)
    requires
        a.to_multiset() == b.to_multiset(),
        a.no_duplicates(),
    ensures
        b.no_duplicates(),
{
    broadcast use vstd::multiset::group_multiset_axioms;

    a.lemma_multiset_has_no_duplicates();
    assert forall|x: Seq<char>| b.to_multiset().contains(x) implies b.to_multiset().count(x)
        == 1 by {
        assert(a.to_multiset().contains(x));
    }
    b.lemma_multiset_has_no_duplicates_conv();
}

/// What the basic mode promises of a produced assignment list, over the
/// participant names `ps` and the distinct selected task names `ts`:
/// one line per participant, the participants a permutation of `ps`,
/// every line served with a selected task, and each task occurring either
/// `floor(n/k)` or `ceil(n/k)` times -- exactly `n/k` times when `k`
/// divides `n`.
pub open spec fn basic_outcome_ok(
    ps: Seq<Seq<char>>,
    ts: Seq<Seq<char>>,
    out: Seq<Assignment>,
) -> bool {
    let n = ps.len();
    let k = ts.len();
    let base = n / k;
    let extra = n % k;
    &&& out.len() == n
    &&& participant_names(out).to_multiset() == ps.to_multiset()
    &&& forall|i: int|
        0 <= i < out.len() ==> task_views(out)[i] is Some && ts.contains(task_views(out)[i]->0)
    &&& forall|t: Seq<char>|
        ts.contains(t) ==> service_count(out, t) == base || service_count(out, t) == base + 1
    &&& extra == 0 ==> forall|t: Seq<char>| ts.contains(t) ==> service_count(out, t) == base
}

/// Pairs participants with pool entries by position: entry `i` of the
/// result assigns pool entry `i` to participant `i`.
pub fn pair_assignments(participants: Vec<String>, pool: Vec<String>) -> (out: Vec<Assignment>)
    requires
        participants@.len() == pool@.len(),
    ensures
        out@.len() == participants@.len(),
        forall|i: int|
            #![trigger out@[i]]
            0 <= i < out@.len() ==> out@[i].participant@ == participants@[i]@ && task_view(
                out@[i].task,
            ) == Some(pool@[i]@),
{
    let mut out: Vec<Assignment> = Vec::new();
    let mut i: usize = 0;
    while i < participants.len()
        invariant
            i <= participants@.len(),
            participants@.len() == pool@.len(),
            out@.len() == i,
            forall|j: int|
                0 <= j < i ==> out@[j].participant@ == participants@[j]@ && task_view(out@[j].task)
                    == Some(pool@[j]@),
        decreases participants@.len() - i,
    {
        let a = Assignment {
            participant: participants[i].clone(),
            task: Some(pool[i].clone()),
        };
        assert(a.participant@ == participants@[i as int]@);
        assert(task_view(a.task) == Some(pool@[i as int]@));
        let ghost prev = out@;
        out.push(a);
        assert(out@ == prev.push(a));
        i = i + 1;
    }
    out
}

/// Basic (equal-distribution) mode: permutes the distinct selected task
/// names, hands the first `n % k` of them one extra copy in a pool of
/// exactly `n` entries, then permutes pool and participants independently
/// and pairs them by position. Rejects an empty roster or selection.
pub fn assign_basic(participants: Vec<String>, tasks: Vec<String>) -> (r: AssignmentResult)
    requires
        names_of(tasks@).no_duplicates(),
    ensures
        r is InsufficientInput <==> (participants@.len() == 0 || tasks@.len() == 0),
        r matches AssignmentResult::Assigned(out) ==> basic_outcome_ok(
            names_of(participants@),
            names_of(tasks@),
            out@,
        ),
{
    broadcast use vstd::multiset::group_multiset_axioms;
    broadcast use vstd::seq_lib::group_to_multiset_ensures;

    if participants.len() == 0 || tasks.len() == 0 {
        return AssignmentResult::InsufficientInput;
    }
    let ghost ps0 = names_of(participants@);
    let ghost ts0 = names_of(tasks@);
    let n = participants.len();
    let ghost k = tasks@.len();
    let ghost base = n as nat / k;
    let ghost extra = n as nat % k;
    let mut tasks = tasks;
    shuffle_names(&mut tasks);
    let ghost ts1 = names_of(tasks@);
    proof {
        lemma_permutation_keeps_no_duplicates(ts0, ts1);
    }
    let mut pool = build_basic_pool(&tasks, n);
    let ghost pool0 = names_of(pool@);
    shuffle_names(&mut pool);
    let ghost pool1 = names_of(pool@);
    let mut participants = participants;
    shuffle_names(&mut participants);
    let ghost ps1 = names_of(participants@);
    let out = pair_assignments(participants, pool);
    proof {
        assert(participant_names(out@) =~= ps1);
        assert forall|i: int| 0 <= i < out@.len() implies task_views(out@)[i] == somes(
            pool1,
        )[i] by {
            assert(task_views(out@)[i] == task_view(out@[i].task));
            assert(somes(pool1)[i] == Some(pool1[i]));
        }
        assert(task_views(out@) =~= somes(pool1));
        assert forall|i: int|
            0 <= i < out@.len() implies task_views(out@)[i] is Some && ts0.contains(
            task_views(out@)[i]->0,
        ) by {
            let x = pool1[i];
            assert(pool1.contains(x));
            assert(pool0.to_multiset().count(x) > 0);
            if forall|j: int| 0 <= j < k ==> ts1[j] != x {
                lemma_basic_pool_prefix_count_absent(ts1, base, extra, k, x);
            }
            let j = choose|j: int| 0 <= j < k && ts1[j] == x;
            assert(ts1.contains(x));
            assert(ts0.to_multiset().count(x) > 0);
        }
        assert forall|t: Seq<char>| ts0.contains(t) implies (service_count(out@, t) == base
            || service_count(out@, t) == base + 1) && (extra == 0 ==> service_count(out@, t)
            == base) by {
            assert(ts1.to_multiset().count(t) > 0);
            assert(ts1.contains(t));
            let j = choose|j: int| 0 <= j < ts1.len() && ts1[j] == t;
            lemma_basic_pool_prefix_count_at(ts1, base, extra, k, j);
            lemma_somes_count(pool1, t);
            assert(service_count(out@, t) == pool1.to_multiset().count(t));
            assert(pool1.to_multiset().count(t) == pool0.to_multiset().count(t));
        }
    }
    AssignmentResult::Assigned(out)
}

/// The occurrence counts of the task names in `ts` added up over an
/// assignment list.
pub open spec fn sum_service_counts(out: Seq<Assignment>, ts: Seq<Seq<char>>) -> nat
    decreases ts.len(),
{
    if ts.len() == 0 {
        0
    } else {
        sum_service_counts(out, ts.drop_last()) + service_count(out, ts.last())
    }
}

proof fn lemma_service_count_push(out: Seq<Assignment>, a: Assignment, t: Seq<char>)
    ensures
        task_view(a.task) == Some(t) ==> service_count(out.push(a), t) == service_count(out, t)
            + 1,
        forall|t2: Seq<char>|
            task_view(a.task) != Some(t2) ==> service_count(out.push(a), t2) == service_count(
                out,
                t2,
            ),
{
    broadcast use vstd::multiset::group_multiset_axioms;
    broadcast use vstd::seq_lib::group_to_multiset_ensures;

    assert(task_views(out.push(a)) =~= task_views(out).push(task_view(a.task)));
    assert(task_views(out).push(task_view(a.task)).to_multiset() == task_views(
        out,
    ).to_multiset().insert(task_view(a.task)));
}

proof fn lemma_sum_counts_push(out: Seq<Assignment>, a: Assignment, ts: Seq<Seq<char>>, x: Seq<char>)
    requires
        ts.no_duplicates(),
        task_view(a.task) == Some(x),
    ensures
        ts.contains(x) ==> sum_service_counts(out.push(a), ts) == sum_service_counts(out, ts) + 1,
        !ts.contains(x) ==> sum_service_counts(out.push(a), ts) == sum_service_counts(out, ts),
    decreases ts.len(),
{
    if ts.len() > 0 {
        let d = ts.drop_last();
        lemma_sum_counts_push(out, a, d, x);
        lemma_service_count_push(out, a, ts.last());
        if ts.last() == x {
            assert(forall|j: int| 0 <= j < d.len() ==> d[j] == ts[j]);
            if d.contains(x) {
                let w = choose|w: int| 0 <= w < d.len() && d[w] == x;
                assert(false);
            }
            assert(ts.contains(ts.last()));
        } else {
            assert(service_count(out.push(a), ts.last()) == service_count(out, ts.last()));
            if ts.contains(x) {
                let w = choose|w: int| 0 <= w < ts.len() && ts[w] == x;
                assert(d[w] == x);
                assert(d.contains(x));
            }
            if d.contains(x) {
                let w = choose|w: int| 0 <= w < d.len() && d[w] == x;
                assert(ts.contains(x));
            }
        }
    } else {
        assert(!ts.contains(x));
    }
}

proof fn lemma_sum_counts_empty(ts: Seq<Seq<char>>)
    ensures
        sum_service_counts(Seq::empty(), ts) == 0,
    decreases ts.len(),
{
    broadcast use vstd::multiset::group_multiset_axioms;
    broadcast use vstd::seq_lib::group_to_multiset_ensures;

    if ts.len() > 0 {
        lemma_sum_counts_empty(ts.drop_last());
        assert(task_views(Seq::<Assignment>::empty()) =~= Seq::<Option<Seq<char>>>::empty());
        assert(!task_views(Seq::<Assignment>::empty()).contains(Some(ts.last())));
    }
}

/// The per-task occurrence counts account for the whole output: over a
/// duplicate-free task list that covers every served line, the counts add
/// up to the output's length, one line per participant.
pub proof fn lemma_service_counts_sum_to_output_len(out: Seq<Assignment>, ts: Seq<Seq<char>>)
    requires
        ts.no_duplicates(),
        forall|i: int|
            0 <= i < out.len() ==> task_views(out)[i] is Some && ts.contains(task_views(out)[i]->0),
    ensures
        sum_service_counts(out, ts) == out.len(),
    decreases out.len(),
{
    if out.len() == 0 {
        assert(out =~= Seq::<Assignment>::empty());
        lemma_sum_counts_empty(ts);
    } else {
        let d = out.drop_last();
        let a = out.last();
        assert forall|i: int| 0 <= i < d.len() implies task_views(d)[i] is Some && ts.contains(
            task_views(d)[i]->0,
        ) by {
            assert(task_views(d)[i] == task_view(d[i].task));
            assert(task_views(out)[i] == task_view(out[i].task));
            assert(d[i] == out[i]);
        }
        lemma_service_counts_sum_to_output_len(d, ts);
        let last_idx = out.len() - 1;
        assert(task_views(out)[last_idx] is Some);
        assert(task_views(out)[last_idx] == task_view(a.task));
        let x = task_view(a.task)->0;
        assert(out =~= d.push(a));
        lemma_sum_counts_push(d, a, ts, x);
    }
}

/// The two allocation modes the caller can ask for.
pub enum Mode {
    Basic,
    Detailed,
}

/// Every selected task name occurs in the weighted pool at least once:
/// a positive importance puts at least one copy of the name there. This
/// is what entitles the detailed mode to its exhaustion guarantee.
pub proof fn lemma_selected_in_pool(catalog: Seq<Task>)
    ensures
        forall|t: Seq<char>|
            selected_names_spec(catalog).contains(t) ==> weighted_pool_spec(
                catalog,
            ).to_multiset().count(t) >= 1,
    decreases catalog.len(),
{
    broadcast use vstd::multiset::group_multiset_axioms;
    broadcast use vstd::seq_lib::group_to_multiset_ensures;

    if catalog.len() > 0 {
        let d = catalog.drop_last();
        let last = catalog.last();
        lemma_selected_in_pool(d);
        vstd::seq_lib::lemma_multiset_commutative(
            weighted_pool_spec(d),
            repeat_name(last.name@, last.importance as nat),
        );
        assert forall|t: Seq<char>| selected_names_spec(catalog).contains(t) implies weighted_pool_spec(
            catalog,
        ).to_multiset().count(t) >= 1 by {
            let idx = choose|idx: int|
                0 <= idx < selected_names_spec(catalog).len() && selected_names_spec(catalog)[idx]
                    == t;
            if idx < selected_names_spec(d).len() {
                assert(selected_names_spec(d)[idx] == t);
                assert(selected_names_spec(d).contains(t));
            } else {
                assert(last.importance > 0);
                assert(t == last.name@);
                lemma_repeat_name_count(last.name@, last.importance as nat, t);
            }
        }
    }
}

/// With every importance at zero nothing is selected: both the selected
/// names and the weighted pool are empty.
pub proof fn lemma_all_importance_zero(catalog: Seq<Task>)
    requires
        forall|i: int| 0 <= i < catalog.len() ==> catalog[i].importance == 0,
    ensures
        selected_names_spec(catalog).len() == 0,
        weighted_pool_spec(catalog).len() == 0,
    decreases catalog.len(),
{
    if catalog.len() > 0 {
        let d = catalog.drop_last();
        assert(forall|i: int| 0 <= i < d.len() ==> d[i] == catalog[i]);
        lemma_all_importance_zero(d);
    }
}

/// The allocator's one entry point: filters the roster to its enabled
/// names and the catalog to its selection, then runs the mode the caller
/// asked for. An empty roster, or a selection with nothing in it, yields
/// the insufficient-input diagnostic instead of an assignment.
pub fn assign(roster: &Vec<Participant>, mode: Mode, catalog: &Vec<Task>) -> (r: AssignmentResult)
    requires
        selected_names_spec(catalog@).no_duplicates(),
    ensures
        mode is Basic ==> {
            &&& r is InsufficientInput <==> (enabled_names_spec(roster@).len() == 0
                || selected_names_spec(catalog@).len() == 0)
            &&& r matches AssignmentResult::Assigned(out) ==> basic_outcome_ok(
                enabled_names_spec(roster@),
                selected_names_spec(catalog@),
                out@,
            )
        },
        mode is Detailed ==> {
            &&& r is InsufficientInput <==> (enabled_names_spec(roster@).len() == 0
                || weighted_pool_spec(catalog@).len() == 0)
            &&& r matches AssignmentResult::Assigned(out) ==> detailed_outcome_ok(
                enabled_names_spec(roster@),
                selected_names_spec(catalog@),
                weighted_pool_spec(catalog@),
                out@,
            )
            &&& r matches AssignmentResult::Assigned(out) ==> (weighted_pool_spec(catalog@).len()
                < enabled_names_spec(roster@).len() ==> forall|j: int|
                0 <= j < out@.len() ==> (task_views(out@)[j] is None <==> weighted_pool_spec(
                    catalog@,
                ).len() <= j))
        },
{
    proof {
        lemma_selected_in_pool(catalog@);
    }
    let enabled = enabled_participants(roster);
    assert(enabled@.len() == names_of(enabled@).len());
    match mode {
        Mode::Basic => {
            let tasks = selected_tasks(catalog);
            assert(tasks@.len() == names_of(tasks@).len());
            assign_basic(enabled, tasks)
        },
        Mode::Detailed => {
            let unique = selected_tasks(catalog);
            let pool = weighted_pool(catalog);
            assert(pool@.len() == names_of(pool@).len());
            assign_detailed(enabled, unique, pool)
        },
    }
}

} // verus!
