//! The input model: a roster of participants and a catalog of weighted
//! tasks, with the filtered views that the allocator consumes.

use vstd::prelude::*;
use crate::names_of;

verus! {

/// The largest importance weight a task may carry.
pub const MAX_IMPORTANCE: u8 = 3;

/// One person on the roster. The enabled flag says whether the person
/// takes part in the next allocation run.
pub struct Participant {
    pub name: String,
    pub enabled: bool,
}

/// One unit of work (a "service") with its importance weight.
/// Weight 0 excludes the task; weights 1 to 3 select it and say how many
/// participants it should absorb relative to the others.
pub struct Task {
    pub name: String,
    pub importance: u8,
}

impl Task {
    /// A task is well formed when its weight lies in the bounded range.
    pub open spec fn valid(self) -> bool {
        self.importance <= MAX_IMPORTANCE
    }
}

/// The names of the enabled participants, in roster order.
pub open spec fn enabled_names_spec(roster: Seq<Participant>) -> Seq<Seq<char>>
    decreases roster.len(),
{
    if roster.len() == 0 {
        Seq::empty()
    } else {
        enabled_names_spec(roster.drop_last()) + if roster.last().enabled {
            seq![roster.last().name@]
        } else {
            Seq::empty()
        }
    }
}

/// The names of the selected tasks (importance above zero), in catalog order.
pub open spec fn selected_names_spec(catalog: Seq<Task>) -> Seq<Seq<char>>
    decreases catalog.len(),
{
    if catalog.len() == 0 {
        Seq::empty()
    } else {
        selected_names_spec(catalog.drop_last()) + if catalog.last().importance > 0 {
            seq![catalog.last().name@]
        } else {
            Seq::empty()
        }
    }
}

/// A name repeated a given number of times.
pub open spec fn repeat_name(name: Seq<char>, count: nat) -> Seq<Seq<char>>
    decreases count,
{
    if count == 0 {
        Seq::empty()
    } else {
        repeat_name(name, (count - 1) as nat).push(name)
    }
}

/// The weighted pool: each task's name repeated as many times as its
/// importance, in catalog order.
pub open spec fn weighted_pool_spec(catalog: Seq<Task>) -> Seq<Seq<char>>
    decreases catalog.len(),
{
    if catalog.len() == 0 {
        Seq::empty()
    } else {
        weighted_pool_spec(catalog.drop_last()) + repeat_name(
            catalog.last().name@,
            catalog.last().importance as nat,
        )
    }
}

/// Returns the names of the enabled participants, preserving roster order.
pub fn enabled_participants(roster: &Vec<Participant>) -> (r: Vec<String>)
    ensures
        names_of(r@) == enabled_names_spec(roster@),
{
    let mut r: Vec<String> = Vec::new();
    let mut i: usize = 0;
    while i < roster.len()
        invariant
            i <= roster.len(),
            names_of(r@) == enabled_names_spec(roster@.take(i as int)),
        decreases roster.len() - i,
    {
        if roster[i].enabled {
            let name = roster[i].name.clone();
            let ghost prev = r@;
            r.push(name);
            assert(names_of(r@) =~= names_of(prev).push(roster@[i as int].name@));
        }
        i = i + 1;
        assert(roster@.take(i as int).drop_last() =~= roster@.take(i as int - 1));
        assert(names_of(r@) =~= enabled_names_spec(roster@.take(i as int)));
    }
    assert(roster@.take(roster@.len() as int) =~= roster@);
    r
}

/// Returns the names of the selected tasks, preserving catalog order.
pub fn selected_tasks(catalog: &Vec<Task>) -> (r: Vec<String>)
    ensures
        names_of(r@) == selected_names_spec(catalog@),
{
    let mut r: Vec<String> = Vec::new();
    let mut i: usize = 0;
    while i < catalog.len()
        invariant
            i <= catalog.len(),
            names_of(r@) == selected_names_spec(catalog@.take(i as int)),
        decreases catalog.len() - i,
    {
        if catalog[i].importance > 0 {
            let name = catalog[i].name.clone();
            let ghost prev = r@;
            r.push(name);
            assert(names_of(r@) =~= names_of(prev).push(catalog@[i as int].name@));
        }
        i = i + 1;
        assert(catalog@.take(i as int).drop_last() =~= catalog@.take(i as int - 1));
        assert(names_of(r@) =~= selected_names_spec(catalog@.take(i as int)));
    }
    assert(catalog@.take(catalog@.len() as int) =~= catalog@);
    r
}

/// Returns the weighted pool: each selected task's name repeated as many
/// times as its importance, preserving catalog order.
pub fn weighted_pool(catalog: &Vec<Task>) -> (r: Vec<String>)
    ensures
        names_of(r@) == weighted_pool_spec(catalog@),
{
    let mut r: Vec<String> = Vec::new();
    let mut i: usize = 0;
    while i < catalog.len()
        invariant
            i <= catalog.len(),
            names_of(r@) == weighted_pool_spec(catalog@.take(i as int)),
        decreases catalog.len() - i,
    {
        let copies = catalog[i].importance;
        let ghost before = names_of(r@);
        let mut c: u8 = 0;
        while c < copies
            invariant
                c <= copies,
                i < catalog.len(),
                copies == catalog@[i as int].importance,
                names_of(r@) == before + repeat_name(catalog@[i as int].name@, c as nat),
            decreases copies - c,
        {
            let ghost prev = names_of(r@);
            r.push(catalog[i].name.clone());
            proof {
                assert(names_of(r@) =~= prev.push(catalog@[i as int].name@));
                assert(prev.push(catalog@[i as int].name@) =~= before + repeat_name(
                    catalog@[i as int].name@,
                    (c + 1) as nat,
                ));
            }
            c = c + 1;
        }
        i = i + 1;
        proof {
            assert(catalog@.take(i as int).drop_last() =~= catalog@.take(i as int - 1));
            assert(names_of(r@) =~= weighted_pool_spec(catalog@.take(i as int)));
        }
    }
    proof {
        assert(catalog@.take(catalog@.len() as int) =~= catalog@);
    }
    r
}

/// Filtering is deterministic: reading the filtered views twice from the
/// same, unmutated roster and catalog yields identical sequences.
pub proof fn lemma_filters_deterministic(
    roster1: Seq<Participant>,
    roster2: Seq<Participant>,
    catalog1: Seq<Task>,
    catalog2: Seq<Task>,
)
    requires
        roster1 == roster2,
        catalog1 == catalog2,
    ensures
        enabled_names_spec(roster1) == enabled_names_spec(roster2),
        selected_names_spec(catalog1) == selected_names_spec(catalog2),
        weighted_pool_spec(catalog1) == weighted_pool_spec(catalog2),
{
}

} // verus!
