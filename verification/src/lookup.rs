//! Finding peripherals by name among a chip's cores.

use vstd::prelude::*;
use crate::model::{CoreData, PeripheralData};

verus! {

/// Whether `ps[j]` is the first peripheral in `ps` named `name`.
pub open spec fn first_in(ps: Seq<PeripheralData>, j: int, name: Seq<char>) -> bool {
    &&& 0 <= j < ps.len()
    &&& ps[j].name@ == name
    &&& forall|k: int| 0 <= k < j ==> ps[k].name@ != name
}

/// Whether some peripheral in `ps` is named `name`.
pub open spec fn named_in(ps: Seq<PeripheralData>, name: Seq<char>) -> bool {
    exists|j: int| 0 <= j < ps.len() && ps[j].name@ == name
}

/// Whether some peripheral of some core is named `name`.
pub open spec fn named_in_cores(cores: Seq<CoreData>, name: Seq<char>) -> bool {
    exists|i: int| 0 <= i < cores.len() && named_in(cores[i].peripherals@, name)
}

/// Whether peripheral `j` of core `i` is the first one named `name`,
/// searching core by core and, within a core, in list order.
pub open spec fn first_in_cores(cores: Seq<CoreData>, i: int, j: int, name: Seq<char>) -> bool {
    &&& 0 <= i < cores.len()
    &&& first_in(cores[i].peripherals@, j, name)
    &&& forall|k: int| 0 <= k < i ==> !named_in(cores[k].peripherals@, name)
}

/// There is at most one first peripheral of a name.
pub proof fn lemma_first_in_cores_unique(cores: Seq<CoreData>, name: Seq<char>, i1: int, j1: int, i2: int, j2: int)
    requires
        first_in_cores(cores, i1, j1, name),
        first_in_cores(cores, i2, j2, name),
    ensures
        i1 == i2 && j1 == j2,
{
    if i1 < i2 {
        assert(named_in(cores[i1].peripherals@, name));
    } else if i2 < i1 {
        assert(named_in(cores[i2].peripherals@, name));
    }
}

/// Where some peripheral has the name, a first one exists.
pub proof fn lemma_first_in_cores_exists(cores: Seq<CoreData>, name: Seq<char>)
    requires
        named_in_cores(cores, name),
    ensures
        exists|i: int, j: int| first_in_cores(cores, i, j, name),
    decreases cores.len(),
{
    let last = cores.len() - 1;
    let front = cores.drop_last();
    if named_in_cores(front, name) {
        lemma_first_in_cores_exists(front, name);
        let (i, j) = choose|i: int, j: int| first_in_cores(front, i, j, name);
        assert(front[i] == cores[i]);
        assert forall|k: int| 0 <= k < i implies !named_in(cores[k].peripherals@, name) by {
            assert(front[k] == cores[k]);
        }
        assert(first_in_cores(cores, i, j, name));
    } else {
        assert forall|k: int| 0 <= k < last implies !named_in(cores[k].peripherals@, name) by {
            assert(front[k] == cores[k]);
        }
        assert(named_in(cores[last].peripherals@, name));
        lemma_first_in_exists(cores[last].peripherals@, name);
        let j = choose|j: int| first_in(cores[last].peripherals@, j, name);
        assert(first_in_cores(cores, last, j, name));
    }
}

proof fn lemma_first_in_exists(ps: Seq<PeripheralData>, name: Seq<char>)
    requires
        named_in(ps, name),
    ensures
        exists|j: int| first_in(ps, j, name),
    decreases ps.len(),
{
    let front = ps.drop_last();
    if named_in(front, name) {
        lemma_first_in_exists(front, name);
        let j = choose|j: int| first_in(front, j, name);
        assert forall|k: int| 0 <= k < j implies ps[k].name@ != name by {
            assert(front[k] == ps[k]);
        }
        assert(front[j] == ps[j]);
        assert(first_in(ps, j, name));
    } else {
        let w = choose|j: int| 0 <= j < ps.len() && ps[j].name@ == name;
        assert forall|k: int| 0 <= k < ps.len() - 1 implies ps[k].name@ != name by {
            assert(front[k] == ps[k]);
        }
        assert(w == ps.len() - 1);
        assert(first_in(ps, ps.len() - 1, name));
    }
}

/// The position of the first peripheral named `name` in `ps`.
pub fn find_in_core(ps: &Vec<PeripheralData>, name: &String) -> (r: Option<usize>)
    ensures
        match r {
            Some(j) => first_in(ps@, j as int, name@),
            None => !named_in(ps@, name@),
        },
{
    let mut j: usize = 0;
    while j < ps.len()
        invariant
            j <= ps.len(),
            forall|k: int| 0 <= k < j ==> ps@[k].name@ != name@,
        decreases ps.len() - j,
    {
        if ps[j].name == *name {
            return Some(j);
        }
        j = j + 1;
    }
    None
}

/// The core and position of the first peripheral named `name`.
pub fn find_peripheral(cores: &Vec<CoreData>, name: &String) -> (r: Option<(usize, usize)>)
    ensures
        match r {
            Some((i, j)) => first_in_cores(cores@, i as int, j as int, name@),
            None => !named_in_cores(cores@, name@),
        },
{
    let mut i: usize = 0;
    while i < cores.len()
        invariant
            i <= cores.len(),
            forall|k: int| 0 <= k < i ==> !named_in(cores@[k].peripherals@, name@),
        decreases cores.len() - i,
    {
        match find_in_core(&cores[i].peripherals, name) {
            Some(j) => {
                return Some((i, j));
            },
            None => {},
        }
        i = i + 1;
    }
    None
}


/// A peripheral of the name is found exactly when some core has one.
pub proof fn lemma_found_iff_named(cores: Seq<CoreData>, name: Seq<char>)
    ensures
        (exists|i: int, j: int| first_in_cores(cores, i, j, name)) <==> named_in_cores(cores, name),
{
    if named_in_cores(cores, name) {
        lemma_first_in_cores_exists(cores, name);
    }
    if exists|i: int, j: int| first_in_cores(cores, i, j, name) {
        let (i, j) = choose|i: int, j: int| first_in_cores(cores, i, j, name);
        assert(named_in(cores[i].peripherals@, name));
    }
}

} // verus!
