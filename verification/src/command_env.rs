//! Environment variables that are set for a command.
use crate::variables::pairs;
use vstd::prelude::*;

verus! {

/// No name occurs twice in the list.
pub open spec fn distinct_names(list: Seq<(Seq<char>, Seq<char>)>) -> bool {
    forall|i: int, j: int|
        0 <= i < j < list.len() ==> (#[trigger] list[i]).0 != (#[trigger] list[j]).0
}

/// What a list of assignments sets. If a name stands in the list more than once, its
/// last value counts.
pub open spec fn assigned(list: Seq<(Seq<char>, Seq<char>)>) -> Map<Seq<char>, Seq<char>>
    decreases list.len(),
{
    if list.len() == 0 {
        Map::empty()
    } else {
        assigned(list.drop_last()).insert(list.last().0, list.last().1)
    }
}

/// A list without repetitions sets each of its names to the value next to it.
proof fn lemma_assigned(list: Seq<(Seq<char>, Seq<char>)>)
    requires
        distinct_names(list),
    ensures
        forall|i: int|
            0 <= i < list.len() ==> assigned(list).contains_key((#[trigger] list[i]).0) && assigned(
                list,
            )[list[i].0] == list[i].1,
        forall|name: Seq<char>| #[trigger]
            assigned(list).contains_key(name) ==> exists|i: int|
                0 <= i < list.len() && (#[trigger] list[i]).0 == name,
    decreases list.len(),
{
    if list.len() > 0 {
        let front = list.drop_last();
        assert(forall|i: int| 0 <= i < front.len() ==> #[trigger] front[i] == list[i]);
        lemma_assigned(front);
        assert forall|i: int| 0 <= i < list.len() implies assigned(list).contains_key(
            (#[trigger] list[i]).0,
        ) && assigned(list)[list[i].0] == list[i].1 by {
            if i < front.len() {
                assert(front[i] == list[i]);
                assert(list[i].0 != list[list.len() - 1].0);
            }
        }
        assert forall|name: Seq<char>| #[trigger]
            assigned(list).contains_key(name) implies exists|i: int|
            0 <= i < list.len() && (#[trigger] list[i]).0 == name by {
            if name == list.last().0 {
                assert(list[list.len() - 1].0 == name);
            } else {
                assert(assigned(front).contains_key(name));
                let i = choose|i: int| 0 <= i < front.len() && (#[trigger] front[i]).0 == name;
                assert(list[i].0 == name);
            }
        }
    }
}

/// A list of assignments sets the names that stand in it, each to its last value.
pub proof fn law_last_assignment_counts(list: Seq<(Seq<char>, Seq<char>)>)
    ensures
        forall|k: int|
            0 <= k < list.len() && (forall|j: int|
                k < j < list.len() ==> (#[trigger] list[j]).0 != list[k].0) ==> assigned(
                list,
            ).contains_key((#[trigger] list[k]).0) && assigned(list)[list[k].0] == list[k].1,
        forall|name: Seq<char>| #[trigger]
            assigned(list).contains_key(name) ==> exists|k: int|
                0 <= k < list.len() && (#[trigger] list[k]).0 == name,
    decreases list.len(),
{
    if list.len() > 0 {
        let front = list.drop_last();
        let last = list.len() - 1;
        law_last_assignment_counts(front);
        assert(forall|k: int| 0 <= k < front.len() ==> #[trigger] front[k] == list[k]);
        assert forall|k: int|
            0 <= k < list.len() && (forall|j: int|
                k < j < list.len() ==> (#[trigger] list[j]).0 != list[k].0) implies assigned(
            list,
        ).contains_key((#[trigger] list[k]).0) && assigned(list)[list[k].0] == list[k].1 by {
            if k < last {
                assert(list[last].0 != list[k].0);
                assert forall|j: int| k < j < front.len() implies (#[trigger] front[j]).0
                    != front[k].0 by {
                    assert(list[j].0 != list[k].0);
                }
                assert(assigned(front).contains_key(front[k].0));
            }
        }
        assert forall|name: Seq<char>| #[trigger]
            assigned(list).contains_key(name) implies exists|k: int|
            0 <= k < list.len() && (#[trigger] list[k]).0 == name by {
            if name == list[last].0 {
                assert(list[last].0 == name);
            } else {
                assert(assigned(front).contains_key(name));
                let k = choose|k: int| 0 <= k < front.len() && (#[trigger] front[k]).0 == name;
                assert(list[k].0 == name);
            }
        }
    }
}

/// Environment variables, each with its value.
#[derive(Debug)]
pub struct CommandEnv {
    entries: Vec<(String, String)>,
}

impl View for CommandEnv {
    type V = Map<Seq<char>, Seq<char>>;

    closed spec fn view(&self) -> Map<Seq<char>, Seq<char>> {
        assigned(pairs(self.entries@))
    }
}

impl CommandEnv {
    #[verifier::type_invariant]
    spec fn without_repetition(self) -> bool {
        distinct_names(pairs(self.entries@))
    }

    /// The variables in the order in which they are listed.
    pub closed spec fn listed(self) -> Seq<(Seq<char>, Seq<char>)> {
        pairs(self.entries@)
    }

    /// The variables that the entries set, in the order in which their names first
    /// occur. If a name occurs more than once, its last value counts.
    pub fn from_entries(entries: Vec<(String, String)>) -> (env: Self)
        ensures
            env@ == assigned(pairs(entries@)),
            distinct_names(pairs(entries@)) ==> env.listed() == pairs(entries@),
    {
        let ghost all = pairs(entries@);
        let mut kept: Vec<(String, String)> = Vec::new();
        let mut i: usize = 0;
        assert(pairs(kept@) =~= Seq::empty());
        assert(all.take(0) =~= Seq::empty());
        while i < entries.len()
            invariant
                i <= entries.len(),
                all == pairs(entries@),
                distinct_names(pairs(kept@)),
                assigned(pairs(kept@)) == assigned(all.take(i as int)),
                distinct_names(all) ==> pairs(kept@) == all.take(i as int),
            decreases entries.len() - i,
        {
            let ghost before = pairs(kept@);
            let ghost entry = all[i as int];
            assert(all.take(i + 1).drop_last() =~= all.take(i as int));
            assert(all.take(i + 1).last() == entry);
            match position(&kept, &entries[i].0) {
                Some(k) => {
                    proof {
                        lemma_assigned(before);
                        if distinct_names(all) {
                            assert(before[k as int] == all[k as int]);
                            assert(all[k as int].0 != all[i as int].0);
                        }
                    }
                    kept.set(k, (entries[i].0.clone(), entries[i].1.clone()));
                    proof {
                        let after = pairs(kept@);
                        assert(after =~= before.update(k as int, entry));
                        assert(distinct_names(after));
                        lemma_assigned(after);
                        assert(assigned(after) =~= assigned(before).insert(entry.0, entry.1)) by {
                            lemma_same_but_one(before, after, k as int);
                        }
                    }
                },
                None => {
                    kept.push((entries[i].0.clone(), entries[i].1.clone()));
                    proof {
                        let after = pairs(kept@);
                        assert(after =~= before.push(entry));
                        assert(after.drop_last() =~= before);
                        assert(all.take(i + 1) =~= all.take(i as int).push(entry));
                    }
                },
            }
            i += 1;
        }
        assert(all.take(i as int) =~= all);
        CommandEnv { entries: kept }
    }

    /// The variables, each with its value. No name occurs twice.
    pub fn entries(&self) -> (entries: &Vec<(String, String)>)
        ensures
            pairs(entries@) == self.listed(),
            distinct_names(self.listed()),
            self@ == assigned(self.listed()),
    {
        proof {
            use_type_invariant(self);
        }
        &self.entries
    }

    /// Tells whether all variables are set by the other, with the same values.
    fn is_part_of(&self, other: &Self) -> (b: bool)
        ensures
            b == (forall|name: Seq<char>| #[trigger]
                self@.contains_key(name) ==> other@.contains_key(name) && other@[name]
                    == self@[name]),
    {
        proof {
            use_type_invariant(self);
            use_type_invariant(other);
            lemma_assigned(pairs(self.entries@));
            lemma_assigned(pairs(other.entries@));
        }
        let ghost list = pairs(self.entries@);
        let ghost others = pairs(other.entries@);
        let mut i: usize = 0;
        while i < self.entries.len()
            invariant
                i <= self.entries.len(),
                list == pairs(self.entries@),
                others == pairs(other.entries@),
                self@ == assigned(list),
                other@ == assigned(others),
                forall|k: int|
                    0 <= k < list.len() ==> self@.contains_key((#[trigger] list[k]).0)
                        && self@[list[k].0] == list[k].1,
                forall|k: int|
                    0 <= k < others.len() ==> other@.contains_key((#[trigger] others[k]).0)
                        && other@[others[k].0] == others[k].1,
                forall|name: Seq<char>| #[trigger]
                    other@.contains_key(name) ==> exists|k: int|
                        0 <= k < others.len() && (#[trigger] others[k]).0 == name,
                forall|k: int|
                    0 <= k < i ==> other@.contains_key((#[trigger] list[k]).0) && other@[list[k].0]
                        == list[k].1,
            decreases self.entries.len() - i,
        {
            assert(list[i as int].0 == self.entries@[i as int].0@);
            match position(&other.entries, &self.entries[i].0) {
                Some(k) => {
                    assert(others[k as int].0 == list[i as int].0);
                    if other.entries[k].1 != self.entries[i].1 {
                        assert(others[k as int].1 != list[i as int].1);
                        return false;
                    }
                },
                None => {
                    return false;
                },
            }
            i += 1;
        }
        assert forall|name: Seq<char>| #[trigger] self@.contains_key(name) implies other@.contains_key(
            name,
        ) && other@[name] == self@[name] by {
            let k = choose|k: int| 0 <= k < list.len() && (#[trigger] list[k]).0 == name;
            assert(other@.contains_key(list[k].0));
        }
        true
    }
}

/// Where two lists without repetitions differ in one value, so do the assignments.
proof fn lemma_same_but_one(
    before: Seq<(Seq<char>, Seq<char>)>,
    after: Seq<(Seq<char>, Seq<char>)>,
    k: int,
)
    requires
        distinct_names(before),
        distinct_names(after),
        0 <= k < before.len(),
        after == before.update(k, after[k]),
        after[k].0 == before[k].0,
    ensures
        assigned(after) == assigned(before).insert(after[k].0, after[k].1),
{
    lemma_assigned(before);
    lemma_assigned(after);
    let expected = assigned(before).insert(after[k].0, after[k].1);
    assert forall|name: Seq<char>|
        assigned(after).contains_key(name) == #[trigger] expected.contains_key(name) && (
        expected.contains_key(name) ==> assigned(after)[name] == expected[name]) by {
        if assigned(after).contains_key(name) {
            let i = choose|i: int| 0 <= i < after.len() && (#[trigger] after[i]).0 == name;
            assert(before[i].0 == name);
        }
        if expected.contains_key(name) {
            if name == after[k].0 {
                assert(assigned(after).contains_key(after[k].0));
            } else {
                let i = choose|i: int| 0 <= i < before.len() && (#[trigger] before[i]).0 == name;
                assert(after[i] == before[i]);
            }
        }
    }
    assert(assigned(after) =~= expected);
}

/// Finds where a name stands in a list.
fn position(entries: &Vec<(String, String)>, name: &String) -> (found: Option<usize>)
    ensures
        match found {
            Some(k) => k < entries.len() && pairs(entries@)[k as int].0 == name@,
            None => forall|k: int|
                0 <= k < entries.len() ==> (#[trigger] pairs(entries@)[k]).0 != name@,
        },
{
    let mut k: usize = 0;
    while k < entries.len()
        invariant
            k <= entries.len(),
            forall|j: int| 0 <= j < k ==> (#[trigger] pairs(entries@)[j]).0 != name@,
        decreases entries.len() - k,
    {
        assert(pairs(entries@)[k as int].0 == entries@[k as int].0@);
        if entries[k].0 == *name {
            return Some(k);
        }
        k += 1;
    }
    None
}

/// A copy of a list of assignments.
pub fn copy_entries(entries: &Vec<(String, String)>) -> (copy: Vec<(String, String)>)
    ensures
        pairs(copy@) == pairs(entries@),
{
    let mut copy: Vec<(String, String)> = Vec::new();
    let mut i: usize = 0;
    while i < entries.len()
        invariant
            i <= entries.len(),
            copy.len() == i,
            forall|j: int|
                0 <= j < i ==> (#[trigger] copy@[j]).0@ == entries@[j].0@ && copy@[j].1@
                    == entries@[j].1@,
        decreases entries.len() - i,
    {
        copy.push((entries[i].0.clone(), entries[i].1.clone()));
        i += 1;
    }
    assert(pairs(copy@) =~= pairs(entries@));
    copy
}

impl Clone for CommandEnv {
    fn clone(&self) -> (copy: Self)
        ensures
            copy@ == self@,
            copy.listed() == self.listed(),
    {
        proof {
            use_type_invariant(self);
        }
        CommandEnv { entries: copy_entries(&self.entries) }
    }
}

impl vstd::std_specs::cmp::PartialEqSpecImpl for CommandEnv {
    open spec fn obeys_eq_spec() -> bool {
        true
    }

    open spec fn eq_spec(&self, other: &Self) -> bool {
        self@ == other@
    }
}

impl PartialEq for CommandEnv {
    fn eq(&self, other: &Self) -> (b: bool) {
        let b = self.is_part_of(other) && other.is_part_of(self);
        proof {
            if b {
                assert(self@ =~= other@);
            }
        }
        b
    }
}

impl Eq for CommandEnv {

}

} // verus!
