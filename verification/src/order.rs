//! The order of names: strings compare code point by code point, and the keys
//! of a table are listed in ascending order.
use vstd::prelude::*;

verus! {

/// `a` comes before `b`, comparing code point by code point.
pub open spec fn name_lt(a: Seq<char>, b: Seq<char>) -> bool
    decreases a.len(),
{
    if b.len() == 0 {
        false
    } else if a.len() == 0 {
        true
    } else if a[0] != b[0] {
        a[0] < b[0]
    } else {
        name_lt(a.drop_first(), b.drop_first())
    }
}

/// No name comes before itself.
pub proof fn lemma_name_lt_irreflexive(a: Seq<char>)
    ensures
        !name_lt(a, a),
    decreases a.len(),
{
    if a.len() > 0 {
        lemma_name_lt_irreflexive(a.drop_first());
    }
}

/// The order of names is transitive.
pub proof fn lemma_name_lt_transitive(a: Seq<char>, b: Seq<char>, c: Seq<char>)
    requires
        name_lt(a, b),
        name_lt(b, c),
    ensures
        name_lt(a, c),
    decreases a.len(),
{
    if a.len() > 0 && b.len() > 0 && c.len() > 0 && a[0] == b[0] && b[0] == c[0] {
        lemma_name_lt_transitive(a.drop_first(), b.drop_first(), c.drop_first());
    }
}

/// Of two different names, one comes before the other.
pub proof fn lemma_name_lt_total(a: Seq<char>, b: Seq<char>)
    ensures
        a == b || name_lt(a, b) || name_lt(b, a),
    decreases a.len(),
{
    if a.len() == 0 {
        if b.len() == 0 {
            assert(a =~= b);
        }
    } else if b.len() > 0 && a[0] == b[0] {
        lemma_name_lt_total(a.drop_first(), b.drop_first());
        if a.drop_first() == b.drop_first() {
            assert(a =~= seq![a[0]] + a.drop_first());
            assert(b =~= seq![b[0]] + b.drop_first());
        }
    }
}

/// Each name of `names` comes before all that follow it.
pub open spec fn ascending(names: Seq<Seq<char>>) -> bool {
    forall|i: int, j: int| 0 <= i < j < names.len() ==> name_lt(names[i], names[j])
}

/// `names` lists the set `keys` in ascending order.
pub open spec fn lists_ascending(names: Seq<Seq<char>>, keys: Set<Seq<char>>) -> bool {
    &&& ascending(names)
    &&& forall|k: Seq<char>| #[trigger] names.contains(k) <==> keys.contains(k)
}

/// The elements of a finite set of names, in ascending order.
pub open spec fn sorted_names(keys: Set<Seq<char>>) -> Seq<Seq<char>> {
    choose|names: Seq<Seq<char>>| lists_ascending(names, keys)
}

/// A set of names has one ascending listing.
pub proof fn lemma_ascending_unique(a: Seq<Seq<char>>, b: Seq<Seq<char>>, keys: Set<Seq<char>>)
    requires
        lists_ascending(a, keys),
        lists_ascending(b, keys),
    ensures
        a == b,
    decreases a.len(),
{
    if a.len() == 0 {
        if b.len() > 0 {
            assert(b.contains(b[0]));
            assert(a.contains(b[0]));
        }
        assert(a =~= b);
    } else {
        assert(a.contains(a[0]));
        assert(b.contains(a[0]));
        assert(b.contains(b[0]));
        assert(a.contains(b[0]));
        let i = choose|i: int| 0 <= i < b.len() && b[i] == a[0];
        let j = choose|j: int| 0 <= j < a.len() && a[j] == b[0];
        if i > 0 && j > 0 {
            assert(name_lt(b[0], b[i]));
            assert(name_lt(a[0], a[j]));
            lemma_name_lt_transitive(a[0], b[0], a[0]);
            lemma_name_lt_irreflexive(a[0]);
        }
        assert(a[0] == b[0]);
        let rest = keys.remove(a[0]);
        lemma_ascending_tail(a, keys);
        lemma_ascending_tail(b, keys);
        lemma_ascending_unique(a.drop_first(), b.drop_first(), rest);
        assert(a =~= seq![a[0]] + a.drop_first());
        assert(b =~= seq![b[0]] + b.drop_first());
    }
}

proof fn lemma_ascending_tail(a: Seq<Seq<char>>, keys: Set<Seq<char>>)
    requires
        lists_ascending(a, keys),
        a.len() > 0,
    ensures
        lists_ascending(a.drop_first(), keys.remove(a[0])),
{
    let tail = a.drop_first();
    assert forall|k: Seq<char>| #[trigger] tail.contains(k) <==> keys.remove(a[0]).contains(k) by {
        if tail.contains(k) {
            let i = choose|i: int| 0 <= i < tail.len() && tail[i] == k;
            assert(a[i + 1] == k);
            assert(a.contains(k));
            assert(name_lt(a[0], a[i + 1]));
            lemma_name_lt_irreflexive(a[0]);
        }
        if keys.contains(k) && k != a[0] {
            assert(a.contains(k));
            let i = choose|i: int| 0 <= i < a.len() && a[i] == k;
            assert(tail[i - 1] == k);
        }
    }
}

/// What `sorted_names` is, once an ascending listing is at hand.
pub proof fn lemma_sorted_names(names: Seq<Seq<char>>, keys: Set<Seq<char>>)
    requires
        lists_ascending(names, keys),
    ensures
        sorted_names(keys) == names,
{
    lemma_ascending_unique(sorted_names(keys), names, keys);
}

/// No name occurs twice in an ascending listing.
pub proof fn lemma_ascending_distinct(names: Seq<Seq<char>>)
    requires
        ascending(names),
    ensures
        forall|i: int, j: int| 0 <= i < j < names.len() ==> names[i] != names[j],
{
    assert forall|i: int, j: int| 0 <= i < j < names.len() implies names[i] != names[j] by {
        lemma_name_lt_irreflexive(names[i]);
    }
}

/// Where a name belongs in an ascending listing that does not hold it.
proof fn lemma_place(names: Seq<Seq<char>>, name: Seq<char>) -> (place: int)
    requires
        ascending(names),
        !names.contains(name),
    ensures
        0 <= place <= names.len(),
        forall|i: int| 0 <= i < place ==> name_lt(#[trigger] names[i], name),
        forall|i: int| place <= i < names.len() ==> name_lt(name, #[trigger] names[i]),
    decreases names.len(),
{
    if names.len() == 0 {
        0
    } else {
        let front = names.drop_last();
        assert(names.contains(names.last()));
        assert(!front.contains(name)) by {
            if front.contains(name) {
                let i = choose|i: int| 0 <= i < front.len() && front[i] == name;
                assert(names[i] == name);
            }
        }
        lemma_name_lt_total(name, names.last());
        if name_lt(names.last(), name) {
            assert forall|i: int| 0 <= i < names.len() implies name_lt(#[trigger] names[i], name) by {
                if i < names.len() - 1 {
                    lemma_name_lt_transitive(names[i], names.last(), name);
                }
            }
            names.len() as int
        } else {
            let place = lemma_place(front, name);
            assert forall|i: int| 0 <= i < place implies name_lt(#[trigger] names[i], name) by {
                assert(front[i] == names[i]);
            }
            assert forall|i: int| place <= i < names.len() implies name_lt(
                name,
                #[trigger] names[i],
            ) by {
                if i < front.len() {
                    assert(front[i] == names[i]);
                }
            }
            place
        }
    }
}

/// A finite set of names has an ascending listing.
proof fn lemma_listing_exists(keys: Set<Seq<char>>) -> (names: Seq<Seq<char>>)
    requires
        keys.finite(),
    ensures
        lists_ascending(names, keys),
    decreases keys.len(),
{
    if keys.len() == 0 {
        assert(keys =~= Set::empty());
        Seq::empty()
    } else {
        let name = keys.choose();
        let rest = lemma_listing_exists(keys.remove(name));
        assert(!keys.remove(name).contains(name));
        assert(!rest.contains(name));
        let place = lemma_place(rest, name);
        let names = rest.insert(place, name);
        assert forall|i: int, j: int| 0 <= i < j < names.len() implies name_lt(
            names[i],
            names[j],
        ) by {
            let a = if i < place {
                i
            } else {
                i - 1
            };
            let b = if j < place {
                j
            } else {
                j - 1
            };
            if i != place {
                assert(names[i] == rest[a]);
            }
            if j != place {
                assert(names[j] == rest[b]);
            }
        }
        assert forall|k: Seq<char>| #[trigger] names.contains(k) <==> keys.contains(k) by {
            if names.contains(k) {
                let i = choose|i: int| 0 <= i < names.len() && names[i] == k;
                if i < place {
                    assert(rest[i] == k);
                    assert(rest.contains(k));
                } else if i > place {
                    assert(rest[i - 1] == k);
                    assert(rest.contains(k));
                }
            }
            if keys.contains(k) {
                if k == name {
                    assert(names[place] == k);
                } else {
                    assert(keys.remove(name).contains(k));
                    assert(rest.contains(k));
                    let i = choose|i: int| 0 <= i < rest.len() && rest[i] == k;
                    if i < place {
                        assert(names[i] == k);
                    } else {
                        assert(names[i + 1] == k);
                    }
                }
            }
        }
        names
    }
}

/// The sorted names of a finite set list the set in ascending order.
pub proof fn lemma_sorted_names_list(keys: Set<Seq<char>>)
    requires
        keys.finite(),
    ensures
        lists_ascending(sorted_names(keys), keys),
{
    let names = lemma_listing_exists(keys);
    lemma_sorted_names(names, keys);
}

} // verus!
