//! What a listing of configuration variables tells of the layers.
use crate::name_path::lookup_tree;
use crate::order::{lemma_ascending_distinct, lemma_sorted_names_list, name_lt, sorted_names};
use crate::overlay::{
    holds_variable, law_highest_table_wins, law_merged_variable_comes_from_a_table, leaves_alone,
    merged_tables, untouched,
};
use crate::resolve::{
    annotated, flattened, flattened_entries, layer_values, marked, marked_values,
    overridden_above, overrides, resolved, resolved_of, AnnotatedTree,
};
use crate::source::ConfigSource;
use crate::value::{
    entries_tree, lemma_entries_tree, well_formed, ConfigValue, ValueTree,
};
use vstd::prelude::*;

verus! {

/// Every table of the tree is finite.
pub open spec fn finite_tree(tree: ValueTree) -> bool
    decreases tree,
{
    match tree {
        ValueTree::Table(table) => {
            &&& table.dom().finite()
            &&& forall|name: Seq<char>| #[trigger]
                table.contains_key(name) ==> finite_tree(table[name])
        },
        _ => true,
    }
}

/// The tree of a value is finite.
pub proof fn lemma_value_is_finite(value: ConfigValue)
    requires
        well_formed(value),
    ensures
        finite_tree(value@),
    decreases value,
{
    if let ConfigValue::Table(entries) = value {
        lemma_entries_tree(entries@);
        let table = entries_tree(entries@);
        assert forall|name: Seq<char>| #[trigger] table.contains_key(name) implies finite_tree(
            table[name],
        ) by {
            let i = choose|i: int| 0 <= i < entries@.len() && (#[trigger] entries@[i]).key@ == name;
            assert(decreases_to!(value => value->Table_0));
            assert(decreases_to!(entries => entries@));
            assert(decreases_to!(entries@ => entries@[i]));
            lemma_value_is_finite(entries@[i].value);
        }
    }
}

/// What stands in a list of lists stands in one of them.
proof fn lemma_flatten_contains<A>(parts: Seq<Seq<A>>, x: A)
    ensures
        parts.flatten().contains(x) <==> exists|i: int|
            0 <= i < parts.len() && (#[trigger] parts[i]).contains(x),
    decreases parts.len(),
{
    if parts.len() > 0 {
        let first = parts.first();
        let rest = parts.drop_first();
        lemma_flatten_contains(rest, x);
        let all = parts.flatten();
        assert(all == first + rest.flatten());
        if all.contains(x) {
            let k = choose|k: int| 0 <= k < all.len() && all[k] == x;
            if k < first.len() {
                assert(parts[0].contains(x)) by {
                    assert(first[k] == x);
                }
            } else {
                assert(rest.flatten()[k - first.len()] == x);
                let i = choose|i: int| 0 <= i < rest.len() && (#[trigger] rest[i]).contains(x);
                assert(parts[i + 1].contains(x));
            }
        }
        if exists|i: int| 0 <= i < parts.len() && (#[trigger] parts[i]).contains(x) {
            let i = choose|i: int| 0 <= i < parts.len() && (#[trigger] parts[i]).contains(x);
            if i == 0 {
                let k = choose|k: int| 0 <= k < first.len() && first[k] == x;
                assert(all[k] == x);
            } else {
                assert(rest[i - 1].contains(x));
                let k = choose|k: int| 0 <= k < rest.flatten().len() && rest.flatten()[k] == x;
                assert(all[first.len() + k] == x);
            }
        }
    }
}

/// A listed variable stands in the tree, under its path.
proof fn lemma_listed_is_held(
    path: Seq<Seq<char>>,
    tree: ValueTree,
    leaf: (Seq<Seq<char>>, ValueTree),
)
    requires
        flattened(path, tree).contains(leaf),
    ensures
        path.is_prefix_of(leaf.0),
        holds_variable(tree, leaf.0.skip(path.len() as int), leaf.1),
    decreases tree,
{
    match tree {
        ValueTree::Table(table) => {
            let names = sorted_names(table.dom());
            let parts = flattened_entries(path, tree);
            lemma_flatten_contains(parts, leaf);
            let i = choose|i: int| 0 <= i < parts.len() && (#[trigger] parts[i]).contains(leaf);
            assert(table.contains_key(names[i]));
            let inner = path.push(names[i]);
            lemma_listed_is_held(inner, table[names[i]], leaf);
            let below = leaf.0.skip(path.len() as int);
            assert(leaf.0.subrange(0, inner.len() as int)[path.len() as int] == names[i]);
            assert(below[0] == names[i]);
            assert(below.drop_first() =~= leaf.0.skip(inner.len() as int));
            assert(path =~= leaf.0.subrange(0, path.len() as int)) by {
                assert forall|k: int| 0 <= k < path.len() implies path[k] == leaf.0[k] by {
                    assert(inner[k] == leaf.0.subrange(0, inner.len() as int)[k]);
                }
            }
        },
        _ => {
            assert(leaf == (path, tree));
            assert(leaf.0.skip(path.len() as int) =~= Seq::empty());
        },
    }
}

/// Every variable of the tree is listed.
proof fn lemma_held_is_listed(
    path: Seq<Seq<char>>,
    tree: ValueTree,
    below: Seq<Seq<char>>,
    value: ValueTree,
)
    requires
        finite_tree(tree),
        holds_variable(tree, below, value),
    ensures
        flattened(path, tree).contains((path + below, value)),
    decreases tree,
{
    match tree {
        ValueTree::Table(table) => {
            let names = sorted_names(table.dom());
            lemma_sorted_names_list(table.dom());
            assert(table.contains_key(below[0]));
            assert(names.contains(below[0]));
            let i = choose|i: int| 0 <= i < names.len() && names[i] == below[0];
            lemma_held_is_listed(path.push(names[i]), table[names[i]], below.drop_first(), value);
            assert(path.push(names[i]) + below.drop_first() =~= path + below);
            let parts = flattened_entries(path, tree);
            assert(parts[i].contains((path + below, value)));
            lemma_flatten_contains(parts, (path + below, value));
        },
        _ => {
            assert(below.len() == 0);
            assert(path + below =~= path);
            assert(flattened(path, tree)[0] == (path, tree));
        },
    }
}

/// The path of each listed variable differs from all others.
pub open spec fn distinct_paths(leaves: Seq<(Seq<Seq<char>>, ValueTree)>) -> bool {
    forall|i: int, j: int|
        0 <= i < j < leaves.len() ==> (#[trigger] leaves[i]).0 != (#[trigger] leaves[j]).0
}

proof fn lemma_flatten_distinct(parts: Seq<Seq<(Seq<Seq<char>>, ValueTree)>>)
    requires
        forall|i: int| 0 <= i < parts.len() ==> distinct_paths(#[trigger] parts[i]),
        forall|
            i: int,
            j: int,
            a: (Seq<Seq<char>>, ValueTree),
            b: (Seq<Seq<char>>, ValueTree),
        |
            0 <= i < j < parts.len() && #[trigger] parts[i].contains(a)
                && #[trigger] parts[j].contains(b) ==> a.0 != b.0,
    ensures
        distinct_paths(parts.flatten()),
    decreases parts.len(),
{
    if parts.len() > 0 {
        let first = parts.first();
        let rest = parts.drop_first();
        assert forall|i: int| 0 <= i < rest.len() implies distinct_paths(#[trigger] rest[i]) by {
            assert(rest[i] == parts[i + 1]);
        }
        assert forall|
            i: int,
            j: int,
            a: (Seq<Seq<char>>, ValueTree),
            b: (Seq<Seq<char>>, ValueTree),
        |
            0 <= i < j < rest.len() && #[trigger] rest[i].contains(a)
                && #[trigger] rest[j].contains(b) implies a.0 != b.0 by {
            assert(parts[i + 1].contains(a) && parts[j + 1].contains(b));
        }
        lemma_flatten_distinct(rest);
        let all = parts.flatten();
        assert(all == first + rest.flatten());
        assert forall|i: int, j: int| 0 <= i < j < all.len() implies (#[trigger] all[i]).0 != (
        #[trigger] all[j]).0 by {
            if j < first.len() {
                assert(distinct_paths(parts[0]));
                assert(all[i] == first[i] && all[j] == first[j]);
            } else if i >= first.len() {
                assert(all[i] == rest.flatten()[i - first.len()]);
                assert(all[j] == rest.flatten()[j - first.len()]);
            } else {
                assert(parts[0].contains(all[i])) by {
                    assert(first[i] == all[i]);
                }
                assert(rest.flatten().contains(all[j])) by {
                    assert(rest.flatten()[j - first.len()] == all[j]);
                }
                lemma_flatten_contains(rest, all[j]);
                let k = choose|k: int| 0 <= k < rest.len() && (#[trigger] rest[k]).contains(all[j]);
                assert(parts[k + 1].contains(all[j]));
            }
        }
    }
}

/// No variable is listed twice.
proof fn lemma_listed_once(path: Seq<Seq<char>>, tree: ValueTree)
    requires
        finite_tree(tree),
    ensures
        distinct_paths(flattened(path, tree)),
    decreases tree,
{
    if let ValueTree::Table(table) = tree {
        let names = sorted_names(table.dom());
        let parts = flattened_entries(path, tree);
        lemma_sorted_names_list(table.dom());
        lemma_ascending_distinct(names);
        assert forall|i: int| 0 <= i < parts.len() implies distinct_paths(#[trigger] parts[i]) by {
            assert(names.contains(names[i]));
            assert(table.contains_key(names[i]));
            lemma_listed_once(path.push(names[i]), table[names[i]]);
        }
        assert forall|
            i: int,
            j: int,
            a: (Seq<Seq<char>>, ValueTree),
            b: (Seq<Seq<char>>, ValueTree),
        |
            0 <= i < j < parts.len() && #[trigger] parts[i].contains(a)
                && #[trigger] parts[j].contains(b) implies a.0 != b.0 by {
            assert(names.contains(names[i]) && names.contains(names[j]));
            assert(table.contains_key(names[i]) && table.contains_key(names[j]));
            lemma_listed_is_held(path.push(names[i]), table[names[i]], a);
            lemma_listed_is_held(path.push(names[j]), table[names[j]], b);
            let n = path.len() as int;
            assert(a.0.subrange(0, n + 1)[n] == names[i]);
            assert(b.0.subrange(0, n + 1)[n] == names[j]);
        }
        lemma_flatten_distinct(parts);
    }
}

/// The variables of a list that stand under `prefix`.
pub open spec fn under(values: Seq<AnnotatedTree>, prefix: Seq<Seq<char>>) -> Seq<AnnotatedTree> {
    values.filter(|value: AnnotatedTree| prefix.is_prefix_of(value.path))
}

/// A filter that holds of everything keeps everything, and one that holds of
/// nothing keeps nothing.
proof fn lemma_filter_uniform<A>(items: Seq<A>, keep: spec_fn(A) -> bool)
    ensures
        (forall|x: A| #[trigger] items.contains(x) ==> keep(x)) ==> items.filter(keep) == items,
        (forall|x: A| #[trigger] items.contains(x) ==> !keep(x)) ==> items.filter(keep)
            == Seq::<A>::empty(),
    decreases items.len(),
{
    reveal(Seq::filter);
    if items.len() > 0 {
        let front = items.drop_last();
        lemma_filter_uniform(front, keep);
        assert(items.contains(items.last()));
        assert forall|x: A| #[trigger] front.contains(x) implies items.contains(x) by {
            let i = choose|i: int| 0 <= i < front.len() && front[i] == x;
            assert(items[i] == x);
        }
        assert(items =~= front.push(items.last()));
    }
}

/// Where a filter keeps nothing of all lists but the one at `k`, what it keeps of
/// that one is what it keeps of all.
proof fn lemma_filter_flatten<A>(parts: Seq<Seq<A>>, keep: spec_fn(A) -> bool, k: int)
    requires
        forall|i: int|
            0 <= i < parts.len() && i != k ==> (#[trigger] parts[i]).filter(keep) == Seq::<
                A,
            >::empty(),
    ensures
        parts.flatten().filter(keep) == if 0 <= k < parts.len() {
            parts[k].filter(keep)
        } else {
            Seq::empty()
        },
    decreases parts.len(),
{
    if parts.len() == 0 {
        lemma_filter_uniform(parts.flatten(), keep);
    } else {
        let first = parts.first();
        let rest = parts.drop_first();
        assert forall|i: int| 0 <= i < rest.len() && i != k - 1 implies (
        #[trigger] rest[i]).filter(keep) == Seq::<A>::empty() by {
            assert(rest[i] == parts[i + 1]);
        }
        lemma_filter_flatten(rest, keep, k - 1);
        Seq::filter_distributes_over_add(first, rest.flatten(), keep);
        assert(first == parts[0]);
        assert(parts.flatten() == first + rest.flatten());
        if 0 <= k < parts.len() {
            if k == 0 {
                assert(parts.flatten().filter(keep) =~= first.filter(keep));
            } else {
                assert(rest[k - 1] == parts[k]);
                assert(parts.flatten().filter(keep) =~= parts[k].filter(keep));
            }
        } else {
            assert(parts.flatten().filter(keep) =~= Seq::empty());
        }
    }
}

/// The variables under a longer path are those that are listed below its end.
proof fn lemma_filtered(path: Seq<Seq<char>>, tree: ValueTree, below: Seq<Seq<char>>)
    requires
        finite_tree(tree),
    ensures
        flattened(path, tree).filter(
            |leaf: (Seq<Seq<char>>, ValueTree)| (path + below).is_prefix_of(leaf.0),
        ) == match lookup_tree(tree, below) {
            Some(top) => flattened(path + below, top),
            None => Seq::empty(),
        },
    decreases below.len(),
{
    let whole = path + below;
    let keep = |leaf: (Seq<Seq<char>>, ValueTree)| whole.is_prefix_of(leaf.0);
    let leaves = flattened(path, tree);
    if below.len() == 0 {
        assert(whole =~= path);
        assert forall|leaf: (Seq<Seq<char>>, ValueTree)| #[trigger]
            leaves.contains(leaf) implies keep(leaf) by {
            lemma_listed_is_held(path, tree, leaf);
        }
        lemma_filter_uniform(leaves, keep);
    } else {
        match tree {
            ValueTree::Table(table) => {
                let names = sorted_names(table.dom());
                let parts = flattened_entries(path, tree);
                lemma_sorted_names_list(table.dom());
                lemma_ascending_distinct(names);
                let k = if names.contains(below[0]) {
                    choose|k: int| 0 <= k < names.len() && names[k] == below[0]
                } else {
                    -1
                };
                assert forall|i: int| 0 <= i < parts.len() && i != k implies (
                #[trigger] parts[i]).filter(keep) == Seq::<(Seq<Seq<char>>, ValueTree)>::empty() by {
                    assert(names.contains(names[i]));
                    assert(table.contains_key(names[i]));
                    if 0 <= k {
                        assert(names[i] != names[k]);
                    }
                    assert forall|leaf: (Seq<Seq<char>>, ValueTree)| #[trigger]
                        parts[i].contains(leaf) implies !keep(leaf) by {
                        lemma_listed_is_held(path.push(names[i]), table[names[i]], leaf);
                        let n = path.len() as int;
                        assert(leaf.0.subrange(0, n + 1)[n] == names[i]);
                        if keep(leaf) {
                            assert(whole[n] == leaf.0.subrange(0, whole.len() as int)[n]);
                        }
                    }
                    lemma_filter_uniform(parts[i], keep);
                }
                lemma_filter_flatten(parts, keep, k);
                if 0 <= k {
                    let inner = path.push(names[k]);
                    assert(names.contains(names[k]));
                    assert(table.contains_key(names[k]));
                    lemma_filtered(inner, table[names[k]], below.drop_first());
                    assert(inner + below.drop_first() =~= whole);
                } else {
                    assert(!table.contains_key(below[0]));
                }
            },
            _ => {
                assert forall|leaf: (Seq<Seq<char>>, ValueTree)| #[trigger]
                    leaves.contains(leaf) implies !keep(leaf) by {
                    assert(leaf == (path, tree));
                }
                lemma_filter_uniform(leaves, keep);
            },
        }
    }
}

/// Variables can be annotated before or after they are filtered by their path.
proof fn lemma_filter_annotated(
    leaves: Seq<(Seq<Seq<char>>, ValueTree)>,
    source: ConfigSource,
    prefix: Seq<Seq<char>>,
)
    ensures
        under(
            leaves.map_values(|leaf: (Seq<Seq<char>>, ValueTree)| annotated(source, leaf)),
            prefix,
        ) == leaves.filter(
            |leaf: (Seq<Seq<char>>, ValueTree)| prefix.is_prefix_of(leaf.0),
        ).map_values(|leaf: (Seq<Seq<char>>, ValueTree)| annotated(source, leaf)),
    decreases leaves.len(),
{
    reveal(Seq::filter);
    let annotate = |leaf: (Seq<Seq<char>>, ValueTree)| annotated(source, leaf);
    let keep = |leaf: (Seq<Seq<char>>, ValueTree)| prefix.is_prefix_of(leaf.0);
    let values = leaves.map_values(annotate);
    if leaves.len() == 0 {
        assert(under(values, prefix) =~= leaves.filter(keep).map_values(annotate));
    } else {
        let front = leaves.drop_last();
        lemma_filter_annotated(front, source, prefix);
        assert(values.drop_last() =~= front.map_values(annotate));
        assert(values.last() == annotate(leaves.last()));
        assert(under(values, prefix) =~= leaves.filter(keep).map_values(annotate));
    }
}

/// All layers hold finite trees.
pub open spec fn all_finite(layers: Seq<(ConfigSource, ValueTree)>) -> bool {
    forall|i: int| 0 <= i < layers.len() ==> finite_tree((#[trigger] layers[i]).1)
}

/// Variables can be marked before or after they are filtered by their path.
proof fn lemma_marked_under(
    layers: Seq<(ConfigSource, ValueTree)>,
    n: int,
    values: Seq<AnnotatedTree>,
    prefix: Seq<Seq<char>>,
)
    ensures
        under(values.map_values(|value: AnnotatedTree| marked(layers, n, value)), prefix) == under(
            values,
            prefix,
        ).map_values(|value: AnnotatedTree| marked(layers, n, value)),
    decreases values.len(),
{
    reveal(Seq::filter);
    let mark = |value: AnnotatedTree| marked(layers, n, value);
    let all = values.map_values(mark);
    if values.len() > 0 {
        lemma_marked_under(layers, n, values.drop_last(), prefix);
        assert(all.drop_last() =~= values.drop_last().map_values(mark));
        assert(all.last() == mark(values.last()));
    }
    assert(under(all, prefix) =~= under(values, prefix).map_values(mark));
}

/// The variables of the first layers under a name are those from everywhere that
/// stand under the name.
proof fn lemma_resolved_under(
    layers: Seq<(ConfigSource, ValueTree)>,
    prefix: Seq<Seq<char>>,
    count: int,
)
    requires
        all_finite(layers),
        0 <= count <= layers.len(),
    ensures
        resolved_of(layers, prefix, count) == under(
            resolved_of(layers, Seq::empty(), count),
            prefix,
        ),
    decreases count,
{
    if count > 0 {
        let n = count - 1;
        let (source, tree) = layers[n];
        lemma_resolved_under(layers, prefix, n);
        assert(finite_tree(layers[n].1));
        lemma_filtered(Seq::empty(), tree, prefix);
        assert(Seq::empty() + prefix =~= prefix);
        lemma_filter_annotated(flattened(Seq::empty(), tree), source, prefix);
        let all = layer_values(source, tree, Seq::empty());
        assert(layer_values(source, tree, prefix) =~= under(all, prefix));
        lemma_marked_under(layers, n, all, prefix);
        Seq::filter_distributes_over_add(
            resolved_of(layers, Seq::empty(), n),
            marked_values(layers, Seq::empty(), n),
            |value: AnnotatedTree| prefix.is_prefix_of(value.path),
        );
    } else {
        reveal(Seq::filter);
    }
}

/// Listing the variables under a name is the same as listing all variables and
/// keeping those under the name.
pub proof fn law_listing_under_a_name(
    layers: Seq<(ConfigSource, ValueTree)>,
    prefix: Seq<Seq<char>>,
)
    requires
        all_finite(layers),
    ensures
        resolved(layers, prefix) == under(resolved(layers, Seq::empty()), prefix),
{
    lemma_resolved_under(layers, prefix, layers.len() as int);
}

/// A path leads where its parts lead one after the other.
proof fn lemma_lookup_joined(tree: ValueTree, first: Seq<Seq<char>>, second: Seq<Seq<char>>)
    ensures
        lookup_tree(tree, first + second) == match lookup_tree(tree, first) {
            Some(top) => lookup_tree(top, second),
            None => None,
        },
    decreases first.len(),
{
    if first.len() == 0 {
        assert(first + second =~= second);
    } else {
        assert((first + second).drop_first() =~= first.drop_first() + second);
        if let ValueTree::Table(table) = tree {
            if table.contains_key(first[0]) {
                lemma_lookup_joined(table[first[0]], first.drop_first(), second);
            }
        }
    }
}

/// A variable that a layer lists stands in the layer, under the given name.
proof fn lemma_layer_value_is_held(
    source: ConfigSource,
    tree: ValueTree,
    prefix: Seq<Seq<char>>,
    k: int,
)
    requires
        0 <= k < layer_values(source, tree, prefix).len(),
    ensures
        prefix.is_prefix_of(layer_values(source, tree, prefix)[k].path),
        holds_variable(
            tree,
            layer_values(source, tree, prefix)[k].path,
            layer_values(source, tree, prefix)[k].value,
        ),
        layer_values(source, tree, prefix)[k].source == source,
{
    let top = lookup_tree(tree, prefix)->Some_0;
    let leaves = flattened(prefix, top);
    let leaf = leaves[k];
    assert(leaves.contains(leaf));
    lemma_listed_is_held(prefix, top, leaf);
    let below = leaf.0.skip(prefix.len() as int);
    assert(prefix + below =~= leaf.0) by {
        assert(prefix =~= leaf.0.subrange(0, prefix.len() as int));
    }
    lemma_lookup_joined(tree, prefix, below);
}

/// A variable that stands in a layer under the given name is listed.
proof fn lemma_held_is_layer_value(
    source: ConfigSource,
    tree: ValueTree,
    prefix: Seq<Seq<char>>,
    path: Seq<Seq<char>>,
    value: ValueTree,
) -> (k: int)
    requires
        finite_tree(tree),
        prefix.is_prefix_of(path),
        holds_variable(tree, path, value),
    ensures
        0 <= k < layer_values(source, tree, prefix).len(),
        layer_values(source, tree, prefix)[k] == annotated(source, (path, value)),
{
    let below = path.skip(prefix.len() as int);
    assert(prefix + below =~= path) by {
        assert(prefix =~= path.subrange(0, prefix.len() as int));
    }
    lemma_lookup_joined(tree, prefix, below);
    let top = lookup_tree(tree, prefix)->Some_0;
    lemma_finite_below(tree, prefix);
    lemma_held_is_listed(prefix, top, below, value);
    let leaves = flattened(prefix, top);
    choose|k: int| 0 <= k < leaves.len() && leaves[k] == (path, value)
}

/// What a path leads to in a finite tree is finite.
proof fn lemma_finite_below(tree: ValueTree, path: Seq<Seq<char>>)
    requires
        finite_tree(tree),
    ensures
        lookup_tree(tree, path) matches Some(top) ==> finite_tree(top),
    decreases path.len(),
{
    if path.len() > 0 {
        if let ValueTree::Table(table) = tree {
            if table.contains_key(path[0]) {
                lemma_finite_below(table[path[0]], path.drop_first());
            }
        }
    }
}

/// Where the variables of the layer at `n` start in a listing.
pub open spec fn start_of(
    layers: Seq<(ConfigSource, ValueTree)>,
    prefix: Seq<Seq<char>>,
    n: int,
) -> int {
    resolved_of(layers, prefix, n).len() as int
}

/// The variables of the first layers are listed first.
proof fn lemma_listed_first(
    layers: Seq<(ConfigSource, ValueTree)>,
    prefix: Seq<Seq<char>>,
    m: int,
    n: int,
)
    requires
        0 <= m <= n,
    ensures
        start_of(layers, prefix, m) <= start_of(layers, prefix, n),
        forall|i: int|
            0 <= i < start_of(layers, prefix, m) ==> resolved_of(layers, prefix, m)[i]
                == #[trigger] resolved_of(layers, prefix, n)[i],
    decreases n - m,
{
    if m < n {
        lemma_listed_first(layers, prefix, m, n - 1);
    }
}

/// The variables of a layer stand together, behind those of all layers before it.
proof fn lemma_located(
    layers: Seq<(ConfigSource, ValueTree)>,
    prefix: Seq<Seq<char>>,
    n: int,
)
    requires
        0 <= n < layers.len(),
    ensures
        start_of(layers, prefix, n + 1) == start_of(layers, prefix, n) + marked_values(
            layers,
            prefix,
            n,
        ).len(),
        start_of(layers, prefix, n + 1) <= resolved(layers, prefix).len(),
        forall|k: int|
            0 <= k < marked_values(layers, prefix, n).len() ==> #[trigger] marked_values(
                layers,
                prefix,
                n,
            )[k] == resolved(layers, prefix)[start_of(layers, prefix, n) + k],
{
    lemma_listed_first(layers, prefix, n + 1, layers.len() as int);
    let start = start_of(layers, prefix, n);
    assert forall|k: int| 0 <= k < marked_values(layers, prefix, n).len() implies #[trigger]
        marked_values(layers, prefix, n)[k] == resolved(layers, prefix)[start + k] by {
        assert(resolved_of(layers, prefix, n + 1)[start + k] == marked_values(layers, prefix, n)[k]);
        assert(resolved_of(layers, prefix, layers.len() as int)[start + k] == resolved_of(
            layers,
            prefix,
            n + 1,
        )[start + k]);
    }
}

/// The layer that the variable at `i` comes from.
proof fn lemma_layer_of(
    layers: Seq<(ConfigSource, ValueTree)>,
    prefix: Seq<Seq<char>>,
    count: int,
    i: int,
) -> (n: int)
    requires
        0 <= i < start_of(layers, prefix, count),
    ensures
        0 <= n < count,
        start_of(layers, prefix, n) <= i < start_of(layers, prefix, n + 1),
    decreases count,
{
    if i >= start_of(layers, prefix, count - 1) {
        count - 1
    } else {
        lemma_layer_of(layers, prefix, count - 1, i)
    }
}

/// Every listed variable stands in the layer that it is listed for, under the given
/// name, and is not a table. It is marked as overridden if and only if a layer above
/// that one overrides it.
pub proof fn law_listed_variable_is_held(
    layers: Seq<(ConfigSource, ValueTree)>,
    prefix: Seq<Seq<char>>,
    i: int,
) -> (n: int)
    requires
        0 <= i < resolved(layers, prefix).len(),
    ensures
        0 <= n < layers.len(),
        start_of(layers, prefix, n) <= i < start_of(layers, prefix, n + 1),
        resolved(layers, prefix)[i].source == layers[n].0,
        prefix.is_prefix_of(resolved(layers, prefix)[i].path),
        holds_variable(
            layers[n].1,
            resolved(layers, prefix)[i].path,
            resolved(layers, prefix)[i].value,
        ),
        resolved(layers, prefix)[i].is_overridden == overridden_above(
            layers,
            n,
            resolved(layers, prefix)[i].path,
        ),
{
    let n = lemma_layer_of(layers, prefix, layers.len() as int, i);
    lemma_located(layers, prefix, n);
    let k = i - start_of(layers, prefix, n);
    assert(marked_values(layers, prefix, n)[k] == resolved(layers, prefix)[i]);
    lemma_layer_value_is_held(layers[n].0, layers[n].1, prefix, k);
    n
}

/// Every variable that a layer holds under the given name is listed for that layer,
/// once, and marked as overridden if and only if a layer above overrides it.
pub proof fn law_held_variable_is_listed(
    layers: Seq<(ConfigSource, ValueTree)>,
    prefix: Seq<Seq<char>>,
    n: int,
    path: Seq<Seq<char>>,
    value: ValueTree,
) -> (i: int)
    requires
        all_finite(layers),
        0 <= n < layers.len(),
        prefix.is_prefix_of(path),
        holds_variable(layers[n].1, path, value),
    ensures
        0 <= i < resolved(layers, prefix).len(),
        start_of(layers, prefix, n) <= i < start_of(layers, prefix, n + 1),
        resolved(layers, prefix)[i] == (AnnotatedTree {
            path,
            value,
            source: layers[n].0,
            is_overridden: overridden_above(layers, n, path),
        }),
        forall|j: int|
            start_of(layers, prefix, n) <= j < start_of(layers, prefix, n + 1) && j != i
                ==> #[trigger] resolved(layers, prefix)[j].path != path,
{
    assert(finite_tree(layers[n].1));
    let all = resolved(layers, prefix);
    let start = start_of(layers, prefix, n);
    let k = lemma_held_is_layer_value(layers[n].0, layers[n].1, prefix, path, value);
    let i = start + k;
    lemma_located(layers, prefix, n);
    assert(marked_values(layers, prefix, n)[k] == all[i]);
    let top = lookup_tree(layers[n].1, prefix)->Some_0;
    let leaves = flattened(prefix, top);
    lemma_finite_below(layers[n].1, prefix);
    lemma_listed_once(prefix, top);
    assert forall|j: int|
        start <= j < start_of(layers, prefix, n + 1) && j != i implies #[trigger] all[j].path
        != path by {
        assert(marked_values(layers, prefix, n)[j - start] == all[j]);
        assert(leaves[k].0 == path);
        assert(leaves[j - start].0 == all[j].path);
    }
    i
}

/// A tree that holds a variable overrides it.
proof fn lemma_holder_overrides(tree: ValueTree, path: Seq<Seq<char>>, value: ValueTree)
    requires
        holds_variable(tree, path, value),
    ensures
        overrides(tree, path),
    decreases path.len(),
{
    reveal_with_fuel(leaves_alone, 2);
    reveal_with_fuel(lookup_tree, 2);
    if path.len() > 1 && tree is Table {
        lemma_holder_overrides(tree->Table_0[path[0]], path.drop_first(), value);
    }
}

/// Of the listed variables with the same path, all but the last one are overridden.
pub proof fn law_one_variable_is_in_effect(
    layers: Seq<(ConfigSource, ValueTree)>,
    prefix: Seq<Seq<char>>,
    i: int,
    j: int,
)
    requires
        all_finite(layers),
        0 <= i < j < resolved(layers, prefix).len(),
        resolved(layers, prefix)[i].path == resolved(layers, prefix)[j].path,
    ensures
        resolved(layers, prefix)[i].is_overridden,
{
    let all = resolved(layers, prefix);
    let path = all[i].path;
    let m = law_listed_variable_is_held(layers, prefix, i);
    let n = law_listed_variable_is_held(layers, prefix, j);
    if n < m {
        lemma_listed_first(layers, prefix, n + 1, m);
    } else if n == m {
        let only = law_held_variable_is_listed(layers, prefix, n, path, all[i].value);
        assert(all[i].path == path && all[j].path == path);
    } else {
        lemma_holder_overrides(layers[n].1, path, all[j].value);
        assert(overrides(layers[n].1, path));
    }
}

/// The layers stand in order of the precedence of their sources, the lowest first.
pub open spec fn sources_ascend(layers: Seq<(ConfigSource, ValueTree)>) -> bool {
    forall|i: int, j: int|
        0 <= i < j < layers.len() ==> (#[trigger] layers[i]).0.spec_rank() <= (
        #[trigger] layers[j]).0.spec_rank()
}

/// Variables are listed in order of the precedence of their sources.
pub proof fn law_listing_goes_by_precedence(
    layers: Seq<(ConfigSource, ValueTree)>,
    prefix: Seq<Seq<char>>,
    i: int,
    j: int,
)
    requires
        sources_ascend(layers),
        0 <= i <= j < resolved(layers, prefix).len(),
    ensures
        resolved(layers, prefix)[i].source.spec_rank() <= resolved(
            layers,
            prefix,
        )[j].source.spec_rank(),
{
    let m = law_listed_variable_is_held(layers, prefix, i);
    let n = law_listed_variable_is_held(layers, prefix, j);
    if n < m {
        lemma_listed_first(layers, prefix, n + 1, m);
    } else if m < n {
        assert(layers[m].0.spec_rank() <= layers[n].0.spec_rank());
    }
}

/// The tables of the layers.
pub open spec fn tables_of_layers(layers: Seq<(ConfigSource, ValueTree)>) -> Seq<
    Map<Seq<char>, ValueTree>,
> {
    layers.map_values(|layer: (ConfigSource, ValueTree)| layer.1->Table_0)
}

/// All layers hold tables.
pub open spec fn all_hold_tables(layers: Seq<(ConfigSource, ValueTree)>) -> bool {
    forall|i: int| 0 <= i < layers.len() ==> (#[trigger] layers[i]).1 is Table
}

/// Every variable of the merged layers is listed, with its value, and not marked as
/// overridden, if no other name leads to its entry.
pub proof fn law_merged_variable_is_listed(
    layers: Seq<(ConfigSource, ValueTree)>,
    merged: Map<Seq<char>, ValueTree>,
    prefix: Seq<Seq<char>>,
    path: Seq<Seq<char>>,
    value: ValueTree,
) -> (i: int)
    requires
        all_finite(layers),
        all_hold_tables(layers),
        merged_tables(tables_of_layers(layers), merged),
        prefix.is_prefix_of(path),
        holds_variable(ValueTree::Table(merged), path, value),
        untouched(tables_of_layers(layers), 0, path[0]),
    ensures
        0 <= i < resolved(layers, prefix).len(),
        resolved(layers, prefix)[i].path == path,
        resolved(layers, prefix)[i].value == value,
        !resolved(layers, prefix)[i].is_overridden,
{
    let tables = tables_of_layers(layers);
    let n = law_merged_variable_comes_from_a_table(tables, merged, path, value);
    assert(layers[n].1 is Table);
    assert(ValueTree::Table(tables[n]) == layers[n].1);
    assert forall|m: int| n < m < layers.len() implies !overrides((#[trigger] layers[m]).1, path) by {
        assert(leaves_alone(tables[m], path));
    }
    law_held_variable_is_listed(layers, prefix, n, path, value)
}

/// A listed variable that is not overridden holds in the merged layers, if from its
/// layer on no other name leads to its entry.
pub proof fn law_listed_variable_is_merged(
    layers: Seq<(ConfigSource, ValueTree)>,
    merged: Map<Seq<char>, ValueTree>,
    prefix: Seq<Seq<char>>,
    i: int,
    n: int,
)
    requires
        all_hold_tables(layers),
        merged_tables(tables_of_layers(layers), merged),
        0 <= n < layers.len(),
        0 <= i < resolved(layers, prefix).len(),
        start_of(layers, prefix, n) <= i < start_of(layers, prefix, n + 1),
        !resolved(layers, prefix)[i].is_overridden,
        untouched(tables_of_layers(layers), n, resolved(layers, prefix)[i].path[0]),
    ensures
        holds_variable(
            ValueTree::Table(merged),
            resolved(layers, prefix)[i].path,
            resolved(layers, prefix)[i].value,
        ),
{
    let path = resolved(layers, prefix)[i].path;
    let value = resolved(layers, prefix)[i].value;
    let tables = tables_of_layers(layers);
    let same = law_listed_variable_is_held(layers, prefix, i);
    if same < n {
        lemma_listed_first(layers, prefix, same + 1, n);
    } else if n < same {
        lemma_listed_first(layers, prefix, n + 1, same);
    }
    assert forall|m: int| n < m < tables.len() implies leaves_alone(#[trigger] tables[m], path) by {
        assert(layers[m].1 is Table);
        assert(!overrides(layers[m].1, path));
    }
    assert(layers[n].1 is Table);
    assert(ValueTree::Table(tables[n]) == layers[n].1);
    law_highest_table_wins(tables, merged, n, path, value);
}

/// The path `a` comes before the path `b`: where they part, its name comes before the
/// other's.
pub open spec fn path_before(a: Seq<Seq<char>>, b: Seq<Seq<char>>) -> bool {
    exists|n: int|
        {
            &&& 0 <= n < a.len()
            &&& n < b.len()
            &&& #[trigger] a.take(n) == b.take(n)
            &&& name_lt(a[n], b[n])
        }
}

/// Each path of the list comes before all that follow it.
spec fn paths_ascend(leaves: Seq<(Seq<Seq<char>>, ValueTree)>) -> bool {
    forall|i: int, j: int|
        0 <= i < j < leaves.len() ==> path_before((#[trigger] leaves[i]).0, (#[trigger] leaves[j]).0)
}

proof fn lemma_flatten_ascends(parts: Seq<Seq<(Seq<Seq<char>>, ValueTree)>>)
    requires
        forall|i: int| 0 <= i < parts.len() ==> paths_ascend(#[trigger] parts[i]),
        forall|
            i: int,
            j: int,
            a: (Seq<Seq<char>>, ValueTree),
            b: (Seq<Seq<char>>, ValueTree),
        |
            0 <= i < j < parts.len() && #[trigger] parts[i].contains(a)
                && #[trigger] parts[j].contains(b) ==> path_before(a.0, b.0),
    ensures
        paths_ascend(parts.flatten()),
    decreases parts.len(),
{
    if parts.len() > 0 {
        let first = parts.first();
        let rest = parts.drop_first();
        assert forall|i: int| 0 <= i < rest.len() implies paths_ascend(#[trigger] rest[i]) by {
            assert(rest[i] == parts[i + 1]);
        }
        assert forall|
            i: int,
            j: int,
            a: (Seq<Seq<char>>, ValueTree),
            b: (Seq<Seq<char>>, ValueTree),
        |
            0 <= i < j < rest.len() && #[trigger] rest[i].contains(a)
                && #[trigger] rest[j].contains(b) implies path_before(a.0, b.0) by {
            assert(parts[i + 1].contains(a) && parts[j + 1].contains(b));
        }
        lemma_flatten_ascends(rest);
        let all = parts.flatten();
        assert(all == first + rest.flatten());
        assert forall|i: int, j: int| 0 <= i < j < all.len() implies path_before(
            (#[trigger] all[i]).0,
            (#[trigger] all[j]).0,
        ) by {
            if j < first.len() {
                assert(paths_ascend(parts[0]));
                assert(all[i] == first[i] && all[j] == first[j]);
            } else if i >= first.len() {
                assert(all[i] == rest.flatten()[i - first.len()]);
                assert(all[j] == rest.flatten()[j - first.len()]);
            } else {
                assert(parts[0].contains(all[i])) by {
                    assert(first[i] == all[i]);
                }
                assert(rest.flatten().contains(all[j])) by {
                    assert(rest.flatten()[j - first.len()] == all[j]);
                }
                lemma_flatten_contains(rest, all[j]);
                let k = choose|k: int| 0 <= k < rest.len() && (#[trigger] rest[k]).contains(all[j]);
                assert(parts[k + 1].contains(all[j]));
            }
        }
    }
}

/// The variables of a tree are listed in ascending order of their paths.
proof fn lemma_listed_ascending(path: Seq<Seq<char>>, tree: ValueTree)
    requires
        finite_tree(tree),
    ensures
        paths_ascend(flattened(path, tree)),
    decreases tree,
{
    if let ValueTree::Table(table) = tree {
        let names = sorted_names(table.dom());
        let parts = flattened_entries(path, tree);
        lemma_sorted_names_list(table.dom());
        assert forall|i: int| 0 <= i < parts.len() implies paths_ascend(#[trigger] parts[i]) by {
            assert(names.contains(names[i]));
            assert(table.contains_key(names[i]));
            lemma_listed_ascending(path.push(names[i]), table[names[i]]);
        }
        assert forall|
            i: int,
            j: int,
            a: (Seq<Seq<char>>, ValueTree),
            b: (Seq<Seq<char>>, ValueTree),
        |
            0 <= i < j < parts.len() && #[trigger] parts[i].contains(a)
                && #[trigger] parts[j].contains(b) implies path_before(a.0, b.0) by {
            assert(names.contains(names[i]) && names.contains(names[j]));
            assert(table.contains_key(names[i]) && table.contains_key(names[j]));
            lemma_listed_is_held(path.push(names[i]), table[names[i]], a);
            lemma_listed_is_held(path.push(names[j]), table[names[j]], b);
            let n = path.len() as int;
            let a_start = a.0.subrange(0, n + 1);
            let b_start = b.0.subrange(0, n + 1);
            assert(a_start[n] == names[i]);
            assert(b_start[n] == names[j]);
            assert forall|k: int| 0 <= k < n implies #[trigger] a.0[k] == b.0[k] by {
                assert(a_start[k] == path.push(names[i])[k]);
                assert(b_start[k] == path.push(names[j])[k]);
            }
            assert(a.0.take(n) =~= b.0.take(n));
            assert(name_lt(names[i], names[j]));
        }
        lemma_flatten_ascends(parts);
    }
}

/// Which layer each listed variable comes from: the layers in their order, and the
/// variables of each in ascending order of their paths.
pub proof fn law_listing_goes_layer_by_layer(
    layers: Seq<(ConfigSource, ValueTree)>,
    prefix: Seq<Seq<char>>,
) -> (owners: Seq<int>)
    requires
        all_finite(layers),
    ensures
        owners.len() == resolved(layers, prefix).len(),
        forall|i: int|
            #![trigger resolved(layers, prefix)[i]]
            0 <= i < owners.len() ==> {
                let listed = resolved(layers, prefix)[i];
                &&& 0 <= owners[i] < layers.len()
                &&& listed.source == layers[owners[i]].0
                &&& prefix.is_prefix_of(listed.path)
                &&& holds_variable(layers[owners[i]].1, listed.path, listed.value)
                &&& listed.is_overridden == overridden_above(layers, owners[i], listed.path)
            },
        forall|i: int, j: int|
            0 <= i < j < owners.len() ==> #[trigger] owners[i] < #[trigger] owners[j] || (owners[i]
                == owners[j] && path_before(
                resolved(layers, prefix)[i].path,
                resolved(layers, prefix)[j].path,
            )),
        forall|n: int, path: Seq<Seq<char>>|
            0 <= n < layers.len() && prefix.is_prefix_of(path) && (#[trigger] lookup_tree(
                layers[n].1,
                path,
            ) matches Some(value) && !(value is Table)) ==> exists|i: int|
                0 <= i < owners.len() && owners[i] == n && (#[trigger] resolved(
                    layers,
                    prefix,
                )[i]).path == path,
{
    let all = resolved(layers, prefix);
    let owners = Seq::new(
        all.len(),
        |i: int|
            choose|n: int|
                0 <= n < layers.len() && #[trigger] start_of(layers, prefix, n) <= i < start_of(
                    layers,
                    prefix,
                    n + 1,
                ),
    );
    assert forall|i: int| 0 <= i < all.len() implies 0 <= #[trigger] owners[i] < layers.len()
        && start_of(layers, prefix, owners[i]) <= i < start_of(layers, prefix, owners[i] + 1) by {
        let n = lemma_layer_of(layers, prefix, layers.len() as int, i);
        assert(start_of(layers, prefix, n) <= i);
    }
    assert forall|i: int|
        #![trigger resolved(layers, prefix)[i]]
        0 <= i < owners.len() implies {
        let listed = resolved(layers, prefix)[i];
        &&& 0 <= owners[i] < layers.len()
        &&& listed.source == layers[owners[i]].0
        &&& prefix.is_prefix_of(listed.path)
        &&& holds_variable(layers[owners[i]].1, listed.path, listed.value)
        &&& listed.is_overridden == overridden_above(layers, owners[i], listed.path)
    } by {
        let n = law_listed_variable_is_held(layers, prefix, i);
        lemma_one_owner(layers, prefix, i, n, owners[i]);
    }
    assert forall|i: int, j: int| 0 <= i < j < owners.len() implies #[trigger] owners[i]
        < #[trigger] owners[j] || (owners[i] == owners[j] && path_before(
        all[i].path,
        all[j].path,
    )) by {
        let m = owners[i];
        let n = owners[j];
        if n < m {
            lemma_listed_first(layers, prefix, n + 1, m);
        } else if n == m {
            let start = start_of(layers, prefix, n);
            lemma_located(layers, prefix, n);
            let marked_here = marked_values(layers, prefix, n);
            assert(marked_here[i - start] == all[i]);
            assert(marked_here[j - start] == all[j]);
            let top = lookup_tree(layers[n].1, prefix)->Some_0;
            assert(finite_tree(layers[n].1));
            lemma_finite_below(layers[n].1, prefix);
            lemma_listed_ascending(prefix, top);
            let leaves = flattened(prefix, top);
            assert(leaves[i - start].0 == all[i].path);
            assert(leaves[j - start].0 == all[j].path);
        }
    }
    assert forall|n: int, path: Seq<Seq<char>>|
        0 <= n < layers.len() && prefix.is_prefix_of(path) && (#[trigger] lookup_tree(
            layers[n].1,
            path,
        ) matches Some(value) && !(value is Table)) implies exists|i: int|
        0 <= i < owners.len() && owners[i] == n && (#[trigger] all[i]).path == path by {
        let value = lookup_tree(layers[n].1, path)->Some_0;
        let i = law_held_variable_is_listed(layers, prefix, n, path, value);
        lemma_one_owner(layers, prefix, i, n, owners[i]);
        assert(all[i].path == path);
    }
    owners
}

/// A listed variable comes from one layer.
proof fn lemma_one_owner(
    layers: Seq<(ConfigSource, ValueTree)>,
    prefix: Seq<Seq<char>>,
    i: int,
    m: int,
    n: int,
)
    requires
        0 <= m,
        0 <= n,
        start_of(layers, prefix, m) <= i < start_of(layers, prefix, m + 1),
        start_of(layers, prefix, n) <= i < start_of(layers, prefix, n + 1),
    ensures
        m == n,
{
    if m < n {
        lemma_listed_first(layers, prefix, m + 1, n);
    } else if n < m {
        lemma_listed_first(layers, prefix, n + 1, m);
    }
}

} // verus!
