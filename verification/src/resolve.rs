//! Configuration variables with the layer that each one comes from.
use crate::name_path::{
    find_entry, key_texts, lemma_as_many_shown, lookup_tree, names, ConfigNamePathBuf,
};
use crate::toml_crate::key_text;
use crate::order::{ascending, lemma_sorted_names, sorted_names};
use crate::overlay::leaves_alone;
use crate::source::ConfigSource;
use crate::value::{distinct_keys, entries_tree, lemma_entries_tree, value_tree, well_formed};
use crate::value::{duplicate, ConfigEntry, ConfigValue, ValueTree};
use itertools::Itertools;
use vstd::prelude::*;

verus! {

/// The names of the entries, in their order.
pub open spec fn entry_names(entries: Seq<&ConfigEntry>) -> Seq<Seq<char>> {
    entries.map_values(|entry: &ConfigEntry| entry.key@)
}

/// `itertools::Itertools::sorted_by_key`, by the names of the entries: the same
/// entries, each before all whose name comes after its own. Strings are ordered
/// by their code points.
#[verifier::external_body]
pub(crate) fn sorted_by_key<'a>(entries: &'a Vec<ConfigEntry>) -> (sorted: Vec<&'a ConfigEntry>)
    requires
        distinct_keys(entries@),
    ensures
        sorted@.map_values(|entry: &ConfigEntry| *entry).to_multiset() == entries@.to_multiset(),
        ascending(entry_names(sorted@)),
{
    entries.iter().sorted_by_key(|entry| entry.key.as_str()).collect()
}

/// Every value below `tree` that is not a table, with its path. Tables are
/// walked in ascending order of their names.
pub open spec fn flattened(path: Seq<Seq<char>>, tree: ValueTree) -> Seq<
    (Seq<Seq<char>>, ValueTree),
>
    decreases tree, 1int,
{
    match tree {
        ValueTree::Table(_) => flattened_entries(path, tree).flatten(),
        _ => seq![(path, tree)],
    }
}

/// For each name of the table `tree`, in ascending order, the values below it.
pub open spec fn flattened_entries(path: Seq<Seq<char>>, tree: ValueTree) -> Seq<
    Seq<(Seq<Seq<char>>, ValueTree)>,
>
    decreases tree, 0int,
{
    let names = sorted_names(tree->Table_0.dom());
    Seq::new(
        names.len(),
        |i: int|
            if tree is Table && tree->Table_0.contains_key(names[i]) {
                flattened(path.push(names[i]), tree->Table_0[names[i]])
            } else {
                Seq::empty()
            },
    )
}

/// What is left to walk: the values on the stack, the last one first.
spec fn pending(stack: Seq<(ConfigNamePathBuf, &ConfigValue)>) -> Seq<
    (Seq<Seq<char>>, ValueTree),
>
    decreases stack.len(),
{
    if stack.len() == 0 {
        Seq::empty()
    } else {
        flattened(stack.last().0@, stack.last().1@) + pending(stack.drop_last())
    }
}

/// The number of values in `value`, tables and itself included.
spec fn size(value: ConfigValue) -> nat
    decreases value,
{
    match value {
        ConfigValue::Table(entries) => 1 + entries_size(entries@),
        _ => 1,
    }
}

spec fn entries_size(entries: Seq<ConfigEntry>) -> nat
    decreases entries,
{
    if entries.len() == 0 {
        0
    } else {
        entries_size(entries.drop_last()) + size(entries.last().value)
    }
}

spec fn stack_size(stack: Seq<(ConfigNamePathBuf, &ConfigValue)>) -> nat
    decreases stack.len(),
{
    if stack.len() == 0 {
        0
    } else {
        stack_size(stack.drop_last()) + size(*stack.last().1)
    }
}

proof fn lemma_entries_size_remove(entries: Seq<ConfigEntry>, i: int)
    requires
        0 <= i < entries.len(),
    ensures
        entries_size(entries) == entries_size(entries.remove(i)) + size(entries[i].value),
    decreases entries.len(),
{
    if i == entries.len() - 1 {
        assert(entries.remove(i) =~= entries.drop_last());
    } else {
        lemma_entries_size_remove(entries.drop_last(), i);
        assert(entries.remove(i).drop_last() =~= entries.drop_last().remove(i));
    }
}

proof fn lemma_entries_size_permuted(a: Seq<ConfigEntry>, b: Seq<ConfigEntry>)
    requires
        a.to_multiset() == b.to_multiset(),
    ensures
        entries_size(a) == entries_size(b),
    decreases a.len(),
{
    broadcast use vstd::seq_lib::group_to_multiset_ensures;

    assert(a.to_multiset().len() == a.len());
    assert(b.to_multiset().len() == b.len());
    if a.len() > 0 {
        let last = a.last();
        assert(a.to_multiset().contains(last));
        assert(b.contains(last));
        let i = choose|i: int| 0 <= i < b.len() && b[i] == last;
        assert(a.remove(a.len() - 1) =~= a.drop_last());
        assert(a.remove(a.len() - 1).to_multiset() =~= a.to_multiset().remove(last));
        assert(b.remove(i).to_multiset() =~= b.to_multiset().remove(last));
        lemma_entries_size_permuted(a.drop_last(), b.remove(i));
        lemma_entries_size_remove(b, i);
    }
}

/// The sorted entries of a table bear its names in ascending order.
pub(crate) proof fn lemma_sorted_entries(entries: Seq<ConfigEntry>, sorted: Seq<&ConfigEntry>)
    requires
        distinct_keys(entries),
        sorted.map_values(|entry: &ConfigEntry| *entry).to_multiset() == entries.to_multiset(),
        ascending(entry_names(sorted)),
    ensures
        sorted.len() == entries.len(),
        sorted_names(entries_tree(entries).dom()) == entry_names(sorted),
        forall|i: int|
            0 <= i < sorted.len() ==> entries.contains(*#[trigger] sorted[i])
                && entries_tree(entries).contains_key(sorted[i].key@)
                && entries_tree(entries)[sorted[i].key@] == value_tree(sorted[i].value),
{
    broadcast use vstd::seq_lib::group_to_multiset_ensures;

    lemma_entries_tree(entries);
    let owned = sorted.map_values(|entry: &ConfigEntry| *entry);
    assert(owned.to_multiset().len() == entries.to_multiset().len());
    assert forall|i: int| 0 <= i < sorted.len() implies entries.contains(*#[trigger] sorted[i])
        && entries_tree(entries).contains_key(sorted[i].key@)
        && entries_tree(entries)[sorted[i].key@] == value_tree(sorted[i].value) by {
        assert(owned[i] == *sorted[i]);
        assert(owned.contains(owned[i]));
        assert(entries.to_multiset().contains(owned[i]));
        assert(entries.contains(owned[i]));
        let j = choose|j: int| 0 <= j < entries.len() && entries[j] == owned[i];
        assert(entries[j].key@ == sorted[i].key@);
    }
    let names = entry_names(sorted);
    let keys = entries_tree(entries).dom();
    assert forall|k: Seq<char>| #[trigger] names.contains(k) <==> keys.contains(k) by {
        if names.contains(k) {
            let i = choose|i: int| 0 <= i < names.len() && names[i] == k;
            assert(sorted[i].key@ == k);
        }
        if keys.contains(k) {
            assert(entries_tree(entries).contains_key(k));
            let j = choose|j: int| 0 <= j < entries.len() && (#[trigger] entries[j]).key@ == k;
            assert(entries.contains(entries[j]));
            assert(owned.to_multiset().contains(entries[j]));
            assert(owned.contains(entries[j]));
            let i = choose|i: int| 0 <= i < owned.len() && owned[i] == entries[j];
            assert(names[i] == k);
        }
    }
    lemma_sorted_names(names, keys);
}

/// A configuration variable as a mathematical value.
pub struct AnnotatedTree {
    pub path: Seq<Seq<char>>,
    pub value: ValueTree,
    pub source: ConfigSource,
    pub is_overridden: bool,
}

/// Configuration variable with its source information.
#[derive(Clone, Debug, PartialEq)]
pub struct AnnotatedValue {
    /// Dotted name path to the configuration variable.
    pub path: ConfigNamePathBuf,
    /// Configuration value.
    pub value: ConfigValue,
    /// Source of the configuration value.
    pub source: ConfigSource,
    /// True if this value is overridden in higher precedence layers.
    pub is_overridden: bool,
}

impl View for AnnotatedValue {
    type V = AnnotatedTree;

    open spec fn view(&self) -> AnnotatedTree {
        AnnotatedTree {
            path: self.path@,
            value: self.value@,
            source: self.source,
            is_overridden: self.is_overridden,
        }
    }
}

/// The variables that a layer defines under a name, before any is known to be
/// overridden.
pub open spec fn layer_values(
    source: ConfigSource,
    tree: ValueTree,
    filter_prefix: Seq<Seq<char>>,
) -> Seq<AnnotatedTree> {
    match lookup_tree(tree, filter_prefix) {
        Some(top) => flattened(filter_prefix, top).map_values(
            |leaf: (Seq<Seq<char>>, ValueTree)| annotated(source, leaf),
        ),
        None => Seq::empty(),
    }
}

/// A variable that no other one overrides.
pub open spec fn annotated(
    source: ConfigSource,
    leaf: (Seq<Seq<char>>, ValueTree),
) -> AnnotatedTree {
    AnnotatedTree { path: leaf.0, value: leaf.1, source, is_overridden: false }
}

/// The path starts with the names of `prefix` and is displayed as `prefix` is. Of its
/// further names it is not known how they were written.
pub open spec fn shown_below(prefix: ConfigNamePathBuf, path: ConfigNamePathBuf) -> bool {
    &&& prefix@.is_prefix_of(path@)
    &&& path.shown() == prefix.shown() + key_texts(path@.skip(prefix@.len() as int))
}

/// The paths of all variables are displayed as `prefix` is, followed by further names.
pub open spec fn all_shown_below(
    prefix: ConfigNamePathBuf,
    values: Seq<AnnotatedValue>,
) -> bool {
    forall|i: int| 0 <= i < values.len() ==> shown_below(prefix, (#[trigger] values[i]).path)
}

/// A path is displayed as itself.
proof fn lemma_shown_at(path: ConfigNamePathBuf)
    ensures
        shown_below(path, path),
{
    assert(path.shown() =~= path.shown() + key_texts(path@.skip(path@.len() as int)));
}

/// A name that is appended to a path is displayed behind it.
proof fn lemma_shown_further(
    prefix: ConfigNamePathBuf,
    path: ConfigNamePathBuf,
    name: Seq<char>,
    longer: ConfigNamePathBuf,
)
    requires
        shown_below(prefix, path),
        longer@ == path@.push(name),
        longer.shown() == path.shown().push(key_text(name)),
    ensures
        shown_below(prefix, longer),
{
    let n = prefix@.len() as int;
    assert(longer@.skip(n) =~= path@.skip(n).push(name));
    assert(longer.shown() =~= prefix.shown() + key_texts(longer@.skip(n)));
    assert(prefix@ =~= longer@.take(n));
}

/// Walks the tables below `value` and appends each variable.
fn collect_values(
    source: ConfigSource,
    path: ConfigNamePathBuf,
    value: &ConfigValue,
    config_vals: &mut Vec<AnnotatedValue>,
)
    requires
        well_formed(*value),
    ensures
        views(final(config_vals)@) == views(old(config_vals)@) + flattened(
            path@,
            value@,
        ).map_values(|leaf: (Seq<Seq<char>>, ValueTree)| annotated(source, leaf)),
        all_shown_below(path, old(config_vals)@) ==> all_shown_below(path, final(config_vals)@),
{
    let ghost prefix = path;
    let ghost leaves = flattened(path@, value@);
    let ghost mut walked: Seq<(Seq<Seq<char>>, ValueTree)> = Seq::empty();
    let mut stack: Vec<(ConfigNamePathBuf, &ConfigValue)> = Vec::new();
    stack.push((path, value));
    proof {
        lemma_shown_at(prefix);
        assert(stack@.drop_last() =~= Seq::empty());
        assert(pending(stack@) =~= leaves) by {
            assert(pending(Seq::<(ConfigNamePathBuf, &ConfigValue)>::empty()) =~= Seq::empty());
        }
        assert(views(config_vals@) =~= views(old(config_vals)@) + walked.map_values(
            |leaf: (Seq<Seq<char>>, ValueTree)| annotated(source, leaf),
        ));
    }
    while stack.len() > 0
        invariant
            forall|i: int| 0 <= i < stack.len() ==> well_formed(*(#[trigger] stack@[i]).1),
            forall|i: int| 0 <= i < stack.len() ==> shown_below(prefix, (#[trigger] stack@[i]).0),
            all_shown_below(prefix, old(config_vals)@) ==> all_shown_below(prefix, config_vals@),
            walked + pending(stack@) == leaves,
            views(config_vals@) == views(old(config_vals)@) + walked.map_values(
                |leaf: (Seq<Seq<char>>, ValueTree)| annotated(source, leaf),
            ),
        decreases stack_size(stack@),
    {
        let ghost before = stack@;
        let (path, value) = stack.pop().unwrap();
        let ghost rest = stack@;
        assert(rest =~= before.drop_last());
        assert(before.last() == (path, value));
        assert(well_formed(*before[before.len() - 1].1));
        assert(shown_below(prefix, before[before.len() - 1].0));
        match value {
            ConfigValue::Table(entries) => {
                let sorted = sorted_by_key(entries);
                let ghost table = entries_tree(entries@);
                let ghost names = sorted_names(table.dom());
                let ghost children = flattened_entries(path@, value@);
                let ghost owned = sorted@.map_values(|entry: &ConfigEntry| *entry);
                proof {
                    lemma_sorted_entries(entries@, sorted@);
                    lemma_entries_size_permuted(owned, entries@);
                    assert(children.skip(children.len() as int) =~= Seq::empty());
                    assert(owned.skip(owned.len() as int) =~= Seq::empty());
                    assert(pending(stack@) =~= Seq::empty() + pending(rest));
                }
                let mut j: usize = sorted.len();
                while j > 0
                    invariant
                        j <= sorted.len(),
                        well_formed(*value),
                        *value == ConfigValue::Table(*entries),
                        names == entry_names(sorted@),
                        owned == sorted@.map_values(|entry: &ConfigEntry| *entry),
                        table == entries_tree(entries@),
                        names == sorted_names(table.dom()),
                        value@ == ValueTree::Table(table),
                        children == flattened_entries(path@, value@),
                        forall|i: int|
                            0 <= i < sorted.len() ==> entries@.contains(*#[trigger] sorted@[i])
                                && table.contains_key(sorted@[i].key@)
                                && table[sorted@[i].key@] == value_tree(sorted@[i].value),
                        shown_below(prefix, path),
                        forall|i: int|
                            0 <= i < stack.len() ==> well_formed(*(#[trigger] stack@[i]).1),
                        forall|i: int|
                            0 <= i < stack.len() ==> shown_below(prefix, (#[trigger] stack@[i]).0),
                        pending(stack@) == children.skip(j as int).flatten() + pending(rest),
                        stack_size(stack@) == entries_size(owned.skip(j as int)) + stack_size(rest),
                    decreases j,
                {
                    j -= 1;
                    let ghost before = stack@;
                    let entry = sorted[j];
                    let mut key_path = path.clone();
                    key_path.push(entry.key.clone());
                    assert(entries@.contains(*sorted@[j as int]));
                    stack.push((key_path, &entry.value));
                    proof {
                        lemma_shown_further(prefix, path, entry.key@, key_path);
                        let i = choose|i: int| 0 <= i < entries@.len() && entries@[i] == *entry;
                        assert(well_formed(entries@[i].value));
                        assert(stack@.drop_last() =~= before);
                        assert(names[j as int] == entry.key@);
                        assert(children[j as int] == flattened(key_path@, entry.value@));
                        assert(children.skip(j as int).drop_first() =~= children.skip(j + 1));
                        assert(children.skip(j as int).first() == children[j as int]);
                        assert(pending(stack@) =~= children.skip(j as int).flatten() + pending(
                            rest,
                        ));
                        assert(owned.skip(j as int).remove(0) =~= owned.skip(j + 1));
                        lemma_entries_size_remove(owned.skip(j as int), 0);
                    }
                }
                proof {
                    assert(children.skip(0) =~= children);
                    assert(owned.skip(0) =~= owned);
                    assert(flattened(path@, value@) == children.flatten());
                    assert(pending(stack@) == pending(before));
                }
            },
            _ => {
                let value_copy = duplicate(value);
                let ghost leaf = (path@, value@);
                let ghost vals_before = config_vals@;
                config_vals.push(
                    AnnotatedValue { path, value: value_copy, source, is_overridden: false },
                );
                proof {
                    assert(flattened(leaf.0, leaf.1) == seq![leaf]);
                    let walked_before = walked;
                    walked = walked.push(leaf);
                    assert(walked + pending(stack@) =~= walked_before + pending(before));
                    assert(views(config_vals@) =~= views(vals_before).push(
                        annotated(source, leaf),
                    ));
                    assert(views(config_vals@) =~= views(old(config_vals)@) + walked.map_values(
                        |leaf: (Seq<Seq<char>>, ValueTree)| annotated(source, leaf),
                    ));
                }
            },
        }
    }
    proof {
        assert(walked =~= leaves);
    }
}

/// The mathematical values of a list of variables.
pub open spec fn views(values: Seq<AnnotatedValue>) -> Seq<AnnotatedTree> {
    values.map_values(|value: AnnotatedValue| value@)
}

/// The trees of the layers.
pub open spec fn layer_trees(layers: Seq<(ConfigSource, ConfigValue)>) -> Seq<
    (ConfigSource, ValueTree),
> {
    layers.map_values(|layer: (ConfigSource, ConfigValue)| (layer.0, layer.1@))
}

/// A tree overrides the variable at `path`: it does not leave it alone. A tree that
/// is not a table leaves nothing alone.
pub open spec fn overrides(tree: ValueTree, path: Seq<Seq<char>>) -> bool {
    !(tree is Table && leaves_alone(tree->Table_0, path))
}

/// A layer above the one at `n` overrides the variable at `path`.
pub open spec fn overridden_above(
    layers: Seq<(ConfigSource, ValueTree)>,
    n: int,
    path: Seq<Seq<char>>,
) -> bool {
    exists|m: int| n < m < layers.len() && overrides((#[trigger] layers[m]).1, path)
}

/// A variable of the layer at `n`, marked by whether a layer above overrides it.
pub open spec fn marked(
    layers: Seq<(ConfigSource, ValueTree)>,
    n: int,
    value: AnnotatedTree,
) -> AnnotatedTree {
    AnnotatedTree { is_overridden: overridden_above(layers, n, value.path), ..value }
}

/// The variables that the layer at `n` defines under a name, each marked by whether a
/// layer above overrides it.
pub open spec fn marked_values(
    layers: Seq<(ConfigSource, ValueTree)>,
    filter_prefix: Seq<Seq<char>>,
    n: int,
) -> Seq<AnnotatedTree> {
    layer_values(layers[n].0, layers[n].1, filter_prefix).map_values(
        |value: AnnotatedTree| marked(layers, n, value),
    )
}

/// The variables that the first `count` layers define under a name, layer by layer.
pub open spec fn resolved_of(
    layers: Seq<(ConfigSource, ValueTree)>,
    filter_prefix: Seq<Seq<char>>,
    count: int,
) -> Seq<AnnotatedTree>
    decreases count,
{
    if count <= 0 {
        Seq::empty()
    } else {
        resolved_of(layers, filter_prefix, count - 1) + marked_values(
            layers,
            filter_prefix,
            count - 1,
        )
    }
}

/// The variables that the layers define under a name, layer by layer, each marked by
/// whether a layer above overrides it.
pub open spec fn resolved(
    layers: Seq<(ConfigSource, ValueTree)>,
    filter_prefix: Seq<Seq<char>>,
) -> Seq<AnnotatedTree> {
    resolved_of(layers, filter_prefix, layers.len() as int)
}

/// Tells whether a value overrides the variable at `path`.
fn overrides_variable(value: &ConfigValue, path: &ConfigNamePathBuf) -> (b: bool)
    requires
        well_formed(*value),
    ensures
        b == overrides(value@, path@),
{
    let components = path.components();
    let mut current: &ConfigValue = value;
    let mut i: usize = 0;
    assert(path@.skip(0) =~= path@);
    while i < components.len()
        invariant
            i <= components.len(),
            names(components@) == path@,
            well_formed(*current),
            overrides(value@, path@) == overrides(current@, path@.skip(i as int)),
            i > 0 ==> i < components.len(),
        decreases components.len() - i,
    {
        let ghost rest = path@.skip(i as int);
        assert(rest[0] == components@[i as int].name@);
        assert(rest.drop_first() =~= path@.skip(i + 1));
        match current {
            ConfigValue::Table(entries) => match find_entry(entries, &components[i].name) {
                Some(child) => match child {
                    ConfigValue::Table(inner) => {
                        if i + 1 == components.len() {
                            proof {
                                lemma_entries_tree(inner@);
                                if inner@.len() > 0 {
                                    assert(entries_tree(inner@).contains_key(inner@[0].key@));
                                } else {
                                    assert(entries_tree(inner@).dom() =~= Set::empty());
                                }
                            }
                            return inner.len() > 0;
                        }
                        current = child;
                    },
                    _ => {
                        return true;
                    },
                },
                None => {
                    return false;
                },
            },
            _ => {
                return true;
            },
        }
        i += 1;
    }
    true
}

/// Tells whether a layer above the one at `n` overrides the variable at `path`.
fn is_overridden_above(
    layers: &Vec<(ConfigSource, ConfigValue)>,
    n: usize,
    path: &ConfigNamePathBuf,
) -> (b: bool)
    requires
        n < layers.len(),
        forall|i: int| 0 <= i < layers.len() ==> well_formed((#[trigger] layers@[i]).1),
    ensures
        b == overridden_above(layer_trees(layers@), n as int, path@),
{
    let ghost trees = layer_trees(layers@);
    let mut m: usize = n + 1;
    while m < layers.len()
        invariant
            n < m <= layers.len(),
            trees == layer_trees(layers@),
            forall|i: int| 0 <= i < layers.len() ==> well_formed((#[trigger] layers@[i]).1),
            forall|i: int| n < i < m ==> !overrides((#[trigger] trees[i]).1, path@),
        decreases layers.len() - m,
    {
        assert(well_formed(layers@[m as int].1));
        assert(trees[m as int].1 == layers@[m as int].1@);
        if overrides_variable(&layers[m].1, path) {
            return true;
        }
        m += 1;
    }
    false
}

/// Collects values under the given `filter_prefix` name recursively, from all
/// layers. The layers stand in order of precedence, the lowest first.
pub fn resolve_layer_values(
    layers: &Vec<(ConfigSource, ConfigValue)>,
    filter_prefix: &ConfigNamePathBuf,
) -> (config_vals: Vec<AnnotatedValue>)
    requires
        forall|i: int| 0 <= i < layers.len() ==> well_formed((#[trigger] layers@[i]).1),
    ensures
        views(config_vals@) == resolved(layer_trees(layers@), filter_prefix@),
        all_shown_below(*filter_prefix, config_vals@),
{
    let mut config_vals: Vec<AnnotatedValue> = Vec::new();
    let ghost trees = layer_trees(layers@);
    let mut i: usize = 0;
    assert(views(config_vals@) =~= Seq::empty());
    while i < layers.len()
        invariant
            i <= layers.len(),
            forall|j: int| 0 <= j < layers.len() ==> well_formed((#[trigger] layers@[j]).1),
            trees == layer_trees(layers@),
            views(config_vals@) == resolved_of(trees, filter_prefix@, i as int),
            all_shown_below(*filter_prefix, config_vals@),
        decreases layers.len() - i,
    {
        let ghost so_far = views(config_vals@);
        let ghost found = layer_values(trees[i as int].0, trees[i as int].1, filter_prefix@);
        let start = config_vals.len();
        assert(well_formed(layers@[i as int].1));
        match filter_prefix.lookup_value(&layers[i].1) {
            Some(top_value) => {
                let path = filter_prefix.clone();
                assert(all_shown_below(path, config_vals@)) by {
                    assert forall|j: int| 0 <= j < config_vals@.len() implies shown_below(
                        path,
                        (#[trigger] config_vals@[j]).path,
                    ) by {
                        assert(shown_below(*filter_prefix, config_vals@[j].path));
                    }
                }
                collect_values(layers[i].0, path, top_value, &mut config_vals);
                assert forall|j: int| 0 <= j < config_vals@.len() implies shown_below(
                    *filter_prefix,
                    (#[trigger] config_vals@[j]).path,
                ) by {
                    assert(shown_below(path, config_vals@[j].path));
                }
            },
            None => {
                assert(views(config_vals@) =~= so_far + found);
            },
        }
        assert(views(config_vals@) == so_far + found);
        assert(views(config_vals@).len() == config_vals@.len());
        let mut k: usize = start;
        while k < config_vals.len()
            invariant
                i < layers.len(),
                forall|j: int| 0 <= j < layers.len() ==> well_formed((#[trigger] layers@[j]).1),
                trees == layer_trees(layers@),
                start == so_far.len(),
                start <= k <= config_vals.len(),
                config_vals.len() == so_far.len() + found.len(),
                all_shown_below(*filter_prefix, config_vals@),
                forall|j: int| 0 <= j < start ==> #[trigger] views(config_vals@)[j] == so_far[j],
                forall|j: int|
                    start <= j < k ==> #[trigger] views(config_vals@)[j] == marked(
                        trees,
                        i as int,
                        found[j - start],
                    ),
                forall|j: int|
                    k <= j < config_vals.len() ==> #[trigger] views(config_vals@)[j] == found[j
                        - start],
            decreases config_vals.len() - k,
        {
            assert(views(config_vals@)[k as int] == config_vals@[k as int]@);
            let is_overridden = is_overridden_above(layers, i, &config_vals[k].path);
            let ghost before = config_vals@;
            config_vals[k].is_overridden = is_overridden;
            assert forall|j: int| 0 <= j < before.len() && j != k implies #[trigger] views(
                config_vals@,
            )[j] == views(before)[j] by {
                assert(config_vals@[j] == before[j]);
            }
            k += 1;
        }
        assert(views(config_vals@) =~= so_far + marked_values(trees, filter_prefix@, i as int));
        i += 1;
    }
    config_vals
}

/// A listed path is displayed as the prefix is, and each further name as a key of TOML.
pub proof fn law_listed_path_is_displayed_like_the_prefix(
    prefix: ConfigNamePathBuf,
    listed: Seq<AnnotatedValue>,
    k: int,
)
    requires
        all_shown_below(prefix, listed),
        0 <= k < listed.len(),
    ensures
        ({
            let path = listed[k].path;
            let n = prefix@.len() as int;
            &&& prefix@.len() <= path@.len()
            &&& path@.take(n) == prefix@
            &&& path.shown().len() == path@.len()
            &&& path.shown().take(n) == prefix.shown()
            &&& forall|i: int|
                n <= i < path@.len() ==> #[trigger] path.shown()[i] == key_text(path@[i])
        }),
{
    let path = listed[k].path;
    let n = prefix@.len() as int;
    assert(shown_below(prefix, path));
    lemma_as_many_shown(prefix);
    lemma_as_many_shown(path);
    assert(path@.take(n) =~= prefix@);
    assert(path.shown().take(n) =~= prefix.shown());
    assert forall|i: int| n <= i < path@.len() implies #[trigger] path.shown()[i] == key_text(
        path@[i],
    ) by {
        assert(path.shown()[i] == key_texts(path@.skip(n))[i - n]);
    }
}

} // verus!
