//! What the layers of a configuration say together.
use crate::name_path::lookup_tree;
use crate::path_name::{lemma_run_end, path_steps, root_of, run_end, CharClass, Step};
use crate::value::{held, overlaid, overlaid_all, overlaid_onto, overlaid_value, ValueTree};
use vstd::prelude::*;

verus! {

/// The table says nothing about the variable at `path`: it holds neither the
/// variable nor anything but tables on the way there.
pub open spec fn silent_on(table: Map<Seq<char>, ValueTree>, path: Seq<Seq<char>>) -> bool
    decreases path.len(),
{
    &&& path.len() > 0
    &&& table.contains_key(path[0]) ==> {
        &&& path.len() > 1
        &&& table[path[0]] is Table
        &&& silent_on(table[path[0]]->Table_0, path.drop_first())
    }
}

/// The table leaves the variable at `path` alone: it holds nothing but tables on the
/// way there, and in place of the variable at most an empty table.
pub open spec fn leaves_alone(table: Map<Seq<char>, ValueTree>, path: Seq<Seq<char>>) -> bool
    decreases path.len(),
{
    &&& path.len() > 0
    &&& table.contains_key(path[0]) ==> {
        &&& table[path[0]] is Table
        &&& if path.len() == 1 {
            table[path[0]]->Table_0.dom() =~= Set::empty()
        } else {
            leaves_alone(table[path[0]]->Table_0, path.drop_first())
        }
    }
}

/// A tree holds a variable at `path`: a value that is not a table.
pub open spec fn holds_variable(tree: ValueTree, path: Seq<Seq<char>>, value: ValueTree) -> bool {
    lookup_tree(tree, path) == Some(value) && !(value is Table)
}

/// Tables are merged name by name.
proof fn lemma_tables_merged(below: Map<Seq<char>, ValueTree>, above: Map<Seq<char>, ValueTree>)
    ensures
        overlaid_value(Some(ValueTree::Table(below)), ValueTree::Table(above)) == ValueTree::Table(
            overlaid(below, above),
        ),
{
    assert(overlaid_value(
        Some(ValueTree::Table(below)),
        ValueTree::Table(above),
    )->Table_0 =~= overlaid(below, above));
}

/// A path that a table is silent on leads nowhere in it.
proof fn lemma_silent_leads_nowhere(table: Map<Seq<char>, ValueTree>, path: Seq<Seq<char>>)
    requires
        silent_on(table, path),
    ensures
        lookup_tree(ValueTree::Table(table), path) is None,
    decreases path.len(),
{
    if table.contains_key(path[0]) {
        lemma_silent_leads_nowhere(table[path[0]]->Table_0, path.drop_first());
    }
}

/// A variable of the upper table is kept, whatever the lower one holds.
pub proof fn law_upper_variable_wins(
    below: Map<Seq<char>, ValueTree>,
    above: Map<Seq<char>, ValueTree>,
    path: Seq<Seq<char>>,
    value: ValueTree,
)
    requires
        holds_variable(ValueTree::Table(above), path, value),
    ensures
        holds_variable(ValueTree::Table(overlaid(below, above)), path, value),
    decreases path.len(),
{
    reveal_with_fuel(lookup_tree, 3);
    let name = path[0];
    if path.len() > 1 {
        let inner = above[name]->Table_0;
        assert(inner.contains_key(path.drop_first()[0]));
        match held(below, name) {
            Some(ValueTree::Table(lower)) => {
                lemma_tables_merged(lower, inner);
                law_upper_variable_wins(lower, inner, path.drop_first(), value);
            },
            _ => {},
        }
    }
}

/// Where the upper table is silent, what the lower one holds is kept.
pub proof fn law_lower_value_shows_through(
    below: Map<Seq<char>, ValueTree>,
    above: Map<Seq<char>, ValueTree>,
    path: Seq<Seq<char>>,
)
    requires
        silent_on(above, path),
    ensures
        lookup_tree(ValueTree::Table(overlaid(below, above)), path) == lookup_tree(
            ValueTree::Table(below),
            path,
        ),
    decreases path.len(),
{
    reveal_with_fuel(lookup_tree, 3);
    let name = path[0];
    let merged = overlaid(below, above);
    if above.contains_key(name) {
        let inner = above[name]->Table_0;
        lemma_silent_leads_nowhere(inner, path.drop_first());
        match held(below, name) {
            Some(ValueTree::Table(lower)) => {
                lemma_tables_merged(lower, inner);
                law_lower_value_shows_through(lower, inner, path.drop_first());
            },
            Some(other) => {
                assert(merged[name] == other || merged[name] == above[name]);
            },
            None => {
                assert(merged[name] == above[name]);
            },
        }
    } else {
        assert(held(merged, name) == held(below, name));
    }
}

/// A variable of the lower table is kept if the upper one leaves it alone.
pub proof fn law_lower_variable_is_kept(
    below: Map<Seq<char>, ValueTree>,
    above: Map<Seq<char>, ValueTree>,
    path: Seq<Seq<char>>,
    value: ValueTree,
)
    requires
        holds_variable(ValueTree::Table(below), path, value),
        leaves_alone(above, path),
    ensures
        holds_variable(ValueTree::Table(overlaid(below, above)), path, value),
    decreases path.len(),
{
    reveal_with_fuel(lookup_tree, 3);
    let name = path[0];
    if above.contains_key(name) && path.len() > 1 {
        let lower = below[name]->Table_0;
        let inner = above[name]->Table_0;
        lemma_tables_merged(lower, inner);
        law_lower_variable_is_kept(lower, inner, path.drop_first(), value);
    }
}

/// A table that holds no variable at the end of a path either leaves it alone or
/// holds something on the way there.
proof fn lemma_kept_only_if_left_alone(
    below: Map<Seq<char>, ValueTree>,
    above: Map<Seq<char>, ValueTree>,
    path: Seq<Seq<char>>,
    value: ValueTree,
)
    requires
        holds_variable(ValueTree::Table(overlaid(below, above)), path, value),
    ensures
        holds_variable(ValueTree::Table(above), path, value) || (holds_variable(
            ValueTree::Table(below),
            path,
            value,
        ) && leaves_alone(above, path)),
    decreases path.len(),
{
    reveal_with_fuel(lookup_tree, 3);
    let name = path[0];
    if above.contains_key(name) {
        match (held(below, name), above[name]) {
            (Some(ValueTree::Table(lower)), ValueTree::Table(inner)) => {
                lemma_tables_merged(lower, inner);
                if path.len() > 1 {
                    lemma_kept_only_if_left_alone(lower, inner, path.drop_first(), value);
                }
            },
            _ => {},
        }
    }
}

/// A variable of the merged table comes from the upper table, or from the lower
/// one if the upper one leaves it alone.
pub proof fn law_variable_comes_from_one_table(
    below: Map<Seq<char>, ValueTree>,
    above: Map<Seq<char>, ValueTree>,
    path: Seq<Seq<char>>,
    value: ValueTree,
)
    ensures
        holds_variable(ValueTree::Table(overlaid(below, above)), path, value) <==> (holds_variable(
            ValueTree::Table(above),
            path,
            value,
        ) || (holds_variable(ValueTree::Table(below), path, value) && leaves_alone(above, path))),
{
    if holds_variable(ValueTree::Table(overlaid(below, above)), path, value) {
        lemma_kept_only_if_left_alone(below, above, path, value);
    }
    if holds_variable(ValueTree::Table(above), path, value) {
        law_upper_variable_wins(below, above, path, value);
    } else if holds_variable(ValueTree::Table(below), path, value) && leaves_alone(above, path) {
        law_lower_variable_is_kept(below, above, path, value);
    }
}

/// An empty table changes nothing, and over an empty table everything is kept.
pub proof fn law_empty_table_is_neutral(table: Map<Seq<char>, ValueTree>)
    ensures
        overlaid(table, Map::empty()) == table,
        overlaid(Map::empty(), table) == table,
{
    assert(overlaid(table, Map::empty()) =~= table);
    assert(overlaid(Map::empty(), table) =~= table);
}

/// Laying a value over itself changes nothing.
proof fn lemma_overlaid_value_idempotent(value: ValueTree)
    ensures
        overlaid_value(Some(value), value) == value,
    decreases value,
{
    if let ValueTree::Table(table) = value {
        assert forall|name: Seq<char>| #[trigger] table.contains_key(name) implies overlaid_value(
            Some(table[name]),
            table[name],
        ) == table[name] by {
            lemma_overlaid_value_idempotent(table[name]);
        }
        assert(overlaid_value(Some(value), value)->Table_0 =~= table);
    }
}

/// Laying a table over itself changes nothing.
pub proof fn law_overlay_is_idempotent(table: Map<Seq<char>, ValueTree>)
    ensures
        overlaid(table, table) == table,
{
    lemma_overlaid_value_idempotent(ValueTree::Table(table));
    lemma_tables_merged(table, table);
}

/// Of all tables that hold a variable, the highest one wins, if all tables above it
/// leave the variable alone, whatever lies below.
pub proof fn law_highest_layer_wins(
    base: Map<Seq<char>, ValueTree>,
    tables: Seq<Map<Seq<char>, ValueTree>>,
    i: int,
    path: Seq<Seq<char>>,
    value: ValueTree,
)
    requires
        0 <= i < tables.len(),
        holds_variable(ValueTree::Table(tables[i]), path, value),
        forall|j: int| i < j < tables.len() ==> leaves_alone(#[trigger] tables[j], path),
    ensures
        holds_variable(ValueTree::Table(overlaid_onto(base, tables)), path, value),
    decreases tables.len(),
{
    let front = tables.drop_last();
    if i == tables.len() - 1 {
        law_upper_variable_wins(overlaid_onto(base, front), tables.last(), path, value);
    } else {
        assert forall|j: int| i < j < front.len() implies leaves_alone(#[trigger] front[j], path) by {
            assert(front[j] == tables[j]);
        }
        law_highest_layer_wins(base, front, i, path, value);
        assert(leaves_alone(tables[tables.len() - 1], path));
        law_lower_variable_is_kept(overlaid_onto(base, front), tables.last(), path, value);
    }
}

/// Every variable of the merged layers comes from a layer, and all layers above that
/// one leave the variable alone.
pub proof fn law_merged_variable_comes_from_a_layer(
    tables: Seq<Map<Seq<char>, ValueTree>>,
    path: Seq<Seq<char>>,
    value: ValueTree,
) -> (i: int)
    requires
        holds_variable(ValueTree::Table(overlaid_all(tables)), path, value),
    ensures
        0 <= i < tables.len(),
        holds_variable(ValueTree::Table(tables[i]), path, value),
        forall|j: int| i < j < tables.len() ==> leaves_alone(#[trigger] tables[j], path),
    decreases tables.len(),
{
    if tables.len() == 0 {
        assert(lookup_tree(ValueTree::Table(Map::empty()), path) != Some(value));
        0
    } else {
        let front = tables.drop_last();
        law_variable_comes_from_one_table(overlaid_all(front), tables.last(), path, value);
        if holds_variable(ValueTree::Table(tables.last()), path, value) {
            tables.len() - 1
        } else {
            let i = law_merged_variable_comes_from_a_layer(front, path, value);
            assert forall|j: int| i < j < tables.len() implies leaves_alone(
                #[trigger] tables[j],
                path,
            ) by {
                if j < front.len() {
                    assert(front[j] == tables[j]);
                }
            }
            i
        }
    }
}

/// Every name of the table leads to its own entry.
pub open spec fn settled(table: Map<Seq<char>, ValueTree>) -> bool {
    forall|name: Seq<char>| #[trigger] table.contains_key(name) ==> root_of(name) == name
}

/// All tables are settled.
pub open spec fn all_settled(tables: Seq<Map<Seq<char>, ValueTree>>) -> bool {
    forall|i: int| 0 <= i < tables.len() ==> settled(#[trigger] tables[i])
}

/// From the table at `start` on, no name but `name` itself leads to the entry `name`.
pub open spec fn untouched(
    tables: Seq<Map<Seq<char>, ValueTree>>,
    start: int,
    name: Seq<char>,
) -> bool {
    &&& root_of(name) == name
    &&& forall|i: int, other: Seq<char>|
        start <= i < tables.len() && #[trigger] tables[i].contains_key(other) && root_of(other)
            == name ==> other == name
}

/// What `merged` holds under a name comes of laying the tables from `start` on over
/// whatever was there.
pub open spec fn merged_from(
    tables: Seq<Map<Seq<char>, ValueTree>>,
    start: int,
    merged: Map<Seq<char>, ValueTree>,
    name: Seq<char>,
) -> bool {
    exists|base: Map<Seq<char>, ValueTree>|
        held(merged, name) == held(#[trigger] overlaid_onto(base, tables.skip(start)), name)
}

/// An entry of `merged` that no other name leads to is that of the tables laid over each
/// other. From a table on that no other name leads to an entry any more, the tables are
/// laid over what came of those below. All names of `merged` lead to their own entries.
pub open spec fn merged_tables(
    tables: Seq<Map<Seq<char>, ValueTree>>,
    merged: Map<Seq<char>, ValueTree>,
) -> bool {
    &&& settled(merged)
    &&& forall|name: Seq<char>|
        #![trigger held(merged, name)]
        #![trigger untouched(tables, 0, name)]
        untouched(tables, 0, name) ==> held(merged, name) == held(overlaid_all(tables), name)
    &&& forall|start: int, name: Seq<char>|
        0 <= start <= tables.len() && #[trigger] untouched(tables, start, name) ==> merged_from(
            tables,
            start,
            merged,
            name,
        )
}

/// What stands in place of `below` once a value is set at the end of the steps behind
/// it. A step into a table makes the table if there is none. A step into an array makes
/// the array if there is none, counts from the end if it is below zero, and extends the
/// array if it ends before. What stands at the end is laid over in a table, and replaced
/// in an array.
pub open spec fn path_set(below: Option<ValueTree>, steps: Seq<Step>, value: ValueTree) -> ValueTree
    decreases steps.len(),
{
    if steps.len() == 0 {
        overlaid_value(below, value)
    } else {
        let rest = steps.drop_first();
        match steps[0] {
            Step::Name(name) => {
                let table = match below {
                    Some(ValueTree::Table(table)) => table,
                    _ => Map::empty(),
                };
                ValueTree::Table(table.insert(name, path_set(held(table, name), rest, value)))
            },
            Step::Index(index) => {
                let values = match below {
                    Some(ValueTree::Array(values)) => values,
                    _ => Seq::empty(),
                };
                let place = if index < 0 {
                    values.len() + index
                } else {
                    index
                };
                let missing = if place < values.len() {
                    0
                } else {
                    place + 1 - values.len()
                };
                let extended = values + Seq::new(missing as nat, |i: int| ValueTree::Nil);
                let set = if rest.len() == 0 {
                    value
                } else {
                    path_set(Some(extended[place]), rest, value)
                };
                ValueTree::Array(extended.update(place, set))
            },
        }
    }
}

/// The table holds the name, which leads to the entry `root`.
pub open spec fn leads(table: Map<Seq<char>, ValueTree>, name: Seq<char>, root: Seq<char>) -> bool {
    table.contains_key(name) && root_of(name) == root
}

/// In each table from `start` on, at most one name leads to the entry `root`.
pub open spec fn clear(
    tables: Seq<Map<Seq<char>, ValueTree>>,
    start: int,
    root: Seq<char>,
) -> bool {
    &&& root_of(root) == root
    &&& forall|i: int, a: Seq<char>, b: Seq<char>|
        start <= i < tables.len() && #[trigger] leads(tables[i], a, root) && #[trigger] leads(
            tables[i],
            b,
            root,
        ) ==> a == b
}

/// The steps that a name takes behind its identifier. A name that does not read as a
/// path takes none.
pub open spec fn steps_of(name: Seq<char>) -> Seq<Step> {
    match path_steps(name) {
        Some(steps) => steps,
        None => Seq::empty(),
    }
}

/// What becomes of the entry `root` by the one name of a table that leads to it.
pub open spec fn entry_over(
    below: Option<ValueTree>,
    table: Map<Seq<char>, ValueTree>,
    root: Seq<char>,
) -> Option<ValueTree> {
    if exists|name: Seq<char>| leads(table, name, root) {
        let name = choose|name: Seq<char>| leads(table, name, root);
        Some(path_set(below, steps_of(name), table[name]))
    } else {
        below
    }
}

/// What becomes of the entry `root`, which was `below`, by all tables, the first one
/// lowest.
pub open spec fn entry_onto(
    below: Option<ValueTree>,
    tables: Seq<Map<Seq<char>, ValueTree>>,
    root: Seq<char>,
) -> Option<ValueTree>
    decreases tables.len(),
{
    if tables.len() == 0 {
        below
    } else {
        entry_over(entry_onto(below, tables.drop_last(), root), tables.last(), root)
    }
}

/// What `merged` holds in the entry `root` is what the tables from `start` on make of
/// whatever was there.
pub open spec fn entry_from(
    tables: Seq<Map<Seq<char>, ValueTree>>,
    start: int,
    merged: Map<Seq<char>, ValueTree>,
    root: Seq<char>,
) -> bool {
    exists|below: Option<ValueTree>|
        held(merged, root) == #[trigger] entry_onto(below, tables.skip(start), root)
}

/// The table once a value is set where a name leads to.
pub open spec fn name_set(
    table: Map<Seq<char>, ValueTree>,
    name: Seq<char>,
    value: ValueTree,
) -> Map<Seq<char>, ValueTree> {
    let root = root_of(name);
    table.insert(root, path_set(held(table, root), steps_of(name), value))
}

/// The table once what `above` holds under the names of `order` is set where they lead
/// to, name by name.
pub open spec fn names_set(
    table: Map<Seq<char>, ValueTree>,
    above: Map<Seq<char>, ValueTree>,
    order: Seq<Seq<char>>,
) -> Map<Seq<char>, ValueTree>
    decreases order.len(),
{
    if order.len() == 0 {
        table
    } else {
        name_set(names_set(table, above, order.drop_last()), order.last(), above[order.last()])
    }
}

/// `order` holds every name of the table, once.
pub open spec fn lists(order: Seq<Seq<char>>, table: Map<Seq<char>, ValueTree>) -> bool {
    &&& order.no_duplicates()
    &&& forall|name: Seq<char>| #[trigger] order.contains(name) <==> table.contains_key(name)
}

/// `merged` is the table `below` once all that `above` holds is set where its names lead
/// to, in some order.
pub open spec fn set_over(
    below: Map<Seq<char>, ValueTree>,
    above: Map<Seq<char>, ValueTree>,
    merged: Map<Seq<char>, ValueTree>,
) -> bool {
    exists|order: Seq<Seq<char>>| #[trigger]
        lists(order, above) && merged == names_set(below, above, order)
}

/// `merged` is what the `config` crate makes of tables, the first one lowest: table by
/// table, all that a table holds is set where its names lead to, in some order.
pub open spec fn set_over_all(
    tables: Seq<Map<Seq<char>, ValueTree>>,
    merged: Map<Seq<char>, ValueTree>,
) -> bool
    decreases tables.len(),
{
    if tables.len() == 0 {
        merged == Map::<Seq<char>, ValueTree>::empty()
    } else {
        exists|below: Map<Seq<char>, ValueTree>|
            set_over_all(tables.drop_last(), below) && #[trigger] set_over(
                below,
                tables.last(),
                merged,
            )
    }
}

/// An entry of `merged` that at most one name of each table leads to is what these names
/// make of it. The same goes for the tables from some table on, whatever those below made
/// of the entry. All names of `merged` lead to their own entries.
pub open spec fn merged_entries(
    tables: Seq<Map<Seq<char>, ValueTree>>,
    merged: Map<Seq<char>, ValueTree>,
) -> bool {
    &&& settled(merged)
    &&& forall|root: Seq<char>|
        #![trigger clear(tables, 0, root)]
        #![trigger held(merged, root)]
        clear(tables, 0, root) ==> held(merged, root) == entry_onto(None, tables, root)
    &&& forall|start: int, root: Seq<char>|
        0 <= start <= tables.len() && #[trigger] clear(tables, start, root) ==> entry_from(
            tables,
            start,
            merged,
            root,
        )
}

/// Names that do not lead to an entry leave it as it is.
proof fn lemma_entry_kept(
    table: Map<Seq<char>, ValueTree>,
    above: Map<Seq<char>, ValueTree>,
    order: Seq<Seq<char>>,
    root: Seq<char>,
)
    requires
        forall|i: int| 0 <= i < order.len() ==> root_of(#[trigger] order[i]) != root,
    ensures
        held(names_set(table, above, order), root) == held(table, root),
    decreases order.len(),
{
    if order.len() > 0 {
        let front = order.drop_last();
        assert(forall|i: int| 0 <= i < front.len() ==> #[trigger] front[i] == order[i]);
        lemma_entry_kept(table, above, front, root);
        assert(root_of(order[order.len() - 1]) != root);
    }
}

/// An entry that one name of the order leads to is what this name makes of it.
proof fn lemma_entry_of_one(
    table: Map<Seq<char>, ValueTree>,
    above: Map<Seq<char>, ValueTree>,
    order: Seq<Seq<char>>,
    root: Seq<char>,
    place: int,
)
    requires
        0 <= place < order.len(),
        root_of(order[place]) == root,
        forall|i: int|
            0 <= i < order.len() && i != place ==> root_of(#[trigger] order[i]) != root,
    ensures
        held(names_set(table, above, order), root) == Some(
            path_set(held(table, root), steps_of(order[place]), above[order[place]]),
        ),
    decreases order.len(),
{
    let front = order.drop_last();
    assert(forall|i: int| 0 <= i < front.len() ==> #[trigger] front[i] == order[i]);
    if place == order.len() - 1 {
        lemma_entry_kept(table, above, front, root);
    } else {
        lemma_entry_of_one(table, above, front, root, place);
        assert(root_of(order[order.len() - 1]) != root);
    }
}

/// An entry that at most one name of a table leads to is what this name makes of it,
/// whatever the order.
proof fn lemma_entry_set(
    below: Map<Seq<char>, ValueTree>,
    above: Map<Seq<char>, ValueTree>,
    merged: Map<Seq<char>, ValueTree>,
    root: Seq<char>,
)
    requires
        set_over(below, above, merged),
        forall|a: Seq<char>, b: Seq<char>| #[trigger]
            leads(above, a, root) && #[trigger] leads(above, b, root) ==> a == b,
    ensures
        held(merged, root) == entry_over(held(below, root), above, root),
{
    let order = choose|order: Seq<Seq<char>>| #[trigger]
        lists(order, above) && merged == names_set(below, above, order);
    if exists|name: Seq<char>| leads(above, name, root) {
        let name = choose|name: Seq<char>| leads(above, name, root);
        assert(order.contains(name));
        let place = choose|place: int| 0 <= place < order.len() && order[place] == name;
        assert forall|i: int| 0 <= i < order.len() && i != place implies root_of(
            #[trigger] order[i],
        ) != root by {
            assert(order.contains(order[i]));
            if root_of(order[i]) == root {
                assert(leads(above, order[i], root));
            }
        }
        lemma_entry_of_one(below, above, order, root, place);
    } else {
        assert forall|i: int| 0 <= i < order.len() implies root_of(#[trigger] order[i]) != root by {
            assert(order.contains(order[i]));
            assert(!leads(above, order[i], root));
        }
        lemma_entry_kept(below, above, order, root);
    }
}

/// What the tables from `start` on make of an entry that at most one name of each of
/// them leads to. Below the first table there is nothing.
proof fn lemma_entry_from(
    tables: Seq<Map<Seq<char>, ValueTree>>,
    start: int,
    merged: Map<Seq<char>, ValueTree>,
    root: Seq<char>,
) -> (below: Option<ValueTree>)
    requires
        set_over_all(tables, merged),
        0 <= start <= tables.len(),
        clear(tables, start, root),
    ensures
        held(merged, root) == entry_onto(below, tables.skip(start), root),
        start == 0 ==> below is None,
    decreases tables.len(),
{
    let upper = tables.skip(start);
    if start == tables.len() {
        held(merged, root)
    } else {
        let front = tables.drop_last();
        let lower = choose|lower: Map<Seq<char>, ValueTree>|
            set_over_all(front, lower) && #[trigger] set_over(lower, tables.last(), merged);
        assert forall|i: int, a: Seq<char>, b: Seq<char>|
            start <= i < front.len() && #[trigger] leads(front[i], a, root) && #[trigger] leads(
                front[i],
                b,
                root,
            ) implies a == b by {
            assert(leads(tables[i], a, root) && leads(tables[i], b, root));
        }
        let below = lemma_entry_from(front, start, lower, root);
        assert forall|a: Seq<char>, b: Seq<char>| #[trigger]
            leads(tables.last(), a, root) && #[trigger] leads(
                tables.last(),
                b,
                root,
            ) implies a == b by {
            let last = tables.len() - 1;
            assert(leads(tables[last], a, root) && leads(tables[last], b, root));
        }
        lemma_entry_set(lower, tables.last(), merged, root);
        assert(upper.drop_last() =~= front.skip(start));
        below
    }
}

/// In whatever order the names of each table were set, an entry that at most one name of
/// each table leads to is what these names make of it.
pub proof fn law_order_of_names_does_not_matter(
    tables: Seq<Map<Seq<char>, ValueTree>>,
    merged: Map<Seq<char>, ValueTree>,
)
    requires
        settled(merged),
        set_over_all(tables, merged),
    ensures
        merged_entries(tables, merged),
{
    assert forall|root: Seq<char>|
        #![trigger clear(tables, 0, root)]
        #![trigger held(merged, root)]
        clear(tables, 0, root) implies held(merged, root) == entry_onto(None, tables, root) by {
        let below = lemma_entry_from(tables, 0, merged, root);
        assert(tables.skip(0) =~= tables);
    }
    assert forall|start: int, root: Seq<char>|
        0 <= start <= tables.len() && #[trigger] clear(tables, start, root) implies entry_from(
        tables,
        start,
        merged,
        root,
    ) by {
        let below = lemma_entry_from(tables, start, merged, root);
    }
}

/// An entry that no other name leads to is that of the tables laid over each other.
proof fn lemma_entry_overlaid(
    base: Map<Seq<char>, ValueTree>,
    tables: Seq<Map<Seq<char>, ValueTree>>,
    name: Seq<char>,
)
    requires
        untouched(tables, 0, name),
    ensures
        entry_onto(held(base, name), tables, name) == held(overlaid_onto(base, tables), name),
    decreases tables.len(),
{
    if tables.len() > 0 {
        let front = tables.drop_last();
        let last = tables.last();
        assert forall|i: int, other: Seq<char>|
            0 <= i < front.len() && #[trigger] front[i].contains_key(other) && root_of(other)
                == name implies other == name by {
            assert(tables[i].contains_key(other));
        }
        lemma_entry_overlaid(base, front, name);
        lemma_no_steps(name);
        assert forall|other: Seq<char>| #[trigger] leads(last, other, name) implies other == name by {
            assert(tables[tables.len() - 1].contains_key(other));
        }
        if last.contains_key(name) {
            assert(leads(last, name, name));
        }
    }
}

/// A name that leads to its own entry takes no steps.
proof fn lemma_no_steps(name: Seq<char>)
    requires
        root_of(name) == name,
    ensures
        steps_of(name) == Seq::<Step>::empty(),
{
    let end = run_end(name, 0, CharClass::Ident);
    lemma_run_end(name, 0, CharClass::Ident);
    if path_steps(name) is Some {
        assert(name.take(end).len() == end);
        assert(steps_of(name) =~= Seq::empty());
    }
}

/// Where the names of tables lead to their own entries, the tables are laid over each
/// other.
pub proof fn lemma_merged_tables(
    tables: Seq<Map<Seq<char>, ValueTree>>,
    merged: Map<Seq<char>, ValueTree>,
)
    requires
        merged_entries(tables, merged),
    ensures
        merged_tables(tables, merged),
{
    assert forall|start: int, name: Seq<char>|
        0 <= start <= tables.len() && #[trigger] untouched(tables, start, name) implies clear(
        tables,
        start,
        name,
    ) && untouched(tables.skip(start), 0, name) by {
        assert forall|i: int, a: Seq<char>, b: Seq<char>|
            start <= i < tables.len() && #[trigger] leads(tables[i], a, name) && #[trigger] leads(
                tables[i],
                b,
                name,
            ) implies a == b by {
            assert(tables[i].contains_key(a) && tables[i].contains_key(b));
        }
        let upper = tables.skip(start);
        assert forall|i: int, other: Seq<char>|
            0 <= i < upper.len() && #[trigger] upper[i].contains_key(other) && root_of(other)
                == name implies other == name by {
            assert(tables[start + i].contains_key(other));
        }
    }
    assert forall|name: Seq<char>|
        #![trigger held(merged, name)]
        #![trigger untouched(tables, 0, name)]
        untouched(tables, 0, name) implies held(merged, name) == held(
        overlaid_all(tables),
        name,
    ) by {
        assert(clear(tables, 0, name));
        lemma_entry_overlaid(Map::empty(), tables, name);
    }
    assert forall|start: int, name: Seq<char>|
        0 <= start <= tables.len() && #[trigger] untouched(tables, start, name) implies merged_from(
        tables,
        start,
        merged,
        name,
    ) by {
        let upper = tables.skip(start);
        assert(entry_from(tables, start, merged, name));
        let below = choose|below: Option<ValueTree>|
            held(merged, name) == #[trigger] entry_onto(below, upper, name);
        let base = match below {
            Some(value) => Map::<Seq<char>, ValueTree>::empty().insert(name, value),
            None => Map::empty(),
        };
        assert(held(base, name) == below);
        lemma_entry_overlaid(base, upper, name);
        assert(held(merged, name) == held(overlaid_onto(base, upper), name));
    }
}

/// Tables whose names all lead to their own entries are laid over each other.
pub proof fn law_settled_tables_are_overlaid(
    tables: Seq<Map<Seq<char>, ValueTree>>,
    merged: Map<Seq<char>, ValueTree>,
)
    requires
        merged_tables(tables, merged),
        all_settled(tables),
    ensures
        merged == overlaid_all(tables),
{
    let expected = overlaid_all(tables);
    lemma_overlaid_settled(tables);
    assert forall|name: Seq<char>| held(merged, name) == held(expected, name) by {
        if root_of(name) == name {
            assert(untouched(tables, 0, name));
        } else {
            assert(!merged.contains_key(name));
            assert(!expected.contains_key(name));
        }
    }
    assert(merged =~= expected) by {
        assert forall|name: Seq<char>| merged.contains_key(name) == expected.contains_key(name) by {
            assert(held(merged, name) == held(expected, name));
        }
        assert forall|name: Seq<char>| #[trigger]
            merged.contains_key(name) implies merged[name] == expected[name] by {
            assert(held(merged, name) == held(expected, name));
        }
    }
}

proof fn lemma_overlaid_settled(tables: Seq<Map<Seq<char>, ValueTree>>)
    requires
        all_settled(tables),
    ensures
        settled(overlaid_all(tables)),
    decreases tables.len(),
{
    if tables.len() > 0 {
        let front = tables.drop_last();
        assert(forall|i: int| 0 <= i < front.len() ==> #[trigger] front[i] == tables[i]);
        lemma_overlaid_settled(front);
        assert(settled(tables[tables.len() - 1]));
    }
}

/// What a path leads to goes by the entry of its first name.
pub proof fn lemma_lookup_by_entry(
    a: Map<Seq<char>, ValueTree>,
    b: Map<Seq<char>, ValueTree>,
    path: Seq<Seq<char>>,
    value: ValueTree,
)
    requires
        path.len() > 0,
        held(a, path[0]) == held(b, path[0]),
    ensures
        holds_variable(ValueTree::Table(a), path, value) == holds_variable(
            ValueTree::Table(b),
            path,
            value,
        ),
{
}

/// A variable of a table holds in what is made of all tables, if all tables above
/// leave it alone and no other name leads to its entry from the table on. What lies
/// below does not matter.
pub proof fn law_highest_table_wins(
    tables: Seq<Map<Seq<char>, ValueTree>>,
    merged: Map<Seq<char>, ValueTree>,
    i: int,
    path: Seq<Seq<char>>,
    value: ValueTree,
)
    requires
        merged_tables(tables, merged),
        0 <= i < tables.len(),
        holds_variable(ValueTree::Table(tables[i]), path, value),
        untouched(tables, i, path[0]),
        forall|j: int| i < j < tables.len() ==> leaves_alone(#[trigger] tables[j], path),
    ensures
        holds_variable(ValueTree::Table(merged), path, value),
{
    let upper = tables.skip(i);
    assert(merged_from(tables, i, merged, path[0]));
    let base = choose|base: Map<Seq<char>, ValueTree>|
        held(merged, path[0]) == held(#[trigger] overlaid_onto(base, upper), path[0]);
    assert forall|j: int| 0 < j < upper.len() implies leaves_alone(#[trigger] upper[j], path) by {
        assert(upper[j] == tables[i + j]);
    }
    law_highest_layer_wins(base, upper, 0, path, value);
    lemma_lookup_by_entry(merged, overlaid_onto(base, upper), path, value);
}

/// A variable of what is made of all tables comes from a table, and all tables above
/// leave it alone, if no other name leads to its entry.
pub proof fn law_merged_variable_comes_from_a_table(
    tables: Seq<Map<Seq<char>, ValueTree>>,
    merged: Map<Seq<char>, ValueTree>,
    path: Seq<Seq<char>>,
    value: ValueTree,
) -> (i: int)
    requires
        merged_tables(tables, merged),
        holds_variable(ValueTree::Table(merged), path, value),
        untouched(tables, 0, path[0]),
    ensures
        0 <= i < tables.len(),
        holds_variable(ValueTree::Table(tables[i]), path, value),
        forall|j: int| i < j < tables.len() ==> leaves_alone(#[trigger] tables[j], path),
{
    assert(path.len() > 0);
    lemma_lookup_by_entry(merged, overlaid_all(tables), path, value);
    law_merged_variable_comes_from_a_layer(tables, path, value)
}

/// The tree holds nothing on the way to the variable at `path` but tables, and in place
/// of the variable at most a table without names.
#[verifier::opaque]
pub open spec fn says_nothing_at(tree: ValueTree, path: Seq<Seq<char>>) -> bool {
    &&& tree is Table
    &&& path.len() > 0
    &&& forall|n: int|
        0 < n <= path.len() ==> (lookup_tree(tree, #[trigger] path.take(n)) matches Some(value)
            ==> value is Table && (n == path.len() ==> forall|name: Seq<char>| !(
            #[trigger] value->Table_0.contains_key(name))))
}

/// A table leaves a variable alone if and only if it holds nothing but tables on the way
/// to it, and nothing but a table without names in its place.
pub proof fn law_table_without_names_leaves_a_variable_alone(
    table: Map<Seq<char>, ValueTree>,
    path: Seq<Seq<char>>,
)
    ensures
        leaves_alone(table, path) == says_nothing_at(ValueTree::Table(table), path),
    decreases path.len(),
{
    reveal(says_nothing_at);
    let tree = ValueTree::Table(table);
    if path.len() > 0 {
        let name = path[0];
        assert(path.take(1)[0] == name);
        assert(path.take(1).drop_first() =~= Seq::empty());
        reveal_with_fuel(lookup_tree, 2);
        assert(lookup_tree(tree, path.take(1)) == held(table, name));
        if table.contains_key(name) {
            let value = table[name];
            if value is Table {
                let inner = value->Table_0;
                if path.len() == 1 {
                    if inner.dom() =~= Set::empty() {
                        assert forall|other: Seq<char>| !(#[trigger] inner.contains_key(other)) by {
                            assert(!inner.dom().contains(other));
                        }
                        assert(says_nothing_at(tree, path));
                    } else {
                        let other = choose|other: Seq<char>| inner.dom().contains(other);
                        assert(inner.contains_key(other));
                    }
                } else {
                    let rest = path.drop_first();
                    law_table_without_names_leaves_a_variable_alone(inner, rest);
                    assert forall|n: int| 1 < n <= path.len() implies lookup_tree(
                        tree,
                        #[trigger] path.take(n),
                    ) == lookup_tree(value, rest.take(n - 1)) by {
                        assert(path.take(n).drop_first() =~= rest.take(n - 1));
                        assert(path.take(n)[0] == name);
                    }
                    if says_nothing_at(value, rest) {
                        assert forall|n: int| 0 < n <= path.len() implies (lookup_tree(
                            tree,
                            #[trigger] path.take(n),
                        ) matches Some(value) ==> value is Table && (n == path.len() ==> forall|
                            name: Seq<char>,
                        | !(#[trigger] value->Table_0.contains_key(name)))) by {
                            if n > 1 {
                                assert(rest.take(n - 1).len() == n - 1);
                            }
                        }
                    }
                    if says_nothing_at(tree, path) {
                        assert forall|n: int| 0 < n <= rest.len() implies (lookup_tree(
                            value,
                            #[trigger] rest.take(n),
                        ) matches Some(value) ==> value is Table && (n == rest.len() ==> forall|
                            name: Seq<char>,
                        | !(#[trigger] value->Table_0.contains_key(name)))) by {
                            assert(path.take(n + 1).len() == n + 1);
                        }
                    }
                }
            } else {
                assert(!leaves_alone(table, path));
            }
        } else {
            assert forall|n: int| 0 < n <= path.len() implies lookup_tree(
                tree,
                #[trigger] path.take(n),
            ) is None by {
                assert(path.take(n)[0] == name);
            }
        }
    }
}

/// Tables that are laid over each other hold a variable if and only if a table holds it
/// and all tables behind that one say nothing about it.
pub proof fn law_order_of_tables_decides(
    tables: Seq<Map<Seq<char>, ValueTree>>,
    path: Seq<Seq<char>>,
    value: ValueTree,
)
    ensures
        holds_variable(ValueTree::Table(overlaid_all(tables)), path, value) <==> exists|i: int|
            {
                &&& 0 <= i < tables.len()
                &&& #[trigger] holds_variable(ValueTree::Table(tables[i]), path, value)
                &&& forall|j: int|
                    i < j < tables.len() ==> #[trigger] says_nothing_at(
                        ValueTree::Table(tables[j]),
                        path,
                    )
            },
{
    assert forall|j: int| 0 <= j < tables.len() implies leaves_alone(#[trigger] tables[j], path)
        == says_nothing_at(ValueTree::Table(tables[j]), path) by {
        law_table_without_names_leaves_a_variable_alone(tables[j], path);
    }
    if holds_variable(ValueTree::Table(overlaid_all(tables)), path, value) {
        let i = law_merged_variable_comes_from_a_layer(tables, path, value);
        assert(holds_variable(ValueTree::Table(tables[i]), path, value));
    }
    if exists|i: int|
        {
            &&& 0 <= i < tables.len()
            &&& #[trigger] holds_variable(ValueTree::Table(tables[i]), path, value)
            &&& forall|j: int|
                i < j < tables.len() ==> #[trigger] says_nothing_at(
                        ValueTree::Table(tables[j]),
                        path,
                    )
        } {
        let i = choose|i: int|
            {
                &&& 0 <= i < tables.len()
                &&& #[trigger] holds_variable(ValueTree::Table(tables[i]), path, value)
                &&& forall|j: int|
                    i < j < tables.len() ==> #[trigger] says_nothing_at(
                        ValueTree::Table(tables[j]),
                        path,
                    )
            };
        law_highest_layer_wins(Map::empty(), tables, i, path, value);
    }
}

} // verus!
