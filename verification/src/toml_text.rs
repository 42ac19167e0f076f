//! TOML texts that can be merged.
use crate::config_crate::{
    all_settable, all_tables, buildable, config_tree, first_error, foreign_error, in_reach,
    mergeable, merges, read_config_table, settable, stack_overrides, stack_tables, steps_in_range,
    tables_of, toml_names, toml_table, ConfigStack, TableResult, Variables,
};
use crate::error::{ConfigFailure, ConfigFailureText};
use crate::name_path::{find_entry, texts};
use crate::overlay::{clear, entry_onto, leads, set_over_all};
use crate::path_name::{
    find_root, is_wild_name, law_name_without_bracket_has_no_index, read_path, root_of, step_views,
    wild_name, PathStep,
};
use crate::value::{
    held, lemma_values_tree, value_tree, values_tree, well_formed, ConfigValue,
    ValueTree,
};
use vstd::prelude::*;

verus! {

/// A text that is meant to be TOML. No name at its top level reads as a path with an
/// index that is out of range, on which the `config` crate panics.
#[derive(Debug)]
pub struct TomlText {
    text: String,
}

impl View for TomlText {
    type V = Seq<char>;

    closed spec fn view(&self) -> Seq<char> {
        self.text@
    }
}

/// The text can be handed to the `config` crate.
pub open spec fn settable_text(text: Seq<char>) -> bool {
    toml_table(text) matches Ok(table) ==> settable(table)
}

impl TomlText {
    #[verifier::type_invariant]
    pub open spec fn is_settable(self) -> bool {
        settable_text(self@)
    }

    /// Takes a text, unless a name at its top level reads as a path with an index that
    /// is out of range. A text that is not TOML is taken too: reading it reports what is
    /// wrong.
    pub fn new(text: String) -> (toml: Option<TomlText>)
        ensures
            match toml {
                Some(toml) => toml@ == text@ && settable_text(text@),
                None => !settable_text(text@),
            },
    {
        match toml_names(text.as_str()) {
            Ok(names) => {
                let mut i: usize = 0;
                while i < names.len()
                    invariant
                        i <= names.len(),
                        toml_table(text@) matches Ok(table) && forall|name: Seq<char>| #[trigger]
                            table.contains_key(name) <==> texts(names@).contains(name),
                        forall|j: int| 0 <= j < i ==> !wild_name(#[trigger] texts(names@)[j]),
                    decreases names.len() - i,
                {
                    if is_wild_name(names[i].as_str()) {
                        assert(texts(names@)[i as int] == names@[i as int]@);
                        assert(texts(names@).contains(names@[i as int]@));
                        assert(toml_table(text@)->Ok_0.contains_key(names@[i as int]@));
                        return None;
                    }
                    i += 1;
                }
                Some(TomlText { text })
            },
            Err(_) => Some(TomlText { text }),
        }
    }

    /// Tells whether the text is TOML.
    pub fn is_toml(&self) -> (b: bool)
        ensures
            b == (toml_table(self@) is Ok),
    {
        toml_names(self.text.as_str()).is_ok()
    }

    /// Reads the text into a configuration.
    pub fn build(&self) -> (config: Result<config::Config, ConfigFailure>)
        ensures
            merged_texts(seq![toml_table(self@)], with_error_text(config)),
    {
        let stack = add_text(ConfigStack::new(), self);
        assert(stack_tables(stack) =~= seq![toml_table(self@)]);
        match stack.build() {
            Ok(config) => Ok(config),
            Err(error) => Err(foreign_error(error)),
        }
    }
}

/// The tables of the texts, or the errors that they give.
pub open spec fn toml_tables(texts: Seq<TomlText>) -> Seq<TableResult> {
    texts.map_values(|text: TomlText| toml_table(text@))
}

/// What comes of merging TOML texts, the first one lowest.
pub open spec fn merged_texts(
    tables: Seq<TableResult>,
    merged: Result<config::Config, ConfigFailureText>,
) -> bool {
    match merged {
        Ok(config) => {
            &&& all_tables(tables)
            &&& mergeable(config)
            &&& merges(tables_of(tables), config)
        },
        Err(error) => error matches ConfigFailureText::Foreign(message) && first_error(
            tables,
            message,
        ),
    }
}

/// The error of a result by its text.
pub open spec fn with_error_text(result: Result<config::Config, ConfigFailure>) -> Result<
    config::Config,
    ConfigFailureText,
> {
    match result {
        Ok(config) => Ok(config),
        Err(error) => Err(error@),
    }
}

/// Every text on the stack can be merged, and no variables are set on top.
pub open spec fn only_texts(stack: ConfigStack) -> bool {
    &&& stack_overrides(stack) == Variables::empty()
    &&& all_settable(stack_tables(stack))
}

/// Puts a text on top of a stack.
pub(crate) fn add_text(stack: ConfigStack, toml: &TomlText) -> (result: ConfigStack)
    requires
        only_texts(stack),
    ensures
        only_texts(result),
        stack_tables(result) == stack_tables(stack).push(toml_table(toml@)),
{
    proof {
        use_type_invariant(toml);
    }
    stack.add_toml(toml.text.as_str())
}

/// Tells whether every index among the steps from `start` on is in range.
fn are_steps_in_range(value: Option<&ConfigValue>, steps: &Vec<PathStep>, start: usize) -> (b: bool)
    requires
        start <= steps.len(),
        value matches Some(value) ==> well_formed(*value),
    ensures
        b == steps_in_range(opt_tree(value), step_views(steps@).skip(start as int)),
    decreases steps.len() - start,
{
    let ghost rest = step_views(steps@).skip(start as int);
    if start == steps.len() {
        return true;
    }
    assert(rest[0] == steps@[start as int]@);
    assert(rest.drop_first() =~= step_views(steps@).skip(start + 1));
    match &steps[start] {
        PathStep::Name(name) => {
            let next = match value {
                Some(ConfigValue::Table(entries)) => find_entry(entries, name),
                _ => None,
            };
            are_steps_in_range(next, steps, start + 1)
        },
        PathStep::Index(index) => {
            let index: isize = *index;
            match value {
                Some(ConfigValue::Array(values)) => {
                    proof {
                        lemma_values_tree(values@);
                    }
                    let place: usize = if index < 0 {
                        if index == isize::MIN || (-index) as usize > values.len() {
                            return false;
                        }
                        values.len() - (-index) as usize
                    } else if index > isize::MAX / 1024 {
                        return false;
                    } else {
                        index as usize
                    };
                    if place < values.len() {
                        assert(well_formed(values@[place as int]));
                        assert(values_tree(values@)[place as int] == value_tree(
                            values@[place as int],
                        ));
                        are_steps_in_range(Some(&values[place]), steps, start + 1)
                    } else {
                        are_steps_in_range(None, steps, start + 1)
                    }
                },
                _ => {
                    if index < 0 || index > isize::MAX / 1024 {
                        return false;
                    }
                    are_steps_in_range(None, steps, start + 1)
                },
            }
        },
    }
}

/// The tree of an optional value.
pub open spec fn opt_tree(value: Option<&ConfigValue>) -> Option<ValueTree> {
    match value {
        Some(value) => Some(value@),
        None => None,
    }
}

/// Tells whether another name of the list leads to the entry `root`.
fn another_leads_to(names: &Vec<String>, name: &String, root: &String) -> (b: bool)
    ensures
        b == (exists|other: Seq<char>|
            texts(names@).contains(other) && #[trigger] root_of(other) == root@ && other != name@),
{
    let mut i: usize = 0;
    while i < names.len()
        invariant
            i <= names.len(),
            forall|j: int|
                0 <= j < i ==> !(root_of(#[trigger] texts(names@)[j]) == root@ && texts(names@)[j]
                    != name@),
        decreases names.len() - i,
    {
        assert(texts(names@)[i as int] == names@[i as int]@);
        if names[i] != *name && find_root(names[i].as_str()) == *root {
            assert(texts(names@).contains(names@[i as int]@));
            return true;
        }
        i += 1;
    }
    assert forall|other: Seq<char>|
        texts(names@).contains(other) && #[trigger] root_of(other) == root@ implies other == name@ by {
        let j = choose|j: int| 0 <= j < texts(names@).len() && texts(names@)[j] == other;
        assert(texts(names@)[j] == other);
    }
    false
}

/// TOML texts that can be merged, the first one lowest.
#[derive(Debug)]
pub struct TomlTexts {
    texts: Vec<String>,
}

impl View for TomlTexts {
    type V = Seq<Seq<char>>;

    closed spec fn view(&self) -> Seq<Seq<char>> {
        texts(self.texts@)
    }
}

/// The tables of the texts, or the errors that they give.
pub open spec fn text_tables(texts: Seq<Seq<char>>) -> Seq<TableResult> {
    texts.map_values(|text: Seq<char>| toml_table(text))
}

/// Puts the first `count` texts on a stack.
fn stack_of(list: &Vec<String>, count: usize) -> (stack: ConfigStack)
    requires
        count <= list.len(),
    ensures
        stack_overrides(stack) == Variables::empty(),
        stack_tables(stack) == text_tables(texts(list@)).take(count as int),
{
    let mut stack = ConfigStack::new();
    let mut i: usize = 0;
    while i < count
        invariant
            i <= count <= list.len(),
            stack_overrides(stack) == Variables::empty(),
            stack_tables(stack) == text_tables(texts(list@)).take(i as int),
        decreases count - i,
    {
        stack = stack.add_toml(list[i].as_str());
        i += 1;
        assert(stack_tables(stack) =~= text_tables(texts(list@)).take(i as int));
    }
    stack
}

/// Tells whether two names of the list lead to the entry `root`.
fn two_lead_to(names: &Vec<String>, root: &String) -> (b: bool)
    ensures
        b == (exists|a: Seq<char>, b: Seq<char>|
            a != b && texts(names@).contains(a) && texts(names@).contains(b) && #[trigger] root_of(
                a,
            ) == root@ && #[trigger] root_of(b) == root@),
{
    let mut i: usize = 0;
    while i < names.len()
        invariant
            i <= names.len(),
            forall|j: int|
                0 <= j < i && root_of(#[trigger] texts(names@)[j]) == root@ ==> !exists|
                    other: Seq<char>,
                |
                    texts(names@).contains(other) && #[trigger] root_of(other) == root@ && other
                        != texts(names@)[j],
        decreases names.len() - i,
    {
        assert(texts(names@)[i as int] == names@[i as int]@);
        if find_root(names[i].as_str()) == *root && another_leads_to(names, &names[i], root) {
            proof {
                let name = names@[i as int]@;
                assert(texts(names@).contains(name));
                let other = choose|other: Seq<char>|
                    texts(names@).contains(other) && #[trigger] root_of(other) == root@ && other
                        != name;
                assert(root_of(name) == root@ && root_of(other) == root@);
            }
            return true;
        }
        i += 1;
    }
    assert forall|a: Seq<char>, b: Seq<char>|
        texts(names@).contains(a) && texts(names@).contains(b) && #[trigger] root_of(a) == root@
            && #[trigger] root_of(b) == root@ implies a == b by {
        let j = choose|j: int| 0 <= j < texts(names@).len() && texts(names@)[j] == a;
        assert(root_of(texts(names@)[j]) == root@);
    }
    false
}

/// Tells whether in each of the first `count` texts at most one name leads to the entry
/// `root`.
fn is_clear(list: &Vec<String>, count: usize, root: &String) -> (b: bool)
    requires
        count <= list.len(),
        all_tables(text_tables(texts(list@)).take(count as int)),
    ensures
        b == clear(tables_of(text_tables(texts(list@)).take(count as int)), 0, root@),
{
    let ghost results = text_tables(texts(list@)).take(count as int);
    let ghost tables = tables_of(results);
    if find_root(root.as_str()) != *root {
        return false;
    }
    let mut i: usize = 0;
    while i < count
        invariant
            i <= count <= list.len(),
            results == text_tables(texts(list@)).take(count as int),
            tables == tables_of(results),
            all_tables(results),
            forall|j: int, a: Seq<char>, b: Seq<char>|
                0 <= j < i && #[trigger] leads(tables[j], a, root@) && #[trigger] leads(
                    tables[j],
                    b,
                    root@,
                ) ==> a == b,
        decreases count - i,
    {
        assert(results[i as int] is Ok);
        assert(results[i as int] == toml_table(list@[i as int]@));
        assert(tables[i as int] == toml_table(list@[i as int]@)->Ok_0);
        match toml_names(list[i].as_str()) {
            Ok(names) => {
                if two_lead_to(&names, root) {
                    proof {
                        let (a, b) = choose|a: Seq<char>, b: Seq<char>|
                            a != b && texts(names@).contains(a) && texts(names@).contains(b)
                                && #[trigger] root_of(a) == root@ && #[trigger] root_of(b) == root@;
                        assert(tables[i as int].contains_key(a));
                        assert(tables[i as int].contains_key(b));
                        assert(leads(tables[i as int], a, root@));
                        assert(leads(tables[i as int], b, root@));
                    }
                    return false;
                }
                assert forall|a: Seq<char>, b: Seq<char>| #[trigger]
                    leads(tables[i as int], a, root@) && #[trigger] leads(
                        tables[i as int],
                        b,
                        root@,
                    ) implies a == b by {
                    assert(texts(names@).contains(a) && texts(names@).contains(b));
                    assert(root_of(a) == root@ && root_of(b) == root@);
                }
            },
            Err(_) => {},
        }
        i += 1;
    }
    true
}

/// Tells whether indices behind a name are in range of what the first `count` texts make
/// of its entry.
fn are_indices_in_range(
    list: &Vec<String>,
    count: usize,
    root: &String,
    steps: &Vec<PathStep>,
) -> (b: bool)
    requires
        count <= list.len(),
        all_tables(text_tables(texts(list@)).take(count as int)),
        buildable(text_tables(texts(list@)).take(count as int)),
        clear(tables_of(text_tables(texts(list@)).take(count as int)), 0, root@),
    ensures
        b == steps_in_range(
            entry_onto(
                None,
                tables_of(text_tables(texts(list@)).take(count as int)),
                root@,
            ),
            step_views(steps@),
        ),
{
    let ghost results = text_tables(texts(list@)).take(count as int);
    let ghost tables = tables_of(results);
    assert(step_views(steps@).skip(0) =~= step_views(steps@));
    match stack_of(list, count).build() {
        Ok(config) => {
            assert(held(config_tree(config)->Table_0, root@) == entry_onto(None, tables, root@));
            match read_config_table(&config) {
                Ok(value) => match &value {
                    ConfigValue::Table(entries) => {
                        let found = find_entry(entries, root);
                        assert(opt_tree(found) == held(config_tree(config)->Table_0, root@));
                        are_steps_in_range(found, steps, 0)
                    },
                    _ => false,
                },
                Err(_) => false,
            }
        },
        Err(_) => {
            assert(false) by {
                let message = choose|message: Seq<char>| first_error(results, message);
                let i = choose|i: int|
                    0 <= i < results.len() && #[trigger] results[i] == TableResult::Err(message)
                        && all_tables(results.take(i));
                assert(results[i] is Ok);
            }
            false
        },
    }
}

/// Tells whether a name of the text at `i` whose index could be out of range is in
/// reach of the texts below.
fn is_in_reach(list: &Vec<String>, i: usize, names: &Vec<String>, name: &String) -> (b: bool)
    requires
        i < list.len(),
        all_tables(text_tables(texts(list@)).take(i as int)),
        buildable(text_tables(texts(list@)).take(i as int)),
        toml_table(list@[i as int]@) is Ok,
        forall|other: Seq<char>| #[trigger]
            toml_table(list@[i as int]@)->Ok_0.contains_key(other) <==> texts(names@).contains(
                other,
            ),
    ensures
        b == in_reach(
            tables_of(text_tables(texts(list@)).take(i as int)),
            toml_table(list@[i as int]@)->Ok_0,
            name@,
        ),
{
    let ghost table = toml_table(list@[i as int]@)->Ok_0;
    match read_path(name.as_str()) {
        Some((_, steps)) => {
            let root = find_root(name.as_str());
            if another_leads_to(names, name, &root) {
                proof {
                    let other = choose|other: Seq<char>|
                        texts(names@).contains(other) && #[trigger] root_of(other) == root@
                            && other != name@;
                    assert(table.contains_key(other));
                }
                return false;
            }
            assert forall|other: Seq<char>| #[trigger]
                table.contains_key(other) && root_of(other) == root_of(name@) implies other
                == name@ by {
                assert(texts(names@).contains(other));
            }
            is_clear(list, i, &root) && are_indices_in_range(list, i, &root, &steps)
        },
        None => false,
    }
}

/// More tables can be merged if the first ones can and the next one is in reach.
proof fn lemma_buildable_step(tables: Seq<TableResult>, i: int)
    requires
        0 <= i < tables.len(),
        buildable(tables.take(i)),
        all_tables(tables.take(i)) && tables[i] is Ok ==> forall|name: Seq<char>| #[trigger]
            tables[i]->Ok_0.contains_key(name) && wild_name(name) ==> in_reach(
                tables_of(tables.take(i)),
                tables[i]->Ok_0,
                name,
            ),
    ensures
        buildable(tables.take(i + 1)),
{
    let more = tables.take(i + 1);
    assert forall|k: int, name: Seq<char>|
        0 <= k < more.len() && all_tables(more.take(k)) && more[k] is Ok && #[trigger]
            more[k]->Ok_0.contains_key(name) && wild_name(name) implies in_reach(
        tables_of(more.take(k)),
        more[k]->Ok_0,
        name,
    ) by {
        assert(more.take(k) =~= tables.take(k));
        if k < i {
            assert(tables.take(i).take(k) =~= tables.take(k));
            assert(tables.take(i)[k] == more[k]);
            assert(tables.take(i)[k]->Ok_0.contains_key(name));
        }
    }
}

/// Tables of which some cannot be merged cannot be merged together.
proof fn lemma_not_buildable(tables: Seq<TableResult>, i: int, name: Seq<char>)
    requires
        0 <= i < tables.len(),
        all_tables(tables.take(i)),
        tables[i] is Ok,
        tables[i]->Ok_0.contains_key(name),
        wild_name(name),
        !in_reach(tables_of(tables.take(i)), tables[i]->Ok_0, name),
    ensures
        !buildable(tables),
{
}

impl TomlTexts {
    #[verifier::type_invariant]
    spec fn can_be_merged(self) -> bool {
        buildable(text_tables(self@))
    }

    /// Takes texts, unless a name at the top level of one of them reads as a path with
    /// an index that is out of range where the text is merged. Whether an index below
    /// zero is in range is known where at most one name of each text leads to the entry.
    /// Where several do, that can depend on the order in which a hash map is walked, and
    /// the texts are not taken. Texts that are not TOML are taken: merging them reports
    /// what is wrong.
    pub fn new(list: Vec<String>) -> (merged: Option<TomlTexts>)
        ensures
            match merged {
                Some(merged) => merged@ == texts(list@) && buildable(text_tables(texts(list@))),
                None => !buildable(text_tables(texts(list@))),
            },
    {
        let ghost tables = text_tables(texts(list@));
        let mut i: usize = 0;
        assert(buildable(tables.take(0)));
        while i < list.len()
            invariant
                i <= list.len(),
                tables == text_tables(texts(list@)),
                all_tables(tables.take(i as int)),
                buildable(tables.take(i as int)),
            decreases list.len() - i,
        {
            let ghost table = toml_table(list@[i as int]@);
            assert(tables[i as int] == table);
            match toml_names(list[i].as_str()) {
                Ok(names) => {
                    let mut k: usize = 0;
                    while k < names.len()
                        invariant
                            k <= names.len(),
                            i < list.len(),
                            tables == text_tables(texts(list@)),
                            all_tables(tables.take(i as int)),
                            buildable(tables.take(i as int)),
                            table == toml_table(list@[i as int]@),
                            tables[i as int] == table,
                            table is Ok,
                            forall|other: Seq<char>| #[trigger]
                                table->Ok_0.contains_key(other) <==> texts(names@).contains(other),
                            forall|j: int|
                                0 <= j < k && wild_name(#[trigger] texts(names@)[j]) ==> in_reach(
                                    tables_of(tables.take(i as int)),
                                    table->Ok_0,
                                    texts(names@)[j],
                                ),
                        decreases names.len() - k,
                    {
                        assert(texts(names@)[k as int] == names@[k as int]@);
                        if is_wild_name(names[k].as_str()) && !is_in_reach(
                            &list,
                            i,
                            &names,
                            &names[k],
                        ) {
                            proof {
                                assert(texts(names@).contains(names@[k as int]@));
                                assert(table->Ok_0.contains_key(names@[k as int]@));
                                lemma_not_buildable(tables, i as int, names@[k as int]@);
                            }
                            return None;
                        }
                        k += 1;
                    }
                    proof {
                        assert forall|name: Seq<char>| #[trigger]
                            table->Ok_0.contains_key(name) && wild_name(name) implies in_reach(
                            tables_of(tables.take(i as int)),
                            table->Ok_0,
                            name,
                        ) by {
                            assert(texts(names@).contains(name));
                            let j = choose|j: int|
                                0 <= j < texts(names@).len() && texts(names@)[j] == name;
                            assert(texts(names@)[j] == name);
                        }
                        lemma_buildable_step(tables, i as int);
                        assert forall|j: int| 0 <= j < i + 1 implies #[trigger] tables.take(
                            i + 1,
                        )[j] is Ok by {
                            if j < i {
                                assert(tables.take(i as int)[j] is Ok);
                            }
                        }
                    }
                },
                Err(_) => {
                    proof {
                        lemma_buildable_after_error(tables, i as int);
                    }
                    return Some(TomlTexts { texts: list });
                },
            }
            i += 1;
        }
        assert(tables.take(i as int) =~= tables);
        Some(TomlTexts { texts: list })
    }

    /// Merges the texts into one configuration.
    pub fn build(&self) -> (config: Result<config::Config, ConfigFailure>)
        ensures
            merged_texts(text_tables(self@), with_error_text(config)),
    {
        proof {
            use_type_invariant(self);
        }
        let stack = stack_of(&self.texts, self.texts.len());
        assert(stack_tables(stack) =~= text_tables(self@));
        match stack.build() {
            Ok(config) => Ok(config),
            Err(error) => Err(foreign_error(error)),
        }
    }
}

/// What stands above an error is not merged.
proof fn lemma_buildable_after_error(tables: Seq<TableResult>, i: int)
    requires
        0 <= i < tables.len(),
        buildable(tables.take(i)),
        tables[i] is Err,
    ensures
        buildable(tables),
{
    assert forall|k: int, name: Seq<char>|
        0 <= k < tables.len() && all_tables(tables.take(k)) && tables[k] is Ok && #[trigger]
            tables[k]->Ok_0.contains_key(name) && wild_name(name) implies in_reach(
        tables_of(tables.take(k)),
        tables[k]->Ok_0,
        name,
    ) by {
        if k > i {
            assert(tables.take(k)[i] is Ok);
        }
        assert(tables.take(i).take(k) =~= tables.take(k));
        assert(tables.take(i)[k] == tables[k]);
        assert(tables.take(i)[k]->Ok_0.contains_key(name));
    }
}

/// A text whose names at the top hold no brackets is taken, and so is a text that is not
/// TOML.
pub proof fn law_text_with_plain_names_is_taken(text: Seq<char>)
    requires
        toml_table(text) matches Ok(table) ==> forall|name: Seq<char>| #[trigger]
            table.contains_key(name) ==> !name.contains('['),
    ensures
        settable_text(text),
{
    if let Ok(table) = toml_table(text) {
        assert forall|name: Seq<char>| #[trigger] table.contains_key(name) implies !wild_name(
            name,
        ) by {
            law_name_without_bracket_has_no_index(name);
        }
    }
}

/// Texts whose names at the top hold no brackets are taken, whichever of the texts are not
/// TOML.
pub proof fn law_texts_with_plain_names_are_taken(list: Seq<Seq<char>>)
    requires
        forall|i: int, name: Seq<char>|
            0 <= i < list.len() && toml_table(list[i]) is Ok && #[trigger] toml_table(
                list[i],
            )->Ok_0.contains_key(name) ==> !name.contains('['),
    ensures
        buildable(text_tables(list)),
{
    let tables = text_tables(list);
    assert forall|i: int, name: Seq<char>|
        0 <= i < tables.len() && all_tables(tables.take(i)) && tables[i] is Ok && #[trigger]
            tables[i]->Ok_0.contains_key(name) && wild_name(name) implies in_reach(
        tables_of(tables.take(i)),
        tables[i]->Ok_0,
        name,
    ) by {
        assert(toml_table(list[i])->Ok_0.contains_key(name));
        law_name_without_bracket_has_no_index(name);
    }
}

/// Texts are read if and only if all of them are TOML, and otherwise the error is that of
/// the first one that is not.
pub proof fn law_first_text_that_is_not_toml_is_reported(
    list: Seq<Seq<char>>,
    merged: Result<config::Config, ConfigFailureText>,
)
    requires
        merged_texts(text_tables(list), merged),
    ensures
        merged is Ok <==> forall|i: int| 0 <= i < list.len() ==> toml_table(#[trigger] list[i]) is Ok,
        merged matches Err(error) ==> exists|i: int|
            {
                &&& 0 <= i < list.len()
                &&& forall|j: int| 0 <= j < i ==> toml_table(#[trigger] list[j]) is Ok
                &&& toml_table(#[trigger] list[i]) matches Err(message) && error
                    == ConfigFailureText::Foreign(message)
            },
{
    let tables = text_tables(list);
    assert(forall|i: int| 0 <= i < list.len() ==> #[trigger] tables[i] == toml_table(list[i]));
    match merged {
        Ok(_) => {
            assert forall|i: int| 0 <= i < list.len() implies toml_table(#[trigger] list[i]) is Ok by {
                assert(tables[i] is Ok);
            }
        },
        Err(error) => {
            let message = error->Foreign_0;
            let i = choose|i: int|
                0 <= i < tables.len() && #[trigger] tables[i] == TableResult::Err(message)
                    && all_tables(tables.take(i));
            assert(toml_table(list[i]) == TableResult::Err(message));
            assert forall|j: int| 0 <= j < i implies toml_table(#[trigger] list[j]) is Ok by {
                assert(tables.take(i)[j] is Ok);
                assert(tables[j] == toml_table(list[j]));
            }
        },
    }
}

/// Texts that were merged were set one by one, in their order.
pub proof fn law_texts_are_set_one_by_one(list: Seq<Seq<char>>, config: config::Config)
    requires
        merged_texts(text_tables(list), Ok(config)),
    ensures
        config_tree(config) is Table,
        set_over_all(
            Seq::new(list.len(), |i: int| toml_table(list[i])->Ok_0),
            config_tree(config)->Table_0,
        ),
{
    assert(tables_of(text_tables(list)) =~= Seq::new(
        list.len(),
        |i: int| toml_table(list[i])->Ok_0,
    ));
}

} // verus!
