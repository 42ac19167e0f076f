//! The configuration that is built into the program.
use crate::config_crate::{
    all_tables, config_tree, lemma_plain_tables, stack_tables, tables_of, toml_table, ConfigStack,
    TableResult, TreeTable,
};
use crate::overlay::{
    all_settled, clear, holds_variable, law_highest_table_wins, law_order_of_tables_decides,
    law_settled_tables_are_overlaid, leaves_alone, says_nothing_at, set_over_all, untouched,
};
use crate::toml_text::{add_text, merged_texts, TomlText};
use crate::value::{held, overlaid_all, ValueTree};
use vstd::prelude::*;

verus! {

/// The texts that are built into the program.
#[derive(Debug)]
pub struct BuiltinTexts {
    pub colors: TomlText,
    pub merge_tools: TomlText,
    pub misc: TomlText,
    pub revsets: TomlText,
    pub templates: TomlText,
    /// What holds on Unix only.
    pub unix: TomlText,
    /// What holds on Windows only.
    pub windows: TomlText,
}

impl BuiltinTexts {
    /// The tables of the texts that hold on a platform, the lowest first, or
    /// the errors that they give.
    pub open spec fn tables(self, is_unix: bool, is_windows: bool) -> Seq<TableResult> {
        let common = seq![
            toml_table(self.colors@),
            toml_table(self.merge_tools@),
            toml_table(self.misc@),
            toml_table(self.revsets@),
            toml_table(self.templates@),
        ];
        let unix = if is_unix {
            common.push(toml_table(self.unix@))
        } else {
            common
        };
        if is_windows {
            unix.push(toml_table(self.windows@))
        } else {
            unix
        }
    }

    /// All texts that hold on a platform are TOML.
    pub open spec fn all_toml(self, is_unix: bool, is_windows: bool) -> bool {
        all_tables(self.tables(is_unix, is_windows))
    }

    /// Tells whether all texts that hold on a platform are TOML.
    pub fn are_toml(&self, is_unix: bool, is_windows: bool) -> (b: bool)
        ensures
            b == self.all_toml(is_unix, is_windows),
    {
        let ghost tables = self.tables(is_unix, is_windows);
        let b = self.colors.is_toml() && self.merge_tools.is_toml() && self.misc.is_toml()
            && self.revsets.is_toml() && self.templates.is_toml() && (!is_unix
            || self.unix.is_toml()) && (!is_windows || self.windows.is_toml());
        proof {
            assert(tables[0] == toml_table(self.colors@));
            assert(tables[1] == toml_table(self.merge_tools@));
            assert(tables[2] == toml_table(self.misc@));
            assert(tables[3] == toml_table(self.revsets@));
            assert(tables[4] == toml_table(self.templates@));
            if is_unix {
                assert(tables[5] == toml_table(self.unix@));
            }
            if is_windows {
                assert(tables.last() == toml_table(self.windows@));
                assert(tables[tables.len() - 1] == toml_table(self.windows@));
            }
        }
        b
    }
}

/// The configuration that is built into the program. An error in its texts is
/// not an error of the user, so the texts are TOML.
pub fn default_config(texts: &BuiltinTexts, is_unix: bool, is_windows: bool) -> (config:
    config::Config)
    requires
        texts.all_toml(is_unix, is_windows),
    ensures
        merged_texts(texts.tables(is_unix, is_windows), Ok(config)),
{
    let mut stack = add_text(ConfigStack::new(), &texts.colors);
    stack = add_text(stack, &texts.merge_tools);
    stack = add_text(stack, &texts.misc);
    stack = add_text(stack, &texts.revsets);
    stack = add_text(stack, &texts.templates);
    if is_unix {
        stack = add_text(stack, &texts.unix);
    }
    if is_windows {
        stack = add_text(stack, &texts.windows);
    }
    assert(stack_tables(stack) =~= texts.tables(is_unix, is_windows));
    stack.build().unwrap()
}

/// The configuration that is built into the program, if its texts are TOML.
pub fn try_default_config(texts: &BuiltinTexts, is_unix: bool, is_windows: bool) -> (config: Option<
    config::Config,
>)
    ensures
        match config {
            Some(config) => merged_texts(texts.tables(is_unix, is_windows), Ok(config)),
            None => !texts.all_toml(is_unix, is_windows),
        },
{
    if texts.are_toml(is_unix, is_windows) {
        Some(default_config(texts, is_unix, is_windows))
    } else {
        None
    }
}

/// A variable of a built-in text holds in the defaults, if the texts behind it leave it
/// alone and no other name leads to its entry from the text on.
pub proof fn law_later_text_wins(
    texts: BuiltinTexts,
    is_unix: bool,
    is_windows: bool,
    config: config::Config,
    i: int,
    path: Seq<Seq<char>>,
    value: ValueTree,
)
    requires
        merged_texts(texts.tables(is_unix, is_windows), Ok(config)),
        0 <= i < texts.tables(is_unix, is_windows).len(),
        holds_variable(
            ValueTree::Table(tables_of(texts.tables(is_unix, is_windows))[i]),
            path,
            value,
        ),
        untouched(tables_of(texts.tables(is_unix, is_windows)), i, path[0]),
        forall|j: int|
            i < j < texts.tables(is_unix, is_windows).len() ==> leaves_alone(
                #[trigger] tables_of(texts.tables(is_unix, is_windows))[j],
                path,
            ),
    ensures
        holds_variable(config_tree(config), path, value),
{
    let tables = tables_of(texts.tables(is_unix, is_windows));
    law_highest_table_wins(tables, config_tree(config)->Table_0, i, path, value);
}

/// The defaults are the same on every call: entries agree that at most one name of each
/// text leads to, and everything agrees where all names lead to their own entries.
pub proof fn law_defaults_are_the_same(
    texts: BuiltinTexts,
    is_unix: bool,
    is_windows: bool,
    first: config::Config,
    second: config::Config,
)
    requires
        merged_texts(texts.tables(is_unix, is_windows), Ok(first)),
        merged_texts(texts.tables(is_unix, is_windows), Ok(second)),
    ensures
        forall|root: Seq<char>| #[trigger]
            clear(tables_of(texts.tables(is_unix, is_windows)), 0, root) ==> held(
                config_tree(first)->Table_0,
                root,
            ) == held(config_tree(second)->Table_0, root),
        all_settled(tables_of(texts.tables(is_unix, is_windows))) ==> config_tree(first)
            == config_tree(second) && config_tree(first) == ValueTree::Table(
            overlaid_all(tables_of(texts.tables(is_unix, is_windows))),
        ),
{
    let tables = tables_of(texts.tables(is_unix, is_windows));
    if all_settled(tables) {
        law_settled_tables_are_overlaid(tables, config_tree(first)->Table_0);
        law_settled_tables_are_overlaid(tables, config_tree(second)->Table_0);
    }
}

/// The defaults hold a variable if and only if a built-in text holds it and all texts
/// behind it say nothing about it: the texts for colors, merge tools, miscellaneous
/// things, revsets and templates, then that for Unix on Unix, and that for Windows on
/// Windows. No name at the top of a text holds a dot or a bracket.
pub proof fn law_defaults_go_by_the_order_of_the_texts(
    texts: BuiltinTexts,
    is_unix: bool,
    is_windows: bool,
    all: Seq<TomlText>,
    config: config::Config,
    path: Seq<Seq<char>>,
    value: ValueTree,
)
    requires
        merged_texts(texts.tables(is_unix, is_windows), Ok(config)),
        all == seq![
            texts.colors,
            texts.merge_tools,
            texts.misc,
            texts.revsets,
            texts.templates,
        ] + (if is_unix {
            seq![texts.unix]
        } else {
            Seq::empty()
        }) + (if is_windows {
            seq![texts.windows]
        } else {
            Seq::empty()
        }),
        forall|i: int, name: Seq<char>|
            0 <= i < all.len() && #[trigger] toml_table(all[i]@)->Ok_0.contains_key(name)
                ==> !name.contains('.') && !name.contains('['),
    ensures
        forall|i: int| 0 <= i < all.len() ==> toml_table((#[trigger] all[i])@) is Ok,
        holds_variable(config_tree(config), path, value) <==> exists|i: int|
            {
                &&& 0 <= i < all.len()
                &&& #[trigger] holds_variable(
                    ValueTree::Table(toml_table(all[i]@)->Ok_0),
                    path,
                    value,
                )
                &&& forall|j: int|
                    i < j < all.len() ==> #[trigger] says_nothing_at(
                        ValueTree::Table(toml_table(all[j]@)->Ok_0),
                        path,
                    )
            },
{
    let results = texts.tables(is_unix, is_windows);
    let tables = tables_of(results);
    assert(results =~= Seq::new(all.len(), |i: int| toml_table(all[i]@)));
    lemma_toml_tables(all, results);
    assert forall|j: int, name: Seq<char>|
        0 <= j < tables.len() && #[trigger] tables[j].contains_key(name) implies !name.contains('.')
        && !name.contains('[') by {
        assert(toml_table(all[j]@)->Ok_0.contains_key(name));
    }
    lemma_plain_tables(tables, config);
    lemma_order_of_texts(all, tables, path, value);
}

/// The defaults are what comes of setting all that the built-in texts say, text by text,
/// in their order.
pub proof fn law_defaults_are_set_text_by_text(
    texts: BuiltinTexts,
    is_unix: bool,
    is_windows: bool,
    config: config::Config,
)
    requires
        merged_texts(texts.tables(is_unix, is_windows), Ok(config)),
    ensures
        ({
            let all = seq![
                toml_table(texts.colors@)->Ok_0,
                toml_table(texts.merge_tools@)->Ok_0,
                toml_table(texts.misc@)->Ok_0,
                toml_table(texts.revsets@)->Ok_0,
                toml_table(texts.templates@)->Ok_0,
            ] + (if is_unix {
                seq![toml_table(texts.unix@)->Ok_0]
            } else {
                Seq::empty()
            }) + (if is_windows {
                seq![toml_table(texts.windows@)->Ok_0]
            } else {
                Seq::empty()
            });
            &&& config_tree(config) is Table
            &&& set_over_all(all, config_tree(config)->Table_0)
        }),
{
    let all = seq![
        toml_table(texts.colors@)->Ok_0,
        toml_table(texts.merge_tools@)->Ok_0,
        toml_table(texts.misc@)->Ok_0,
        toml_table(texts.revsets@)->Ok_0,
        toml_table(texts.templates@)->Ok_0,
    ] + (if is_unix {
        seq![toml_table(texts.unix@)->Ok_0]
    } else {
        Seq::empty()
    }) + (if is_windows {
        seq![toml_table(texts.windows@)->Ok_0]
    } else {
        Seq::empty()
    });
    assert(tables_of(texts.tables(is_unix, is_windows)) =~= all);
}

/// Defaults can be built if and only if all texts that hold on the platform are TOML.
pub proof fn law_defaults_need_toml(texts: BuiltinTexts, is_unix: bool, is_windows: bool)
    ensures
        texts.all_toml(is_unix, is_windows) <==> toml_table(texts.colors@) is Ok && toml_table(
            texts.merge_tools@,
        ) is Ok && toml_table(texts.misc@) is Ok && toml_table(texts.revsets@) is Ok && toml_table(
            texts.templates@,
        ) is Ok && (is_unix ==> toml_table(texts.unix@) is Ok) && (is_windows ==> toml_table(
            texts.windows@,
        ) is Ok),
{
    let tables = texts.tables(is_unix, is_windows);
    assert(tables[0] == toml_table(texts.colors@));
    assert(tables[1] == toml_table(texts.merge_tools@));
    assert(tables[2] == toml_table(texts.misc@));
    assert(tables[3] == toml_table(texts.revsets@));
    assert(tables[4] == toml_table(texts.templates@));
    if is_unix {
        assert(tables[5] == toml_table(texts.unix@));
    }
    if is_windows {
        assert(tables[tables.len() - 1] == toml_table(texts.windows@));
    }
}

/// The tables of texts that are all TOML.
proof fn lemma_toml_tables(all: Seq<TomlText>, results: Seq<TableResult>)
    requires
        results == Seq::new(all.len(), |i: int| toml_table(all[i]@)),
        all_tables(results),
    ensures
        forall|i: int| 0 <= i < all.len() ==> toml_table((#[trigger] all[i])@) is Ok,
        forall|i: int|
            0 <= i < all.len() ==> #[trigger] tables_of(results)[i] == toml_table(all[i]@)->Ok_0,
{
    assert forall|i: int| 0 <= i < all.len() implies toml_table((#[trigger] all[i])@) is Ok by {
        assert(results[i] is Ok);
    }
}

/// Which variables come of laying the tables of texts over each other.
proof fn lemma_order_of_texts(
    all: Seq<TomlText>,
    tables: Seq<TreeTable>,
    path: Seq<Seq<char>>,
    value: ValueTree,
)
    requires
        tables.len() == all.len(),
        forall|i: int| 0 <= i < all.len() ==> #[trigger] tables[i] == toml_table(all[i]@)->Ok_0,
    ensures
        holds_variable(ValueTree::Table(overlaid_all(tables)), path, value) <==> exists|i: int|
            {
                &&& 0 <= i < all.len()
                &&& #[trigger] holds_variable(
                    ValueTree::Table(toml_table(all[i]@)->Ok_0),
                    path,
                    value,
                )
                &&& forall|j: int|
                    i < j < all.len() ==> #[trigger] says_nothing_at(
                        ValueTree::Table(toml_table(all[j]@)->Ok_0),
                        path,
                    )
            },
{
    law_order_of_tables_decides(tables, path, value);
    if holds_variable(ValueTree::Table(overlaid_all(tables)), path, value) {
        let i = choose|i: int|
            {
                &&& 0 <= i < tables.len()
                &&& #[trigger] holds_variable(ValueTree::Table(tables[i]), path, value)
                &&& forall|j: int|
                    i < j < tables.len() ==> #[trigger] says_nothing_at(
                        ValueTree::Table(tables[j]),
                        path,
                    )
            };
        assert(tables[i] == toml_table(all[i]@)->Ok_0);
        assert forall|j: int| i < j < all.len() implies #[trigger] says_nothing_at(
                        ValueTree::Table(toml_table(all[j]@)->Ok_0),
            path,
        ) by {
            assert(says_nothing_at(ValueTree::Table(tables[j]), path));
        }
    }
    if exists|i: int|
        {
            &&& 0 <= i < all.len()
            &&& #[trigger] holds_variable(
                    ValueTree::Table(toml_table(all[i]@)->Ok_0),
                path,
                value,
            )
            &&& forall|j: int|
                i < j < all.len() ==> #[trigger] says_nothing_at(
                        ValueTree::Table(toml_table(all[j]@)->Ok_0),
                    path,
                )
        } {
        let i = choose|i: int|
            {
                &&& 0 <= i < all.len()
                &&& #[trigger] holds_variable(
                    ValueTree::Table(toml_table(all[i]@)->Ok_0),
                    path,
                    value,
                )
                &&& forall|j: int|
                    i < j < all.len() ==> #[trigger] says_nothing_at(
                        ValueTree::Table(toml_table(all[j]@)->Ok_0),
                        path,
                    )
            };
        assert(holds_variable(ValueTree::Table(tables[i]), path, value));
        assert forall|j: int| i < j < tables.len() implies #[trigger] says_nothing_at(
                        ValueTree::Table(tables[j]),
                        path,
                    ) by {
            assert(says_nothing_at(ValueTree::Table(toml_table(all[j]@)->Ok_0), path));
        }
    }
}

} // verus!
