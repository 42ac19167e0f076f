//! The configurations of the program, by source.
use crate::config_crate::{
    all_tables, collect_error, config_tree, first_error, lemma_plain_tables, mergeable, merges,
    read_config_table, section_table, settable, stack_overrides, stack_tables, tables_of,
    toml_table, ConfigStack, TableResult, TreeTable, Variables,
};
use crate::environment::{
    env_base, env_overrides, law_base_environment_sets_colors_pager_and_editor,
    law_overriding_environment_sets_its_variables, EnvVars,
};
use crate::error::{ConfigEnvError, ConfigFailure, ConfigFailureText};
use crate::layers::{
    by_precedence, insert_point, law_added_layers_come_last_of_their_source,
    law_other_layers_are_kept, law_removing_is_idempotent, law_removing_keeps_other_sources,
    layers_added, lemma_added_contains, lemma_added_last, lemma_occurrences_removed,
    lemma_occurrences_replaced, lemma_without_source, occurrences, once_each, same_layers,
    without_source, ConfigLayer, StackedConfig,
};
use crate::listing::{
    all_finite, all_hold_tables, finite_tree, law_listed_variable_is_merged,
    law_listing_goes_by_precedence, law_listing_goes_layer_by_layer, law_merged_variable_is_listed,
    lemma_value_is_finite, path_before, start_of, tables_of_layers,
};
use crate::name_path::{lookup_tree, ConfigNamePathBuf};
use crate::overlay::{
    holds_variable, law_empty_table_is_neutral, law_highest_table_wins,
    law_order_of_tables_decides, law_table_without_names_leaves_a_variable_alone, leaves_alone,
    merged_tables, says_nothing_at, set_over_all, settled, untouched,
};
use crate::path_name::{
    is_wild_name, law_name_without_bracket_has_no_index, root_of, wild_name,
};
use crate::paths::{
    existing_config_path, existing_of, join_name, joined_path, path_text, ConfigEnv, ConfigPath,
    PathsFound,
};
use crate::resolve::{
    all_shown_below, layer_trees, overridden_above, overrides, resolve_layer_values, resolved, views,
    AnnotatedValue,
};
use crate::source::ConfigSource;
use crate::toml_text::{merged_texts, text_tables, toml_tables, TomlText, TomlTexts};
use crate::value::{
    entries_tree, lemma_entries_tree, overlaid, overlaid_all, overlaid_onto, well_formed,
    ConfigValue, ValueTree,
};
use std::path::PathBuf;
use vstd::prelude::*;

verus! {

/// Set of configs which can be merged as needed.
///
/// Sources from the lowest precedence:
/// 1. Default
/// 2. Base environment variables
/// 3. User configs
/// 4. Repo config
/// 5. Override environment variables
/// 6. Command-line arguments
#[derive(Debug)]
pub struct LayeredConfigs {
    inner: StackedConfig,
}

impl View for LayeredConfigs {
    type V = Seq<ConfigLayer>;

    closed spec fn view(&self) -> Seq<ConfigLayer> {
        self.inner@
    }
}

impl Clone for LayeredConfigs {
    fn clone(&self) -> (copy: Self)
        ensures
            same_layers(copy@, self@),
            copy.wf(),
    {
        LayeredConfigs { inner: self.inner.clone() }
    }
}

/// `layers` are the files `texts`, one layer each, all from `source`.
pub open spec fn file_layers(
    source: ConfigSource,
    texts: Seq<TomlText>,
    layers: Seq<ConfigLayer>,
) -> bool {
    &&& layers.len() == texts.len()
    &&& forall|i: int|
        0 <= i < layers.len() ==> {
            &&& (#[trigger] layers[i]).source == source
            &&& merged_texts(seq![toml_table(texts[i]@)], Ok(layers[i].data))
        }
}

/// What becomes of the layers when those from `source` are replaced by files:
/// the old ones go, and the files come in their place if all of them can be
/// read. If not, the first error is reported.
pub open spec fn replaced_by_files(
    before: Seq<ConfigLayer>,
    source: ConfigSource,
    files: Result<Vec<TomlText>, ConfigEnvError>,
    after: Seq<ConfigLayer>,
    result: Result<(), ConfigEnvError>,
) -> bool {
    match files {
        Err(error) => result == Err::<(), ConfigEnvError>(error) && after == without_source(
            before,
            source,
        ),
        Ok(texts) => match result {
            Ok(_) => exists|layers: Seq<ConfigLayer>| #[trigger]
                file_layers(source, texts@, layers) && layers_added(
                    without_source(before, source),
                    source,
                    layers,
                    after,
                ),
            Err(error) => {
                &&& after == without_source(before, source)
                &&& read_error(toml_tables(texts@), error)
            },
        },
    }
}

/// The error tells that a text is not TOML, by the message of the first such
/// text.
pub open spec fn read_error(tables: Seq<TableResult>, error: ConfigEnvError) -> bool {
    error matches ConfigEnvError::ConfigReadError(failure) && failure@ matches ConfigFailureText::Foreign(
        message,
    ) && first_error(tables, message)
}

/// The tables that the layers hold.
pub open spec fn layer_tables(layers: Seq<ConfigLayer>) -> Seq<TreeTable> {
    layers.map_values(|layer: ConfigLayer| config_tree(layer.data)->Table_0)
}

/// The sources of the layers, and what they hold.
pub open spec fn sourced_trees(layers: Seq<ConfigLayer>) -> Seq<(ConfigSource, ValueTree)> {
    layers.map_values(|layer: ConfigLayer| (layer.source, config_tree(layer.data)))
}

/// Every name at the top of a layer leads to its own entry, but for the defaults,
/// which may come from anywhere.
pub open spec fn read_settled(layers: Seq<ConfigLayer>) -> bool {
    forall|i: int|
        0 <= i < layers.len() && (#[trigger] layers[i]).source != ConfigSource::Default ==> settled(
            config_tree(layers[i].data)->Table_0,
        )
}

/// All layers can be merged.
pub open spec fn all_mergeable(layers: Seq<ConfigLayer>) -> bool {
    forall|i: int| 0 <= i < layers.len() ==> mergeable((#[trigger] layers[i]).data)
}

impl LayeredConfigs {
    /// The layers stand in order of precedence.
    pub open spec fn wf(self) -> bool {
        by_precedence(self@)
    }

    /// The configs made of the given layers.
    pub fn from_layers(inner: StackedConfig) -> (configs: Self)
        ensures
            configs@ == inner@,
            configs.wf(),
    {
        proof {
            use_type_invariant(&inner);
        }
        LayeredConfigs { inner }
    }

    /// Initializes configs with infallible sources.
    pub fn from_environment(default: config::Config, env: &EnvVars) -> (configs: Self)
        ensures
            configs.wf(),
            environment_layers(configs@, default, *env),
            mergeable(default) ==> all_mergeable(configs@),
            once_each(configs@),
            read_settled(configs@),
    {
        let base = ConfigLayer { source: ConfigSource::EnvBase, data: env_base(env) };
        let overrides = ConfigLayer {
            source: ConfigSource::EnvOverrides,
            data: env_overrides(env),
        };
        let default = ConfigLayer { source: ConfigSource::Default, data: default };
        let mut inner = StackedConfig::empty();
        let ghost none = inner@;
        inner.add_layer(default);
        proof {
            lemma_added_last(none, default.source, seq![default], inner@);
            assert(inner@ =~= seq![default]);
        }
        inner.add_layer(base);
        proof {
            lemma_added_last(seq![default], base.source, seq![base], inner@);
            assert(inner@ =~= seq![default, base]);
        }
        inner.add_layer(overrides);
        proof {
            lemma_added_last(seq![default, base], overrides.source, seq![overrides], inner@);
            assert(inner@ =~= seq![default, base, overrides]);
            reveal_with_fuel(occurrences, 4);
            let all = inner@;
            assert(all.drop_last() =~= seq![default, base]);
            assert(seq![default, base].drop_last() =~= seq![default]);
            assert(seq![default].drop_last() =~= Seq::<ConfigLayer>::empty());
        }
        LayeredConfigs { inner }
    }

    /// Replaces the layers from `source` by files.
    fn replace_layers(
        &mut self,
        source: ConfigSource,
        files: Result<Vec<TomlText>, ConfigEnvError>,
    ) -> (result: Result<(), ConfigEnvError>)
        ensures
            final(self).wf(),
            replaced_by_files(old(self)@, source, files, final(self)@, result),
    {
        self.inner.remove_layers(source);
        let texts = match files {
            Ok(texts) => texts,
            Err(error) => {
                return Err(error);
            },
        };
        let ghost tables = toml_tables(texts@);
        let mut layers: Vec<ConfigLayer> = Vec::new();
        let mut i: usize = 0;
        while i < texts.len()
            invariant
                i <= texts.len(),
                files == Ok::<Vec<TomlText>, ConfigEnvError>(texts),
                tables == toml_tables(texts@),
                self@ == without_source(old(self)@, source),
                self.wf(),
                layers.len() == i,
                all_tables(tables.take(i as int)),
                forall|j: int|
                    0 <= j < i ==> (#[trigger] layers@[j]).source == source && merged_texts(
                        seq![toml_table(texts@[j]@)],
                        Ok(layers@[j].data),
                    ),
            decreases texts.len() - i,
        {
            match texts[i].build() {
                Ok(data) => {
                    layers.push(ConfigLayer { source, data });
                    assert(seq![toml_table(texts@[i as int]@)][0] is Ok);
                    assert(tables[i as int] is Ok);
                    assert forall|j: int| 0 <= j < i + 1 implies #[trigger] tables.take(i + 1)[j] is Ok by {
                        if j < i {
                            assert(tables.take(i as int)[j] is Ok);
                        }
                    }
                },
                Err(error) => {
                    proof {
                        let one = seq![toml_table(texts@[i as int]@)];
                        let message = error@->Foreign_0;
                        let k = choose|k: int|
                            0 <= k < one.len() && #[trigger] one[k] == TableResult::Err(message);
                        assert(one[k] == tables[i as int]);
                        assert(first_error(tables, message));
                    }
                    return Err(ConfigEnvError::ConfigReadError(error));
                },
            }
            i += 1;
        }
        assert(file_layers(source, texts@, layers@));
        self.inner.extend_layers(source, layers);
        Ok(())
    }

    /// Reads the user configs, in place of those that were there: `files` are
    /// the texts of the file or of the files of the directory that
    /// `existing_config_path` gives, in order, or the error on the way there.
    pub fn read_user_config(&mut self, files: Result<Vec<TomlText>, ConfigEnvError>) -> (result: Result<
        (),
        ConfigEnvError,
    >)
        ensures
            final(self).wf(),
            replaced_by_files(old(self)@, ConfigSource::User, files, final(self)@, result),
            all_mergeable(old(self)@) ==> all_mergeable(final(self)@),
            read_settled(old(self)@) ==> read_settled(final(self)@),
            once_each(old(self)@) ==> once_each(final(self)@),
    {
        let result = self.replace_layers(ConfigSource::User, files);
        proof {
            lemma_replaced_mergeable(old(self)@, ConfigSource::User, files, self@, result);
            lemma_replaced_once(old(self)@, ConfigSource::User, files, self@, result);
        }
        result
    }

    /// The configuration file of the user, if there is one.
    pub fn user_config_path(&self, env: ConfigEnv, found: PathsFound) -> (result: Result<
        Option<PathBuf>,
        ConfigEnvError,
    >)
        ensures
            exists|path: Result<ConfigPath, ConfigEnvError>| #[trigger]
                env.config_path_is(found, path) && result == existing_of(path),
            env.jj_config matches Some(text) ==> (if found.jj_config {
                result matches Ok(Some(path)) && path_text(path) == Some(text@)
            } else {
                result == Ok::<Option<PathBuf>, ConfigEnvError>(None)
            }),
    {
        existing_config_path(env, found)
    }

    /// Reads the repo config, in place of the one that was there: `file` is the
    /// text of `repo_config_path`, if that exists, or the error on reading it.
    pub fn read_repo_config(&mut self, file: Result<Option<TomlText>, ConfigEnvError>) -> (result: Result<
        (),
        ConfigEnvError,
    >)
        ensures
            final(self).wf(),
            replaced_by_file(old(self)@, ConfigSource::Repo, file, final(self)@, result),
            all_mergeable(old(self)@) ==> all_mergeable(final(self)@),
            read_settled(old(self)@) ==> read_settled(final(self)@),
            once_each(old(self)@) ==> once_each(final(self)@),
    {
        let mut texts: Vec<TomlText> = Vec::new();
        let files = match file {
            Ok(Some(text)) => {
                texts.push(text);
                assert(texts@ =~= seq![text]);
                Ok(texts)
            },
            Ok(None) => Ok(texts),
            Err(error) => Err(error),
        };
        let result = self.replace_layers(ConfigSource::Repo, files);
        proof {
            lemma_replaced_mergeable(old(self)@, ConfigSource::Repo, files, self@, result);
            lemma_replaced_once(old(self)@, ConfigSource::Repo, files, self@, result);
            lemma_replaced_by_file(old(self)@, ConfigSource::Repo, file, files, self@, result);
        }
        result
    }

    /// The path of the repo config.
    pub fn repo_config_path(&self, repo_path: &PathBuf) -> (path: PathBuf)
        ensures
            path == joined_path(*repo_path, "config.toml"@),
    {
        join_name(repo_path, "config.toml")
    }

    /// Reads configs given on the command line, in place of those that were
    /// there. Later ones override earlier ones.
    pub fn parse_config_args(&mut self, toml_strs: &TomlTexts) -> (result: Result<
        (),
        ConfigEnvError,
    >)
        ensures
            final(self).wf(),
            args_parsed(old(self)@, text_tables(toml_strs@), final(self)@, result),
            all_mergeable(old(self)@) ==> all_mergeable(final(self)@),
            read_settled(old(self)@) ==> read_settled(final(self)@),
            once_each(old(self)@) ==> once_each(final(self)@),
    {
        self.inner.remove_layers(ConfigSource::CommandArg);
        let ghost rest = self@;
        proof {
            lemma_without_source(old(self)@, ConfigSource::CommandArg);
            lemma_sources_after_removal(old(self)@, ConfigSource::CommandArg);
            assert forall|i: int| 0 <= i < rest.len() implies old(self)@.contains(
                #[trigger] rest[i],
            ) by {}
            if all_mergeable(old(self)@) {
                assert forall|i: int| 0 <= i < rest.len() implies mergeable(
                    (#[trigger] rest[i]).data,
                ) by {
                    assert(old(self)@.contains(rest[i]));
                }
            }
        }
        match toml_strs.build() {
            Ok(data) => {
                let layer = ConfigLayer { source: ConfigSource::CommandArg, data };
                self.inner.add_layer(layer);
                proof {
                    lemma_added_last(rest, ConfigSource::CommandArg, seq![layer], self@);
                    assert(self@ =~= rest.push(layer));
                    lemma_sources_after_adding(
                        old(self)@,
                        ConfigSource::CommandArg,
                        seq![layer],
                        self@,
                    );
                }
                Ok(())
            },
            Err(error) => Err(ConfigEnvError::ConfigReadError(error)),
        }
    }

    /// Creates new merged config.
    pub fn merge(&self) -> (config: config::Config)
        requires
            all_mergeable(self@),
        ensures
            mergeable(config),
            merges(layer_tables(self@), config),
            self.wf(),
            set_over_all(
                Seq::new(self@.len(), |i: int| config_tree(self@[i].data)->Table_0),
                config_tree(config)->Table_0,
            ),
            forall|i: int, path: Seq<Seq<char>>|
                0 <= i < self@.len() && path.len() > 0 && (#[trigger] lookup_tree(
                    config_tree(self@[i].data),
                    path,
                ) matches Some(value) && !(value is Table)) && with_plain_names(self@) && (forall|
                    j: int,
                |
                    i < j < self@.len() ==> #[trigger] says_nothing_at(
                        config_tree(self@[j].data),
                        path,
                    )) ==> lookup_tree(config_tree(config), path) == lookup_tree(
                    config_tree(self@[i].data),
                    path,
                ),
    {
        let layers = self.inner.layers();
        let ghost tables = self@.map_values(
            |layer: ConfigLayer| TableResult::Ok(config_tree(layer.data)->Table_0),
        );
        let mut stack = ConfigStack::new();
        let mut i: usize = 0;
        while i < layers.len()
            invariant
                i <= layers.len(),
                layers@ == self@,
                all_mergeable(self@),
                tables == self@.map_values(
                    |layer: ConfigLayer| TableResult::Ok(config_tree(layer.data)->Table_0),
                ),
                stack_tables(stack) == tables.take(i as int),
                stack_overrides(stack) == Variables::empty(),
            decreases layers.len() - i,
        {
            assert(mergeable(self@[i as int].data));
            stack = stack.add_config(&layers[i].data);
            i += 1;
            assert(stack_tables(stack) =~= tables.take(i as int));
        }
        assert(stack_tables(stack) =~= tables);
        assert(tables_of(tables) =~= layer_tables(self@));
        proof {
            assert forall|j: int| 0 <= j < tables.len() implies (#[trigger] tables[j] matches Ok(
                table,
            ) ==> settable(table)) by {
                assert(mergeable(self@[j].data));
            }
        }
        let config = stack.build().unwrap();
        proof {
            law_layers_are_merged_one_by_one(self@, config);
            assert forall|i: int, path: Seq<Seq<char>>|
                0 <= i < self@.len() && path.len() > 0 && (#[trigger] lookup_tree(
                    config_tree(self@[i].data),
                    path,
                ) matches Some(value) && !(value is Table)) && with_plain_names(self@) && (forall|
                    j: int,
                |
                    i < j < self@.len() ==> #[trigger] says_nothing_at(
                        config_tree(self@[j].data),
                        path,
                    )) implies lookup_tree(config_tree(config), path) == lookup_tree(
                config_tree(self@[i].data),
                path,
            ) by {
                let value = lookup_tree(config_tree(self@[i].data), path)->Some_0;
                law_merged_config_goes_by_the_order_of_the_layers(self@, config, path, value);
                assert(lookup_tree(config_tree(self@[i].data), path) == Some(value));
            }
        }
        config
    }

    /// Creates new merged config, unless a layer cannot be merged: it does not hold a
    /// table, or a name at its top reads as a path with an index that is out of range.
    pub fn try_merge(&self) -> (config: Option<config::Config>)
        ensures
            match config {
                Some(config) => {
                    &&& all_mergeable(self@)
                    &&& mergeable(config)
                    &&& merges(layer_tables(self@), config)
                    &&& set_over_all(
                        Seq::new(self@.len(), |i: int| config_tree(self@[i].data)->Table_0),
                        config_tree(config)->Table_0,
                    )
                    &&& self.wf()
                },
                None => !all_mergeable(self@),
            },
    {
        let layers = self.inner.layers();
        let mut i: usize = 0;
        while i < layers.len()
            invariant
                i <= layers.len(),
                layers@ == self@,
                forall|j: int| 0 <= j < i ==> mergeable((#[trigger] self@[j]).data),
            decreases layers.len() - i,
        {
            if !is_mergeable(&layers[i].data) {
                assert(!mergeable(self@[i as int].data));
                return None;
            }
            i += 1;
        }
        Some(self.merge())
    }

    /// The layers with their sources, in order of precedence.
    pub fn sources(&self) -> (sources: Vec<(ConfigSource, &config::Config)>)
        ensures
            sources@ == self@.map_values(|layer: ConfigLayer| (layer.source, &layer.data)),
            self.wf(),
    {
        let layers = self.inner.layers();
        let mut sources: Vec<(ConfigSource, &config::Config)> = Vec::new();
        let mut i: usize = 0;
        while i < layers.len()
            invariant
                i <= layers.len(),
                layers@ == self@,
                sources@ == self@.take(i as int).map_values(
                    |layer: ConfigLayer| (layer.source, &layer.data),
                ),
            decreases layers.len() - i,
        {
            sources.push((layers[i].source, &layers[i].data));
            i += 1;
            assert(sources@ =~= self@.take(i as int).map_values(
                |layer: ConfigLayer| (layer.source, &layer.data),
            ));
        }
        assert(self@.take(i as int) =~= self@);
        sources
    }
}

/// Tells whether a configuration can be merged.
fn is_mergeable(config: &config::Config) -> (b: bool)
    ensures
        b == mergeable(*config),
{
    match read_config_table(config) {
        Ok(ConfigValue::Table(entries)) => {
            let ghost table = entries_tree(entries@);
            proof {
                lemma_entries_tree(entries@);
            }
            let mut i: usize = 0;
            while i < entries.len()
                invariant
                    i <= entries.len(),
                    table == entries_tree(entries@),
                    config_tree(*config) == ValueTree::Table(table),
                    forall|j: int|
                        0 <= j < entries.len() ==> table.contains_key((#[trigger] entries@[j]).key@),
                    forall|j: int| 0 <= j < i ==> !wild_name((#[trigger] entries@[j]).key@),
                decreases entries.len() - i,
            {
                if is_wild_name(entries[i].key.as_str()) {
                    assert(table.contains_key(entries@[i as int].key@));
                    return false;
                }
                i += 1;
            }
            true
        },
        _ => false,
    }
}

/// Every layer holds a table.
pub open spec fn all_readable(layers: Seq<ConfigLayer>) -> bool {
    forall|i: int| 0 <= i < layers.len() ==> config_tree((#[trigger] layers[i]).data) is Table
}

/// The error is that of the first layer that does not hold a table.
pub open spec fn first_unreadable(layers: Seq<ConfigLayer>, error: ConfigFailure) -> bool {
    exists|i: int|
        {
            &&& 0 <= i < layers.len()
            &&& !(config_tree((#[trigger] layers[i]).data) is Table)
            &&& all_readable(layers.take(i))
            &&& error@ == ConfigFailureText::Foreign(collect_error(layers[i].data))
        }
}

/// Collects values under the given `filter_prefix` name recursively, from all
/// layers.
pub fn resolved_config_values(
    layered_configs: &LayeredConfigs,
    filter_prefix: &ConfigNamePathBuf,
) -> (result: Result<Vec<AnnotatedValue>, ConfigFailure>)
    ensures
        match result {
            Ok(config_vals) => {
                &&& all_readable(layered_configs@)
                &&& all_finite(sourced_trees(layered_configs@))
                &&& views(config_vals@) == resolved(
                    sourced_trees(layered_configs@),
                    filter_prefix@,
                )
                &&& all_shown_below(*filter_prefix, config_vals@)
            },
            Err(error) => first_unreadable(layered_configs@, error),
        },
{
    let sources = layered_configs.sources();
    let mut layers: Vec<(ConfigSource, ConfigValue)> = Vec::new();
    let mut i: usize = 0;
    while i < sources.len()
        invariant
            i <= sources.len(),
            sources@ == layered_configs@.map_values(
                |layer: ConfigLayer| (layer.source, &layer.data),
            ),
            layers.len() == i,
            forall|j: int|
                0 <= j < i ==> layer_trees(layers@)[j] == #[trigger] sourced_trees(
                    layered_configs@,
                )[j],
            forall|j: int|
                0 <= j < i ==> config_tree((#[trigger] layered_configs@[j]).data) is Table,
            forall|j: int| 0 <= j < layers.len() ==> well_formed((#[trigger] layers@[j]).1),
            all_finite(layer_trees(layers@)),
        decreases sources.len() - i,
    {
        let (source, config) = &sources[i];
        assert(layered_configs@[i as int].data == **config);
        let ghost before = layers@;
        match read_config_table(config) {
            Ok(value) => {
                proof {
                    lemma_value_is_finite(value);
                }
                layers.push((*source, value));
                assert forall|j: int| 0 <= j < i + 1 implies finite_tree(
                    (#[trigger] layer_trees(layers@)[j]).1,
                ) by {
                    if j < i {
                        assert(layer_trees(layers@)[j] == layer_trees(before)[j]);
                    }
                }
                assert forall|j: int| 0 <= j < i + 1 implies layer_trees(layers@)[j]
                    == #[trigger] sourced_trees(layered_configs@)[j] by {
                    if j < i {
                        assert(layer_trees(layers@)[j] == layer_trees(before)[j]);
                    }
                }
            },
            Err(error) => {
                assert(!(config_tree(layered_configs@[i as int].data) is Table));
                return Err(error);
            },
        }
        i += 1;
    }
    assert(layer_trees(layers@) =~= sourced_trees(layered_configs@));
    Ok(resolve_layer_values(&layers, filter_prefix))
}

/// How often sources occur once the layers of one of them were removed.
proof fn lemma_sources_after_removal(before: Seq<ConfigLayer>, source: ConfigSource)
    ensures
        read_settled(before) ==> read_settled(without_source(before, source)),
        occurrences(without_source(before, source), source) == 0,
        forall|other: ConfigSource|
            other != source ==> #[trigger] occurrences(without_source(before, source), other)
                == occurrences(before, other),
{
    let rest = without_source(before, source);
    lemma_without_source(before, source);
    assert forall|other: ConfigSource| #[trigger] occurrences(rest, other) == if other == source {
        0
    } else {
        occurrences(before, other)
    } by {
        lemma_occurrences_removed(before, source, other);
    }
    assert(occurrences(rest, source) == 0);
    if read_settled(before) {
        assert forall|i: int|
            0 <= i < rest.len() && (#[trigger] rest[i]).source
                != ConfigSource::Default implies settled(config_tree(rest[i].data)->Table_0) by {
            assert(before.contains(rest[i]));
            let j = choose|j: int| 0 <= j < before.len() && before[j] == rest[i];
            assert(before[j].source != ConfigSource::Default);
        }
    }
}

/// How often sources occur once the layers of one of them were replaced.
proof fn lemma_sources_after_adding(
    before: Seq<ConfigLayer>,
    source: ConfigSource,
    added: Seq<ConfigLayer>,
    after: Seq<ConfigLayer>,
)
    requires
        layers_added(without_source(before, source), source, added, after),
        forall|i: int| 0 <= i < added.len() ==> (#[trigger] added[i]).source == source,
        forall|i: int|
            0 <= i < added.len() ==> settled(config_tree((#[trigger] added[i]).data)->Table_0),
    ensures
        read_settled(before) ==> read_settled(after),
        occurrences(after, source) == added.len(),
        forall|other: ConfigSource|
            other != source ==> #[trigger] occurrences(after, other) == occurrences(before, other),
{
    let rest = without_source(before, source);
    lemma_sources_after_removal(before, source);
    lemma_added_contains(rest, source, added, after);
    assert forall|other: ConfigSource| #[trigger] occurrences(after, other) == if other == source {
        added.len()
    } else {
        occurrences(before, other)
    } by {
        lemma_occurrences_replaced(before, source, added, after, other);
    }
    assert(occurrences(after, source) == added.len());
    if read_settled(before) {
        assert forall|i: int|
            0 <= i < after.len() && (#[trigger] after[i]).source
                != ConfigSource::Default implies settled(config_tree(after[i].data)->Table_0) by {
            if added.contains(after[i]) {
                let j = choose|j: int| 0 <= j < added.len() && added[j] == after[i];
                assert(settled(config_tree(added[j].data)->Table_0));
            } else {
                let j = choose|j: int| 0 <= j < rest.len() && rest[j] == after[i];
                assert(rest[j].source != ConfigSource::Default);
            }
        }
    }
}

/// Reading the files of the user or of the repo keeps how often sources occur, and that
/// names lead to their own entries.
proof fn lemma_replaced_once(
    before: Seq<ConfigLayer>,
    source: ConfigSource,
    files: Result<Vec<TomlText>, ConfigEnvError>,
    after: Seq<ConfigLayer>,
    result: Result<(), ConfigEnvError>,
)
    requires
        replaced_by_files(before, source, files, after, result),
        source == ConfigSource::User || source == ConfigSource::Repo,
        source == ConfigSource::Repo && files is Ok ==> files->Ok_0@.len() <= 1,
    ensures
        read_settled(before) ==> read_settled(after),
        once_each(before) ==> once_each(after),
{
    lemma_sources_after_removal(before, source);
    if files is Ok && result is Ok {
        let layers = choose|layers: Seq<ConfigLayer>| #[trigger]
            file_layers(source, files->Ok_0@, layers) && layers_added(
                without_source(before, source),
                source,
                layers,
                after,
            );
        lemma_sources_after_adding(before, source, layers, after);
    }
}

/// What a listing goes by is what merging goes by: the same tables, in the same
/// order.
proof fn lemma_listed_and_merged_alike(layers: Seq<ConfigLayer>)
    requires
        all_readable(layers),
    ensures
        tables_of_layers(sourced_trees(layers)) == layer_tables(layers),
        all_hold_tables(sourced_trees(layers)),
{
    let trees = sourced_trees(layers);
    assert(tables_of_layers(trees) =~= layer_tables(layers));
    assert forall|i: int| 0 <= i < trees.len() implies (#[trigger] trees[i]).1 is Table by {
        assert(config_tree(layers[i].data) is Table);
    }
}

/// Every variable of the merged config is listed, with its value, and not marked as
/// overridden, if no other name leads to its entry.
pub proof fn law_merged_config_is_listed(
    layers: Seq<ConfigLayer>,
    merged: TreeTable,
    prefix: Seq<Seq<char>>,
    path: Seq<Seq<char>>,
    value: ValueTree,
) -> (i: int)
    requires
        all_readable(layers),
        all_finite(sourced_trees(layers)),
        merged_tables(layer_tables(layers), merged),
        prefix.is_prefix_of(path),
        holds_variable(ValueTree::Table(merged), path, value),
        untouched(layer_tables(layers), 0, path[0]),
    ensures
        0 <= i < resolved(sourced_trees(layers), prefix).len(),
        resolved(sourced_trees(layers), prefix)[i].path == path,
        resolved(sourced_trees(layers), prefix)[i].value == value,
        !resolved(sourced_trees(layers), prefix)[i].is_overridden,
{
    lemma_listed_and_merged_alike(layers);
    law_merged_variable_is_listed(sourced_trees(layers), merged, prefix, path, value)
}

/// A listed variable that is not overridden holds in the merged config, if from its
/// layer on no other name leads to its entry.
pub proof fn law_listed_value_is_merged(
    layers: Seq<ConfigLayer>,
    merged: TreeTable,
    prefix: Seq<Seq<char>>,
    i: int,
    n: int,
)
    requires
        all_readable(layers),
        merged_tables(layer_tables(layers), merged),
        0 <= n < layers.len(),
        0 <= i < resolved(sourced_trees(layers), prefix).len(),
        start_of(sourced_trees(layers), prefix, n) <= i < start_of(
            sourced_trees(layers),
            prefix,
            n + 1,
        ),
        !resolved(sourced_trees(layers), prefix)[i].is_overridden,
        untouched(
            layer_tables(layers),
            n,
            resolved(sourced_trees(layers), prefix)[i].path[0],
        ),
    ensures
        holds_variable(
            ValueTree::Table(merged),
            resolved(sourced_trees(layers), prefix)[i].path,
            resolved(sourced_trees(layers), prefix)[i].value,
        ),
{
    lemma_listed_and_merged_alike(layers);
    law_listed_variable_is_merged(sourced_trees(layers), merged, prefix, i, n);
}

/// Above the defaults, no other name leads to an entry that a layer holds.
proof fn lemma_untouched_above_default(layers: Seq<ConfigLayer>, i: int, name: Seq<char>)
    requires
        by_precedence(layers),
        read_settled(layers),
        0 <= i < layers.len(),
        layers[i].source != ConfigSource::Default,
        root_of(name) == name,
    ensures
        untouched(layer_tables(layers), i, name),
{
    let tables = layer_tables(layers);
    assert forall|j: int, other: Seq<char>|
        i <= j < tables.len() && #[trigger] tables[j].contains_key(other) && root_of(other)
            == name implies other == name by {
        if j > i {
            assert(layers[i].source.spec_rank() <= layers[j].source.spec_rank());
        }
        assert(layers[j].source != ConfigSource::Default);
        assert(settled(tables[j]));
    }
}

/// A variable of a layer holds in the merged config if it is left alone by all
/// layers of a higher precedence and by the later ones of the same source. What the
/// layers below hold does not matter. Of the defaults this holds as far as no other
/// name leads to the entry of the variable.
pub proof fn law_source_of_highest_precedence_wins(
    layers: Seq<ConfigLayer>,
    merged: TreeTable,
    i: int,
    path: Seq<Seq<char>>,
    value: ValueTree,
)
    requires
        by_precedence(layers),
        read_settled(layers),
        merged_tables(layer_tables(layers), merged),
        0 <= i < layers.len(),
        holds_variable(ValueTree::Table(layer_tables(layers)[i]), path, value),
        layers[i].source == ConfigSource::Default ==> untouched(layer_tables(layers), i, path[0]),
        forall|j: int|
            0 <= j < layers.len() && (layers[j].source.spec_rank() > layers[i].source.spec_rank()
                || (layers[j].source == layers[i].source && j > i)) ==> leaves_alone(
                #[trigger] layer_tables(layers)[j],
                path,
            ),
    ensures
        holds_variable(ValueTree::Table(merged), path, value),
{
    let tables = layer_tables(layers);
    assert(path.len() > 0 && tables[i].contains_key(path[0]));
    if layers[i].source != ConfigSource::Default {
        assert(settled(config_tree(layers[i].data)->Table_0));
        lemma_untouched_above_default(layers, i, path[0]);
    }
    assert forall|j: int| i < j < tables.len() implies leaves_alone(#[trigger] tables[j], path) by {
        assert(layers[i].source.spec_rank() <= layers[j].source.spec_rank());
    }
    law_highest_table_wins(tables, merged, i, path, value);
}

/// Configs of the environment are three layers: the defaults that were given, what the
/// environment sets below configuration files, and what it sets over them.
pub proof fn law_environment_makes_three_layers(
    layers: Seq<ConfigLayer>,
    default: config::Config,
    env: EnvVars,
)
    requires
        environment_layers(layers, default, env),
    ensures
        layers.len() == 3,
        layers[0].source == ConfigSource::Default,
        layers[0].data == default,
        layers[1].source == ConfigSource::EnvBase,
        lookup_tree(config_tree(layers[1].data), seq!["ui"@, "pager"@]) == (match env.pager {
            Some(pager) => Some(ValueTree::String(pager@)),
            None => None,
        }),
        lookup_tree(config_tree(layers[1].data), seq!["ui"@, "color"@]) == (if env.no_color is Some {
            Some(ValueTree::String("never"@))
        } else {
            None
        }),
        lookup_tree(config_tree(layers[1].data), seq!["ui"@, "editor"@]) == (match (env.visual, env.editor) {
            (Some(editor), _) => Some(ValueTree::String(editor@)),
            (None, Some(editor)) => Some(ValueTree::String(editor@)),
            (None, None) => None,
        }),
        layers[2].source == ConfigSource::EnvOverrides,
        lookup_tree(config_tree(layers[2].data), seq!["user"@, "name"@]) == (match env.jj_user {
            Some(text) => Some(ValueTree::String(text@)),
            None => None,
        }),
        lookup_tree(config_tree(layers[2].data), seq!["user"@, "email"@]) == (match env.jj_email {
            Some(text) => Some(ValueTree::String(text@)),
            None => None,
        }),
        lookup_tree(config_tree(layers[2].data), seq!["ui"@, "editor"@]) == (match env.jj_editor {
            Some(text) => Some(ValueTree::String(text@)),
            None => None,
        }),
{
    law_base_environment_sets_colors_pager_and_editor(env, layers[1].data);
    law_overriding_environment_sets_its_variables(env, layers[2].data);
}

/// The layers of the environment: the defaults, the base variables and the overrides.
pub open spec fn environment_layers(
    layers: Seq<ConfigLayer>,
    default: config::Config,
    env: EnvVars,
) -> bool {
    &&& layers.len() == 3
    &&& layers[0] == (ConfigLayer { source: ConfigSource::Default, data: default })
    &&& layers[1].source == ConfigSource::EnvBase
    &&& config_tree(layers[1].data) == ValueTree::Table(section_table(env.base_variables()))
    &&& layers[2].source == ConfigSource::EnvOverrides
    &&& config_tree(layers[2].data) == ValueTree::Table(section_table(env.override_variables()))
}

/// A configuration of variables holds each of them.
proof fn lemma_section_holds(variables: Variables, section: Seq<char>, name: Seq<char>)
    requires
        variables.contains_key((section, name)),
    ensures
        holds_variable(
            ValueTree::Table(section_table(variables)),
            seq![section, name],
            ValueTree::String(variables[(section, name)]),
        ),
{
    reveal_with_fuel(lookup_tree, 3);
    let path = seq![section, name];
    assert(path.drop_first() =~= seq![name]);
    assert(seq![name].drop_first() =~= Seq::<Seq<char>>::empty());
    assert(section_table(variables).contains_key(section));
}

/// A configuration of variables leaves all others alone.
proof fn lemma_section_leaves_alone(variables: Variables, section: Seq<char>, name: Seq<char>)
    requires
        !variables.contains_key((section, name)),
    ensures
        leaves_alone(section_table(variables), seq![section, name]),
{
    reveal_with_fuel(leaves_alone, 3);
    let path = seq![section, name];
    assert(path.drop_first() =~= seq![name]);
}

/// Whatever the defaults say, a variable that the environment sets over all files
/// holds in the merged config, and so does one that it sets below the files, if it
/// does not set it over them too.
pub proof fn law_environment_beats_default(
    layers: Seq<ConfigLayer>,
    default: config::Config,
    env: EnvVars,
    merged: TreeTable,
    section: Seq<char>,
    name: Seq<char>,
)
    requires
        environment_layers(layers, default, env),
        read_settled(layers),
        merged_tables(layer_tables(layers), merged),
    ensures
        env.override_variables().contains_key((section, name)) ==> holds_variable(
            ValueTree::Table(merged),
            seq![section, name],
            ValueTree::String(env.override_variables()[(section, name)]),
        ),
        !env.override_variables().contains_key((section, name))
            && env.base_variables().contains_key((section, name)) ==> holds_variable(
            ValueTree::Table(merged),
            seq![section, name],
            ValueTree::String(env.base_variables()[(section, name)]),
        ),
{
    let tables = layer_tables(layers);
    let path = seq![section, name];
    assert(by_precedence(layers));
    assert(tables[1] == section_table(env.base_variables()));
    assert(tables[2] == section_table(env.override_variables()));
    if env.override_variables().contains_key((section, name)) {
        lemma_section_holds(env.override_variables(), section, name);
        law_source_of_highest_precedence_wins(
            layers,
            merged,
            2,
            path,
            ValueTree::String(env.override_variables()[(section, name)]),
        );
    } else if env.base_variables().contains_key((section, name)) {
        lemma_section_leaves_alone(env.override_variables(), section, name);
        lemma_section_holds(env.base_variables(), section, name);
        law_source_of_highest_precedence_wins(
            layers,
            merged,
            1,
            path,
            ValueTree::String(env.base_variables()[(section, name)]),
        );
    }
}

/// Whatever the defaults say, `PAGER` is the pager of the merged config, and the editor
/// is `JJ_EDITOR`, or else `VISUAL`, or else `EDITOR`.
pub proof fn law_pager_and_editor_of_the_environment(
    layers: Seq<ConfigLayer>,
    default: config::Config,
    env: EnvVars,
    merged: TreeTable,
)
    requires
        environment_layers(layers, default, env),
        read_settled(layers),
        merged_tables(layer_tables(layers), merged),
    ensures
        env.pager matches Some(pager) ==> holds_variable(
            ValueTree::Table(merged),
            seq!["ui"@, "pager"@],
            ValueTree::String(pager@),
        ),
        (match (env.jj_editor, env.visual, env.editor) {
            (Some(editor), _, _) => Some(editor@),
            (None, Some(editor), _) => Some(editor@),
            (None, None, Some(editor)) => Some(editor@),
            (None, None, None) => None,
        }) matches Some(editor) ==> holds_variable(
            ValueTree::Table(merged),
            seq!["ui"@, "editor"@],
            ValueTree::String(editor),
        ),
{
    lemma_names_differ();
    law_environment_beats_default(layers, default, env, merged, "ui"@, "pager"@);
    law_environment_beats_default(layers, default, env, merged, "ui"@, "editor"@);
}

/// The names of the variables that the environment sets differ.
proof fn lemma_names_differ()
    ensures
        "ui"@ != "user"@,
        "ui"@ != "debug"@,
        "ui"@ != "operation"@,
        "pager"@ != "editor"@,
        "pager"@ != "color"@,
        "color"@ != "editor"@,
{
    reveal_strlit("ui");
    reveal_strlit("user");
    reveal_strlit("debug");
    reveal_strlit("operation");
    reveal_strlit("pager");
    reveal_strlit("editor");
    reveal_strlit("color");
    assert("ui"@.len() == 2);
    assert("user"@.len() == 4);
    assert("debug"@.len() == 5);
    assert("operation"@.len() == 9);
    assert("pager"@[0] == 'p' && "editor"@[0] == 'e' && "color"@[0] == 'c');
}

/// A pager that a file of the user or of the repo sets is the pager of the merged
/// config, whatever the defaults and `PAGER` say, unless a file above sets something
/// else or the command line does.
pub proof fn law_files_set_the_pager(
    layers: Seq<ConfigLayer>,
    env: EnvVars,
    merged: TreeTable,
    i: int,
    pager: ValueTree,
)
    requires
        by_precedence(layers),
        read_settled(layers),
        merged_tables(layer_tables(layers), merged),
        0 <= i < layers.len(),
        layers[i].source == ConfigSource::User || layers[i].source == ConfigSource::Repo,
        holds_variable(
            ValueTree::Table(layer_tables(layers)[i]),
            seq!["ui"@, "pager"@],
            pager,
        ),
        forall|j: int|
            i < j < layers.len() ==> (if (#[trigger] layers[j]).source
                == ConfigSource::EnvOverrides {
                config_tree(layers[j].data) == ValueTree::Table(
                    section_table(env.override_variables()),
                )
            } else {
                leaves_alone(config_tree(layers[j].data)->Table_0, seq!["ui"@, "pager"@])
            }),
    ensures
        holds_variable(ValueTree::Table(merged), seq!["ui"@, "pager"@], pager),
{
    let tables = layer_tables(layers);
    let path = seq!["ui"@, "pager"@];
    lemma_names_differ();
    lemma_section_leaves_alone(env.override_variables(), "ui"@, "pager"@);
    assert forall|j: int|
        0 <= j < layers.len() && (layers[j].source.spec_rank() > layers[i].source.spec_rank() || (
        layers[j].source == layers[i].source && j > i)) implies leaves_alone(
        #[trigger] tables[j],
        path,
    ) by {
        if j < i {
            assert(layers[j].source.spec_rank() <= layers[i].source.spec_rank());
        }
        assert(j > i);
        assert(tables[j] == config_tree(layers[j].data)->Table_0);
    }
    law_source_of_highest_precedence_wins(layers, merged, i, path, pager);
}

/// The variables of the layers are listed in order of precedence.
pub proof fn law_listed_by_precedence(
    layers: Seq<ConfigLayer>,
    prefix: Seq<Seq<char>>,
    i: int,
    j: int,
)
    requires
        by_precedence(layers),
        0 <= i <= j < resolved(sourced_trees(layers), prefix).len(),
    ensures
        resolved(sourced_trees(layers), prefix)[i].source.spec_rank() <= resolved(
            sourced_trees(layers),
            prefix,
        )[j].source.spec_rank(),
{
    let trees = sourced_trees(layers);
    assert forall|i: int, j: int| 0 <= i < j < trees.len() implies (
    #[trigger] trees[i]).0.spec_rank() <= (#[trigger] trees[j]).0.spec_rank() by {
        assert(layers[i].source.spec_rank() <= layers[j].source.spec_rank());
    }
    law_listing_goes_by_precedence(trees, prefix, i, j);
}

/// Reading files of a source again leaves nothing of what was read before.
pub proof fn law_reading_again_replaces(
    first: Seq<ConfigLayer>,
    second: Seq<ConfigLayer>,
    third: Seq<ConfigLayer>,
    source: ConfigSource,
    old_files: Result<Vec<TomlText>, ConfigEnvError>,
    old_result: Result<(), ConfigEnvError>,
    new_files: Result<Vec<TomlText>, ConfigEnvError>,
    new_result: Result<(), ConfigEnvError>,
)
    requires
        replaced_by_files(first, source, old_files, second, old_result),
        replaced_by_files(second, source, new_files, third, new_result),
    ensures
        replaced_by_files(first, source, new_files, third, new_result),
        without_source(third, source) == without_source(first, source),
{
    lemma_others_kept(first, source, old_files, second, old_result);
    lemma_others_kept(second, source, new_files, third, new_result);
}

/// Whatever comes of reading files, the layers of all other sources stay.
proof fn lemma_others_kept(
    before: Seq<ConfigLayer>,
    source: ConfigSource,
    files: Result<Vec<TomlText>, ConfigEnvError>,
    after: Seq<ConfigLayer>,
    result: Result<(), ConfigEnvError>,
)
    requires
        replaced_by_files(before, source, files, after, result),
    ensures
        without_source(after, source) == without_source(before, source),
{
    if files is Ok && result is Ok {
        let layers = choose|layers: Seq<ConfigLayer>| #[trigger]
            file_layers(source, files->Ok_0@, layers) && layers_added(
                without_source(before, source),
                source,
                layers,
                after,
            );
        law_other_layers_are_kept(before, source, layers, after);
    } else {
        law_removing_is_idempotent(before, source);
    }
}

/// Parsing configs of the command line again leaves nothing of those before.
pub proof fn law_parsing_again_replaces(
    first: Seq<ConfigLayer>,
    second: Seq<ConfigLayer>,
    third: Seq<ConfigLayer>,
    old_tables: Seq<TableResult>,
    old_result: Result<(), ConfigEnvError>,
    new_tables: Seq<TableResult>,
    new_result: Result<(), ConfigEnvError>,
)
    requires
        args_parsed(first, old_tables, second, old_result),
        args_parsed(second, new_tables, third, new_result),
    ensures
        args_parsed(first, new_tables, third, new_result),
{
    let rest = without_source(first, ConfigSource::CommandArg);
    law_removing_is_idempotent(first, ConfigSource::CommandArg);
    if old_result is Ok {
        assert(second.drop_last() =~= rest);
    }
}

/// What becomes of the layers when those from `source` are replaced by a file
/// that may be missing.
pub open spec fn replaced_by_file(
    before: Seq<ConfigLayer>,
    source: ConfigSource,
    file: Result<Option<TomlText>, ConfigEnvError>,
    after: Seq<ConfigLayer>,
    result: Result<(), ConfigEnvError>,
) -> bool {
    match file {
        Err(error) => result == Err::<(), ConfigEnvError>(error) && after == without_source(
            before,
            source,
        ),
        Ok(None) => result is Ok && after == without_source(before, source),
        Ok(Some(text)) => match result {
            Ok(_) => exists|layer: ConfigLayer| #[trigger]
                file_layers(source, seq![text], seq![layer]) && layers_added(
                    without_source(before, source),
                    source,
                    seq![layer],
                    after,
                ),
            Err(error) => {
                &&& after == without_source(before, source)
                &&& toml_table(text@) matches Err(message)
                &&& error matches ConfigEnvError::ConfigReadError(failure)
                &&& failure@ == ConfigFailureText::Foreign(message)
            },
        },
    }
}

/// What becomes of the layers when the configs of the command line are
/// replaced: the old ones go, and one layer that merges the new ones comes on
/// top, unless one of them is not TOML.
pub open spec fn args_parsed(
    before: Seq<ConfigLayer>,
    tables: Seq<TableResult>,
    after: Seq<ConfigLayer>,
    result: Result<(), ConfigEnvError>,
) -> bool {
    let rest = without_source(before, ConfigSource::CommandArg);
    match result {
        Ok(_) => {
            &&& after.len() == rest.len() + 1
            &&& after == rest.push(after.last())
            &&& after.last().source == ConfigSource::CommandArg
            &&& merged_texts(tables, Ok(after.last().data))
        },
        Err(error) => after == rest && read_error(tables, error),
    }
}

proof fn lemma_replaced_by_file(
    before: Seq<ConfigLayer>,
    source: ConfigSource,
    file: Result<Option<TomlText>, ConfigEnvError>,
    files: Result<Vec<TomlText>, ConfigEnvError>,
    after: Seq<ConfigLayer>,
    result: Result<(), ConfigEnvError>,
)
    requires
        replaced_by_files(before, source, files, after, result),
        match (file, files) {
            (Ok(Some(text)), Ok(texts)) => texts@ == seq![text],
            (Ok(None), Ok(texts)) => texts@.len() == 0,
            (Err(a), Err(b)) => a == b,
            _ => false,
        },
    ensures
        replaced_by_file(before, source, file, after, result),
{
    let rest = without_source(before, source);
    if let Ok(texts) = files {
        match result {
            Ok(_) => {
                let layers = choose|layers: Seq<ConfigLayer>| #[trigger]
                    file_layers(source, texts@, layers) && layers_added(
                        rest,
                        source,
                        layers,
                        after,
                    );
                if file->Ok_0 is Some {
                    assert(layers =~= seq![layers[0]]);
                } else {
                    let p = choose|p: int| #[trigger]
                        insert_point(rest, source, p) && after == rest.take(p) + layers
                            + rest.skip(p);
                    assert(after =~= rest);
                }
            },
            Err(error) => {
                let tables = toml_tables(texts@);
                let message = error->ConfigReadError_0@->Foreign_0;
                let k = choose|k: int|
                    0 <= k < tables.len() && #[trigger] tables[k] == TableResult::Err(message)
                        && all_tables(tables.take(k));
                assert(tables[k] == toml_table(texts@[k]@));
            },
        }
    }
}

proof fn lemma_replaced_mergeable(
    before: Seq<ConfigLayer>,
    source: ConfigSource,
    files: Result<Vec<TomlText>, ConfigEnvError>,
    after: Seq<ConfigLayer>,
    result: Result<(), ConfigEnvError>,
)
    requires
        replaced_by_files(before, source, files, after, result),
    ensures
        all_mergeable(before) ==> all_mergeable(after),
{
    if all_mergeable(before) {
        let rest = without_source(before, source);
        lemma_without_source(before, source);
        assert forall|i: int| 0 <= i < rest.len() implies mergeable((#[trigger] rest[i]).data) by {
            assert(before.contains(rest[i]));
        }
        if files is Ok && result is Ok {
            let texts = files->Ok_0@;
            let layers = choose|layers: Seq<ConfigLayer>| #[trigger]
                file_layers(source, texts, layers) && layers_added(rest, source, layers, after);
            lemma_added_contains(rest, source, layers, after);
            assert forall|i: int| 0 <= i < after.len() implies mergeable(
                (#[trigger] after[i]).data,
            ) by {
                if layers.contains(after[i]) {
                    let j = choose|j: int| 0 <= j < layers.len() && layers[j] == after[i];
                    assert(layers[j].source == source);
                } else {
                    assert(rest.contains(after[i]));
                }
            }
        }
    }
}

/// A variable that a layer holds has its value in the merged config, if all layers behind
/// it say nothing about it, and no other name leads to its entry in the layer and in those
/// behind it. What the layers before it hold does not matter.
pub proof fn law_merging_keeps_what_later_layers_leave_alone(
    layers: Seq<ConfigLayer>,
    config: config::Config,
    i: int,
    path: Seq<Seq<char>>,
)
    requires
        merges(layer_tables(layers), config),
        0 <= i < layers.len(),
        config_tree(layers[i].data) is Table,
        path.len() > 0,
        lookup_tree(config_tree(layers[i].data), path) matches Some(value) && !(value is Table),
        root_of(path[0]) == path[0],
        forall|j: int, other: Seq<char>|
            i <= j < layers.len() && #[trigger] config_tree(
                layers[j].data,
            )->Table_0.contains_key(other) && root_of(other) == path[0] ==> other == path[0],
        forall|j: int|
            i < j < layers.len() ==> #[trigger] says_nothing_at(
                        config_tree(layers[j].data),
                        path,
                    ),
    ensures
        lookup_tree(config_tree(config), path) == lookup_tree(config_tree(layers[i].data), path),
{
    let tables = layer_tables(layers);
    let value = lookup_tree(config_tree(layers[i].data), path)->Some_0;
    assert(forall|j: int|
        0 <= j < layers.len() ==> #[trigger] tables[j] == config_tree(layers[j].data)->Table_0);
    assert(holds_variable(ValueTree::Table(tables[i]), path, value));
    assert forall|j: int, other: Seq<char>|
        i <= j < tables.len() && #[trigger] tables[j].contains_key(other) && root_of(other)
            == path[0] implies other == path[0] by {
        assert(config_tree(layers[j].data)->Table_0.contains_key(other));
    }
    assert forall|j: int| i < j < tables.len() implies leaves_alone(#[trigger] tables[j], path) by {
        assert(says_nothing_at(config_tree(layers[j].data), path));
        assert(config_tree(layers[j].data) is Table) by {
            reveal(says_nothing_at);
        }
        law_table_without_names_leaves_a_variable_alone(tables[j], path);
    }
    law_highest_table_wins(tables, config_tree(config)->Table_0, i, path, value);
}

/// Every layer holds a table, and no name at its top holds a dot or a bracket, so that
/// none reads as a path.
pub open spec fn with_plain_names(layers: Seq<ConfigLayer>) -> bool {
    forall|i: int|
        0 <= i < layers.len() ==> {
            &&& config_tree((#[trigger] layers[i]).data) is Table
            &&& forall|name: Seq<char>| #[trigger]
                config_tree(layers[i].data)->Table_0.contains_key(name) ==> !name.contains('.')
                    && !name.contains('[')
        }
}

/// Layers can be merged if each of them holds a table, and no name at its top holds a
/// bracket.
pub proof fn law_layers_without_brackets_can_be_merged(layers: Seq<ConfigLayer>)
    requires
        forall|i: int|
            0 <= i < layers.len() ==> {
                &&& config_tree((#[trigger] layers[i]).data) is Table
                &&& forall|name: Seq<char>| #[trigger]
                    config_tree(layers[i].data)->Table_0.contains_key(name) ==> !name.contains('[')
            },
    ensures
        all_mergeable(layers),
        all_readable(layers),
{
    assert forall|i: int| 0 <= i < layers.len() implies mergeable((#[trigger] layers[i]).data) by {
        let table = config_tree(layers[i].data)->Table_0;
        assert forall|name: Seq<char>| #[trigger] table.contains_key(name) implies !wild_name(
            name,
        ) by {
            law_name_without_bracket_has_no_index(name);
        }
    }
}

/// Merging sets all that the layers hold, layer by layer, in their order.
pub proof fn law_layers_are_merged_one_by_one(layers: Seq<ConfigLayer>, config: config::Config)
    requires
        merges(layer_tables(layers), config),
    ensures
        config_tree(config) is Table,
        set_over_all(
            Seq::new(layers.len(), |i: int| config_tree(layers[i].data)->Table_0),
            config_tree(config)->Table_0,
        ),
{
    assert(layer_tables(layers) =~= Seq::new(
        layers.len(),
        |i: int| config_tree(layers[i].data)->Table_0,
    ));
}

/// A listing fails if and only if a layer does not hold a table, with the error of the
/// first such layer.
pub proof fn law_listing_fails_where_a_layer_holds_no_table(
    layers: Seq<ConfigLayer>,
    error: ConfigFailure,
)
    ensures
        all_readable(layers) <==> forall|i: int|
            0 <= i < layers.len() ==> config_tree((#[trigger] layers[i]).data) is Table,
        first_unreadable(layers, error) ==> exists|i: int|
            {
                &&& 0 <= i < layers.len()
                &&& !(config_tree((#[trigger] layers[i]).data) is Table)
                &&& forall|j: int|
                    0 <= j < i ==> config_tree((#[trigger] layers[j]).data) is Table
                &&& error@ == ConfigFailureText::Foreign(collect_error(layers[i].data))
            },
{
    if first_unreadable(layers, error) {
        let i = choose|i: int|
            {
                &&& 0 <= i < layers.len()
                &&& !(config_tree((#[trigger] layers[i]).data) is Table)
                &&& all_readable(layers.take(i))
                &&& error@ == ConfigFailureText::Foreign(collect_error(layers[i].data))
            };
        assert forall|j: int| 0 <= j < i implies config_tree((#[trigger] layers[j]).data) is Table by {
            assert(layers.take(i)[j] == layers[j]);
        }
    }
}

/// The merged config of layers with plain names holds a variable if and only if a layer
/// holds it and all layers behind that one say nothing about it.
pub proof fn law_merged_config_goes_by_the_order_of_the_layers(
    layers: Seq<ConfigLayer>,
    config: config::Config,
    path: Seq<Seq<char>>,
    value: ValueTree,
)
    requires
        with_plain_names(layers),
        merges(layer_tables(layers), config),
        !(value is Table),
    ensures
        lookup_tree(config_tree(config), path) == Some(value) <==> exists|i: int|
            {
                &&& 0 <= i < layers.len()
                &&& #[trigger] lookup_tree(config_tree(layers[i].data), path) == Some(value)
                &&& forall|j: int|
                    i < j < layers.len() ==> #[trigger] says_nothing_at(
                        config_tree(layers[j].data),
                        path,
                    )
            },
        config_tree(config) == ValueTree::Table(
            overlaid_all(
                Seq::new(layers.len(), |i: int| config_tree(layers[i].data)->Table_0),
            ),
        ),
{
    let tables = layer_tables(layers);
    assert(tables =~= Seq::new(layers.len(), |i: int| config_tree(layers[i].data)->Table_0));
    assert forall|j: int, name: Seq<char>|
        0 <= j < tables.len() && #[trigger] tables[j].contains_key(name) implies !name.contains('.')
        && !name.contains('[') by {
        assert(config_tree(layers[j].data)->Table_0.contains_key(name));
    }
    lemma_plain_tables(tables, config);
    lemma_order_of_layers(layers, path, value);
}

/// Which variables come of laying the tables of layers over each other.
proof fn lemma_order_of_layers(
    layers: Seq<ConfigLayer>,
    path: Seq<Seq<char>>,
    value: ValueTree,
)
    requires
        forall|i: int|
            0 <= i < layers.len() ==> config_tree((#[trigger] layers[i]).data) is Table,
        !(value is Table),
    ensures
        lookup_tree(ValueTree::Table(overlaid_all(layer_tables(layers))), path) == Some(value)
            <==> exists|i: int|
            {
                &&& 0 <= i < layers.len()
                &&& #[trigger] lookup_tree(config_tree(layers[i].data), path) == Some(value)
                &&& forall|j: int|
                    i < j < layers.len() ==> #[trigger] says_nothing_at(
                        config_tree(layers[j].data),
                        path,
                    )
            },
{
    let tables = layer_tables(layers);
    let merged = ValueTree::Table(overlaid_all(tables));
    law_order_of_tables_decides(tables, path, value);
    if lookup_tree(merged, path) == Some(value) {
        assert(holds_variable(merged, path, value));
        let i = choose|i: int|
            {
                &&& 0 <= i < tables.len()
                &&& #[trigger] holds_variable(ValueTree::Table(tables[i]), path, value)
                &&& forall|j: int|
                    i < j < tables.len() ==> #[trigger] says_nothing_at(
                        ValueTree::Table(tables[j]),
                        path,
                    )
            };
        assert(config_tree(layers[i].data) is Table);
        assert(ValueTree::Table(tables[i]) == config_tree(layers[i].data));
        assert forall|j: int| i < j < layers.len() implies #[trigger] says_nothing_at(
                        config_tree(layers[j].data),
                        path,
                    ) by {
            assert(config_tree(layers[j].data) is Table);
            assert(ValueTree::Table(tables[j]) == config_tree(layers[j].data));
            assert(says_nothing_at(ValueTree::Table(tables[j]), path));
        }
    }
    if exists|i: int|
        {
            &&& 0 <= i < layers.len()
            &&& #[trigger] lookup_tree(config_tree(layers[i].data), path) == Some(value)
            &&& forall|j: int|
                i < j < layers.len() ==> #[trigger] says_nothing_at(
                        config_tree(layers[j].data),
                        path,
                    )
        } {
        let i = choose|i: int|
            {
                &&& 0 <= i < layers.len()
                &&& #[trigger] lookup_tree(config_tree(layers[i].data), path) == Some(value)
                &&& forall|j: int|
                    i < j < layers.len() ==> #[trigger] says_nothing_at(
                        config_tree(layers[j].data),
                        path,
                    )
            };
        assert(config_tree(layers[i].data) is Table);
        assert(ValueTree::Table(tables[i]) == config_tree(layers[i].data));
        assert(holds_variable(ValueTree::Table(tables[i]), path, value));
        assert forall|j: int| i < j < tables.len() implies #[trigger] says_nothing_at(
                        ValueTree::Table(tables[j]),
                        path,
                    ) by {
            assert(config_tree(layers[j].data) is Table);
            assert(ValueTree::Table(tables[j]) == config_tree(layers[j].data));
            assert(says_nothing_at(config_tree(layers[j].data), path));
        }
        assert(holds_variable(merged, path, value));
    }
}

/// A listing goes layer by layer, and in each layer by the paths of the variables in
/// ascending order. What is listed for a layer is what the layer holds under the prefix,
/// each variable once, with the source of the layer. A variable is marked as overridden
/// if and only if a layer behind its own says something about it.
pub proof fn law_listing_follows_the_layers(
    layers: Seq<ConfigLayer>,
    prefix: Seq<Seq<char>>,
    listed: Seq<AnnotatedValue>,
) -> (owners: Seq<int>)
    requires
        all_readable(layers),
        all_finite(sourced_trees(layers)),
        views(listed) == resolved(sourced_trees(layers), prefix),
    ensures
        owners.len() == listed.len(),
        forall|k: int|
            0 <= k < listed.len() ==> {
                let value = #[trigger] listed[k];
                &&& 0 <= owners[k] < layers.len()
                &&& value.source == layers[owners[k]].source
                &&& prefix.is_prefix_of(value.path@)
                &&& lookup_tree(config_tree(layers[owners[k]].data), value.path@) == Some(
                    value.value@,
                )
                &&& !(value.value@ is Table)
                &&& value.path@.len() > 0 ==> (value.is_overridden <==> exists|j: int|
                    owners[k] < j < layers.len() && !says_nothing_at(
                        config_tree((#[trigger] layers[j]).data),
                        value.path@,
                    ))
            },
        forall|k: int, l: int|
            0 <= k < l < listed.len() ==> owners[k] < owners[l] || (owners[k] == owners[l]
                && path_before((#[trigger] listed[k]).path@, (#[trigger] listed[l]).path@)),
        forall|i: int, path: Seq<Seq<char>>|
            0 <= i < layers.len() && prefix.is_prefix_of(path) && (#[trigger] lookup_tree(
                config_tree(layers[i].data),
                path,
            ) matches Some(value) && !(value is Table)) ==> exists|k: int|
                0 <= k < listed.len() && owners[k] == i && (#[trigger] listed[k]).path@ == path,
{
    let trees = sourced_trees(layers);
    let all = resolved(trees, prefix);
    assert(forall|i: int|
        0 <= i < layers.len() ==> #[trigger] trees[i] == (
            layers[i].source,
            config_tree(layers[i].data),
        ));
    let owners = law_listing_goes_layer_by_layer(trees, prefix);
    assert(forall|k: int| 0 <= k < listed.len() ==> #[trigger] views(listed)[k] == listed[k]@);
    assert forall|k: int| 0 <= k < listed.len() implies {
        let value = #[trigger] listed[k];
        &&& 0 <= owners[k] < layers.len()
        &&& value.source == layers[owners[k]].source
        &&& prefix.is_prefix_of(value.path@)
        &&& lookup_tree(config_tree(layers[owners[k]].data), value.path@) == Some(value.value@)
        &&& !(value.value@ is Table)
        &&& value.path@.len() > 0 ==> (value.is_overridden <==> exists|j: int|
            owners[k] < j < layers.len() && !says_nothing_at(
                config_tree((#[trigger] layers[j]).data),
                value.path@,
            ))
    } by {
        let path = listed[k].path@;
        let n = owners[k];
        assert(all[k] == views(listed)[k]);
        assert forall|j: int| 0 <= j < layers.len() implies overrides(
            (#[trigger] trees[j]).1,
            path,
        ) == !says_nothing_at(config_tree(layers[j].data), path) by {
            assert(config_tree(layers[j].data) is Table);
            law_table_without_names_leaves_a_variable_alone(
                config_tree(layers[j].data)->Table_0,
                path,
            );
        }
        if overridden_above(trees, n, path) {
            let m = choose|m: int| n < m < trees.len() && overrides((#[trigger] trees[m]).1, path);
            assert(!says_nothing_at(config_tree(layers[m].data), path));
        }
        if exists|j: int|
            n < j < layers.len() && !#[trigger] says_nothing_at(
                        config_tree(layers[j].data),
                        path,
                    ) {
            let j = choose|j: int|
                n < j < layers.len() && !#[trigger] says_nothing_at(
                        config_tree(layers[j].data),
                        path,
                    );
            assert(overrides(trees[j].1, path));
        }
    }
    assert forall|k: int, l: int| 0 <= k < l < listed.len() implies owners[k] < owners[l] || (
    owners[k] == owners[l] && path_before(
        (#[trigger] listed[k]).path@,
        (#[trigger] listed[l]).path@,
    )) by {
        assert(all[k] == views(listed)[k] && all[l] == views(listed)[l]);
    }
    assert forall|i: int, path: Seq<Seq<char>>|
        0 <= i < layers.len() && prefix.is_prefix_of(path) && (#[trigger] lookup_tree(
            config_tree(layers[i].data),
            path,
        ) matches Some(value) && !(value is Table)) implies exists|k: int|
        0 <= k < listed.len() && owners[k] == i && (#[trigger] listed[k]).path@ == path by {
        assert(lookup_tree(trees[i].1, path) is Some);
        let k = choose|k: int|
            0 <= k < owners.len() && owners[k] == i && (#[trigger] all[k]).path == path;
        assert(views(listed)[k] == all[k]);
        assert(listed[k].path@ == path);
    }
    owners
}

/// What is read from one text is what the text says, if no name at its top holds a dot or
/// a bracket.
proof fn lemma_plain_text(text: Seq<char>, config: config::Config)
    requires
        merged_texts(seq![toml_table(text)], Ok(config)),
    ensures
        toml_table(text) matches Ok(table) && ((forall|name: Seq<char>| #[trigger]
            table.contains_key(name) ==> !name.contains('.') && !name.contains('['))
            ==> config_tree(config) == ValueTree::Table(table)) && set_over_all(
            seq![table],
            config_tree(config)->Table_0,
        ),
{
    let results = seq![toml_table(text)];
    assert(results[0] is Ok);
    let table = results[0]->Ok_0;
    let tables = seq![table];
    assert(tables_of(results) =~= tables);
    if forall|name: Seq<char>| #[trigger]
        table.contains_key(name) ==> !name.contains('.') && !name.contains('[') {
        assert forall|j: int, name: Seq<char>|
            0 <= j < tables.len() && #[trigger] tables[j].contains_key(name) implies !name.contains(
            '.',
        ) && !name.contains('[') by {}
        lemma_plain_tables(tables, config);
        assert(tables.drop_last() =~= Seq::empty());
        assert(overlaid_onto(Map::empty(), tables.drop_last()) == Map::<
            Seq<char>,
            ValueTree,
        >::empty());
        assert(overlaid_all(tables) == overlaid(Map::empty(), table));
        law_empty_table_is_neutral(table);
    }
}

/// What becomes of layers when those of a source are replaced by others of that source.
proof fn lemma_replaced_layers(
    before: Seq<ConfigLayer>,
    source: ConfigSource,
    added: Seq<ConfigLayer>,
    after: Seq<ConfigLayer>,
)
    requires
        by_precedence(before),
        layers_added(without_source(before, source), source, added, after),
        forall|i: int| 0 <= i < added.len() ==> (#[trigger] added[i]).source == source,
    ensures
        by_precedence(after),
        after.filter(|layer: ConfigLayer| layer.source != source) == before.filter(
            |layer: ConfigLayer| layer.source != source,
        ),
        after.filter(|layer: ConfigLayer| layer.source == source) == added,
{
    let rest = without_source(before, source);
    lemma_without_source(before, source);
    law_removing_keeps_other_sources(before, source);
    law_added_layers_come_last_of_their_source(rest, source, added, after);
    law_removing_keeps_other_sources(rest, source);
    law_removing_is_idempotent(before, source);
    lemma_nothing_of_source(rest, source);
    assert(after.filter(|layer: ConfigLayer| layer.source == source) =~= added);
}

/// Files that were read make one layer each, from their source, in their order, behind
/// each other. Each layer holds what the text of its file says, if no name at the top of
/// the text holds a dot or a bracket. All layers of other sources stay, in their order.
pub proof fn law_files_become_layers(
    before: Seq<ConfigLayer>,
    source: ConfigSource,
    texts: Vec<TomlText>,
    after: Seq<ConfigLayer>,
)
    requires
        by_precedence(before),
        replaced_by_files(before, source, Ok(texts), after, Ok(())),
    ensures
        by_precedence(after),
        after.filter(|layer: ConfigLayer| layer.source != source) == before.filter(
            |layer: ConfigLayer| layer.source != source,
        ),
        after.filter(|layer: ConfigLayer| layer.source == source).len() == texts@.len(),
        forall|k: int|
            0 <= k < texts@.len() ==> {
                let layer = after.filter(|layer: ConfigLayer| layer.source == source)[k];
                &&& layer.source == source
                &&& toml_table((#[trigger] texts@[k])@) matches Ok(table) && ((forall|
                    name: Seq<char>,
                | #[trigger]
                    table.contains_key(name) ==> !name.contains('.') && !name.contains('['))
                    ==> config_tree(layer.data) == ValueTree::Table(table)) && set_over_all(
                    seq![table],
                    config_tree(layer.data)->Table_0,
                )
            },
{
    let layers = choose|layers: Seq<ConfigLayer>| #[trigger]
        file_layers(source, texts@, layers) && layers_added(
            without_source(before, source),
            source,
            layers,
            after,
        );
    lemma_replaced_layers(before, source, layers, after);
    assert forall|k: int| 0 <= k < texts@.len() implies {
        let layer = layers[k];
        &&& layer.source == source
        &&& toml_table((#[trigger] texts@[k])@) matches Ok(table) && ((forall|name: Seq<char>|
         #[trigger]
            table.contains_key(name) ==> !name.contains('.') && !name.contains('['))
            ==> config_tree(layer.data) == ValueTree::Table(table)) && set_over_all(
            seq![table],
            config_tree(layer.data)->Table_0,
        )
    } by {
        assert(layers[k].source == source);
        lemma_plain_text(texts@[k]@, layers[k].data);
    }
}

/// Where no layer comes from a source, nothing is left of a filter by that source.
proof fn lemma_nothing_of_source(layers: Seq<ConfigLayer>, source: ConfigSource)
    requires
        forall|i: int| 0 <= i < layers.len() ==> (#[trigger] layers[i]).source != source,
    ensures
        layers.filter(|layer: ConfigLayer| layer.source == source) == Seq::<ConfigLayer>::empty(),
    decreases layers.len(),
{
    reveal(Seq::filter);
    if layers.len() > 0 {
        let front = layers.drop_last();
        assert forall|i: int| 0 <= i < front.len() implies (#[trigger] front[i]).source != source by {
            assert(front[i] == layers[i]);
        }
        lemma_nothing_of_source(front, source);
        assert(layers[layers.len() - 1].source != source);
    }
}

/// Files are read if and only if all of them are TOML. Otherwise the error of the first
/// one that is not is reported. An error on the way to the files is reported as it is.
/// Wherever an error is reported, the layers of the source are gone and all others stay.
pub proof fn law_files_that_are_not_toml_are_reported(
    before: Seq<ConfigLayer>,
    source: ConfigSource,
    files: Result<Vec<TomlText>, ConfigEnvError>,
    after: Seq<ConfigLayer>,
    result: Result<(), ConfigEnvError>,
)
    requires
        replaced_by_files(before, source, files, after, result),
    ensures
        files matches Err(error) ==> result == Err::<(), ConfigEnvError>(error),
        files matches Ok(texts) ==> (result is Ok <==> forall|k: int|
            0 <= k < texts@.len() ==> toml_table((#[trigger] texts@[k])@) is Ok),
        files matches Ok(texts) ==> (result matches Err(error) ==> exists|k: int|
            {
                &&& 0 <= k < texts@.len()
                &&& forall|l: int| 0 <= l < k ==> toml_table((#[trigger] texts@[l])@) is Ok
                &&& toml_table((#[trigger] texts@[k])@) matches Err(message) && error matches
                    ConfigEnvError::ConfigReadError(failure) && failure@
                    == ConfigFailureText::Foreign(message)
            }),
        result is Err ==> after == before.filter(|layer: ConfigLayer| layer.source != source),
{
    law_removing_keeps_other_sources(before, source);
    if let Ok(texts) = files {
        let tables = toml_tables(texts@);
        assert(forall|k: int|
            0 <= k < texts@.len() ==> #[trigger] tables[k] == toml_table(texts@[k]@));
        match result {
            Ok(_) => {
                let layers = choose|layers: Seq<ConfigLayer>| #[trigger]
                    file_layers(source, texts@, layers) && layers_added(
                        without_source(before, source),
                        source,
                        layers,
                        after,
                    );
                assert forall|k: int| 0 <= k < texts@.len() implies toml_table(
                    (#[trigger] texts@[k])@,
                ) is Ok by {
                    let results = seq![toml_table(texts@[k]@)];
                    assert(merged_texts(results, Ok(layers[k].data)));
                    assert(results[0] is Ok);
                }
            },
            Err(error) => {
                let message = error->ConfigReadError_0@->Foreign_0;
                let k = choose|k: int|
                    0 <= k < tables.len() && #[trigger] tables[k] == TableResult::Err(message)
                        && all_tables(tables.take(k));
                assert(toml_table(texts@[k]@) == TableResult::Err(message));
                assert forall|l: int| 0 <= l < k implies toml_table((#[trigger] texts@[l])@) is Ok by {
                    assert(tables.take(k)[l] is Ok);
                    assert(tables[l] == toml_table(texts@[l]@));
                }
            },
        }
    }
}

/// The repo config is read like a file of the user: the file becomes one layer if it is
/// there, and if it is not, no layer of the repo is left.
pub proof fn law_repo_config_is_read_like_a_file(
    before: Seq<ConfigLayer>,
    file: Result<Option<TomlText>, ConfigEnvError>,
    after: Seq<ConfigLayer>,
    result: Result<(), ConfigEnvError>,
)
    requires
        by_precedence(before),
        replaced_by_file(before, ConfigSource::Repo, file, after, result),
    ensures
        after.filter(|layer: ConfigLayer| layer.source != ConfigSource::Repo) == before.filter(
            |layer: ConfigLayer| layer.source != ConfigSource::Repo,
        ),
        file matches Err(error) ==> result == Err::<(), ConfigEnvError>(error),
        file matches Ok(None) ==> result is Ok && after.filter(
            |layer: ConfigLayer| layer.source == ConfigSource::Repo,
        ).len() == 0,
        file matches Ok(Some(text)) ==> match toml_table(text@) {
            Ok(table) => {
                let layers = after.filter(
                    |layer: ConfigLayer| layer.source == ConfigSource::Repo,
                );
                &&& result is Ok
                &&& layers.len() == 1
                &&& (forall|name: Seq<char>| #[trigger]
                    table.contains_key(name) ==> !name.contains('.') && !name.contains('['))
                    ==> config_tree(layers[0].data) == ValueTree::Table(table)
                &&& set_over_all(seq![table], config_tree(layers[0].data)->Table_0)
            },
            Err(message) => result matches Err(error) && error matches
                ConfigEnvError::ConfigReadError(failure) && failure@ == ConfigFailureText::Foreign(
                message,
            ),
        },
{
    let source = ConfigSource::Repo;
    let rest = without_source(before, source);
    lemma_without_source(before, source);
    law_removing_keeps_other_sources(before, source);
    law_removing_keeps_other_sources(rest, source);
    law_removing_is_idempotent(before, source);
    lemma_nothing_of_source(rest, source);
    if let Ok(Some(text)) = file {
        if result is Ok {
            let layer = choose|layer: ConfigLayer| #[trigger]
                file_layers(source, seq![text], seq![layer]) && layers_added(
                    rest,
                    source,
                    seq![layer],
                    after,
                );
            assert(seq![layer][0] == layer && seq![text][0] == text);
            assert(seq![layer][0].source == source);
            lemma_replaced_layers(before, source, seq![layer], after);
            lemma_plain_text(text@, layer.data);
        }
    }
}

/// The configs of the command line make one layer on top of all others. If no name at the
/// top of their texts holds a dot or a bracket, it holds a variable if and only if a text
/// holds it and all later texts say nothing about it. If a text is not TOML, the error of
/// the first such text is reported, and no layer of the command line is left.
pub proof fn law_command_line_makes_the_last_layer(
    before: Seq<ConfigLayer>,
    texts: Seq<Seq<char>>,
    after: Seq<ConfigLayer>,
    result: Result<(), ConfigEnvError>,
)
    requires
        args_parsed(before, text_tables(texts), after, result),
    ensures
        result is Ok <==> forall|k: int|
            0 <= k < texts.len() ==> toml_table(#[trigger] texts[k]) is Ok,
        result is Ok ==> after.len() > 0 && after.drop_last() == before.filter(
            |layer: ConfigLayer| layer.source != ConfigSource::CommandArg,
        ) && after.last().source == ConfigSource::CommandArg && set_over_all(
            Seq::new(texts.len(), |k: int| toml_table(texts[k])->Ok_0),
            config_tree(after.last().data)->Table_0,
        ),
        result matches Err(error) ==> after == before.filter(
            |layer: ConfigLayer| layer.source != ConfigSource::CommandArg,
        ) && exists|k: int|
            {
                &&& 0 <= k < texts.len()
                &&& forall|l: int| 0 <= l < k ==> toml_table(#[trigger] texts[l]) is Ok
                &&& toml_table(#[trigger] texts[k]) matches Err(message) && error matches
                    ConfigEnvError::ConfigReadError(failure) && failure@
                    == ConfigFailureText::Foreign(message)
            },
        result is Ok && (forall|k: int, name: Seq<char>|
            0 <= k < texts.len() && #[trigger] toml_table(texts[k])->Ok_0.contains_key(name)
                ==> !name.contains('.') && !name.contains('[')) ==> forall|
            path: Seq<Seq<char>>,
            value: ValueTree,
        |
            #![trigger holds_variable(config_tree(after.last().data), path, value)]
            holds_variable(config_tree(after.last().data), path, value) <==> exists|k: int|
                {
                    &&& 0 <= k < texts.len()
                    &&& #[trigger] holds_variable(
                        ValueTree::Table(toml_table(texts[k])->Ok_0),
                        path,
                        value,
                    )
                    &&& forall|l: int|
                        k < l < texts.len() ==> #[trigger] says_nothing_at(
                            ValueTree::Table(toml_table(texts[l])->Ok_0),
                            path,
                        )
                },
{
    let results = text_tables(texts);
    assert(forall|k: int| 0 <= k < texts.len() ==> #[trigger] results[k] == toml_table(texts[k]));
    law_removing_keeps_other_sources(before, ConfigSource::CommandArg);
    match result {
        Ok(_) => {
            assert forall|k: int| 0 <= k < texts.len() implies toml_table(#[trigger] texts[k]) is Ok by {
                assert(results[k] is Ok);
            }
            assert(after.drop_last() =~= without_source(before, ConfigSource::CommandArg));
            let tables = tables_of(results);
            let config = after.last().data;
            assert(tables =~= Seq::new(texts.len(), |k: int| toml_table(texts[k])->Ok_0));
            assert(forall|k: int|
                0 <= k < texts.len() ==> #[trigger] tables[k] == toml_table(texts[k])->Ok_0);
            if forall|k: int, name: Seq<char>|
                0 <= k < texts.len() && #[trigger] toml_table(texts[k])->Ok_0.contains_key(name)
                    ==> !name.contains('.') && !name.contains('[') {
                assert forall|k: int, name: Seq<char>|
                    0 <= k < tables.len() && #[trigger] tables[k].contains_key(
                        name,
                    ) implies !name.contains('.') && !name.contains('[') by {
                    assert(toml_table(texts[k])->Ok_0.contains_key(name));
                }
                lemma_plain_tables(tables, config);
                assert forall|path: Seq<Seq<char>>, value: ValueTree|
                    #![trigger holds_variable(config_tree(after.last().data), path, value)]
                    holds_variable(config_tree(after.last().data), path, value) <==> exists|k: int|
                        {
                            &&& 0 <= k < texts.len()
                            &&& #[trigger] holds_variable(
                        ValueTree::Table(toml_table(texts[k])->Ok_0),
                                path,
                                value,
                            )
                            &&& forall|l: int|
                                k < l < texts.len() ==> #[trigger] says_nothing_at(
                            ValueTree::Table(toml_table(texts[l])->Ok_0),
                                    path,
                                )
                        } by {
                    lemma_variable_of_texts(texts, tables, path, value);
                }
            }
        },
        Err(error) => {
            let message = error->ConfigReadError_0@->Foreign_0;
            let k = choose|k: int|
                0 <= k < results.len() && #[trigger] results[k] == TableResult::Err(message)
                    && all_tables(results.take(k));
            assert(toml_table(texts[k]) == TableResult::Err(message));
            assert forall|l: int| 0 <= l < k implies toml_table(#[trigger] texts[l]) is Ok by {
                assert(results.take(k)[l] is Ok);
                assert(results[l] == toml_table(texts[l]));
            }
        },
    }
}

/// Which variables come of laying the tables of texts over each other.
proof fn lemma_variable_of_texts(
    texts: Seq<Seq<char>>,
    tables: Seq<TreeTable>,
    path: Seq<Seq<char>>,
    value: ValueTree,
)
    requires
        tables.len() == texts.len(),
        forall|k: int| 0 <= k < texts.len() ==> #[trigger] tables[k] == toml_table(texts[k])->Ok_0,
    ensures
        holds_variable(ValueTree::Table(overlaid_all(tables)), path, value) <==> exists|k: int|
            {
                &&& 0 <= k < texts.len()
                &&& #[trigger] holds_variable(
                        ValueTree::Table(toml_table(texts[k])->Ok_0),
                    path,
                    value,
                )
                &&& forall|l: int|
                    k < l < texts.len() ==> #[trigger] says_nothing_at(
                            ValueTree::Table(toml_table(texts[l])->Ok_0),
                        path,
                    )
            },
{
    law_order_of_tables_decides(tables, path, value);
    if holds_variable(ValueTree::Table(overlaid_all(tables)), path, value) {
        let k = choose|i: int|
            {
                &&& 0 <= i < tables.len()
                &&& #[trigger] holds_variable(ValueTree::Table(tables[i]), path, value)
                &&& forall|j: int|
                    i < j < tables.len() ==> #[trigger] says_nothing_at(
                        ValueTree::Table(tables[j]),
                        path,
                    )
            };
        assert(tables[k] == toml_table(texts[k])->Ok_0);
        assert forall|l: int| k < l < texts.len() implies #[trigger] says_nothing_at(
                            ValueTree::Table(toml_table(texts[l])->Ok_0),
            path,
        ) by {
            assert(says_nothing_at(ValueTree::Table(tables[l]), path));
        }
    }
    if exists|k: int|
        {
            &&& 0 <= k < texts.len()
            &&& #[trigger] holds_variable(
                        ValueTree::Table(toml_table(texts[k])->Ok_0),
                path,
                value,
            )
            &&& forall|l: int|
                k < l < texts.len() ==> #[trigger] says_nothing_at(
                            ValueTree::Table(toml_table(texts[l])->Ok_0),
                    path,
                )
        } {
        let k = choose|k: int|
            {
                &&& 0 <= k < texts.len()
                &&& #[trigger] holds_variable(
                        ValueTree::Table(toml_table(texts[k])->Ok_0),
                    path,
                    value,
                )
                &&& forall|l: int|
                    k < l < texts.len() ==> #[trigger] says_nothing_at(
                            ValueTree::Table(toml_table(texts[l])->Ok_0),
                        path,
                    )
            };
        assert(holds_variable(ValueTree::Table(tables[k]), path, value));
        assert forall|l: int| k < l < tables.len() implies #[trigger] says_nothing_at(
                        ValueTree::Table(tables[l]),
                        path,
                    ) by {
            assert(says_nothing_at(ValueTree::Table(toml_table(texts[l])->Ok_0), path));
        }
    }
}

} // verus!
