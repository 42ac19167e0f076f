//! Layers of configuration.
use jj_config::config_crate::{read_config_table, read_value};
use jj_config::defaults::{default_config, try_default_config, BuiltinTexts};
use jj_config::environment::{env_base, env_overrides, EnvVars};
use jj_config::error::{ConfigEnvError, ConfigFailure};
use jj_config::layered::{resolved_config_values, LayeredConfigs};
use jj_config::layers::{ConfigLayer, StackedConfig};
use jj_config::name_path::ConfigNamePathBuf;
use jj_config::source::ConfigSource;
use jj_config::toml_text::{TomlText, TomlTexts};
use jj_config::value::{ConfigEntry, ConfigValue};

fn toml(text: &str) -> TomlText {
    TomlText::new(text.to_owned()).unwrap()
}

fn toml_texts(list: &[&str]) -> TomlTexts {
    TomlTexts::new(list.iter().map(|text| text.to_string()).collect()).unwrap()
}

fn config(text: &str) -> config::Config {
    toml(text).build().unwrap()
}

fn sorted(value: ConfigValue) -> ConfigValue {
    match value {
        ConfigValue::Table(mut entries) => {
            entries.sort_by(|a, b| a.key.cmp(&b.key));
            ConfigValue::Table(entries)
        }
        other => other,
    }
}

fn sources(configs: &LayeredConfigs) -> Vec<ConfigSource> {
    configs.sources().into_iter().map(|(source, _)| source).collect()
}

fn no_vars() -> EnvVars {
    EnvVars {
        no_color: None,
        pager: None,
        visual: None,
        editor: None,
        jj_user: None,
        jj_email: None,
        jj_timestamp: None,
        jj_randomness_seed: None,
        jj_op_timestamp: None,
        jj_op_hostname: None,
        jj_op_username: None,
        jj_editor: None,
    }
}

fn all_vars() -> EnvVars {
    EnvVars {
        no_color: Some(String::new()),
        pager: Some("less".to_owned()),
        visual: Some("vi".to_owned()),
        editor: Some("ed".to_owned()),
        jj_user: Some("me".to_owned()),
        jj_email: Some("me@example.com".to_owned()),
        jj_timestamp: Some("2001-02-03T04:05:06+07:00".to_owned()),
        jj_randomness_seed: Some("12345".to_owned()),
        jj_op_timestamp: Some("2001-02-03T04:05:07+07:00".to_owned()),
        jj_op_hostname: Some("host".to_owned()),
        jj_op_username: Some("user".to_owned()),
        jj_editor: Some("emacs -nw".to_owned()),
    }
}

fn get(config: &config::Config, name: &str) -> Option<String> {
    config.get_string(name).ok()
}

fn read_error(result: Result<(), ConfigEnvError>) -> String {
    match result {
        Err(ConfigEnvError::ConfigReadError(ConfigFailure::Foreign(message))) => message,
        other => panic!("unexpected {other:?}"),
    }
}

#[test]
fn environment_sets_base_variables() {
    let config = env_base(&all_vars());
    assert_eq!(get(&config, "ui.color").as_deref(), Some("never"));
    assert_eq!(get(&config, "ui.pager").as_deref(), Some("less"));
    assert_eq!(get(&config, "ui.editor").as_deref(), Some("vi"));
    assert_eq!(get(&config, "user.name"), None);
}

#[test]
fn editor_counts_where_visual_is_not_set() {
    let config = env_base(&EnvVars { editor: Some("ed".to_owned()), ..no_vars() });
    assert_eq!(get(&config, "ui.editor").as_deref(), Some("ed"));
    assert_eq!(get(&config, "ui.color"), None);
    let config = env_base(&EnvVars { editor: Some("ed".to_owned()), ..all_vars() });
    assert_eq!(get(&config, "ui.editor").as_deref(), Some("vi"));
}

#[test]
fn environment_sets_overrides() {
    let config = env_overrides(&all_vars());
    for (name, value) in [
        ("user.name", "me"),
        ("user.email", "me@example.com"),
        ("debug.commit-timestamp", "2001-02-03T04:05:06+07:00"),
        ("debug.randomness-seed", "12345"),
        ("debug.operation-timestamp", "2001-02-03T04:05:07+07:00"),
        ("operation.hostname", "host"),
        ("operation.username", "user"),
        ("ui.editor", "emacs -nw"),
    ] {
        assert_eq!(get(&config, name).as_deref(), Some(value));
    }
    assert_eq!(get(&config, "ui.pager"), None);
}

#[test]
fn unset_environment_sets_nothing() {
    for config in [env_base(&no_vars()), env_overrides(&no_vars())] {
        assert_eq!(read_config_table(&config), Ok(ConfigValue::Table(vec![])));
    }
}

#[test]
fn environment_makes_three_layers() {
    let configs = LayeredConfigs::from_environment(config("ui.editor = 'pico'"), &all_vars());
    assert_eq!(
        sources(&configs),
        [ConfigSource::Default, ConfigSource::EnvBase, ConfigSource::EnvOverrides]
    );
    let editors: Vec<Option<String>> =
        configs.sources().into_iter().map(|(_, config)| get(config, "ui.editor")).collect();
    assert_eq!(
        editors,
        [Some("pico".to_owned()), Some("vi".to_owned()), Some("emacs -nw".to_owned())]
    );
    assert_eq!(get(&configs.merge(), "ui.editor").as_deref(), Some("emacs -nw"));
}

#[test]
fn layers_override_by_source() {
    let mut configs = LayeredConfigs::from_environment(
        config("ui.editor = 'pico'\nui.pager = 'more'\na.b = 1"),
        &EnvVars { jj_editor: None, ..all_vars() },
    );
    configs.parse_config_args(&toml_texts(&["x = 1\ny = 1", "x = 2"])).unwrap();
    configs.read_repo_config(Ok(Some(toml("ui.pager = 'repo'\nx = 0")))).unwrap();
    configs
        .read_user_config(Ok(vec![toml("ui.pager = 'user'\nui.editor = 'nano'"), toml("z = 5")]))
        .unwrap();
    assert_eq!(
        sources(&configs),
        [
            ConfigSource::Default,
            ConfigSource::EnvBase,
            ConfigSource::User,
            ConfigSource::User,
            ConfigSource::Repo,
            ConfigSource::EnvOverrides,
            ConfigSource::CommandArg,
        ]
    );
    let merged = configs.merge();
    assert_eq!(get(&merged, "ui.pager").as_deref(), Some("repo"));
    assert_eq!(get(&merged, "ui.editor").as_deref(), Some("nano"));
    assert_eq!(get(&merged, "user.name").as_deref(), Some("me"));
    assert_eq!(merged.get::<i64>("a.b").unwrap(), 1);
    assert_eq!(merged.get::<i64>("x").unwrap(), 2);
    assert_eq!(merged.get::<i64>("y").unwrap(), 1);
    assert_eq!(merged.get::<i64>("z").unwrap(), 5);
    assert_eq!(sources(&configs.clone()), sources(&configs));
}

#[test]
fn reading_again_replaces() {
    let mut configs = LayeredConfigs::from_layers(StackedConfig::empty());
    configs.read_user_config(Ok(vec![toml("a = 1"), toml("b = 1")])).unwrap();
    configs.read_repo_config(Ok(Some(toml("c = 1")))).unwrap();
    configs.read_user_config(Ok(vec![toml("d = 1")])).unwrap();
    assert_eq!(sources(&configs), [ConfigSource::User, ConfigSource::Repo]);
    let merged = configs.merge();
    assert!(merged.get::<i64>("a").is_err());
    assert_eq!(merged.get::<i64>("d").unwrap(), 1);
    configs.read_repo_config(Ok(None)).unwrap();
    assert_eq!(sources(&configs), [ConfigSource::User]);
    configs.read_user_config(Ok(vec![])).unwrap();
    assert_eq!(sources(&configs), []);
}

#[test]
fn parsing_args_again_replaces() {
    let mut configs = LayeredConfigs::from_layers(StackedConfig::empty());
    configs.parse_config_args(&toml_texts(&["a = 1"])).unwrap();
    configs.parse_config_args(&toml_texts(&[])).unwrap();
    assert_eq!(sources(&configs), [ConfigSource::CommandArg]);
    assert!(configs.merge().get::<i64>("a").is_err());
}

#[test]
fn text_that_is_not_toml_is_reported() {
    let mut configs = LayeredConfigs::from_layers(StackedConfig::empty());
    configs.read_user_config(Ok(vec![toml("a = 1")])).unwrap();
    let message = read_error(configs.read_user_config(Ok(vec![toml("b = 1"), toml("="), toml("[")])));
    assert_eq!(sources(&configs), []);
    let file = config::File::from_str("=", config::FileFormat::Toml);
    let expected = config::Config::builder().add_source(file).build().unwrap_err().to_string();
    assert_eq!(message, expected);
    assert_eq!(read_error(configs.read_repo_config(Ok(Some(toml("="))))), expected);
    assert_eq!(read_error(configs.parse_config_args(&toml_texts(&["x = 1", "="]))), expected);
    assert_eq!(sources(&configs), []);
}

#[test]
fn error_on_the_way_to_a_file_is_reported() {
    let mut configs = LayeredConfigs::from_layers(StackedConfig::empty());
    configs.read_user_config(Ok(vec![toml("a = 1")])).unwrap();
    let error = || ConfigEnvError::ConfigCreateError("no".to_owned());
    assert_eq!(configs.read_user_config(Err(error())), Err(error()));
    assert_eq!(sources(&configs), []);
    assert_eq!(configs.read_repo_config(Err(error())), Err(error()));
}

#[test]
fn layers_are_kept_in_order() {
    let mut stack = StackedConfig::empty();
    let all = [
        ConfigSource::CommandArg,
        ConfigSource::Default,
        ConfigSource::Repo,
        ConfigSource::EnvBase,
        ConfigSource::EnvOverrides,
        ConfigSource::User,
    ];
    for source in all {
        stack.add_layer(ConfigLayer { source, data: config("") });
    }
    let ranks = |stack: &StackedConfig| -> Vec<u8> {
        stack.layers().iter().map(|layer| layer.source.rank()).collect()
    };
    assert_eq!(ranks(&stack), [0, 1, 2, 3, 4, 5]);
    stack.remove_layers(ConfigSource::Repo);
    stack.remove_layers(ConfigSource::Repo);
    assert_eq!(ranks(&stack), [0, 1, 2, 4, 5]);
    let repo = || ConfigLayer { source: ConfigSource::Repo, data: config("") };
    stack.extend_layers(ConfigSource::Repo, vec![repo(), repo()]);
    assert_eq!(ranks(&stack), [0, 1, 2, 3, 3, 4, 5]);
    assert_eq!(ranks(&stack.clone()), ranks(&stack));
}

#[test]
fn tables_are_merged_and_values_replaced() {
    let merged = toml_texts(&[
        "a = 1\n[t]\nx = 1\ny = 1\n[u]\nv = 1\n",
        "a = 'one'\n[t]\ny = 2\n[t.z]\nw = 3\n",
        "u = 4\n",
        "[u]\n",
    ])
    .build()
    .unwrap();
    assert_eq!(get(&merged, "a").as_deref(), Some("one"));
    assert_eq!(merged.get::<i64>("t.x").unwrap(), 1);
    assert_eq!(merged.get::<i64>("t.y").unwrap(), 2);
    assert_eq!(merged.get::<i64>("t.z.w").unwrap(), 3);
    // An empty table changes nothing that is there.
    assert_eq!(merged.get::<i64>("u").unwrap(), 4);
    let merged = toml_texts(&["u = 4", "[u]\nv = 5"]).build().unwrap();
    assert_eq!(merged.get::<i64>("u.v").unwrap(), 5);
}

#[test]
fn indices_out_of_range_are_no_toml_text() {
    let taken = |text: &str| TomlText::new(text.to_owned()).is_some();
    assert!(!taken("'a[-1]' = 1"));
    assert!(!taken("'a[ -1\t]' = 1"));
    assert!(!taken("'a.b[0][-2].c' = 1"));
    assert!(!taken("'a[9223372036854775807]' = 1"));
    assert!(taken("'a[1234567]' = 1"));
    assert!(taken("a = '[-1]'"));
    // These names do not read as paths.
    assert!(taken("'\u{e9}[-1]' = 1"));
    assert!(taken("'a[-1]x' = 1"));
    assert!(taken("'a[-1' = 1"));
    assert!(taken("'[-1]' = 1"));
    assert!(taken("'a[--1]' = 1"));
    assert!(taken("'a[-99999999999999999999]' = 1"));
    assert!(toml("a = 1").is_toml());
    assert!(!toml("a = ").is_toml());
}

#[test]
fn names_lead_into_tables_and_arrays() {
    let merged = toml("'a.b' = 1\n'c[2]' = 'x'\n'\u{e9}[-1]' = 2").build().unwrap();
    assert_eq!(merged.get::<i64>("a.b").unwrap(), 1);
    assert_eq!(merged.get_array("c").unwrap().len(), 3);
    let merged = toml("'a[1234567]' = 1").build().unwrap();
    assert_eq!(merged.get_array("a").unwrap().len(), 1234568);
}

#[test]
fn index_from_the_end_counts_in_a_lower_text() {
    let texts = |list: &[&str]| TomlTexts::new(list.iter().map(|s| s.to_string()).collect());
    let merged = texts(&["a = [1, 2]", "'a[-1]' = 3"]).unwrap().build().unwrap();
    assert_eq!(merged.get::<Vec<i64>>("a").unwrap(), [1, 3]);
    let merged = texts(&["a.b = [[1], 2]", "'a.b[-2][-1]' = 3"]).unwrap().build().unwrap();
    assert_eq!(merged.get_array("a.b").unwrap().len(), 2);
    assert!(texts(&["a = [1, 2]", "'a[-3]' = 3"]).is_none());
    assert!(texts(&["'a[-1]' = 3"]).is_none());
    assert!(texts(&["a = 1", "'a[-1]' = 3"]).is_none());
    assert!(texts(&["a = [1, 2]\n'a[-1]' = 3"]).is_none());
    // Nothing is merged above an error.
    assert!(texts(&["=", "'a[-1]' = 3"]).is_some());
}

#[test]
fn index_from_the_end_counts_behind_a_path() {
    let texts = |list: &[&str]| TomlTexts::new(list.iter().map(|s| s.to_string()).collect());
    let merged = texts(&["'a.b' = [1]", "'a.b[-1]' = 2"]).unwrap().build().unwrap();
    assert_eq!(merged.get::<Vec<i64>>("a.b").unwrap(), [2]);
    let merged =
        texts(&["a = [1, 2]", "'a[-1]' = 3", "'a[-1]' = 4", "'a[3]' = 5", "'a[-4]' = 0"]).unwrap();
    let values = merged.build().unwrap().get_array("a").unwrap();
    let values: Vec<ConfigValue> = values.into_iter().map(read_value).collect();
    assert_eq!(
        values,
        [ConfigValue::I64(0), ConfigValue::I64(4), ConfigValue::Nil, ConfigValue::I64(5)]
    );
    assert!(texts(&["'a.b' = [1]", "'a.b[-2]' = 2"]).is_none());
    assert!(texts(&["'a.b' = [1]", "'a.b' = 1", "'a.b[-1]' = 2"]).is_none());
}

#[test]
fn values_are_set_at_the_end_of_paths() {
    let merged = config("'a[1].b' = 1\n'c.d.e' = 2");
    assert_eq!(
        read_config_table(&merged).map(|value| sorted(value)),
        Ok(ConfigValue::Table(vec![
            ConfigEntry {
                key: "a".to_owned(),
                value: ConfigValue::Array(vec![
                    ConfigValue::Nil,
                    ConfigValue::Table(vec![ConfigEntry {
                        key: "b".to_owned(),
                        value: ConfigValue::I64(1),
                    }]),
                ]),
            },
            ConfigEntry {
                key: "c".to_owned(),
                value: ConfigValue::Table(vec![ConfigEntry {
                    key: "d".to_owned(),
                    value: ConfigValue::Table(vec![ConfigEntry {
                        key: "e".to_owned(),
                        value: ConfigValue::I64(2),
                    }]),
                }]),
            },
        ]))
    );
    // A table is laid over in a table, and replaces what is there in an array.
    let over = |list: &[&str]| toml_texts(list).build().unwrap();
    let merged = over(&["a.b.x = 1", "'a.b' = { y = 2 }"]);
    assert_eq!(merged.get::<i64>("a.b.x").unwrap(), 1);
    assert_eq!(merged.get::<i64>("a.b.y").unwrap(), 2);
    let merged = over(&["a = [{ x = 1 }]", "'a[0]' = { y = 2 }"]);
    assert!(merged.get::<i64>("a[0].x").is_err());
    assert_eq!(merged.get::<i64>("a[0].y").unwrap(), 2);
    // What is no table or no array gives way to a step into it.
    let merged = over(&["a = 1\nb = 2", "'a.x' = 3\n'b[0]' = 4"]);
    assert_eq!(merged.get::<i64>("a.x").unwrap(), 3);
    assert_eq!(merged.get::<Vec<i64>>("b").unwrap(), [4]);
}

#[test]
fn only_layers_that_can_be_merged_are() {
    let wild = config::Config::builder()
        .add_source(config::File::from_str("a = [1]\nb = 2", config::FileFormat::Toml))
        .build()
        .unwrap();
    let mut configs = LayeredConfigs::from_environment(wild, &no_vars());
    assert_eq!(configs.try_merge().unwrap().get::<i64>("b").unwrap(), 2);
    configs.parse_config_args(&toml_texts(&["b = 3"])).unwrap();
    assert_eq!(configs.try_merge().unwrap().get::<i64>("b").unwrap(), 3);
    let mut broken = config("");
    broken.cache = config::Value::from(5);
    assert!(LayeredConfigs::from_environment(broken, &no_vars()).try_merge().is_none());
    let mut wild = config("");
    let entries = std::collections::HashMap::from([("a[-1]".to_owned(), 1)]);
    wild.cache = config::Value::from(entries);
    assert!(LayeredConfigs::from_environment(wild, &no_vars()).try_merge().is_none());
}

#[test]
fn dotted_name_elsewhere_does_not_matter() {
    // What stands at the top of the defaults came from somewhere else.
    let mut default = config("ui.pager = 'more'");
    default.cache = config::Value::from(std::collections::HashMap::from([
        ("ui.pager".to_owned(), config::Value::from("odd")),
        ("other.name".to_owned(), config::Value::from("x")),
    ]));
    let mut configs = LayeredConfigs::from_environment(default, &all_vars());
    assert_eq!(get(&configs.merge(), "ui.pager").as_deref(), Some("less"));
    assert_eq!(get(&configs.merge(), "ui.editor").as_deref(), Some("emacs -nw"));
    assert_eq!(get(&configs.merge(), "other.name").as_deref(), Some("x"));
    configs.read_user_config(Ok(vec![toml("ui.pager = 'user'")])).unwrap();
    assert_eq!(get(&configs.merge(), "ui.pager").as_deref(), Some("user"));
}

#[test]
fn layer_without_a_table_is_an_error() {
    let mut broken = config("");
    broken.cache = config::Value::from(5);
    let layers = [ConfigLayer { source: ConfigSource::User, data: broken }];
    let mut stack = StackedConfig::empty();
    for layer in layers {
        stack.add_layer(layer);
    }
    let configs = LayeredConfigs::from_layers(stack);
    let error = resolved_config_values(&configs, &ConfigNamePathBuf::root()).unwrap_err();
    assert!(matches!(error, ConfigFailure::Foreign(_)));
}

#[test]
fn sources_occur_once() {
    let mut configs = LayeredConfigs::from_environment(config(""), &no_vars());
    for _ in 0..2 {
        configs.parse_config_args(&toml_texts(&["a = 1", "b = 2"])).unwrap();
        configs.read_repo_config(Ok(Some(toml("a = 1")))).unwrap();
        configs.read_user_config(Ok(vec![toml("a = 1"), toml("b = 1")])).unwrap();
    }
    assert_eq!(
        sources(&configs),
        [
            ConfigSource::Default,
            ConfigSource::EnvBase,
            ConfigSource::User,
            ConfigSource::User,
            ConfigSource::Repo,
            ConfigSource::EnvOverrides,
            ConfigSource::CommandArg,
        ]
    );
}

fn builtin() -> BuiltinTexts {
    BuiltinTexts {
        colors: toml("who = 'colors'\ncolors = 1"),
        merge_tools: toml("who = 'merge_tools'\nmerge_tools = 1"),
        misc: toml("who = 'misc'\nmisc = 1"),
        revsets: toml("who = 'revsets'\nrevsets = 1"),
        templates: toml("who = 'templates'\ntemplates = 1"),
        unix: toml("who = 'unix'"),
        windows: toml("who = 'windows'"),
    }
}

#[test]
fn defaults_depend_on_the_platform() {
    let who = |is_unix, is_windows| {
        let config = default_config(&builtin(), is_unix, is_windows);
        for name in ["colors", "merge_tools", "misc", "revsets", "templates"] {
            assert_eq!(config.get::<i64>(name).unwrap(), 1);
        }
        get(&config, "who").unwrap()
    };
    assert_eq!(who(true, false), "unix");
    assert_eq!(who(false, true), "windows");
    assert_eq!(who(true, true), "windows");
    assert_eq!(who(false, false), "templates");
}

#[test]
fn defaults_that_are_not_toml_are_refused() {
    let texts = BuiltinTexts { windows: toml("="), ..builtin() };
    assert!(texts.are_toml(true, false));
    assert!(!texts.are_toml(false, true));
    assert!(try_default_config(&texts, false, true).is_none());
    let config = try_default_config(&texts, true, false).unwrap();
    assert_eq!(get(&config, "who").as_deref(), Some("unix"));
    let texts = BuiltinTexts { misc: toml("="), ..builtin() };
    assert!(!texts.are_toml(true, false));
}

#[test]
fn values_of_the_config_crate_are_read() {
    let value = |kind: config::ValueKind| read_value(config::Value::new(None, kind));
    assert_eq!(value(config::ValueKind::Nil), ConfigValue::Nil);
    assert_eq!(value(config::ValueKind::Boolean(true)), ConfigValue::Boolean(true));
    assert_eq!(value(config::ValueKind::I64(-1)), ConfigValue::I64(-1));
    assert_eq!(value(config::ValueKind::I128(-2)), ConfigValue::I128(-2));
    assert_eq!(value(config::ValueKind::U64(3)), ConfigValue::U64(3));
    assert_eq!(value(config::ValueKind::U128(4)), ConfigValue::U128(4));
    let config = config("t.x = 'y'");
    assert_eq!(
        read_config_table(&config),
        Ok(ConfigValue::Table(vec![ConfigEntry {
            key: "t".to_owned(),
            value: ConfigValue::Table(vec![ConfigEntry {
                key: "x".to_owned(),
                value: ConfigValue::String("y".to_owned()),
            }]),
        }]))
    );
}

#[test]
fn overlaying_is_idempotent_and_empty_texts_are_neutral() {
    let text = "a = 1\n[t]\nx = [1, 2]\n[t.e]\n";
    let sorted = |texts: &[&str]| {
        let config = toml_texts(texts).build().unwrap();
        let value = config.try_deserialize::<config::Value>().unwrap();
        config::Value::new(None, value.kind)
    };
    let once = sorted(&[text]);
    assert_eq!(sorted(&[text, text]), once);
    assert_eq!(sorted(&["", text, ""]), once);
}

#[test]
fn variable_below_a_higher_variable_is_gone() {
    let mut configs = LayeredConfigs::from_layers(StackedConfig::empty());
    configs.read_user_config(Ok(vec![toml("a.b = 1")])).unwrap();
    configs.read_repo_config(Ok(Some(toml("a = 2")))).unwrap();
    let listed = resolved_config_values(&configs, &ConfigNamePathBuf::root()).unwrap();
    let marks: Vec<bool> = listed.iter().map(|v| v.is_overridden).collect();
    assert_eq!(marks, [true, false]);
    let merged = configs.merge();
    assert_eq!(merged.get::<i64>("a").unwrap(), 2);
    assert!(merged.get::<i64>("a.b").is_err());
}

#[test]
fn variable_that_a_higher_table_replaces_is_gone() {
    let mut configs = LayeredConfigs::from_layers(StackedConfig::empty());
    configs.read_user_config(Ok(vec![toml("a = 1")])).unwrap();
    configs.read_repo_config(Ok(Some(toml("a.b = 2")))).unwrap();
    let listed = resolved_config_values(&configs, &ConfigNamePathBuf::root()).unwrap();
    let marks: Vec<bool> = listed.iter().map(|v| v.is_overridden).collect();
    assert_eq!(marks, [true, false]);
    assert_eq!(configs.merge().get::<i64>("a.b").unwrap(), 2);
    // The mark does not depend on what is listed.
    let path = ConfigNamePathBuf::from_components(vec!["a".to_owned()]);
    assert_eq!(resolved_config_values(&configs, &path).unwrap(), listed);
}

#[test]
fn empty_table_leaves_a_variable_alone() {
    let mut configs = LayeredConfigs::from_layers(StackedConfig::empty());
    configs.read_user_config(Ok(vec![toml("a = 1\nb.c = 2")])).unwrap();
    configs.read_repo_config(Ok(Some(toml("[a]\n[b]\n")))).unwrap();
    let listed = resolved_config_values(&configs, &ConfigNamePathBuf::root()).unwrap();
    assert!(listed.iter().all(|v| !v.is_overridden));
    let merged = configs.merge();
    assert_eq!(merged.get::<i64>("a").unwrap(), 1);
    assert_eq!(merged.get::<i64>("b.c").unwrap(), 2);
}
