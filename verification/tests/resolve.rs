//! Listing of configuration variables.
use jj_config::layered::{resolved_config_values, LayeredConfigs};
use jj_config::layers::{ConfigLayer, StackedConfig};
use jj_config::name_path::ConfigNamePathBuf;
use jj_config::resolve::{resolve_layer_values, AnnotatedValue};
use jj_config::source::ConfigSource;
use jj_config::value::{ConfigEntry, ConfigValue};

fn path(names: &[&str]) -> ConfigNamePathBuf {
    ConfigNamePathBuf::from_components(names.iter().map(|s| s.to_string()).collect())
}

fn names(path: &ConfigNamePathBuf) -> Vec<String> {
    path.components().iter().map(|component| component.name.clone()).collect()
}

fn text(value: &str) -> ConfigValue {
    ConfigValue::String(value.to_owned())
}

fn variable(
    names: &[&str],
    value: ConfigValue,
    source: ConfigSource,
    is_overridden: bool,
) -> AnnotatedValue {
    AnnotatedValue { path: path(names), value, source, is_overridden }
}

fn table(entries: Vec<(&str, ConfigValue)>) -> ConfigValue {
    ConfigValue::Table(
        entries
            .into_iter()
            .map(|(key, value)| ConfigEntry { key: key.to_owned(), value })
            .collect(),
    )
}

/// Of no name of the listed paths it is known how it was written.
fn none_written(listed: &[AnnotatedValue]) -> bool {
    listed.iter().all(|v| v.path.components().iter().all(|c| c.written.is_none()))
}

fn layered(layers: Vec<(ConfigSource, config::Config)>) -> LayeredConfigs {
    let mut inner = StackedConfig::empty();
    for (source, data) in layers {
        inner.add_layer(ConfigLayer { source, data });
    }
    LayeredConfigs::from_layers(inner)
}

fn from_toml(toml: &str) -> config::Config {
    config::Config::builder()
        .add_source(config::File::from_str(toml, config::FileFormat::Toml))
        .build()
        .unwrap()
}

#[test]
fn test_resolved_config_values_empty() {
    let layered_configs = LayeredConfigs::from_layers(StackedConfig::empty());
    assert_eq!(
        resolved_config_values(&layered_configs, &ConfigNamePathBuf::root()).unwrap(),
        []
    );
}

#[test]
fn test_resolved_config_values_single_key() {
    let env_base_config = config::Config::builder()
        .set_override("user.name", "base-user-name")
        .unwrap()
        .set_override("user.email", "base@user.email")
        .unwrap()
        .build()
        .unwrap();
    let repo_config = config::Config::builder()
        .set_override("user.email", "repo@user.email")
        .unwrap()
        .build()
        .unwrap();
    let mut inner = StackedConfig::empty();
    inner.add_layer(ConfigLayer { source: ConfigSource::EnvBase, data: env_base_config });
    inner.add_layer(ConfigLayer { source: ConfigSource::Repo, data: repo_config });
    let layered_configs = LayeredConfigs::from_layers(inner);
    let listed = resolved_config_values(&layered_configs, &ConfigNamePathBuf::root()).unwrap();
    assert!(none_written(&listed));
    // Note: "email" is alphabetized, before "name" from same layer.
    assert_eq!(
        listed,
        [
            variable(&["user", "email"], text("base@user.email"), ConfigSource::EnvBase, true),
            variable(&["user", "name"], text("base-user-name"), ConfigSource::EnvBase, false),
            variable(&["user", "email"], text("repo@user.email"), ConfigSource::Repo, false),
        ]
    );
}

#[test]
fn test_resolved_config_values_filter_path() {
    let user_config = config::Config::builder()
        .set_override("test-table1.foo", "user-FOO")
        .unwrap()
        .set_override("test-table2.bar", "user-BAR")
        .unwrap()
        .build()
        .unwrap();
    let repo_config = config::Config::builder()
        .set_override("test-table1.bar", "repo-BAR")
        .unwrap()
        .build()
        .unwrap();
    let mut inner = StackedConfig::empty();
    inner.add_layer(ConfigLayer { source: ConfigSource::User, data: user_config });
    inner.add_layer(ConfigLayer { source: ConfigSource::Repo, data: repo_config });
    let layered_configs = LayeredConfigs::from_layers(inner);
    let listed = resolved_config_values(&layered_configs, &path(&["test-table1"])).unwrap();
    assert!(none_written(&listed));
    assert_eq!(
        listed,
        [
            variable(&["test-table1", "foo"], text("user-FOO"), ConfigSource::User, false),
            variable(&["test-table1", "bar"], text("repo-BAR"), ConfigSource::Repo, false),
        ]
    );
}

#[test]
fn names_are_listed_by_code_point() {
    let layers = vec![(
        ConfigSource::User,
        table(vec![
            ("b", ConfigValue::I64(1)),
            ("\u{10000}", ConfigValue::I64(2)),
            ("ab", ConfigValue::I64(3)),
            ("\u{ffff}", ConfigValue::I64(4)),
            ("a", table(vec![("z", ConfigValue::I64(5)), ("Z", ConfigValue::I64(6))])),
        ]),
    )];
    let listed: Vec<ConfigValue> = resolve_layer_values(&layers, &ConfigNamePathBuf::root())
        .into_iter()
        .map(|v| v.value)
        .collect();
    assert_eq!(
        listed,
        [
            ConfigValue::I64(6),
            ConfigValue::I64(5),
            ConfigValue::I64(3),
            ConfigValue::I64(1),
            ConfigValue::I64(4),
            ConfigValue::I64(2),
        ]
    );
}

#[test]
fn filter_keeps_what_stands_under_the_name() {
    let layers = vec![
        (
            ConfigSource::User,
            table(vec![
                ("a", table(vec![("x", ConfigValue::I64(1)), ("y", ConfigValue::I64(2))])),
                ("b", ConfigValue::I64(3)),
            ]),
        ),
        (ConfigSource::Repo, table(vec![("a", table(vec![("x", ConfigValue::I64(4))]))])),
    ];
    let all = resolve_layer_values(&layers, &ConfigNamePathBuf::root());
    for prefix in [path(&["a"]), path(&["a", "x"]), path(&["b"]), path(&["c"])] {
        let expected: Vec<AnnotatedValue> = all
            .iter()
            .filter(|v| names(&v.path).starts_with(&names(&prefix)))
            .cloned()
            .collect();
        assert_eq!(resolve_layer_values(&layers, &prefix), expected);
    }
    assert_eq!(
        resolve_layer_values(&layers, &path(&["a", "x"])),
        [
            variable(&["a", "x"], ConfigValue::I64(1), ConfigSource::User, true),
            variable(&["a", "x"], ConfigValue::I64(4), ConfigSource::Repo, false),
        ]
    );
}

#[test]
fn path_through_a_variable_leads_nowhere() {
    let configs = layered(vec![(ConfigSource::User, from_toml("a = 1\n[b]\n"))]);
    assert_eq!(resolved_config_values(&configs, &path(&["a", "x"])).unwrap(), []);
    // An empty table holds no variables.
    assert_eq!(resolved_config_values(&configs, &path(&["b"])).unwrap(), []);
    assert_eq!(
        resolved_config_values(&configs, &path(&["a"])).unwrap(),
        [variable(&["a"], ConfigValue::I64(1), ConfigSource::User, false)]
    );
}

#[test]
fn last_layer_is_in_effect() {
    let configs = layered(vec![
        (ConfigSource::CommandArg, from_toml("a = 3")),
        (ConfigSource::Default, from_toml("a = 1\nb = 0")),
        (ConfigSource::User, from_toml("a = 2")),
        (ConfigSource::User, from_toml("a = 'two'")),
    ]);
    let listed = resolved_config_values(&configs, &ConfigNamePathBuf::root()).unwrap();
    assert_eq!(
        listed,
        [
            variable(&["a"], ConfigValue::I64(1), ConfigSource::Default, true),
            variable(&["b"], ConfigValue::I64(0), ConfigSource::Default, false),
            variable(&["a"], ConfigValue::I64(2), ConfigSource::User, true),
            variable(&["a"], text("two"), ConfigSource::User, true),
            variable(&["a"], ConfigValue::I64(3), ConfigSource::CommandArg, false),
        ]
    );
    // What is not overridden is what merging gives.
    let merged = configs.merge();
    assert_eq!(merged.get::<i64>("a").unwrap(), 3);
    assert_eq!(merged.get::<i64>("b").unwrap(), 0);
}

#[test]
fn values_of_all_kinds_are_listed() {
    let configs = layered(vec![(
        ConfigSource::User,
        from_toml("a = true\nb = [1, 'x']\nc = 1.5\nd = 's'\n[e.f]\ng = -1\n"),
    )]);
    let listed = resolved_config_values(&configs, &ConfigNamePathBuf::root()).unwrap();
    assert_eq!(listed.len(), 5);
    assert_eq!(listed[0].value, ConfigValue::Boolean(true));
    assert_eq!(listed[1].value, ConfigValue::Array(vec![ConfigValue::I64(1), text("x")]));
    match &listed[2].value {
        ConfigValue::Float(number) => {
            assert_eq!(number.raw().clone().into_float().unwrap(), 1.5);
            assert_eq!(number.duplicate().raw().clone().into_float().unwrap(), 1.5);
        }
        other => panic!("unexpected {other:?}"),
    }
    assert_eq!(listed[3].value, text("s"));
    assert_eq!(listed[4].path, path(&["e", "f", "g"]));
    assert_eq!(listed[4].value, ConfigValue::I64(-1));
}

#[test]
fn whole_layer_that_is_replaced_is_overridden() {
    let layers = vec![
        (ConfigSource::Default, ConfigValue::I64(1)),
        (ConfigSource::User, table(vec![("a", ConfigValue::I64(2))])),
        (ConfigSource::Repo, ConfigValue::I64(3)),
    ];
    assert_eq!(
        resolve_layer_values(&layers, &ConfigNamePathBuf::root()),
        [
            variable(&[], ConfigValue::I64(1), ConfigSource::Default, true),
            variable(&["a"], ConfigValue::I64(2), ConfigSource::User, true),
            variable(&[], ConfigValue::I64(3), ConfigSource::Repo, false),
        ]
    );
}

#[test]
fn prefix_is_listed_as_it_was_written() {
    let configs = layered(vec![
        (ConfigSource::User, from_toml("[a.b]\n'c.d' = 1\n")),
        (ConfigSource::Repo, from_toml("[a.b.e]\nf = 2\n")),
    ]);
    let prefix = ConfigNamePathBuf::parse("a . 'b'").unwrap();
    let listed = resolved_config_values(&configs, &prefix).unwrap();
    let shown: Vec<Vec<String>> = listed
        .iter()
        .map(|v| v.path.components().iter().map(|c| c.display()).collect())
        .collect();
    assert_eq!(shown, [vec!["a", "'b'", "\"c.d\""], vec!["a", "'b'", "e", "f"]]);
    let written: Vec<Vec<Option<String>>> = listed
        .iter()
        .map(|v| v.path.components().iter().map(|c| c.written.clone()).collect())
        .collect();
    let (a, b) = (Some("a".to_owned()), Some("'b'".to_owned()));
    assert_eq!(written, [vec![a.clone(), b.clone(), None], vec![a, b, None, None]]);
}
