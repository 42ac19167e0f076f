//! Configuration values and paths to them.
use jj_config::config_crate::read_value;
use jj_config::error::ConfigFailure;
use jj_config::name_path::{ConfigNamePathBuf, NameComponent};
use jj_config::toml_value::{parse_toml_value_or_bare_string, to_toml_value, value_or_bare_string};
use jj_config::value::{ConfigEntry, ConfigValue};

fn path(names: &[&str]) -> ConfigNamePathBuf {
    ConfigNamePathBuf::from_components(names.iter().map(|s| s.to_string()).collect())
}

fn table(entries: Vec<(&str, ConfigValue)>) -> ConfigValue {
    ConfigValue::Table(
        entries
            .into_iter()
            .map(|(key, value)| ConfigEntry { key: key.to_owned(), value })
            .collect(),
    )
}

fn text(value: &str) -> ConfigValue {
    ConfigValue::String(value.to_owned())
}

#[test]
fn expressions_are_parsed() {
    assert_eq!(parse_toml_value_or_bare_string("1").as_integer(), Some(1));
    assert_eq!(parse_toml_value_or_bare_string("true").as_bool(), Some(true));
    assert_eq!(parse_toml_value_or_bare_string("1.5").as_float(), Some(1.5));
    assert_eq!(parse_toml_value_or_bare_string("'a b'").as_str(), Some("a b"));
    assert_eq!(parse_toml_value_or_bare_string("[1, 2]").as_array().unwrap().len(), 2);
    assert_eq!(
        parse_toml_value_or_bare_string("{ a = 1 }").as_inline_table().unwrap().len(),
        1
    );
}

#[test]
fn other_texts_are_strings() {
    for bare in ["", "a b", "foo", "[1, 2", "'open", "1 2"] {
        assert_eq!(parse_toml_value_or_bare_string(bare).as_str(), Some(bare));
    }
    assert_eq!(value_or_bare_string(None, "1").as_str(), Some("1"));
    let parsed = value_or_bare_string(Some(toml_edit::Value::from(2)), "1");
    assert_eq!(parsed.as_integer(), Some(2));
}

#[test]
fn values_become_toml() {
    let value = table(vec![
        ("b", ConfigValue::Array(vec![ConfigValue::Boolean(true), ConfigValue::I64(-1)])),
        ("a", text("x\"y")),
        ("c", table(vec![("d", ConfigValue::U64(7)), ("D", ConfigValue::I128(8))])),
    ]);
    let toml = to_toml_value(&value).unwrap();
    let inline = toml.as_inline_table().unwrap();
    // Names come in ascending order.
    let names: Vec<&str> = inline.iter().map(|(name, _)| name).collect();
    assert_eq!(names, ["a", "b", "c"]);
    assert_eq!(inline.get("a").unwrap().as_str(), Some("x\"y"));
    let array = inline.get("b").unwrap().as_array().unwrap();
    assert_eq!(array.get(0).unwrap().as_bool(), Some(true));
    assert_eq!(array.get(1).unwrap().as_integer(), Some(-1));
    let inner = inline.get("c").unwrap().as_inline_table().unwrap();
    let entries: Vec<(&str, Option<i64>)> =
        inner.iter().map(|(name, value)| (name, value.as_integer())).collect();
    assert_eq!(entries, [("D", Some(8)), ("d", Some(7))]);
}

#[test]
fn floats_keep_their_value() {
    for number in [1.5, -0.0, 1e300, 0.1] {
        let value = read_value(config::Value::from(number));
        let toml = to_toml_value(&value).unwrap();
        assert_eq!(toml.as_float().unwrap().to_bits(), f64::to_bits(number));
        assert_eq!(to_toml_value(&value.clone()).unwrap().as_float(), Some(number));
    }
}

#[test]
fn integers_that_do_not_fit_are_errors() {
    let range = || {
        let message = "out of range integral type conversion attempted";
        ConfigFailure::Message(message.to_owned())
    };
    let integer = |value: ConfigValue| to_toml_value(&value).map(|v| v.as_integer().unwrap());
    assert_eq!(integer(ConfigValue::I64(i64::MIN)), Ok(i64::MIN));
    assert_eq!(integer(ConfigValue::U64(i64::MAX as u64)), Ok(i64::MAX));
    assert_eq!(integer(ConfigValue::U64(i64::MAX as u64 + 1)), Err(range()));
    assert_eq!(integer(ConfigValue::U128(5)), Ok(5));
    assert_eq!(integer(ConfigValue::U128(1 << 63)), Err(range()));
    assert_eq!(integer(ConfigValue::I128(i64::MIN as i128)), Ok(i64::MIN));
    assert_eq!(integer(ConfigValue::I128(i64::MIN as i128 - 1)), Err(range()));
    assert_eq!(integer(ConfigValue::I128(i64::MAX as i128 + 1)), Err(range()));
}

#[test]
fn nothing_is_no_toml_value() {
    let error = |value: ConfigValue| to_toml_value(&value).unwrap_err();
    let nil = || ConfigFailure::Message("Unexpected value: nil".to_owned());
    assert_eq!(error(ConfigValue::Nil), nil());
    assert_eq!(error(ConfigValue::Array(vec![ConfigValue::I64(1), ConfigValue::Nil])), nil());
    // The first error counts.
    let value = table(vec![("b", ConfigValue::U64(u64::MAX)), ("a", ConfigValue::Nil)]);
    assert_eq!(error(value), nil());
}

#[test]
fn paths_lead_through_tables() {
    let value = table(vec![("a", table(vec![("b", text("x"))])), ("c", text("y"))]);
    assert_eq!(path(&["a", "b"]).lookup_value(&value), Some(&text("x")));
    assert_eq!(path(&["a"]).lookup_value(&value), Some(&table(vec![("b", text("x"))])));
    assert_eq!(ConfigNamePathBuf::root().lookup_value(&value), Some(&value));
    assert_eq!(path(&["c", "b"]).lookup_value(&value), None);
    assert_eq!(path(&["b"]).lookup_value(&value), None);
}

#[test]
fn paths_grow_by_names() {
    let mut a = ConfigNamePathBuf::root();
    assert!(a.is_root());
    a.push("x".to_owned());
    a.push("y.z".to_owned());
    assert!(!a.is_root());
    let names: Vec<&str> = a.components().iter().map(|c| c.name.as_str()).collect();
    assert_eq!(names, ["x", "y.z"]);
    assert!(a.same_as(&path(&["x", "y.z"])));
    assert!(!a.same_as(&path(&["x", "y", "z"])));
    assert!(!a.same_as(&path(&["x", "y"])));
    assert_eq!(a.clone(), a);
    // How a name was written makes no difference.
    let written = ConfigNamePathBuf::from_written(vec![
        NameComponent { name: "x".to_owned(), written: None },
        NameComponent { name: "y.z".to_owned(), written: Some("'y.z'".to_owned()) },
    ]);
    assert_eq!(written, a);
    assert_ne!(written, path(&["x"]));
}

#[test]
fn paths_are_parsed() {
    let parsed = ConfigNamePathBuf::parse("a.\"b c\" . 'd.e'").unwrap();
    assert_eq!(parsed, path(&["a", "b c", "d.e"]));
    let written: Vec<&str> =
        parsed.components().iter().map(|c| c.written.as_deref().unwrap()).collect();
    assert_eq!(written, ["a", "\"b c\"", "'d.e'"]);
    let bare = ConfigNamePathBuf::parse("some-name_1").unwrap();
    assert_eq!(bare, path(&["some-name_1"]));
    for text in ["", "a..b", "a b", "'a"] {
        let expected = toml_edit::Key::parse(text).unwrap_err().to_string();
        assert_eq!(
            ConfigNamePathBuf::parse(text).unwrap_err(),
            ConfigFailure::Foreign(expected)
        );
    }
}
