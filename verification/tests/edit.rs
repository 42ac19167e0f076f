//! Editing of configuration files.
use jj_config::edit::{
    display_path, read_config, remove_config_value_from_file, remove_value, set_value,
    write_config, write_config_value_to_file, FileRead,
};
use jj_config::error::{CommandFailure, ConfigFailure};
use jj_config::name_path::{ConfigNamePathBuf, NameComponent};
use jj_config::toml_value::parse_toml_value_or_bare_string;

fn path(names: &[&str]) -> ConfigNamePathBuf {
    ConfigNamePathBuf::from_components(names.iter().map(|s| s.to_string()).collect())
}

fn file(text: &str) -> FileRead {
    FileRead::Text(text.to_owned())
}

fn write(text: &str, names: &[&str], value: &str) -> Result<String, CommandFailure> {
    let value = parse_toml_value_or_bare_string(value);
    write_config_value_to_file(&path(names), value, "config.toml", file(text))
}

fn remove(text: &str, names: &[&str]) -> Result<String, CommandFailure> {
    remove_config_value_from_file(&path(names), "config.toml", file(text))
}

fn user_error(message: &str) -> CommandFailure {
    CommandFailure::User { message: message.to_owned(), cause: None }
}

#[test]
fn value_is_added() {
    assert_eq!(write("", &["a"], "1").unwrap(), "a = 1\n");
    assert_eq!(write("# top\na = 1\n", &["b"], "text").unwrap(), "# top\na = 1\nb = \"text\"\n");
    assert_eq!(write("", &["t", "u", "x"], "true").unwrap(), "[t]\n\n[t.u]\nx = true\n");
    assert_eq!(write("[t]\nx = 1\n", &["t", "y"], "2").unwrap(), "[t]\nx = 1\ny = 2\n");
}

#[test]
fn value_is_replaced() {
    let once = write("a = 1\nb = 2\n", &["a"], "10").unwrap();
    assert_eq!(once, "a = 10\nb = 2\n");
    // Setting again leaves nothing of the first value.
    assert_eq!(write(&once, &["a"], "20").unwrap(), "a = 20\nb = 2\n");
    // An inline table is a value.
    assert_eq!(write("a = { x = 1 }\n", &["a"], "1").unwrap(), "a = 1\n");
    assert_eq!(write("a = [1, 2]\n", &["a"], "1").unwrap(), "a = 1\n");
}

#[test]
fn missing_file_is_read_as_empty() {
    let value = parse_toml_value_or_bare_string("1");
    let text =
        write_config_value_to_file(&path(&["a"]), value, "config.toml", FileRead::NotFound);
    assert_eq!(text.unwrap(), "a = 1\n");
}

#[test]
fn tables_are_not_overwritten() {
    let error = user_error("Failed to set t: would overwrite entire table");
    assert_eq!(write("[t]\nx = 1\n", &["t"], "1"), Err(error));
    let error = user_error("Failed to set t: would overwrite entire table");
    assert_eq!(write("[[t]]\nx = 1\n", &["t"], "1"), Err(error));
    let message = "Failed to set a.b: would overwrite non-table value with parent table";
    assert_eq!(write("a = 1\n", &["a", "b"], "1"), Err(user_error(message)));
    assert_eq!(write("a = { b = 2 }\n", &["a", "b"], "1"), Err(user_error(message)));
    assert_eq!(write("[[a]]\nb = 2\n", &["a", "b"], "1"), Err(user_error(message)));
}

#[test]
fn value_is_removed() {
    assert_eq!(remove("a = 1\nb = 2\n", &["a"]).unwrap(), "b = 2\n");
    assert_eq!(remove("[t]\nx = 1\ny = 2\n", &["t", "x"]).unwrap(), "[t]\ny = 2\n");
    assert_eq!(remove("a = { x = 1 }\n", &["a"]).unwrap(), "");
    assert_eq!(remove("[[t]]\nx = 1\n", &["t"]).unwrap(), "");
    // A value that was set where nothing was can be removed again.
    let text = "[t]\nx = 1\n";
    assert_eq!(remove(&write(text, &["t", "y"], "2").unwrap(), &["t", "y"]).unwrap(), text);
}

#[test]
fn only_values_that_are_there_are_removed() {
    let not_found = |name: &str| {
        Err(CommandFailure::Config(ConfigFailure::NotFound(name.to_owned())))
    };
    // A missing table is named by itself, the value by its whole path.
    assert_eq!(remove("a = 1\n", &["b"]), not_found("b"));
    assert_eq!(remove("a = 1\n", &["t", "u", "x"]), not_found("t"));
    assert_eq!(remove("[t]\n", &["t", "u", "x"]), not_found("u"));
    assert_eq!(remove("[t]\n", &["t", "x"]), not_found("t.x"));
    assert_eq!(
        remove("a = 1\n", &["a", "b"]),
        Err(CommandFailure::Config(ConfigFailure::Message("\"a\" is not a table".to_owned())))
    );
    assert_eq!(remove("[t.u]\n", &["t", "u"]), Err(user_error("Won't remove table t.u")));
}

#[test]
fn document_is_kept_where_an_edit_fails() {
    let text = "[t]\nx = 1\n";
    let mut document = read_config("config.toml", file(text)).unwrap();
    let value = || parse_toml_value_or_bare_string("1");
    assert!(set_value(&mut document, &path(&["t"]), value()).is_err());
    assert!(set_value(&mut document, &path(&["t", "x", "y"]), value()).is_err());
    assert!(remove_value(&mut document, &path(&["t"])).is_err());
    assert!(remove_value(&mut document, &path(&["t", "y"])).is_err());
    assert_eq!(document.to_string(), text);
    assert!(set_value(&mut document, &path(&["t", "y"]), value()).is_ok());
    assert!(remove_value(&mut document, &path(&["t", "x"])).is_ok());
    assert_eq!(document.to_string(), "[t]\ny = 1\n");
}

#[test]
fn unreadable_file_is_reported() {
    let value = parse_toml_value_or_bare_string("1");
    let failed = FileRead::Failed("denied".to_owned());
    assert_eq!(
        write_config_value_to_file(&path(&["a"]), value, "dir/config.toml", failed),
        Err(CommandFailure::User {
            message: "Failed to read file dir/config.toml".to_owned(),
            cause: Some("denied".to_owned()),
        })
    );
    let error = "a = ".parse::<toml_edit::DocumentMut>().unwrap_err();
    assert_eq!(
        remove("a = ", &["a"]),
        Err(CommandFailure::User {
            message: "Failed to parse file config.toml".to_owned(),
            cause: Some(error.to_string()),
        })
    );
}

#[test]
fn failure_to_write_is_reported() {
    assert_eq!(write_config("config.toml", Ok(())), Ok(()));
    assert_eq!(
        write_config("config.toml", Err("full".to_owned())),
        Err(CommandFailure::User {
            message: "Failed to write file config.toml".to_owned(),
            cause: Some("full".to_owned()),
        })
    );
}

#[test]
fn paths_are_displayed_with_quotes_where_needed() {
    assert_eq!(display_path(&ConfigNamePathBuf::root()), "");
    assert_eq!(display_path(&path(&["a"])), "a");
    assert_eq!(display_path(&path(&["a", "b-c", "d e"])), "a.b-c.'d e'".replace('\'', "\""));
}

#[test]
fn everything_else_is_kept() {
    let text = "# comment\na = 1 # one\n\n[t] # table\nx = 1\n\n[t.u]\ny = 'z'\n";
    let written = write(text, &["t", "x"], "2").unwrap();
    assert_eq!(written, text.replace("x = 1", "x = 2"));
    let written = write(text, &["t", "u", "w"], "true").unwrap();
    assert_eq!(written, format!("{text}w = true\n"));
    assert_eq!(remove(&written, &["t", "u", "w"]).unwrap(), text);
}

#[test]
fn written_value_is_read_back() {
    for value in ["1", "-0.5", "true", "'a \\ b'", "bare \u{1F600}\n\u{1}", "[1, ['x']]", "{ k = 1 }"] {
        let names = ["a b", "c\"d", ""];
        let text = write("[z]\n", &names, value).unwrap();
        let document = read_config("config.toml", file(&text)).unwrap();
        let read = document["a b"]["c\"d"][""].as_value().unwrap();
        let expected = parse_toml_value_or_bare_string(value);
        assert_eq!(read.to_string().trim(), expected.to_string().trim());
    }
}

#[test]
fn names_are_displayed_as_they_were_written() {
    let written = ConfigNamePathBuf::from_written(vec![
        NameComponent { name: "a b".to_owned(), written: Some("'a b'".to_owned()) },
        NameComponent { name: "c".to_owned(), written: None },
    ]);
    assert_eq!(display_path(&written), "'a b'.c");
    assert_eq!(
        remove_config_value_from_file(&written, "config.toml", file("")),
        Err(CommandFailure::Config(ConfigFailure::NotFound("'a b'".to_owned())))
    );
    assert_eq!(
        remove_config_value_from_file(&written, "config.toml", file("['a b']\n")),
        Err(CommandFailure::Config(ConfigFailure::NotFound("'a b'.c".to_owned())))
    );
}

#[test]
fn order_and_layout_are_kept() {
    let text = "b   =   1\n\"a\" = 2 # two\n'c' = 3\n";
    assert_eq!(write(text, &["a"], "5").unwrap(), "b   =   1\n\"a\" = 5\n'c' = 3\n");
    assert_eq!(remove(text, &["a"]).unwrap(), "b   =   1\n'c' = 3\n");
    assert_eq!(write(text, &["d"], "4").unwrap(), format!("{text}d = 4\n"));
}
