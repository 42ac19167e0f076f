//! Commands of the configuration.
use jj_config::command_env::CommandEnv;
use jj_config::commands::{CommandLine, CommandNameAndArgs, NonEmptyCommandArgsVec};
use jj_config::variables::{find_all_variables, interpolate_variables};

fn strings(items: &[&str]) -> Vec<String> {
    items.iter().map(|s| s.to_string()).collect()
}

fn variables(items: &[(&str, &str)]) -> Vec<(String, String)> {
    items.iter().map(|(k, v)| (k.to_string(), v.to_string())).collect()
}

fn env(items: &[(&str, &str)]) -> CommandEnv {
    CommandEnv::from_entries(variables(items))
}

fn array(items: &[&str]) -> CommandNameAndArgs {
    CommandNameAndArgs::Vec(NonEmptyCommandArgsVec::try_from(strings(items)).unwrap())
}

#[test]
fn test_command_args() {
    let config = config::Config::builder()
        .set_override("empty_array", Vec::<String>::new())
        .unwrap()
        .set_override("empty_string", "")
        .unwrap()
        .set_override("array", vec!["emacs", "-nw"])
        .unwrap()
        .set_override("string", "emacs -nw")
        .unwrap()
        .set_override("structured.env.KEY1", "value1")
        .unwrap()
        .set_override("structured.env.KEY2", "value2")
        .unwrap()
        .set_override("structured.command", vec!["emacs", "-nw"])
        .unwrap()
        .build()
        .unwrap();

    assert!(NonEmptyCommandArgsVec::try_from(config.get::<Vec<String>>("empty_array").unwrap())
        .is_err());

    let command_args =
        CommandNameAndArgs::String(config.get::<String>("empty_string").unwrap());
    assert_eq!(command_args, CommandNameAndArgs::String("".to_owned()));
    let (name, args) = command_args.split_name_and_args();
    assert_eq!(name, "");
    assert!(args.is_empty());

    let command_args = CommandNameAndArgs::Vec(
        NonEmptyCommandArgsVec::try_from(config.get::<Vec<String>>("array").unwrap()).unwrap(),
    );
    assert_eq!(command_args, array(&["emacs", "-nw"]));
    let (name, args) = command_args.split_name_and_args();
    assert_eq!(name, "emacs");
    assert_eq!(args, ["-nw"]);

    let command_args = CommandNameAndArgs::String(config.get::<String>("string").unwrap());
    assert_eq!(command_args, CommandNameAndArgs::String("emacs -nw".to_owned()));
    let (name, args) = command_args.split_name_and_args();
    assert_eq!(name, "emacs");
    assert_eq!(args, ["-nw"]);

    let command_args = CommandNameAndArgs::Structured {
        env: CommandEnv::from_entries(vec![
            ("KEY2".to_string(), config.get::<String>("structured.env.KEY2").unwrap()),
            ("KEY1".to_string(), config.get::<String>("structured.env.KEY1").unwrap()),
        ]),
        command: NonEmptyCommandArgsVec::try_from(
            config.get::<Vec<String>>("structured.command").unwrap(),
        )
        .unwrap(),
    };
    assert_eq!(
        command_args,
        CommandNameAndArgs::Structured {
            env: env(&[("KEY1", "value1"), ("KEY2", "value2")]),
            command: NonEmptyCommandArgsVec::try_from(strings(&["emacs", "-nw"])).unwrap(),
        }
    );
    let (name, args) = command_args.split_name_and_args();
    assert_eq!(name, "emacs");
    assert_eq!(args, ["-nw"]);
}

#[test]
fn empty_array_is_no_command() {
    assert_eq!(
        NonEmptyCommandArgsVec::try_from(Vec::new()).unwrap_err(),
        "command arguments should not be empty"
    );
    let command = NonEmptyCommandArgsVec::try_from(strings(&[""])).unwrap();
    assert_eq!(command.args(), &strings(&[""]));
    assert_eq!(command.clone(), command);
}

#[test]
fn text_is_split_at_each_blank() {
    let command = CommandNameAndArgs::from(" a  b\tc ");
    let (name, args) = command.split_name_and_args();
    assert_eq!(name, "");
    assert_eq!(args, ["a", "", "b\tc", ""]);
    assert_eq!(command.split_name(), "");
    let mut words = vec![name];
    words.extend(args);
    assert_eq!(words.join(" "), " a  b\tc ");
}

#[test]
fn blanks_in_an_array_are_kept() {
    let command = array(&["my editor", "-n w"]);
    assert_eq!(command.split_name(), "my editor");
    assert_eq!(command.split_name_and_args().1, ["-n w"]);
}

#[test]
fn command_is_displayed() {
    assert_eq!(CommandNameAndArgs::from("emacs  -nw").display(), "emacs  -nw");
    assert_eq!(array(&["emacs", "-nw"]).display(), "emacs -nw");
    assert_eq!(array(&["emacs"]).display(), "emacs");
    let command = CommandNameAndArgs::Structured {
        env: env(&[("KEY1", "value1"), ("KEY2", "value2")]),
        command: NonEmptyCommandArgsVec::try_from(strings(&["emacs", "-nw"])).unwrap(),
    };
    assert_eq!(command.display(), "KEY1=value1 KEY2=value2 emacs -nw");
}

#[test]
fn variables_are_interpolated_into_arguments_only() {
    let command = CommandNameAndArgs::Structured {
        env: env(&[("KEY", "$left")]),
        command: NonEmptyCommandArgsVec::try_from(strings(&["$left", "$left", "--out=$right"]))
            .unwrap(),
    };
    assert_eq!(
        command.to_command_with_variables(&variables(&[("left", "a"), ("right", "b c")])),
        CommandLine {
            name: "$left".to_owned(),
            env: variables(&[("KEY", "$left")]),
            args: strings(&["a", "--out=b c"]),
        }
    );
}

#[test]
fn command_without_variables_is_left_as_it_is() {
    let command = CommandNameAndArgs::from("meld $left $right");
    let expected = CommandLine {
        name: "meld".to_owned(),
        env: vec![],
        args: strings(&["$left", "$right"]),
    };
    assert_eq!(command.to_command(), expected);
    assert_eq!(command.to_command_with_variables(&vec![]), expected);
}

#[test]
fn only_whole_lower_case_names_are_variables() {
    let args = strings(&[
        "$a$b_1 $a-$a.x",
        "$A $ $$a $aB $a\u{e9} $a\u{2014}",
        "plain",
        "${a} \\$a",
    ]);
    assert_eq!(find_all_variables(&args), ["a", "b_1", "a", "a", "a", "a", "a"]);
    assert_eq!(
        interpolate_variables(&args, &variables(&[("a", "[$b_1]"), ("b", "B")])),
        [
            "[$b_1]$b_1 [$b_1]-[$b_1].x",
            "$A $ $[$b_1] $aB $a\u{e9} [$b_1]\u{2014}",
            "plain",
            "${a} \\[$b_1]",
        ]
    );
}

#[test]
fn last_value_of_a_variable_counts() {
    let args = strings(&["$x"]);
    assert_eq!(interpolate_variables(&args, &variables(&[("x", "1"), ("x", "2")])), ["2"]);
    assert_eq!(interpolate_variables(&args, &variables(&[("x", "")])), [""]);
}

#[test]
fn nothing_is_interpolated_without_values() {
    let args = strings(&["$x", "a $y", ""]);
    assert_eq!(interpolate_variables(&args, &vec![]), args);
    assert_eq!(find_all_variables(&strings(&[])), Vec::<String>::new());
}

#[test]
fn displayed_command_is_the_same() {
    let command = array(&["emacs", "-nw", ""]);
    let again = CommandNameAndArgs::from(command.display().as_str());
    assert_eq!(again.split_name_and_args(), command.split_name_and_args());
    // Blanks in words are lost.
    let command = array(&["a b"]);
    let again = CommandNameAndArgs::from(command.display().as_str());
    assert_ne!(again.split_name_and_args(), command.split_name_and_args());
}

#[test]
fn values_of_other_variables_do_not_count() {
    let args = strings(&["$x and $y", "no variables"]);
    let names = find_all_variables(&args);
    assert_eq!(names, ["x", "y"]);
    let some = variables(&[("x", "1"), ("y", "2")]);
    let more = variables(&[("z", "3"), ("y", "2"), ("no", "4"), ("x", "1")]);
    assert_eq!(interpolate_variables(&args, &some), interpolate_variables(&args, &more));
}

#[test]
fn environment_of_a_command_has_no_order() {
    assert_eq!(env(&[("A", "1"), ("B", "2")]), env(&[("B", "2"), ("A", "1")]));
    assert_ne!(env(&[("A", "1"), ("B", "2")]), env(&[("A", "1")]));
    assert_ne!(env(&[("A", "1")]), env(&[("A", "2")]));
    assert_ne!(env(&[("A", "1")]), env(&[("A", "1"), ("B", "2")]));
    assert_eq!(env(&[]), env(&[]).clone());
    // The last value of a name counts.
    let repeated = env(&[("A", "1"), ("B", "2"), ("A", "3")]);
    assert_eq!(repeated.entries(), &variables(&[("A", "3"), ("B", "2")]));
    assert_eq!(repeated.clone(), env(&[("B", "2"), ("A", "3")]));
}
