//! Configuration from environment variables.
use crate::config_crate::{
    bare_name, config_tree, mergeable, section_table, stack_overrides, stack_tables,
    ConfigStack, Variables,
};
use crate::name_path::lookup_tree;
use crate::overlay::settled;
use crate::value::ValueTree;
use vstd::prelude::*;

verus! {

/// The environment variables that configure the program, as far as they are
/// set.
#[derive(Debug)]
pub struct EnvVars {
    pub no_color: Option<String>,
    pub pager: Option<String>,
    pub visual: Option<String>,
    pub editor: Option<String>,
    pub jj_user: Option<String>,
    pub jj_email: Option<String>,
    pub jj_timestamp: Option<String>,
    pub jj_randomness_seed: Option<String>,
    pub jj_op_timestamp: Option<String>,
    pub jj_op_hostname: Option<String>,
    pub jj_op_username: Option<String>,
    pub jj_editor: Option<String>,
}

/// The text of an environment variable, if it is set.
pub open spec fn text_of(variable: Option<String>) -> Option<Seq<char>> {
    match variable {
        Some(text) => Some(text@),
        None => None,
    }
}

/// `variables` with `section.name` set to `value`, if there is a value.
pub open spec fn with(
    variables: Variables,
    section: Seq<char>,
    name: Seq<char>,
    value: Option<Seq<char>>,
) -> Variables {
    match value {
        Some(text) => variables.insert((section, name), text),
        None => variables,
    }
}

impl EnvVars {
    /// What the environment sets, and configuration files override: `NO_COLOR`
    /// switches colors off, `PAGER` is the pager, and `VISUAL` or else `EDITOR`
    /// is the editor.
    pub open spec fn base_variables(self) -> Variables {
        let color = if self.no_color is Some {
            Some("never"@)
        } else {
            None
        };
        let editor = if self.visual is Some {
            text_of(self.visual)
        } else {
            text_of(self.editor)
        };
        let variables = with(Map::empty(), "ui"@, "color"@, color);
        let variables = with(variables, "ui"@, "pager"@, text_of(self.pager));
        with(variables, "ui"@, "editor"@, editor)
    }

    /// What the environment sets over all configuration files.
    pub open spec fn override_variables(self) -> Variables {
        let variables = with(Map::empty(), "user"@, "name"@, text_of(self.jj_user));
        let variables = with(variables, "user"@, "email"@, text_of(self.jj_email));
        let variables = with(variables, "debug"@, "commit-timestamp"@, text_of(self.jj_timestamp));
        let variables = with(
            variables,
            "debug"@,
            "randomness-seed"@,
            text_of(self.jj_randomness_seed),
        );
        let variables = with(
            variables,
            "debug"@,
            "operation-timestamp"@,
            text_of(self.jj_op_timestamp),
        );
        let variables = with(variables, "operation"@, "hostname"@, text_of(self.jj_op_hostname));
        let variables = with(variables, "operation"@, "username"@, text_of(self.jj_op_username));
        with(variables, "ui"@, "editor"@, text_of(self.jj_editor))
    }
}

/// Sets a variable, if there is a value for it.
fn set_if(
    stack: ConfigStack,
    section: &str,
    name: &str,
    value: &Option<String>,
) -> (result: ConfigStack)
    requires
        bare_name(section@),
        bare_name(name@),
    ensures
        stack_tables(result) == stack_tables(stack),
        stack_overrides(result) == with(
            stack_overrides(stack),
            section@,
            name@,
            text_of(*value),
        ),
{
    match value {
        Some(text) => stack.set_override(section, name, text.as_str()),
        None => stack,
    }
}

/// Environment variables that should be overridden by config values.
pub fn env_base(env: &EnvVars) -> (config: config::Config)
    ensures
        config_tree(config) == ValueTree::Table(section_table(env.base_variables())),
        mergeable(config),
        settled(section_table(env.base_variables())),
{
    proof {
        reveal_strlit("ui");
        reveal_strlit("color");
        reveal_strlit("pager");
        reveal_strlit("editor");
    }
    let mut stack = ConfigStack::new();
    if env.no_color.is_some() {
        // User-level configuration files and per-instance command-line arguments
        // should override $NO_COLOR: https://no-color.org/
        stack = stack.set_override("ui", "color", "never");
    }
    stack = set_if(stack, "ui", "pager", &env.pager);
    if env.visual.is_some() {
        stack = set_if(stack, "ui", "editor", &env.visual);
    } else {
        stack = set_if(stack, "ui", "editor", &env.editor);
    }
    build_variables(stack)
}

/// Environment variables that override config values.
pub fn env_overrides(env: &EnvVars) -> (config: config::Config)
    ensures
        config_tree(config) == ValueTree::Table(section_table(env.override_variables())),
        mergeable(config),
        settled(section_table(env.override_variables())),
{
    proof {
        reveal_strlit("user");
        reveal_strlit("name");
        reveal_strlit("email");
        reveal_strlit("debug");
        reveal_strlit("commit-timestamp");
        reveal_strlit("randomness-seed");
        reveal_strlit("operation-timestamp");
        reveal_strlit("operation");
        reveal_strlit("hostname");
        reveal_strlit("username");
        reveal_strlit("ui");
        reveal_strlit("editor");
    }
    let stack = ConfigStack::new();
    let stack = set_if(stack, "user", "name", &env.jj_user);
    let stack = set_if(stack, "user", "email", &env.jj_email);
    let stack = set_if(stack, "debug", "commit-timestamp", &env.jj_timestamp);
    let stack = set_if(stack, "debug", "randomness-seed", &env.jj_randomness_seed);
    let stack = set_if(stack, "debug", "operation-timestamp", &env.jj_op_timestamp);
    let stack = set_if(stack, "operation", "hostname", &env.jj_op_hostname);
    let stack = set_if(stack, "operation", "username", &env.jj_op_username);
    let stack = set_if(stack, "ui", "editor", &env.jj_editor);
    build_variables(stack)
}

/// Builds the configuration that holds the variables of a stack without tables.
fn build_variables(stack: ConfigStack) -> (config: config::Config)
    requires
        stack_tables(stack).len() == 0,
    ensures
        config_tree(config) == ValueTree::Table(section_table(stack_overrides(stack))),
        mergeable(config),
        settled(section_table(stack_overrides(stack))),
{
    stack.build().unwrap()
}

/// What a configuration holds under a name of a section.
spec fn says(config: config::Config, section: Seq<char>, name: Seq<char>) -> Option<
    ValueTree,
> {
    lookup_tree(config_tree(config), seq![section, name])
}

/// What a configuration of variables leads to.
proof fn lemma_says(config: config::Config, variables: Variables)
    requires
        config_tree(config) == ValueTree::Table(section_table(variables)),
    ensures
        forall|section: Seq<char>, name: Seq<char>| #[trigger]
            says(config, section, name) == if variables.contains_key((section, name)) {
                Some(ValueTree::String(variables[(section, name)]))
            } else {
                None
            },
        forall|path: Seq<Seq<char>>|
            (#[trigger] lookup_tree(config_tree(config), path) matches Some(value)
            && !(value is Table))
                ==> path.len() == 2 && variables.contains_key((path[0], path[1])),
{
    let table = section_table(variables);
    reveal_with_fuel(lookup_tree, 4);
    assert forall|section: Seq<char>, name: Seq<char>| #[trigger]
        says(config, section, name) == if variables.contains_key((section, name)) {
            Some(ValueTree::String(variables[(section, name)]))
        } else {
            None
        } by {
        let path = seq![section, name];
        assert(path.drop_first() =~= seq![name]);
        assert(seq![name].drop_first() =~= Seq::<Seq<char>>::empty());
    }
    assert forall|path: Seq<Seq<char>>|
        (#[trigger] lookup_tree(config_tree(config), path) matches Some(value)
            && !(value is Table)) implies path.len()
        == 2 && variables.contains_key((path[0], path[1])) by {
        assert(path.len() > 0);
        assert(path.len() > 1);
        assert(path.drop_first()[0] == path[1]);
        assert(path.drop_first().drop_first().len() == path.len() - 2);
    }
}

/// The names that the environment sets differ.
proof fn lemma_environment_names()
    ensures
        "color"@ != "pager"@,
        "color"@ != "editor"@,
        "pager"@ != "editor"@,
        "user"@ != "debug"@,
        "user"@ != "operation"@,
        "user"@ != "ui"@,
        "debug"@ != "operation"@,
        "debug"@ != "ui"@,
        "operation"@ != "ui"@,
        "name"@ != "email"@,
        "commit-timestamp"@ != "randomness-seed"@,
        "commit-timestamp"@ != "operation-timestamp"@,
        "randomness-seed"@ != "operation-timestamp"@,
        "hostname"@ != "username"@,
{
    reveal_strlit("ui");
    reveal_strlit("user");
    reveal_strlit("debug");
    reveal_strlit("operation");
    reveal_strlit("color");
    reveal_strlit("pager");
    reveal_strlit("editor");
    reveal_strlit("name");
    reveal_strlit("email");
    reveal_strlit("commit-timestamp");
    reveal_strlit("randomness-seed");
    reveal_strlit("operation-timestamp");
    reveal_strlit("hostname");
    reveal_strlit("username");
    assert("ui"@.len() == 2 && "user"@.len() == 4 && "debug"@.len() == 5 && "operation"@.len()
        == 9);
    assert("color"@[0] == 'c' && "pager"@[0] == 'p' && "editor"@[0] == 'e');
    assert("name"@[0] == 'n' && "email"@[0] == 'e');
    assert("commit-timestamp"@[0] == 'c' && "randomness-seed"@[0] == 'r'
        && "operation-timestamp"@[0] == 'o');
    assert("hostname"@[0] == 'h' && "username"@[0] == 'u');
}

/// `NO_COLOR` switches colors off, `PAGER` gives the pager, and `VISUAL` or else
/// `EDITOR` the editor. Nothing else is set below the configuration files.
pub proof fn law_base_environment_sets_colors_pager_and_editor(
    env: EnvVars,
    config: config::Config,
)
    requires
        config_tree(config) == ValueTree::Table(section_table(env.base_variables())),
    ensures
        lookup_tree(config_tree(config), seq!["ui"@, "color"@])
            == (if env.no_color is Some {
            Some(ValueTree::String("never"@))
        } else {
            None
        }),
        lookup_tree(config_tree(config), seq!["ui"@, "pager"@])
            == (match env.pager {
            Some(pager) => Some(ValueTree::String(pager@)),
            None => None,
        }),
        lookup_tree(config_tree(config), seq!["ui"@, "editor"@])
            == (match (env.visual, env.editor) {
            (Some(editor), _) => Some(ValueTree::String(editor@)),
            (None, Some(editor)) => Some(ValueTree::String(editor@)),
            (None, None) => None,
        }),
        forall|path: Seq<Seq<char>>|
            (#[trigger] lookup_tree(config_tree(config), path) matches Some(value)
            && !(value is Table)) ==> path
                == seq!["ui"@, "color"@] || path == seq!["ui"@, "pager"@] || path == seq![
                "ui"@,
                "editor"@,
            ],
{
    lemma_environment_names();
    lemma_says(config, env.base_variables());
    assert(says(config, "ui"@, "color"@) is Some == env.no_color is Some);
    assert(says(config, "ui"@, "pager"@) is Some == env.pager is Some);
    assert(says(config, "ui"@, "editor"@) is Some == (env.visual is Some || env.editor is Some));
    assert forall|path: Seq<Seq<char>>|
        (#[trigger] lookup_tree(config_tree(config), path) matches Some(value)
            && !(value is Table)) implies path
        == seq!["ui"@, "color"@] || path == seq!["ui"@, "pager"@] || path == seq![
        "ui"@,
        "editor"@,
    ] by {
        assert(path =~= seq![path[0], path[1]]);
    }
}

/// Each of the variables that `jj` looks for in the environment is set over the
/// configuration files, if it is there. Nothing else is.
pub proof fn law_overriding_environment_sets_its_variables(env: EnvVars, config: config::Config)
    requires
        config_tree(config) == ValueTree::Table(section_table(env.override_variables())),
    ensures
        lookup_tree(config_tree(config), seq!["user"@, "name"@])
            == (match env.jj_user {
            Some(text) => Some(ValueTree::String(text@)),
            None => None,
        }),
        lookup_tree(config_tree(config), seq!["user"@, "email"@])
            == (match env.jj_email {
            Some(text) => Some(ValueTree::String(text@)),
            None => None,
        }),
        lookup_tree(config_tree(config), seq!["debug"@, "commit-timestamp"@])
            == (match env.jj_timestamp {
            Some(text) => Some(ValueTree::String(text@)),
            None => None,
        }),
        lookup_tree(config_tree(config), seq!["debug"@, "randomness-seed"@])
            == (match env.jj_randomness_seed {
            Some(text) => Some(ValueTree::String(text@)),
            None => None,
        }),
        lookup_tree(config_tree(config), seq!["debug"@, "operation-timestamp"@])
            == (match env.jj_op_timestamp {
            Some(text) => Some(ValueTree::String(text@)),
            None => None,
        }),
        lookup_tree(config_tree(config), seq!["operation"@, "hostname"@])
            == (match env.jj_op_hostname {
            Some(text) => Some(ValueTree::String(text@)),
            None => None,
        }),
        lookup_tree(config_tree(config), seq!["operation"@, "username"@])
            == (match env.jj_op_username {
            Some(text) => Some(ValueTree::String(text@)),
            None => None,
        }),
        lookup_tree(config_tree(config), seq!["ui"@, "editor"@])
            == (match env.jj_editor {
            Some(text) => Some(ValueTree::String(text@)),
            None => None,
        }),
        forall|path: Seq<Seq<char>>|
            (#[trigger] lookup_tree(config_tree(config), path) matches Some(value)
            && !(value is Table)) ==> path
                == seq!["user"@, "name"@] || path == seq!["user"@, "email"@] || path == seq![
                "debug"@,
                "commit-timestamp"@,
            ] || path == seq!["debug"@, "randomness-seed"@] || path == seq![
                "debug"@,
                "operation-timestamp"@,
            ] || path == seq!["operation"@, "hostname"@] || path == seq![
                "operation"@,
                "username"@,
            ] || path == seq!["ui"@, "editor"@],
{
    lemma_environment_names();
    lemma_says(config, env.override_variables());
    assert(says(config, "user"@, "name"@) is Some == env.jj_user is Some);
    assert(says(config, "user"@, "email"@) is Some == env.jj_email is Some);
    assert(says(config, "debug"@, "commit-timestamp"@) is Some == env.jj_timestamp is Some);
    assert(says(config, "debug"@, "randomness-seed"@) is Some == env.jj_randomness_seed is Some);
    assert(says(config, "debug"@, "operation-timestamp"@) is Some == env.jj_op_timestamp is Some);
    assert(says(config, "operation"@, "hostname"@) is Some == env.jj_op_hostname is Some);
    assert(says(config, "operation"@, "username"@) is Some == env.jj_op_username is Some);
    assert(says(config, "ui"@, "editor"@) is Some == env.jj_editor is Some);
    assert forall|path: Seq<Seq<char>>|
        (#[trigger] lookup_tree(config_tree(config), path) matches Some(value)
            && !(value is Table)) implies path
        == seq!["user"@, "name"@] || path == seq!["user"@, "email"@] || path == seq![
        "debug"@,
        "commit-timestamp"@,
    ] || path == seq!["debug"@, "randomness-seed"@] || path == seq![
        "debug"@,
        "operation-timestamp"@,
    ] || path == seq!["operation"@, "hostname"@] || path == seq!["operation"@, "username"@] || path
        == seq!["ui"@, "editor"@] by {
        assert(path =~= seq![path[0], path[1]]);
    }
}

} // verus!
