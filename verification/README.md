# jj_config

Layered configuration of the `jj` command-line program: a library whose behaviour is
stated in contracts and proved with Verus, and a thin layer of ordinary Rust around
it.

- `src/` is the verified library.
  - `source`, `layers`, `layered`: the layers of a configuration, in order of
    precedence, and how they are read, replaced and merged.
  - `value`, `name_path`, `path_name`, `overlay`: configuration values as trees, paths
    into them, and what comes of laying one over another.
  - `resolve`, `listing`, `order`: the variables of all layers, each with the layer
    that it comes from.
  - `environment`, `defaults`, `toml_text`, `text`: where layers come from.
  - `paths`: where the files of the user are.
  - `edit`, `toml_value`: changing configuration files.
  - `commands`, `command_env`, `variables`: commands that are specified in the
    configuration.
  - `config_crate`, `toml_crate`, `regex_crate`: calls into other crates, with what
    is relied on of each. `resolve` and `paths` hold one or two more.
  - Proof functions named `law_..` state what holds of several functions together.
- `tests/` runs the library.
- `app/` reads the environment and the files, and runs processes.
