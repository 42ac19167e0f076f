//! Where the configuration files of the user are.
use crate::error::ConfigEnvError;
use std::path::PathBuf;
use vstd::prelude::*;

verus! {

/// A path of the file system.
#[verifier::external_type_specification]
#[verifier::external_body]
pub struct ExPathBuf(std::path::PathBuf);

/// The path that `std::path::Path::join` makes of a path and a name.
pub uninterp spec fn joined_path(base: PathBuf, name: Seq<char>) -> PathBuf;

/// The text of a path, if it has one.
pub uninterp spec fn path_text(path: PathBuf) -> Option<Seq<char>>;

/// `std::path::Path::join` of a path and a name, which depends on nothing else.
#[verifier::external_body]
pub(crate) fn join_name(base: &PathBuf, name: &str) -> (path: PathBuf)
    ensures
        path == joined_path(*base, name@),
{
    base.join(name)
}

/// `PathBuf::from` of a text: the path has that text.
#[verifier::external_body]
fn path_from_text(text: String) -> (path: PathBuf)
    ensures
        path_text(path) == Some(text@),
{
    PathBuf::from(text)
}

/// A configuration file of the user.
#[derive(Debug, PartialEq, Eq)]
pub enum ConfigPath {
    /// Existing config file path.
    Existing(PathBuf),
    /// Could not find any config file, but a new file can be created at the
    /// specified location.
    New(PathBuf),
    /// Could not find any config file.
    Unavailable,
}

impl ConfigPath {
    /// Classifies a path by whether it exists.
    pub fn new(path: Option<PathBuf>, exists: bool) -> (classified: Self)
        ensures
            classified == match path {
                Some(path) => if exists {
                    ConfigPath::Existing(path)
                } else {
                    ConfigPath::New(path)
                },
                None => ConfigPath::Unavailable,
            },
    {
        match path {
            Some(path) => if exists {
                ConfigPath::Existing(path)
            } else {
                ConfigPath::New(path)
            },
            None => ConfigPath::Unavailable,
        }
    }
}

/// What of the environment tells where the configuration files are.
#[derive(Clone, Default, Debug)]
pub struct ConfigEnv {
    /// The directory of the platform for configurations.
    pub config_dir: Option<PathBuf>,
    /// The home directory of the user.
    pub home_dir: Option<PathBuf>,
    /// `JJ_CONFIG`, which takes the place of all other paths.
    pub jj_config: Option<String>,
}

/// Which of the paths that `ConfigEnv` gives exist.
#[derive(Clone, Copy, Default, Debug)]
pub struct PathsFound {
    pub jj_config: bool,
    pub platform: bool,
    pub home: bool,
}

/// A configuration file of the user that can be edited.
#[derive(Debug, PartialEq, Eq)]
pub struct ConfigFile {
    pub path: PathBuf,
    /// The file does not exist yet.
    pub create: bool,
}

/// The file to use, of one in the directory of the platform and one in the home
/// directory. One that exists goes before one that does not, and the one of the
/// platform goes before the other. If both exist the choice is ambiguous.
pub open spec fn chosen_path(
    platform: Option<PathBuf>,
    home: Option<PathBuf>,
    found: PathsFound,
) -> Result<ConfigPath, ConfigEnvError> {
    match (platform, home) {
        (Some(platform), Some(home)) => if found.platform && found.home {
            Err(ConfigEnvError::AmbiguousSource(platform, home))
        } else if found.platform {
            Ok(ConfigPath::Existing(platform))
        } else if found.home {
            Ok(ConfigPath::Existing(home))
        } else {
            Ok(ConfigPath::New(platform))
        },
        (Some(platform), None) => if found.platform {
            Ok(ConfigPath::Existing(platform))
        } else {
            Ok(ConfigPath::New(platform))
        },
        (None, Some(home)) => if found.home {
            Ok(ConfigPath::Existing(home))
        } else {
            Ok(ConfigPath::New(home))
        },
        (None, None) => Ok(ConfigPath::Unavailable),
    }
}

impl ConfigEnv {
    /// The path of the file in the directory of the platform.
    pub open spec fn platform_path(self) -> Option<PathBuf> {
        match self.config_dir {
            Some(dir) => Some(joined_path(joined_path(dir, "jj"@), "config.toml"@)),
            None => None,
        }
    }

    /// The path of the file in the home directory.
    pub open spec fn home_path(self) -> Option<PathBuf> {
        match self.home_dir {
            Some(dir) => Some(joined_path(dir, ".jjconfig.toml"@)),
            None => None,
        }
    }

    /// What `config_path` gives.
    pub open spec fn config_path_is(
        self,
        found: PathsFound,
        result: Result<ConfigPath, ConfigEnvError>,
    ) -> bool {
        match self.jj_config {
            Some(text) => if found.jj_config {
                result matches Ok(ConfigPath::Existing(path)) && path_text(path) == Some(text@)
            } else {
                result matches Ok(ConfigPath::New(path)) && path_text(path) == Some(text@)
            },
            None => result == chosen_path(self.platform_path(), self.home_path(), found),
        }
    }

    /// The path that `JJ_CONFIG` gives.
    pub fn jj_config_path(&self) -> (path: Option<PathBuf>)
        ensures
            match self.jj_config {
                Some(text) => path matches Some(path) && path_text(path) == Some(text@),
                None => path is None,
            },
    {
        match &self.jj_config {
            Some(text) => Some(path_from_text(text.clone())),
            None => None,
        }
    }

    /// The path of the file in the directory of the platform.
    pub fn platform_config_path(&self) -> (path: Option<PathBuf>)
        ensures
            path == self.platform_path(),
    {
        match &self.config_dir {
            Some(dir) => Some(join_name(&join_name(dir, "jj"), "config.toml")),
            None => None,
        }
    }

    /// The path of the file in the home directory.
    pub fn home_config_path(&self) -> (path: Option<PathBuf>)
        ensures
            path == self.home_path(),
    {
        match &self.home_dir {
            Some(dir) => Some(join_name(dir, ".jjconfig.toml")),
            None => None,
        }
    }

    /// Finds the configuration file of the user. `found` tells which of
    /// `jj_config_path`, `platform_config_path` and `home_config_path` exist.
    pub fn config_path(self, found: PathsFound) -> (result: Result<ConfigPath, ConfigEnvError>)
        ensures
            self.config_path_is(found, result),
            self.jj_config matches Some(text) ==> (match result {
                Ok(ConfigPath::Existing(path)) => found.jj_config && path_text(path) == Some(text@),
                Ok(ConfigPath::New(path)) => !found.jj_config && path_text(path) == Some(text@),
                _ => false,
            }),
    {
        let jj_config_path = self.jj_config_path();
        if jj_config_path.is_some() {
            return Ok(ConfigPath::new(jj_config_path, found.jj_config));
        }
        let platform_config_path = ConfigPath::new(self.platform_config_path(), found.platform);
        let home_config_path = ConfigPath::new(self.home_config_path(), found.home);
        match (platform_config_path, home_config_path) {
            (
                ConfigPath::Existing(platform_config_path),
                ConfigPath::Existing(home_config_path),
            ) => Err(ConfigEnvError::AmbiguousSource(platform_config_path, home_config_path)),
            (ConfigPath::Existing(path), _) => Ok(ConfigPath::Existing(path)),
            (_, ConfigPath::Existing(path)) => Ok(ConfigPath::Existing(path)),
            (ConfigPath::New(path), _) => Ok(ConfigPath::New(path)),
            (_, ConfigPath::New(path)) => Ok(ConfigPath::New(path)),
            (ConfigPath::Unavailable, ConfigPath::Unavailable) => Ok(ConfigPath::Unavailable),
        }
    }

    /// The configuration file of the user, if there is one.
    pub fn existing_config_path(self, found: PathsFound) -> (result: Result<
        Option<PathBuf>,
        ConfigEnvError,
    >)
        ensures
            exists|path: Result<ConfigPath, ConfigEnvError>| #[trigger]
                self.config_path_is(found, path) && result == existing_of(path),
            self.jj_config matches Some(text) ==> (if found.jj_config {
                result matches Ok(Some(path)) && path_text(path) == Some(text@)
            } else {
                result == Ok::<Option<PathBuf>, ConfigEnvError>(None)
            }),
    {
        let config_path = self.config_path(found);
        assert(self.config_path_is(found, config_path));
        match config_path {
            Ok(ConfigPath::Existing(path)) => Ok(Some(path)),
            Ok(_) => Ok(None),
            Err(error) => Err(error),
        }
    }

    /// The configuration file of the user, or the one to be created if there is
    /// none.
    pub fn new_config_path(self, found: PathsFound) -> (result: Result<
        Option<ConfigFile>,
        ConfigEnvError,
    >)
        ensures
            exists|path: Result<ConfigPath, ConfigEnvError>| #[trigger]
                self.config_path_is(found, path) && result == editable_of(path),
            self.jj_config matches Some(text) ==> (result matches Ok(Some(file)) && path_text(
                file.path,
            ) == Some(text@) && file.create == !found.jj_config),
    {
        let config_path = self.config_path(found);
        assert(self.config_path_is(found, config_path));
        match config_path {
            Ok(ConfigPath::Existing(path)) => Ok(Some(ConfigFile { path, create: false })),
            Ok(ConfigPath::New(path)) => Ok(Some(ConfigFile { path, create: true })),
            Ok(ConfigPath::Unavailable) => Ok(None),
            Err(error) => Err(error),
        }
    }
}

/// The path of an existing file.
pub open spec fn existing_of(path: Result<ConfigPath, ConfigEnvError>) -> Result<
    Option<PathBuf>,
    ConfigEnvError,
> {
    match path {
        Ok(ConfigPath::Existing(path)) => Ok(Some(path)),
        Ok(_) => Ok(None),
        Err(error) => Err(error),
    }
}

/// The file to edit, and whether it is still to be created.
pub open spec fn editable_of(path: Result<ConfigPath, ConfigEnvError>) -> Result<
    Option<ConfigFile>,
    ConfigEnvError,
> {
    match path {
        Ok(ConfigPath::Existing(path)) => Ok(Some(ConfigFile { path, create: false })),
        Ok(ConfigPath::New(path)) => Ok(Some(ConfigFile { path, create: true })),
        Ok(ConfigPath::Unavailable) => Ok(None),
        Err(error) => Err(error),
    }
}

impl ConfigFile {
    /// The path of the file, once it was created as far as need be. `outcome`
    /// is what came of creating it, and is looked at only if it had to be
    /// created.
    pub fn created(self, outcome: Result<(), String>) -> (result: Result<PathBuf, ConfigEnvError>)
        ensures
            result == match outcome {
                Err(reason) if self.create => Err(ConfigEnvError::ConfigCreateError(reason)),
                _ => Ok(self.path),
            },
    {
        if self.create {
            match outcome {
                Ok(_) => Ok(self.path),
                Err(reason) => Err(ConfigEnvError::ConfigCreateError(reason)),
            }
        } else {
            Ok(self.path)
        }
    }
}

/// The configuration file of the user, if there is one.
pub fn existing_config_path(env: ConfigEnv, found: PathsFound) -> (result: Result<
    Option<PathBuf>,
    ConfigEnvError,
>)
    ensures
        exists|path: Result<ConfigPath, ConfigEnvError>| #[trigger]
            env.config_path_is(found, path) && result == existing_of(path),
        env.jj_config matches Some(text) ==> (if found.jj_config {
            result matches Ok(Some(path)) && path_text(path) == Some(text@)
        } else {
            result == Ok::<Option<PathBuf>, ConfigEnvError>(None)
        }),
{
    env.existing_config_path(found)
}

/// Returns a path to the user-specific config file.
///
/// If no config file is found, tries to guess a reasonable new location for it.
/// If a path to a new config file is returned, the file and its parent directory
/// are still to be created.
pub fn new_config_path(env: ConfigEnv, found: PathsFound) -> (result: Result<
    Option<ConfigFile>,
    ConfigEnvError,
>)
    ensures
        exists|path: Result<ConfigPath, ConfigEnvError>| #[trigger]
            env.config_path_is(found, path) && result == editable_of(path),
        env.jj_config matches Some(text) ==> (result matches Ok(Some(file)) && path_text(
            file.path,
        ) == Some(text@) && file.create == !found.jj_config),
{
    env.new_config_path(found)
}

/// A file that is there is the one to edit, and is not created again: whatever
/// `existing_config_path` finds, `new_config_path` gives the same path.
pub proof fn law_existing_file_is_edited(
    env: ConfigEnv,
    found: PathsFound,
    existing: Result<ConfigPath, ConfigEnvError>,
    edited: Result<ConfigPath, ConfigEnvError>,
)
    requires
        env.config_path_is(found, existing),
        env.config_path_is(found, edited),
        existing_of(existing) matches Ok(Some(_)),
    ensures
        editable_of(edited) matches Ok(Some(file)) && !file.create && {
            let path = existing_of(existing)->Ok_0->Some_0;
            if env.jj_config is Some {
                path_text(file.path) == path_text(path)
            } else {
                file.path == path
            }
        },
{
}

/// The choice fails only where `JJ_CONFIG` is not set and both files exist.
pub proof fn law_ambiguous_only_if_both_exist(
    env: ConfigEnv,
    found: PathsFound,
    result: Result<ConfigPath, ConfigEnvError>,
)
    requires
        env.config_path_is(found, result),
    ensures
        result is Err <==> {
            &&& env.jj_config is None
            &&& env.config_dir is Some && found.platform
            &&& env.home_dir is Some && found.home
        },
{
}

/// Where `JJ_CONFIG` is set, the file that is read and the file that is edited are the
/// one that it names, whatever directories there are and whatever stands in them.
pub proof fn law_jj_config_takes_the_place_of_all(
    env: ConfigEnv,
    found: PathsFound,
    text: String,
    existing: Result<Option<PathBuf>, ConfigEnvError>,
    edited: Result<Option<ConfigFile>, ConfigEnvError>,
)
    requires
        env.jj_config == Some(text),
        exists|path: Result<ConfigPath, ConfigEnvError>| #[trigger]
            env.config_path_is(found, path) && existing == existing_of(path),
        exists|path: Result<ConfigPath, ConfigEnvError>| #[trigger]
            env.config_path_is(found, path) && edited == editable_of(path),
    ensures
        found.jj_config ==> (existing matches Ok(Some(path)) && path_text(path) == Some(text@)),
        !found.jj_config ==> existing == Ok::<Option<PathBuf>, ConfigEnvError>(None),
        edited matches Ok(Some(file)) && path_text(file.path) == Some(text@) && file.create
            == !found.jj_config,
{
}

/// Without `JJ_CONFIG`, a file of the platform or of the home directory is read if it
/// is there. It is an error that both are there. A new file goes to the directory of the
/// platform, or else to the home directory.
pub proof fn law_file_of_platform_or_home(
    env: ConfigEnv,
    found: PathsFound,
    existing: Result<Option<PathBuf>, ConfigEnvError>,
    edited: Result<Option<ConfigFile>, ConfigEnvError>,
)
    requires
        env.jj_config is None,
        exists|path: Result<ConfigPath, ConfigEnvError>| #[trigger]
            env.config_path_is(found, path) && existing == existing_of(path),
        exists|path: Result<ConfigPath, ConfigEnvError>| #[trigger]
            env.config_path_is(found, path) && edited == editable_of(path),
    ensures
        env.config_dir is Some && found.platform && !(env.home_dir is Some && found.home) ==> {
            let dir = env.config_dir->Some_0;
            let path = joined_path(joined_path(dir, "jj"@), "config.toml"@);
            &&& existing == Ok::<_, ConfigEnvError>(Some(path))
            &&& edited == Ok::<_, ConfigEnvError>(Some(ConfigFile { path, create: false }))
        },
        env.home_dir is Some && found.home && !(env.config_dir is Some && found.platform) ==> {
            let path = joined_path(env.home_dir->Some_0, ".jjconfig.toml"@);
            &&& existing == Ok::<_, ConfigEnvError>(Some(path))
            &&& edited == Ok::<_, ConfigEnvError>(Some(ConfigFile { path, create: false }))
        },
        env.config_dir is Some && found.platform && env.home_dir is Some && found.home ==> {
            let dir = env.config_dir->Some_0;
            let platform_path = joined_path(joined_path(dir, "jj"@), "config.toml"@);
            let home_path = joined_path(env.home_dir->Some_0, ".jjconfig.toml"@);
            let error = ConfigEnvError::AmbiguousSource(platform_path, home_path);
            &&& existing == Err::<Option<PathBuf>, ConfigEnvError>(error)
            &&& edited == Err::<Option<ConfigFile>, ConfigEnvError>(error)
        },
        !(env.config_dir is Some && found.platform) && !(env.home_dir is Some && found.home)
            ==> existing == Ok::<Option<PathBuf>, ConfigEnvError>(None) && (match (
            env.config_dir,
            env.home_dir,
        ) {
            (Some(dir), _) => edited == Ok::<_, ConfigEnvError>(
                Some(
                    ConfigFile {
                        path: joined_path(joined_path(dir, "jj"@), "config.toml"@),
                        create: true,
                    },
                ),
            ),
            (None, Some(dir)) => edited == Ok::<_, ConfigEnvError>(
                Some(ConfigFile { path: joined_path(dir, ".jjconfig.toml"@), create: true }),
            ),
            (None, None) => edited == Ok::<Option<ConfigFile>, ConfigEnvError>(None),
        }),
{
}

/// What comes of `JJ_CONFIG` does not depend on the directories, nor on whether their
/// files are there.
pub proof fn law_directories_do_not_matter_under_jj_config(
    first: ConfigEnv,
    first_found: PathsFound,
    first_path: Result<ConfigPath, ConfigEnvError>,
    second: ConfigEnv,
    second_found: PathsFound,
    second_path: Result<ConfigPath, ConfigEnvError>,
)
    requires
        first.jj_config is Some,
        first.jj_config == second.jj_config,
        first_found.jj_config == second_found.jj_config,
        first.config_path_is(first_found, first_path),
        second.config_path_is(second_found, second_path),
    ensures
        match (first_path, second_path) {
            (Ok(ConfigPath::Existing(a)), Ok(ConfigPath::Existing(b))) => path_text(a) == path_text(
                b,
            ),
            (Ok(ConfigPath::New(a)), Ok(ConfigPath::New(b))) => path_text(a) == path_text(b),
            _ => false,
        },
{
}

} // verus!
