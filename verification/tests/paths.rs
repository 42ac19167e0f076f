//! Paths of configuration files.
use jj_config::error::ConfigEnvError;
use jj_config::layered::LayeredConfigs;
use jj_config::layers::StackedConfig;
use jj_config::paths::{
    existing_config_path, new_config_path, ConfigEnv, ConfigFile, ConfigPath, PathsFound,
};
use std::path::{Path, PathBuf};

enum Want {
    Nothing,
    New(&'static str),
    ExistingAndNew(&'static str),
}

struct TestCase {
    files: Vec<&'static str>,
    cfg: ConfigEnv,
    want: Want,
}

const ROOT: &str = "/tmp/root";

fn found(files: &[&'static str], env: &ConfigEnv) -> PathsFound {
    let exists = |path: Option<PathBuf>| {
        path.is_some_and(|path| files.iter().any(|file| Path::new(ROOT).join(file) == path))
    };
    PathsFound {
        jj_config: exists(env.jj_config_path()),
        platform: exists(env.platform_config_path()),
        home: exists(env.home_config_path()),
    }
}

impl TestCase {
    fn config(&self) -> ConfigEnv {
        let root = Path::new(ROOT);
        ConfigEnv {
            config_dir: self.cfg.config_dir.as_ref().map(|p| root.join(p)),
            home_dir: self.cfg.home_dir.as_ref().map(|p| root.join(p)),
            jj_config: self
                .cfg
                .jj_config
                .as_ref()
                .map(|p| root.join(p).to_str().unwrap().to_string()),
        }
    }

    fn run(self) {
        let (want_existing, want_new) = match self.want {
            Want::Nothing => (None, None),
            Want::New(want) => (None, Some(want)),
            Want::ExistingAndNew(want) => (Some(want), Some(want)),
        };
        let env = self.config();
        let found = found(&self.files, &env);
        let want_existing = want_existing.map(|p| Path::new(ROOT).join(p));
        let want_new = want_new.map(|p| Path::new(ROOT).join(p));
        assert_eq!(env.clone().existing_config_path(found), Ok(want_existing.clone()));
        assert_eq!(existing_config_path(env.clone(), found), Ok(want_existing.clone()));
        let create = want_existing.is_none();
        let want_file = || want_new.clone().map(|path| ConfigFile { path, create });
        assert_eq!(env.clone().new_config_path(found), Ok(want_file()));
        assert_eq!(new_config_path(env, found), Ok(want_file()));
    }
}

#[test]
fn test_config_path_home_dir_existing() {
    TestCase {
        files: vec!["home/.jjconfig.toml"],
        cfg: ConfigEnv { home_dir: Some("home".into()), ..Default::default() },
        want: Want::ExistingAndNew("home/.jjconfig.toml"),
    }
    .run()
}

#[test]
fn test_config_path_home_dir_new() {
    TestCase {
        files: vec![],
        cfg: ConfigEnv { home_dir: Some("home".into()), ..Default::default() },
        want: Want::New("home/.jjconfig.toml"),
    }
    .run()
}

#[test]
fn test_config_path_config_dir_existing() {
    TestCase {
        files: vec!["config/jj/config.toml"],
        cfg: ConfigEnv { config_dir: Some("config".into()), ..Default::default() },
        want: Want::ExistingAndNew("config/jj/config.toml"),
    }
    .run()
}

#[test]
fn test_config_path_config_dir_new() {
    TestCase {
        files: vec![],
        cfg: ConfigEnv { config_dir: Some("config".into()), ..Default::default() },
        want: Want::New("config/jj/config.toml"),
    }
    .run()
}

#[test]
fn test_config_path_new_prefer_config_dir() {
    TestCase {
        files: vec![],
        cfg: ConfigEnv {
            config_dir: Some("config".into()),
            home_dir: Some("home".into()),
            ..Default::default()
        },
        want: Want::New("config/jj/config.toml"),
    }
    .run()
}

#[test]
fn test_config_path_jj_config_existing() {
    TestCase {
        files: vec!["custom.toml"],
        cfg: ConfigEnv { jj_config: Some("custom.toml".into()), ..Default::default() },
        want: Want::ExistingAndNew("custom.toml"),
    }
    .run()
}

#[test]
fn test_config_path_jj_config_new() {
    TestCase {
        files: vec![],
        cfg: ConfigEnv { jj_config: Some("custom.toml".into()), ..Default::default() },
        want: Want::New("custom.toml"),
    }
    .run()
}

#[test]
fn test_config_path_config_pick_config_dir() {
    TestCase {
        files: vec!["config/jj/config.toml"],
        cfg: ConfigEnv {
            home_dir: Some("home".into()),
            config_dir: Some("config".into()),
            ..Default::default()
        },
        want: Want::ExistingAndNew("config/jj/config.toml"),
    }
    .run()
}

#[test]
fn test_config_path_config_pick_home_dir() {
    TestCase {
        files: vec!["home/.jjconfig.toml"],
        cfg: ConfigEnv {
            home_dir: Some("home".into()),
            config_dir: Some("config".into()),
            ..Default::default()
        },
        want: Want::ExistingAndNew("home/.jjconfig.toml"),
    }
    .run()
}

#[test]
fn test_config_path_none() {
    TestCase { files: vec![], cfg: Default::default(), want: Want::Nothing }.run()
}

#[test]
fn test_config_path_ambiguous() {
    let cfg = ConfigEnv {
        home_dir: Some(Path::new(ROOT).join("home")),
        config_dir: Some(Path::new(ROOT).join("config")),
        ..Default::default()
    };
    let found = found(&["home/.jjconfig.toml", "config/jj/config.toml"], &cfg);
    assert!(matches!(
        cfg.clone().existing_config_path(found),
        Err(ConfigEnvError::AmbiguousSource(_, _))
    ));
    assert!(matches!(
        cfg.clone().new_config_path(found),
        Err(ConfigEnvError::AmbiguousSource(_, _))
    ));
    // The file of the platform is named first.
    assert_eq!(
        cfg.existing_config_path(found),
        Err(ConfigEnvError::AmbiguousSource(
            PathBuf::from("/tmp/root/config/jj/config.toml"),
            PathBuf::from("/tmp/root/home/.jjconfig.toml"),
        ))
    );
}

#[test]
fn jj_config_takes_the_place_of_both_files() {
    TestCase {
        files: vec!["home/.jjconfig.toml", "config/jj/config.toml"],
        cfg: ConfigEnv {
            home_dir: Some("home".into()),
            config_dir: Some("config".into()),
            jj_config: Some("custom.toml".into()),
        },
        want: Want::New("custom.toml"),
    }
    .run()
}

#[test]
fn paths_are_classified() {
    let path = PathBuf::from("a");
    assert_eq!(ConfigPath::new(Some(path.clone()), true), ConfigPath::Existing(path.clone()));
    assert_eq!(ConfigPath::new(Some(path.clone()), false), ConfigPath::New(path));
    assert_eq!(ConfigPath::new(None, false), ConfigPath::Unavailable);
    assert_eq!(ConfigPath::new(None, true), ConfigPath::Unavailable);
}

#[test]
fn failure_to_create_a_file_is_reported() {
    let file = |create| ConfigFile { path: PathBuf::from("a"), create };
    assert_eq!(file(true).created(Ok(())), Ok(PathBuf::from("a")));
    assert_eq!(
        file(true).created(Err("full".to_owned())),
        Err(ConfigEnvError::ConfigCreateError("full".to_owned()))
    );
    assert_eq!(file(false).created(Err("full".to_owned())), Ok(PathBuf::from("a")));
}

#[test]
fn paths_of_the_user_and_of_the_repo() {
    let configs = LayeredConfigs::from_layers(StackedConfig::empty());
    assert_eq!(
        configs.repo_config_path(&PathBuf::from("/repo/.jj/repo")),
        PathBuf::from("/repo/.jj/repo/config.toml")
    );
    let env = ConfigEnv { home_dir: Some("/home/me".into()), ..Default::default() };
    let found = PathsFound { home: true, ..Default::default() };
    assert_eq!(
        configs.user_config_path(env.clone(), found),
        Ok(Some(PathBuf::from("/home/me/.jjconfig.toml")))
    );
    assert_eq!(configs.user_config_path(env, PathsFound::default()), Ok(None));
}
