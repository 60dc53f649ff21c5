//! Where the program keeps its state.

use renamer::paths::{
    cache_dir, catalog_path, data_dir, models_dir, quarantine_dir, thumbs_dir, Env,
};

fn env() -> Env {
    Env {
        home: Some("/home/tester".into()),
        data_override: None,
        cache_override: None,
        xdg_data: None,
        xdg_cache: None,
        mac: false,
    }
}

#[test]
fn env_overrides_are_honored() {
    let env = Env {
        data_override: Some("/tmp/renamer-data-test".into()),
        cache_override: Some("/tmp/renamer-cache-test".into()),
        ..env()
    };
    assert_eq!(data_dir(&env), "/tmp/renamer-data-test");
    assert_eq!(cache_dir(&env), "/tmp/renamer-cache-test");
    assert_eq!(catalog_path(&env), "/tmp/renamer-data-test/catalog.sqlite");
    assert_eq!(quarantine_dir(&env), "/tmp/renamer-data-test/quarantine");
    assert_eq!(thumbs_dir(&env), "/tmp/renamer-cache-test/thumbs");
    assert_eq!(models_dir(&env), "/tmp/renamer-data-test/models");
}

#[test]
fn defaults_are_absolute_and_outside_the_cwd() {
    // The critical property: app state never resolves relative to the
    // current directory, which could itself be a photo folder.
    let env = env();
    assert!(data_dir(&env).starts_with('/'));
    assert!(cache_dir(&env).starts_with('/'));
    assert!(data_dir(&env).starts_with("/home/tester"));
    assert!(cache_dir(&env).starts_with("/home/tester"));
    assert!(data_dir(&env).ends_with("renamer"));
}

#[test]
fn xdg_vars_win_over_home_on_linux() {
    let env = Env {
        xdg_data: Some("/xdg/data".into()),
        xdg_cache: Some("/xdg/cache".into()),
        ..env()
    };
    assert_eq!(data_dir(&env), "/xdg/data/renamer");
    assert_eq!(cache_dir(&env), "/xdg/cache/renamer");

    // macOS ignores XDG by design.
    let mac = Env { mac: true, ..env.clone() };
    assert!(data_dir(&mac).starts_with("/home/tester/Library"));
    assert_eq!(data_dir(&mac), "/home/tester/Library/Application Support/renamer");
    assert_eq!(cache_dir(&mac), "/home/tester/Library/Caches/renamer");

    // A relative XDG path is invalid per spec and must be ignored.
    let env = Env { xdg_data: Some("relative/path".into()), ..env };
    assert_eq!(data_dir(&env), "/home/tester/.local/share/renamer");
}

#[test]
fn without_a_home_the_current_directory_is_the_last_resort() {
    let env = Env { home: None, ..env() };
    assert_eq!(data_dir(&env), "./.local/share/renamer");
    assert_eq!(cache_dir(&env), "./.cache/renamer");
}
