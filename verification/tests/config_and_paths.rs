use warp_to::config::{get_config_path, get_windows_config_path, Config};
use warp_to::paths::{eq_ignore_ascii_case, fetch_ancestor, fetch_drive_root, fetch_root, path_join_all};

#[test]
fn default_config_ignores_git_only() {
    let c = Config::new();
    assert!(c.shortcuts.is_empty());
    assert_eq!(c.ignore, vec![".git".to_string()]);
    assert!(c.ignores(".git"));
    assert!(!c.ignores("src"));
    assert!(c.shortcut("anything").is_none());
}

#[test]
fn config_from_entries_keeps_first_of_each() {
    let c = Config::from_entries(
        vec![
            ("proj".to_string(), "/p1".to_string()),
            ("docs".to_string(), "/d".to_string()),
            ("proj".to_string(), "/p2".to_string()),
        ],
        vec!["target".to_string(), ".git".to_string(), "target".to_string()],
    );
    assert_eq!(c.shortcuts.len(), 2);
    assert_eq!(c.shortcut("proj").map(|s| s.as_str()), Some("/p1"));
    assert_eq!(c.shortcut("docs").map(|s| s.as_str()), Some("/d"));
    assert!(c.shortcut("Proj").is_none());
    assert_eq!(c.ignore, vec!["target".to_string(), ".git".to_string()]);
    assert!(c.ignores("target"));
    assert!(!c.ignores("Target"));
}

#[test]
fn config_path_under_xdg_home() {
    assert_eq!(get_config_path(Some("/cfg".to_string())), "/cfg/warp-to/config.json");
}

#[test]
fn config_path_default() {
    assert_eq!(get_config_path(None), "~/.config/warp-to/config.json");
}

#[test]
fn root_is_slash() {
    assert_eq!(fetch_root(), Ok("/".to_string()));
}

#[test]
fn ancestors_stop_at_the_root() {
    assert_eq!(fetch_ancestor("/a/b/c", 0), "/a/b/c");
    assert_eq!(fetch_ancestor("/a/b/c", 1), "/a/b");
    assert_eq!(fetch_ancestor("/a/b/c", 2), "/a");
    assert_eq!(fetch_ancestor("/a/b/c", 3), "/");
    assert_eq!(fetch_ancestor("/a/b/c", 9), "/");
}

#[test]
fn ascii_case_comparison() {
    assert!(eq_ignore_ascii_case("Foo", "fOO"));
    assert!(eq_ignore_ascii_case("", ""));
    assert!(!eq_ignore_ascii_case("foo", "fo"));
    assert!(!eq_ignore_ascii_case("É", "é"));
    assert!(eq_ignore_ascii_case("ÉtÉ", "ÉTÉ"));
}

#[test]
fn join_pushes_components() {
    let comps = vec!["a".to_string(), "b".to_string(), "c".to_string()];
    assert_eq!(path_join_all("/x", &comps, 0), "/x/a/b/c");
    assert_eq!(path_join_all("/x/", &comps, 1), "/x/b/c");
    assert_eq!(path_join_all("/", &comps, 3), "/");
}

#[test]
fn jumps_compose() {
    let p = "/a/b/c/d";
    assert_eq!(fetch_ancestor(&fetch_ancestor(p, 1), 2), fetch_ancestor(p, 3));
    assert_eq!(fetch_ancestor(&fetch_ancestor(p, 3), 4), fetch_ancestor(p, 7));
}

#[test]
fn windows_default_config_ignores() {
    let c = Config::new_windows();
    assert!(c.shortcuts.is_empty());
    assert_eq!(
        c.ignore,
        vec![".git".to_string(), "Program Files".to_string(), "Program Files (x86)".to_string(), "Temp".to_string()]
    );
    assert!(c.ignores("Temp"));
    assert!(!c.ignores("temp"));
}

#[test]
fn windows_config_path_needs_app_data() {
    assert_eq!(
        get_windows_config_path(None),
        Err("Failed to find APPDATA directory to save config into.".to_string())
    );
    let p = get_windows_config_path(Some("/appdata".to_string())).unwrap();
    assert!(p.starts_with("/appdata"));
    assert!(p.ends_with("config.json"));
    assert!(p.contains("warp-to"));
}

#[test]
fn drive_root_needs_a_root() {
    assert_eq!(
        fetch_drive_root("relative/dir"),
        Err("No root found from current working directory.".to_string())
    );
}

#[test]
fn drive_root_needs_a_prefix() {
    if std::path::MAIN_SEPARATOR == '\\' {
        assert_eq!(fetch_drive_root("C:\\Users\\me"), Ok("C:\\".to_string()));
    } else {
        assert_eq!(
            fetch_drive_root("/home/me"),
            Err("No prefix/root component found from working directory.".to_string())
        );
    }
}
