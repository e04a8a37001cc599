use std::collections::BTreeMap;

use warp_to::config::Config;
use warp_to::runner::{RunnerAction, RunnerEvent, SearchRunner};
use warp_to::search::{Search, SearchRunnerOpts};

struct World {
    root: Result<String, String>,
    cwd: String,
    home: String,
    shortcuts: Vec<(String, String)>,
    dirs: BTreeMap<String, Vec<String>>,
}

impl World {
    fn new(cwd: &str, home: &str, dirs: &[&str]) -> World {
        let mut map: BTreeMap<String, Vec<String>> = BTreeMap::new();
        for d in dirs {
            map.entry(d.to_string()).or_default();
            let mut cur = std::path::Path::new(d);
            while let Some(parent) = cur.parent() {
                let children = map.entry(parent.to_string_lossy().into_owned()).or_default();
                let c = cur.to_string_lossy().into_owned();
                if !children.contains(&c) {
                    children.push(c);
                }
                cur = parent;
            }
        }
        World { root: Ok("/".to_string()), cwd: cwd.to_string(), home: home.to_string(), shortcuts: vec![], dirs: map }
    }

    fn run(&self, terms: &[&str], max_dist: usize, use_ignores: bool) -> (Result<String, String>, usize) {
        let search = Search::new(terms.iter().map(|s| s.to_string()).collect(), max_dist);
        let mut runner = SearchRunner::new(SearchRunnerOpts { use_ignores });
        let mut act = runner.run(search);
        let mut config_loads = 0;
        loop {
            act = match act {
                RunnerAction::GetCwd => runner.resume(RunnerEvent::Cwd(Ok(self.cwd.clone()))),
                RunnerAction::GetRoot => runner.resume(RunnerEvent::Root(self.root.clone())),
                RunnerAction::GetHome => runner.resume(RunnerEvent::Home(Ok(self.home.clone()))),
                RunnerAction::LoadConfig => {
                    config_loads += 1;
                    let c = Config::from_entries(self.shortcuts.clone(), vec![".git".to_string()]);
                    runner.resume(RunnerEvent::Config(Ok(c)))
                }
                RunnerAction::CheckExists(p) => runner.resume(RunnerEvent::Exists(self.dirs.contains_key(&p))),
                RunnerAction::ListDir(p) => {
                    let children = self.dirs.get(&p).cloned().unwrap_or_default();
                    runner.resume(RunnerEvent::Listing(children))
                }
                RunnerAction::Done(res) => return (res, config_loads),
            }
        }
    }
}

fn world() -> World {
    World::new(
        "/home/u/proj",
        "/home/u",
        &[
            "/home/u/proj/src/foo",
            "/home/u/proj/docs",
            "/home/u/proj/.git/objects",
            "/home/u/music/foo/bar",
            "/home/u/notes",
            "/etc/conf",
            "/home/u/proj/a/b/c/d/e/far",
        ],
    )
}

#[test]
fn root_and_home_searches() {
    let w = world();
    assert_eq!(w.run(&["/"], 5, true).0, Ok("/".to_string()));
    assert_eq!(w.run(&[], 5, true).0, Ok("/home/u".to_string()));
    assert_eq!(w.run(&["~"], 5, true).0, Ok("/home/u".to_string()));
}

#[test]
fn fuzzy_search_finds_nearby_directory() {
    let w = world();
    assert_eq!(w.run(&["foo"], 5, true).0, Ok("/home/u/proj/src/foo".to_string()));
}

#[test]
fn fuzzy_search_ignores_ascii_case() {
    let w = world();
    assert_eq!(w.run(&["DOCS"], 5, true).0, Ok("/home/u/proj/docs".to_string()));
}

#[test]
fn fuzzy_search_walks_upward_for_the_first_term() {
    let w = world();
    assert_eq!(w.run(&["notes"], 5, true).0, Ok("/home/u/notes".to_string()));
}

#[test]
fn concrete_structure_must_exist() {
    let w = world();
    assert_eq!(w.run(&["foo/bar"], 5, true).0, Ok("/home/u/music/foo/bar".to_string()));
}

#[test]
fn chained_terms_search_below_the_previous_match() {
    let w = world();
    assert_eq!(w.run(&["music", "bar"], 5, true).0, Ok("/home/u/music/foo/bar".to_string()));
}

#[test]
fn chained_terms_backtrack_to_later_matches() {
    let w = world();
    assert_eq!(w.run(&["foo", "bar"], 5, true).0, Ok("/home/u/music/foo/bar".to_string()));
}

#[test]
fn nothing_found() {
    let w = world();
    assert_eq!(
        w.run(&["nowhere"], 5, true).0,
        Err("Nothing found matching the given groups.".to_string())
    );
}

#[test]
fn ignored_names_are_not_entered_unless_exhaustive() {
    let w = world();
    assert_eq!(
        w.run(&["objects"], 5, true).0,
        Err("Nothing found matching the given groups.".to_string())
    );
    assert_eq!(w.run(&["objects"], 5, false).0, Ok("/home/u/proj/.git/objects".to_string()));
}

#[test]
fn configuration_is_loaded_once_per_run() {
    let w = world();
    let (res, loads) = w.run(&["foo", "bar"], 5, true);
    assert_eq!(res, Ok("/home/u/music/foo/bar".to_string()));
    assert_eq!(loads, 1);
    let (_, loads) = w.run(&["foo"], 5, false);
    assert_eq!(loads, 0);
}

#[test]
fn distance_limits_the_search() {
    let w = world();
    assert_eq!(
        w.run(&["far"], 5, true).0,
        Err("Nothing found matching the given groups.".to_string())
    );
    assert_eq!(w.run(&["far"], 6, true).0, Ok("/home/u/proj/a/b/c/d/e/far".to_string()));
}

#[test]
fn zero_distance_finds_nothing() {
    let w = world();
    assert_eq!(
        w.run(&["foo"], 0, true).0,
        Err("Nothing found matching the given groups.".to_string())
    );
}

#[test]
fn absolute_paths() {
    let w = world();
    assert_eq!(w.run(&["/etc/conf"], 5, true).0, Ok("/etc/conf".to_string()));
    assert_eq!(w.run(&["~/notes"], 5, true).0, Ok("/home/u/notes".to_string()));
    assert_eq!(
        w.run(&["/etc/none"], 5, true).0,
        Err("No absolute path exists at '/etc/none'.".to_string())
    );
}

#[test]
fn absolute_path_then_fuzzy_term() {
    let w = world();
    assert_eq!(w.run(&["/etc", "conf"], 5, true).0, Ok("/etc/conf".to_string()));
}

#[test]
fn shortcuts() {
    let mut w = world();
    w.shortcuts = vec![("m".to_string(), "/home/u/music".to_string())];
    assert_eq!(w.run(&["+m/foo"], 5, true).0, Ok("/home/u/music/foo".to_string()));
    assert_eq!(w.run(&["+m", "bar"], 5, true).0, Ok("/home/u/music/foo/bar".to_string()));
    assert_eq!(
        w.run(&["+x"], 5, true).0,
        Err("No shortcut named 'x' configured.".to_string())
    );
    assert_eq!(
        w.run(&["+m/none"], 5, true).0,
        Err("No valid path exists at '/home/u/music/none'.".to_string())
    );
}

#[test]
fn jumps_up_from_the_working_directory() {
    let w = world();
    assert_eq!(w.run(&[".1"], 5, true).0, Ok("/home/u".to_string()));
    assert_eq!(w.run(&[".."], 5, true).0, Ok("/home/u".to_string()));
    assert_eq!(w.run(&[".2"], 5, true).0, Ok("/home".to_string()));
    assert_eq!(w.run(&[".9"], 5, true).0, Ok("/".to_string()));
    assert_eq!(w.run(&[".1", "bar"], 5, true).0, Ok("/home/u/music/foo/bar".to_string()));
}

#[test]
fn errors_of_the_outside_world_end_the_search() {
    let search = Search::new(vec!["foo".to_string()], 5);
    let mut runner = SearchRunner::new(SearchRunnerOpts { use_ignores: true });
    let act = runner.run(search);
    assert!(matches!(act, RunnerAction::GetCwd));
    let act = runner.resume(RunnerEvent::Cwd(Err("no cwd".to_string())));
    match act {
        RunnerAction::Done(res) => assert_eq!(res, Err("no cwd".to_string())),
        a => panic!("unexpected {:?}", a),
    }
}

#[test]
fn later_terms_do_not_search_upward() {
    let w = world();
    assert_eq!(
        w.run(&["music", "notes"], 5, true).0,
        Err("Nothing found matching the given groups.".to_string())
    );
    assert_eq!(w.run(&["notes"], 5, true).0, Ok("/home/u/notes".to_string()));
}

#[test]
fn absolute_paths_start_from_the_root_given() {
    let mut w = World::new("/d/u/proj", "/d/u", &["/d/etc/conf"]);
    w.root = Ok("/d".to_string());
    assert_eq!(w.run(&["/"], 5, true).0, Ok("/d".to_string()));
    assert_eq!(w.run(&["/etc/conf"], 5, true).0, Ok("/d/etc/conf".to_string()));
    assert_eq!(w.run(&["/", "conf"], 5, true).0, Ok("/d/etc/conf".to_string()));
    w.root = Err("No root found from current working directory.".to_string());
    assert_eq!(
        w.run(&["/etc/conf"], 5, true).0,
        Err("No root found from current working directory.".to_string())
    );
    assert_eq!(w.run(&["/"], 5, true).0, Err("No root found from current working directory.".to_string()));
}
