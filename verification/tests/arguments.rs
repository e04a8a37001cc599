use warp_to::args::{parse_args, Command};
use warp_to::search::{Search, SearchGroup};

fn args(v: &[&str]) -> Vec<String> {
    v.iter().map(|s| s.to_string()).collect()
}

#[test]
fn no_terms_searches_home_with_defaults() {
    match parse_args(args(&["w"])) {
        Ok(Command::Search(Search::Home, opts)) => assert!(opts.use_ignores),
        r => panic!("unexpected {:?}", r),
    }
}

#[test]
fn terms_distance_and_exhaustive() {
    match parse_args(args(&["w", "foo", "-d", "3", "bar", "-e"])) {
        Ok(Command::Search(Search::Groups { groups, max_dist }, opts)) => {
            assert_eq!(max_dist, 3);
            assert!(!opts.use_ignores);
            assert_eq!(groups.len(), 2);
            assert!(matches!(groups[0], SearchGroup::Fuzzy(_)));
        }
        r => panic!("unexpected {:?}", r),
    }
}

#[test]
fn long_options() {
    match parse_args(args(&["w", "--distance", "9", "--exhaustive", "x"])) {
        Ok(Command::Search(Search::Groups { groups, max_dist }, opts)) => {
            assert_eq!(max_dist, 9);
            assert!(!opts.use_ignores);
            assert_eq!(groups.len(), 1);
        }
        r => panic!("unexpected {:?}", r),
    }
}

#[test]
fn default_distance_is_five() {
    match parse_args(args(&["w", "foo"])) {
        Ok(Command::Search(Search::Groups { max_dist, .. }, opts)) => {
            assert_eq!(max_dist, 5);
            assert!(opts.use_ignores);
        }
        r => panic!("unexpected {:?}", r),
    }
}

#[test]
fn root_alone() {
    assert!(matches!(parse_args(args(&["w", "/"])), Ok(Command::Search(Search::Root, _))));
}

#[test]
fn help_wins() {
    assert!(matches!(parse_args(args(&["w", "foo", "--help", "-x"])), Ok(Command::Help)));
}

#[test]
fn unknown_option_is_unexpected() {
    match parse_args(args(&["w", "-x"])) {
        Err(e) => assert_eq!(e.to_string(), "invalid option '-x'"),
        r => panic!("unexpected {:?}", r),
    }
    match parse_args(args(&["w", "--nope"])) {
        Err(e) => assert_eq!(e.to_string(), "invalid option '--nope'"),
        r => panic!("unexpected {:?}", r),
    }
}

#[test]
fn bad_distance_is_a_parser_error() {
    assert!(matches!(parse_args(args(&["w", "-d", "abc"])), Err(_)));
    assert!(matches!(parse_args(args(&["w", "-d"])), Err(_)));
}

#[test]
fn short_cluster_with_distance() {
    match parse_args(args(&["w", "-ed4", "x"])) {
        Ok(Command::Search(Search::Groups { max_dist, .. }, opts)) => {
            assert_eq!(max_dist, 4);
            assert!(!opts.use_ignores);
        }
        r => panic!("unexpected {:?}", r),
    }
}

#[test]
fn two_terms_default_distance() {
    match parse_args(args(&["w", "foo", "bar"])) {
        Ok(Command::Search(Search::Groups { groups, max_dist }, opts)) => {
            assert_eq!(max_dist, 5);
            assert!(opts.use_ignores);
            assert_eq!(groups.len(), 2);
        }
        r => panic!("unexpected {:?}", r),
    }
}

#[test]
fn short_and_long_distance_agree() {
    for line in [&["w", "-d", "3", "foo"][..], &["w", "--distance", "3", "foo"][..], &["w", "--distance=3", "foo"][..]] {
        match parse_args(args(line)) {
            Ok(Command::Search(Search::Groups { groups, max_dist }, opts)) => {
                assert_eq!(max_dist, 3);
                assert!(opts.use_ignores);
                assert_eq!(groups.len(), 1);
            }
            r => panic!("unexpected {:?}", r),
        }
    }
}

#[test]
fn last_distance_wins_and_plus_sign_reads() {
    match parse_args(args(&["w", "-d", "3", "-d", "+7", "foo"])) {
        Ok(Command::Search(Search::Groups { max_dist, .. }, _)) => assert_eq!(max_dist, 7),
        r => panic!("unexpected {:?}", r),
    }
}

#[test]
fn negative_or_signed_distance_is_refused() {
    assert!(parse_args(args(&["w", "-d", "-3", "foo"])).is_err());
    assert!(parse_args(args(&["w", "-d", "+", "foo"])).is_err());
    assert!(parse_args(args(&["w", "-d", "", "foo"])).is_err());
    assert!(parse_args(args(&["w", "-d", "99999999999999999999999", "foo"])).is_err());
}

#[test]
fn exhaustive_turns_ignores_off() {
    match parse_args(args(&["w", "-e", "foo"])) {
        Ok(Command::Search(Search::Groups { max_dist, .. }, opts)) => {
            assert_eq!(max_dist, 5);
            assert!(!opts.use_ignores);
        }
        r => panic!("unexpected {:?}", r),
    }
}

#[test]
fn help_first_gives_help() {
    assert!(matches!(parse_args(args(&["w", "--help", "foo"])), Ok(Command::Help)));
}

#[test]
fn unknown_before_help_is_refused() {
    assert!(parse_args(args(&["w", "-x", "--help"])).is_err());
}

#[test]
fn value_after_long_flag_is_refused() {
    assert!(parse_args(args(&["w", "--exhaustive=yes", "foo"])).is_err());
}
