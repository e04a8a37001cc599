use warp_to::search::{AbsolutePathBase, Search, SearchGroup, SearchStructure};

fn names(s: &SearchStructure) -> Vec<&str> {
    s.0.iter().map(|x| x.as_str()).collect()
}

#[test]
fn structure_parse_drops_empty_pieces() {
    let s = SearchStructure::parse("a//b/");
    assert_eq!(names(&s), vec!["a", "b"]);
    assert!(!s.is_empty());
}

#[test]
fn structure_parse_of_separators_only_is_empty() {
    assert!(SearchStructure::parse("").is_empty());
    assert!(SearchStructure::parse("///").is_empty());
    assert!(SearchStructure::empty().is_empty());
}

#[test]
fn structure_parse_keeps_order_and_text() {
    let s = SearchStructure::parse("/foo/bar/fugu");
    assert_eq!(names(&s), vec!["foo", "bar", "fugu"]);
    let s = SearchStructure::parse("héllo/wörld");
    assert_eq!(names(&s), vec!["héllo", "wörld"]);
}

#[test]
fn group_root_alone() {
    match SearchGroup::from_arg("/") {
        SearchGroup::Absolute { base: AbsolutePathBase::Root, structure } => assert!(structure.is_empty()),
        g => panic!("unexpected group {:?}", g),
    }
}

#[test]
fn group_home_alone() {
    match SearchGroup::from_arg("~") {
        SearchGroup::Absolute { base: AbsolutePathBase::Home, structure } => assert!(structure.is_empty()),
        g => panic!("unexpected group {:?}", g),
    }
}

#[test]
fn group_root_with_structure() {
    match SearchGroup::from_arg("/usr//local/") {
        SearchGroup::Absolute { base: AbsolutePathBase::Root, structure } => {
            assert_eq!(names(&structure), vec!["usr", "local"])
        }
        g => panic!("unexpected group {:?}", g),
    }
}

#[test]
fn group_home_with_structure() {
    match SearchGroup::from_arg("~/doom") {
        SearchGroup::Absolute { base: AbsolutePathBase::Home, structure } => {
            assert_eq!(names(&structure), vec!["doom"])
        }
        g => panic!("unexpected group {:?}", g),
    }
}

#[test]
fn group_shortcut_with_structure() {
    match SearchGroup::from_arg("+foobar/doom/x") {
        SearchGroup::Shortcut { name, structure } => {
            assert_eq!(name, "foobar");
            assert_eq!(names(&structure), vec!["doom", "x"]);
        }
        g => panic!("unexpected group {:?}", g),
    }
}

#[test]
fn group_shortcut_alone() {
    match SearchGroup::from_arg("+foobar") {
        SearchGroup::Shortcut { name, structure } => {
            assert_eq!(name, "foobar");
            assert!(structure.is_empty());
        }
        g => panic!("unexpected group {:?}", g),
    }
}

#[test]
fn group_jump_digits() {
    match SearchGroup::from_arg(".4") {
        SearchGroup::JumpUp(n) => assert_eq!(n, 4),
        g => panic!("unexpected group {:?}", g),
    }
    match SearchGroup::from_arg(".9") {
        SearchGroup::JumpUp(n) => assert_eq!(n, 9),
        g => panic!("unexpected group {:?}", g),
    }
    match SearchGroup::from_arg(".1") {
        SearchGroup::JumpUp(n) => assert_eq!(n, 1),
        g => panic!("unexpected group {:?}", g),
    }
    match SearchGroup::from_arg(".0") {
        SearchGroup::Fuzzy(structure) => assert_eq!(names(&structure), vec![".0"]),
        g => panic!("unexpected group {:?}", g),
    }
}

#[test]
fn group_jump_dot_dot() {
    match SearchGroup::from_arg("..") {
        SearchGroup::JumpUp(n) => assert_eq!(n, 1),
        g => panic!("unexpected group {:?}", g),
    }
}

#[test]
fn group_fuzzy_for_other_dotted_terms() {
    match SearchGroup::from_arg(".x") {
        SearchGroup::Fuzzy(structure) => assert_eq!(names(&structure), vec![".x"]),
        g => panic!("unexpected group {:?}", g),
    }
    match SearchGroup::from_arg(".12") {
        SearchGroup::Fuzzy(structure) => assert_eq!(names(&structure), vec![".12"]),
        g => panic!("unexpected group {:?}", g),
    }
    match SearchGroup::from_arg(".") {
        SearchGroup::Fuzzy(structure) => assert_eq!(names(&structure), vec!["."]),
        g => panic!("unexpected group {:?}", g),
    }
}

#[test]
fn group_fuzzy_structure() {
    match SearchGroup::from_arg("foo/bar/fugu") {
        SearchGroup::Fuzzy(structure) => assert_eq!(names(&structure), vec!["foo", "bar", "fugu"]),
        g => panic!("unexpected group {:?}", g),
    }
}

#[test]
fn group_constructors() {
    assert!(matches!(SearchGroup::new_jump_up(3), SearchGroup::JumpUp(3)));
    assert!(matches!(SearchGroup::new_fuzzy(SearchStructure::empty()), SearchGroup::Fuzzy(_)));
    assert!(matches!(
        SearchGroup::new_absolute(AbsolutePathBase::Home, SearchStructure::empty()),
        SearchGroup::Absolute { base: AbsolutePathBase::Home, .. }
    ));
    match SearchGroup::new_shortcut("w".to_string(), SearchStructure::parse("a")) {
        SearchGroup::Shortcut { name, structure } => {
            assert_eq!(name, "w");
            assert_eq!(names(&structure), vec!["a"]);
        }
        g => panic!("unexpected group {:?}", g),
    }
}

#[test]
fn search_without_arguments_is_home() {
    assert!(matches!(Search::new(vec![], 5), Search::Home));
}

#[test]
fn search_single_root_or_home() {
    assert!(matches!(Search::new(vec!["/".to_string()], 5), Search::Root));
    assert!(matches!(Search::new(vec!["~".to_string()], 5), Search::Home));
}

#[test]
fn search_groups_one_per_argument() {
    match Search::new(vec!["/".to_string(), "foo".to_string(), ".2".to_string()], 7) {
        Search::Groups { groups, max_dist } => {
            assert_eq!(max_dist, 7);
            assert_eq!(groups.len(), 3);
            assert!(matches!(groups[0], SearchGroup::Absolute { base: AbsolutePathBase::Root, .. }));
            assert!(matches!(groups[1], SearchGroup::Fuzzy(_)));
            assert!(matches!(groups[2], SearchGroup::JumpUp(2)));
        }
        s => panic!("unexpected search {:?}", s),
    }
}

#[test]
fn structure_written_out_reads_back() {
    let parts = vec!["src", "warp to", ".hidden"];
    let s = SearchStructure::parse(&parts.join("/"));
    assert_eq!(names(&s), parts);
    assert!(!SearchStructure::parse("/x/").is_empty());
}
