use config_migration::order::{text_side, Side};
use config_migration::{ConfigTree, MigrationError, Node, Path};
use std::cmp::Ordering;

fn path(s: &str) -> Path {
    Path::parse(s)
}

fn dotted(tree: &ConfigTree) -> Vec<String> {
    tree.entries().iter().map(|e| e.0.to_dotted()).collect()
}

fn side(order: Ordering) -> Side {
    match order {
        Ordering::Less => Side::Before,
        Ordering::Equal => Side::Same,
        Ordering::Greater => Side::After,
    }
}

#[test]
fn parse_splits_on_dots() {
    let p = path("settings.pki.certs");
    assert_eq!(p.len(), 3);
    assert_eq!(p.segment(0), "settings");
    assert_eq!(p.segment(1), "pki");
    assert_eq!(p.segment(2), "certs");
}

#[test]
fn parse_keeps_empty_segments() {
    assert_eq!(path("").len(), 1);
    assert_eq!(path("").segment(0), "");
    let p = path("a..b.");
    assert_eq!(p.len(), 4);
    assert_eq!(p.segment(0), "a");
    assert_eq!(p.segment(1), "");
    assert_eq!(p.segment(2), "b");
    assert_eq!(p.segment(3), "");
}

#[test]
fn parse_agrees_with_std_split() {
    for s in ["", ".", "a", "a.b", ".a", "a.", "settings.pki", "x..y", "é.ü.ß", "..."] {
        let p = path(s);
        let expected: Vec<&str> = s.split('.').collect();
        assert_eq!(p.len(), expected.len(), "{:?}", s);
        for (i, e) in expected.iter().enumerate() {
            assert_eq!(p.segment(i), e, "{:?}", s);
        }
    }
}

#[test]
fn to_dotted_gives_the_string_back() {
    for s in ["", ".", "a", "a.b", ".a", "a.", "settings.pki.certs", "x..y", "é.ü"] {
        assert_eq!(path(s).to_dotted(), s);
    }
}

#[test]
fn from_segments_accepts_paths_only() {
    let ok = Path::from_segments(vec!["settings".to_string(), "pki".to_string()]);
    assert_eq!(ok, Some(path("settings.pki")));
    assert_eq!(Path::from_segments(vec![]), None);
    assert_eq!(Path::from_segments(vec!["a.b".to_string()]), None);
    assert_eq!(Path::from_segments(vec!["a".to_string(), ".".to_string()]), None);
    assert_eq!(Path::from_segments(vec!["".to_string()]), Some(path("")));
}

#[test]
fn head_and_starts_with() {
    let p = path("a.b.c");
    assert_eq!(p.head(1), path("a"));
    assert_eq!(p.head(2), path("a.b"));
    assert_eq!(p.head(3), p);
    assert!(p.starts_with(&path("a")));
    assert!(p.starts_with(&path("a.b")));
    assert!(p.starts_with(&p));
    assert!(!p.starts_with(&path("b")));
    assert!(!p.starts_with(&path("a.b.c.d")));
    assert!(!path("ab").starts_with(&path("a")));
    assert!(!path("a.b").starts_with(&path("a.x")));
}

#[test]
fn path_equality_and_clone() {
    assert_eq!(path("a.b"), path("a.b"));
    assert_ne!(path("a.b"), path("a"));
    assert_ne!(path("a.b"), path("a.c"));
    let p = path("settings.pki");
    assert_eq!(p.clone(), p);
}

#[test]
fn new_tree_is_empty() {
    let tree = ConfigTree::new();
    assert_eq!(tree.len(), 0);
    assert!(tree.entries().is_empty());
    assert_eq!(tree.node(&path("settings")), None);
    assert_eq!(tree.get(&path("settings")), Ok(None));
}

#[test]
fn add_prefix_creates_parents() {
    let mut tree = ConfigTree::new();
    assert_eq!(tree.add_prefix(&path("settings.pki.certs")), Ok(()));
    assert_eq!(tree.node(&path("settings")), Some(Node::Prefix));
    assert_eq!(tree.node(&path("settings.pki")), Some(Node::Prefix));
    assert_eq!(tree.node(&path("settings.pki.certs")), Some(Node::Prefix));
    assert_eq!(tree.len(), 3);
    assert_eq!(dotted(&tree), vec!["settings", "settings.pki", "settings.pki.certs"]);
}

#[test]
fn add_prefix_twice_changes_nothing() {
    let mut tree = ConfigTree::new();
    assert_eq!(tree.add_prefix(&path("settings.pki")), Ok(()));
    let once = tree.clone();
    assert_eq!(tree.add_prefix(&path("settings.pki")), Ok(()));
    assert_eq!(tree, once);
    assert_eq!(tree.add_prefix(&path("settings")), Ok(()));
    assert_eq!(tree, once);
    assert_eq!(tree.len(), 2);
}

#[test]
fn add_prefix_keeps_what_is_there() {
    let mut tree = ConfigTree::new();
    assert_eq!(tree.set(&path("settings.motd"), "hello".to_string()), Ok(()));
    assert_eq!(tree.add_prefix(&path("settings.pki")), Ok(()));
    assert_eq!(tree.get(&path("settings.motd")), Ok(Some("hello".to_string())));
    assert_eq!(tree.node(&path("settings.pki")), Some(Node::Prefix));
    assert_eq!(tree.len(), 3);
}

#[test]
fn add_prefix_on_a_value_fails_and_changes_nothing() {
    let mut tree = ConfigTree::new();
    assert_eq!(tree.set(&path("settings.pki"), "x".to_string()), Ok(()));
    let before = tree.clone();
    assert_eq!(tree.add_prefix(&path("settings.pki")), Err(MigrationError::PathKindMismatch));
    assert_eq!(tree, before);
    assert_eq!(tree.get(&path("settings.pki")), Ok(Some("x".to_string())));
}

#[test]
fn add_prefix_below_a_value_fails_and_changes_nothing() {
    let mut tree = ConfigTree::new();
    assert_eq!(tree.set(&path("settings.pki"), "x".to_string()), Ok(()));
    let before = tree.clone();
    assert_eq!(
        tree.add_prefix(&path("settings.pki.certs.bundle")),
        Err(MigrationError::PathKindMismatch)
    );
    assert_eq!(tree, before);
    assert_eq!(tree.len(), 2);
    assert_eq!(tree.node(&path("settings.pki.certs")), None);
}

#[test]
fn get_tells_values_prefixes_and_nothing_apart() {
    let mut tree = ConfigTree::new();
    assert_eq!(tree.set(&path("a.b"), "v".to_string()), Ok(()));
    assert_eq!(tree.get(&path("a.b")), Ok(Some("v".to_string())));
    assert_eq!(tree.get(&path("a")), Err(MigrationError::PathKindMismatch));
    assert_eq!(tree.get(&path("a.c")), Ok(None));
    assert_eq!(tree.get(&path("a.b.c")), Ok(None));
    assert_eq!(tree.node(&path("a.b")), Some(Node::Value("v".to_string())));
}

#[test]
fn set_creates_parents_and_overwrites() {
    let mut tree = ConfigTree::new();
    assert_eq!(tree.set(&path("a.b.c"), "1".to_string()), Ok(()));
    assert_eq!(tree.node(&path("a")), Some(Node::Prefix));
    assert_eq!(tree.node(&path("a.b")), Some(Node::Prefix));
    assert_eq!(tree.len(), 3);
    assert_eq!(tree.set(&path("a.b.c"), "2".to_string()), Ok(()));
    assert_eq!(tree.get(&path("a.b.c")), Ok(Some("2".to_string())));
    assert_eq!(tree.len(), 3);
}

#[test]
fn set_on_a_prefix_or_below_a_value_fails() {
    let mut tree = ConfigTree::new();
    assert_eq!(tree.set(&path("a.b"), "v".to_string()), Ok(()));
    let before = tree.clone();
    assert_eq!(tree.set(&path("a"), "w".to_string()), Err(MigrationError::PathKindMismatch));
    assert_eq!(tree, before);
    assert_eq!(tree.set(&path("a.b.c"), "w".to_string()), Err(MigrationError::PathKindMismatch));
    assert_eq!(tree, before);
    assert_eq!(tree.set(&path("a.b.c.d"), "w".to_string()), Err(MigrationError::PathKindMismatch));
    assert_eq!(tree, before);
}

#[test]
fn remove_value_takes_the_leaf_only() {
    let mut tree = ConfigTree::new();
    assert_eq!(tree.set(&path("a.b"), "v".to_string()), Ok(()));
    assert_eq!(tree.set(&path("a.c"), "w".to_string()), Ok(()));
    assert_eq!(tree.remove_value(&path("a.b")), Ok(()));
    assert_eq!(tree.get(&path("a.b")), Ok(None));
    assert_eq!(tree.get(&path("a.c")), Ok(Some("w".to_string())));
    assert_eq!(tree.node(&path("a")), Some(Node::Prefix));
    assert_eq!(tree.remove_value(&path("a.b")), Ok(()));
    assert_eq!(tree.len(), 2);
    assert_eq!(tree.remove_value(&path("a")), Err(MigrationError::PathKindMismatch));
    assert_eq!(tree.len(), 2);
}

#[test]
fn remove_prefix_takes_the_subtree() {
    let mut tree = ConfigTree::new();
    assert_eq!(tree.set(&path("settings.pki.bundle"), "b".to_string()), Ok(()));
    assert_eq!(tree.add_prefix(&path("settings.pki.certs")), Ok(()));
    assert_eq!(tree.set(&path("settings.pkix"), "other".to_string()), Ok(()));
    assert_eq!(tree.add_prefix(&path("services.pki")), Ok(()));
    assert_eq!(tree.remove_prefix(&path("settings.pki")), Ok(()));
    assert_eq!(dotted(&tree), vec!["services", "services.pki", "settings", "settings.pkix"]);
    assert_eq!(tree.get(&path("settings.pkix")), Ok(Some("other".to_string())));
}

#[test]
fn remove_prefix_of_nothing_changes_nothing() {
    let mut tree = ConfigTree::new();
    assert_eq!(tree.add_prefix(&path("settings.pki")), Ok(()));
    let before = tree.clone();
    assert_eq!(tree.remove_prefix(&path("services")), Ok(()));
    assert_eq!(tree, before);
    assert_eq!(tree.remove_prefix(&path("settings.pki.certs")), Ok(()));
    assert_eq!(tree, before);
}

#[test]
fn remove_prefix_on_a_value_fails_and_changes_nothing() {
    let mut tree = ConfigTree::new();
    assert_eq!(tree.set(&path("settings.pki"), "x".to_string()), Ok(()));
    let before = tree.clone();
    assert_eq!(tree.remove_prefix(&path("settings.pki")), Err(MigrationError::PathKindMismatch));
    assert_eq!(tree, before);
}

#[test]
fn entries_come_in_the_order_of_their_paths() {
    let mut tree = ConfigTree::new();
    assert_eq!(tree.add_prefix(&path("b.x")), Ok(()));
    assert_eq!(tree.set(&path("a"), "1".to_string()), Ok(()));
    assert_eq!(tree.set(&path("b.y"), "2".to_string()), Ok(()));
    assert_eq!(tree.set(&path("b-c"), "3".to_string()), Ok(()));
    assert_eq!(tree.add_prefix(&path("b.x.z")), Ok(()));
    let entries = tree.entries();
    let names: Vec<String> = entries.iter().map(|e| e.0.to_dotted()).collect();
    assert_eq!(names, vec!["a", "b", "b.x", "b.x.z", "b.y", "b-c"]);
    assert_eq!(entries[0].1, Node::Value("1".to_string()));
    assert_eq!(entries[1].1, Node::Prefix);
    assert_eq!(entries[4].1, Node::Value("2".to_string()));
    assert_eq!(entries[5].1, Node::Value("3".to_string()));
    assert_eq!(tree.remove_prefix(&path("b.x")), Ok(()));
    assert_eq!(dotted(&tree), vec!["a", "b", "b.y", "b-c"]);
}

#[test]
fn texts_are_ordered_as_strings_are() {
    let texts = ["", "a", "b", "ab", "a-b", "aa", "A", "z", "é", "zz", "settings", "set", "ü", "\u{10348}"];
    for a in texts {
        for b in texts {
            assert_eq!(text_side(a, b), side(a.cmp(b)), "{:?} {:?}", a, b);
        }
    }
}

#[test]
fn paths_are_ordered_segment_by_segment() {
    assert_eq!(path("a").side_of(&path("a")), Side::Same);
    assert_eq!(path("a").side_of(&path("a.b")), Side::Before);
    assert_eq!(path("a.b").side_of(&path("a")), Side::After);
    assert_eq!(path("a.b").side_of(&path("a-b")), Side::Before);
    assert_eq!(path("a.c").side_of(&path("a.b.z")), Side::After);
    assert_eq!(path("").side_of(&path("a")), Side::Before);
    assert_eq!(path(".").side_of(&path("")), Side::After);
    let names = ["a", "a.b", "a-b", "b", "", ".", "a.b.c", "services.pki", "settings.pki"];
    for a in names {
        for b in names {
            let by_segments = a.split('.').collect::<Vec<_>>().cmp(&b.split('.').collect::<Vec<_>>());
            assert_eq!(path(a).side_of(&path(b)), side(by_segments), "{:?} {:?}", a, b);
        }
    }
}

#[test]
fn trees_are_equal_whatever_the_order_of_arrival() {
    let mut one = ConfigTree::new();
    assert_eq!(one.set(&path("a.x"), "1".to_string()), Ok(()));
    assert_eq!(one.add_prefix(&path("b")), Ok(()));
    let mut other = ConfigTree::new();
    assert_eq!(other.add_prefix(&path("b")), Ok(()));
    assert_eq!(other.set(&path("a.x"), "1".to_string()), Ok(()));
    assert_eq!(one, other);
    assert_eq!(other.set(&path("a.x"), "2".to_string()), Ok(()));
    assert_ne!(one, other);
    let mut third = ConfigTree::new();
    assert_eq!(third.add_prefix(&path("a.x")), Ok(()));
    assert_eq!(third.add_prefix(&path("b")), Ok(()));
    assert_ne!(one, third);
    assert_ne!(one, ConfigTree::new());
}
