use linegrep::error::SearchError;
use linegrep::resolver::{resolve, traversal_for, Entry, EntryKind, Traversal};

fn entry(path: &str, depth: usize, kind: EntryKind) -> Entry {
    Entry {
        path: path.to_string(),
        depth,
        kind,
    }
}

fn tree() -> Vec<Entry> {
    vec![
        entry("d", 0, EntryKind::Directory),
        entry("d/a.txt", 1, EntryKind::File),
        entry("d/link", 1, EntryKind::Symlink),
        entry("d/sub", 1, EntryKind::Directory),
        entry("d/sub/b.txt", 2, EntryKind::File),
        entry("d/sub/deep", 2, EntryKind::Directory),
        entry("d/sub/deep/c.txt", 3, EntryKind::File),
        entry("d/sub/pipe", 2, EntryKind::Other),
        entry("d/z.txt", 1, EntryKind::File),
    ]
}

#[test]
fn a_search_without_recursion_walks_to_depth_one() {
    assert_eq!(
        traversal_for(false),
        Traversal {
            max_depth: Some(1),
            follow_links: false,
            sort_by_name: true,
        }
    );
}

#[test]
fn a_recursive_search_walks_to_any_depth() {
    assert_eq!(
        traversal_for(true),
        Traversal {
            max_depth: None,
            follow_links: false,
            sort_by_name: true,
        }
    );
}

#[test]
fn a_file_stands_for_itself() {
    let walk = vec![entry("a.txt", 0, EntryKind::File)];
    assert_eq!(resolve("a.txt", &walk, false), Ok(vec!["a.txt".to_string()]));
    assert_eq!(resolve("a.txt", &walk, true), Ok(vec!["a.txt".to_string()]));
}

#[test]
fn a_directory_stands_for_the_files_directly_in_it() {
    assert_eq!(
        resolve("d", &tree(), false),
        Ok(vec!["d/a.txt".to_string(), "d/z.txt".to_string()])
    );
}

#[test]
fn a_directory_stands_for_all_files_below_it_in_a_recursive_search() {
    assert_eq!(
        resolve("d", &tree(), true),
        Ok(vec![
            "d/a.txt".to_string(),
            "d/sub/b.txt".to_string(),
            "d/sub/deep/c.txt".to_string(),
            "d/z.txt".to_string(),
        ])
    );
}

#[test]
fn a_recursive_search_visits_what_the_other_visits() {
    let deep = tree();
    let shallow: Vec<Entry> = deep.iter().filter(|e| e.depth <= 1).cloned().collect();
    let without = resolve("d", &shallow, false).unwrap();
    let with = resolve("d", &deep, true).unwrap();
    for path in &without {
        assert!(with.contains(path));
    }
    assert_eq!(resolve("d", &deep, false).unwrap(), without);
}

#[test]
fn an_empty_directory_stands_for_nothing() {
    let walk = vec![entry("d", 0, EntryKind::Directory)];
    assert_eq!(resolve("d", &walk, false), Ok(Vec::new()));
    assert_eq!(resolve("d", &walk, true), Ok(Vec::new()));
}

#[test]
fn a_symbolic_link_stands_for_nothing() {
    let walk = vec![entry("link", 0, EntryKind::Symlink)];
    assert_eq!(resolve("link", &walk, true), Ok(Vec::new()));
}

#[test]
fn a_path_that_was_not_met_is_not_found() {
    assert_eq!(
        resolve("missing.txt", &[], false),
        Err(SearchError::PathNotFound("missing.txt".to_string()))
    );
    assert_eq!(
        resolve("missing.txt", &[], true),
        Err(SearchError::PathNotFound("missing.txt".to_string()))
    );
}

#[test]
fn a_walk_that_does_not_begin_at_its_start_found_nothing_there() {
    let walk = vec![entry("d/a.txt", 1, EntryKind::File)];
    assert_eq!(
        resolve("d", &walk, true),
        Err(SearchError::PathNotFound("d".to_string()))
    );
}

#[test]
fn the_order_of_the_walk_is_kept() {
    let walk = vec![
        entry("d", 0, EntryKind::Directory),
        entry("d/z", 1, EntryKind::File),
        entry("d/a", 1, EntryKind::File),
        entry("d/z", 1, EntryKind::File),
    ];
    assert_eq!(
        resolve("d", &walk, false),
        Ok(vec!["d/z".to_string(), "d/a".to_string(), "d/z".to_string()])
    );
}
