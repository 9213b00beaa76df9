use dux::path_map::PathMap;
use dux::paths::EntryPath;
use dux::removal::{adjust_indices_after_removals, remove_targets_from_tree, DeleteTarget};
use dux::scan::{
    find_by_path, flatten, scan_observed, sorted_children, EntryMetadata, EntryNode, FileType,
    Observation, ObservedEntry, SizeMode, SortKey,
};
use dux::tree::{
    find_indices_by_path, follow_indices, node_at_indices, replace_node_at_indices,
    sanitize_indices,
};

fn metadata(file_type: FileType, len: u64) -> EntryMetadata {
    EntryMetadata { file_type, len, blocks: None }
}

fn file(path: &str, len: u64) -> ObservedEntry {
    ObservedEntry {
        path: EntryPath::from_text(path),
        observation: Observation::Entry(metadata(FileType::File, len)),
    }
}

fn directory(path: &str, entries: Vec<ObservedEntry>) -> ObservedEntry {
    ObservedEntry {
        path: EntryPath::from_text(path),
        observation: Observation::Directory(metadata(FileType::Directory, 1), 0, entries),
    }
}

fn scan(entry: ObservedEntry) -> EntryNode {
    scan_observed(&entry, SizeMode::Logical).unwrap().root.unwrap()
}

fn sample() -> EntryNode {
    scan(directory(
        "/r",
        vec![
            directory("/r/a", vec![file("/r/a/x", 50), file("/r/a/y", 40)]),
            directory("/r/b", vec![directory("/r/b/c", vec![file("/r/b/c/z", 30)])]),
            file("/r/d", 10),
            file("/r/E", 10),
        ],
    ))
}

fn target(root: &EntryNode, indices: &[usize]) -> DeleteTarget {
    let node = node_at_indices(root, indices).unwrap();
    DeleteTarget {
        path: node.path.clone(),
        indices: indices.to_vec(),
        size: node.size,
        file_count: node.file_count,
        dir_count: node.dir_count,
        error_count: node.error_count,
    }
}

fn adds_up(node: &EntryNode) -> bool {
    node.size == node.direct_size + node.children.iter().map(|c| c.size).sum::<u64>()
        && node.children.iter().all(adds_up)
}

#[test]
fn trees_are_flattened_from_the_top() {
    let root = sample();
    let mut all = Vec::new();
    flatten(&root, &mut all);
    let names: Vec<&str> = all.iter().map(|node| node.name.as_str()).collect();
    assert_eq!(names, vec!["r", "a", "x", "y", "b", "c", "z", "d", "E"]);
}

#[test]
fn paths_are_found_and_located() {
    let root = sample();
    let find = |text: &str| find_by_path(&root, &EntryPath::from_text(text));
    let locate = |text: &str| find_indices_by_path(&root, &EntryPath::from_text(text));
    assert_eq!(find("/r/b//c/./z").unwrap().size, 30);
    assert_eq!(locate("/r/b/c/z"), Some(vec![1, 0, 0]));
    assert_eq!(locate("/r/"), Some(Vec::new()));
    assert!(find("/r/nowhere").is_none());
    assert_eq!(locate("/r/nowhere"), None);
    let mut all = Vec::new();
    flatten(&root, &mut all);
    for node in all {
        let indices = find_indices_by_path(&root, &node.path).unwrap();
        assert_eq!(node_at_indices(&root, &indices).unwrap().name, node.name);
    }
}

#[test]
fn positions_are_followed_and_cut() {
    let root = sample();
    assert_eq!(node_at_indices(&root, &[1, 0]).unwrap().name, "c");
    assert!(node_at_indices(&root, &[1, 1]).is_none());
    assert_eq!(follow_indices(&root, &[1, 7, 0]).name, "c");
    let mut indices = vec![1, 0, 5, 0];
    sanitize_indices(&root, &mut indices);
    assert_eq!(indices, vec![1, 0]);
    sanitize_indices(&root, &mut indices);
    assert_eq!(indices, vec![1, 0]);
}

#[test]
fn entries_are_replaced_where_they_stand() {
    let mut root = sample();
    let size = root.size;
    assert!(replace_node_at_indices(&mut root, &[1, 0], scan(file("/r/b/new", 5))));
    assert_eq!(root.children[1].children[0].name, "new");
    assert_eq!(root.children[0].children[1].name, "y");
    assert_eq!(root.size, size);
    assert!(!replace_node_at_indices(&mut root, &[1, 4], scan(file("/x", 5))));
    assert!(replace_node_at_indices(&mut root, &[], scan(file("/x", 5))));
    assert_eq!(root.name, "x");
}

#[test]
fn totals_still_add_up_after_removals() {
    let mut root = sample();
    assert!(adds_up(&root));
    let gone = vec![target(&root, &[0, 1]), target(&root, &[3]), target(&root, &[1, 0])];
    let mut current = vec![1];
    let ordered = vec![target(&root, &[3]), target(&root, &[1, 0]), target(&root, &[0, 1])];
    remove_targets_from_tree(&mut root, &gone);
    assert!(adds_up(&root));
    assert_eq!(root.size, 63);
    assert_eq!(root.file_count, 2);
    assert_eq!(root.dir_count, 3);
    current = adjust_indices_after_removals(&current, &ordered);
    assert_eq!(node_at_indices(&root, &current).unwrap().name, "b");
}

#[test]
fn removals_leave_the_rest_in_any_order() {
    let orders: [[&[usize]; 3]; 4] = [
        [&[0, 0], &[1, 0], &[2]],
        [&[2], &[1, 0], &[0, 0]],
        [&[1, 0], &[0, 0], &[2]],
        [&[0, 0], &[2], &[1, 0]],
    ];
    for order in orders {
        let mut root = sample();
        let gone: Vec<DeleteTarget> = order.iter().map(|at| target(&root, at)).collect();
        remove_targets_from_tree(&mut root, &gone);
        let mut all = Vec::new();
        flatten(&root, &mut all);
        let left: Vec<(&str, u64)> =
            all.iter().map(|node| (node.name.as_str(), node.size)).collect();
        assert_eq!(left, vec![("r", 53), ("a", 41), ("y", 40), ("b", 1), ("E", 10)]);
    }
}

#[test]
fn entries_that_stand_elsewhere_are_not_removed() {
    let mut root = sample();
    let mut wrong = target(&root, &[0, 1]);
    wrong.indices = vec![0, 0];
    let mut nowhere = target(&root, &[0, 1]);
    nowhere.indices = vec![9];
    let mut whole = target(&root, &[0, 1]);
    whole.indices = Vec::new();
    remove_targets_from_tree(&mut root, &[wrong, nowhere, whole]);
    assert_eq!(root.size, sample().size);
    assert_eq!(root.file_count, 5);
}

#[test]
fn positions_are_adjusted_to_removals() {
    let root = sample();
    let adjust = |current: &[usize], removed: &[&[usize]]| {
        let targets: Vec<DeleteTarget> =
            removed.iter().map(|indices| target(&root, indices)).collect();
        adjust_indices_after_removals(current, &targets)
    };
    assert_eq!(adjust(&[1, 0], &[&[0]]), vec![0, 0]);
    assert_eq!(adjust(&[1, 0], &[&[2]]), vec![1, 0]);
    assert_eq!(adjust(&[1, 0, 0], &[&[1, 0]]), vec![1]);
    assert_eq!(adjust(&[1], &[&[1, 0]]), vec![1]);
    assert_eq!(adjust(&[3], &[&[2], &[0]]), vec![1]);
    assert_eq!(adjust(&[2], &[&[]]), Vec::<usize>::new());
    assert_eq!(adjust(&[2], &[&[1], &[0]]), vec![0]);
    assert_eq!(adjust(&[2], &[&[0], &[1]]), Vec::<usize>::new());
}

#[test]
fn filters_choose_what_contains_their_text() {
    let root = scan(directory("/R", vec![file("/R/abaabab", 1), file("/R/aab", 2), file("/R/\u{e4}b", 3)]));
    let texts =
        ["", "a", "ab", "aab", "abab", "aaba", "abaabab", "abaababa", "ba", "\u{c4}", "r/", "/r/a", "x"];
    for text in texts {
        let wanted: Vec<&str> = root
            .children
            .iter()
            .filter(|child| child.path.display().to_lowercase().contains(&text.to_lowercase()))
            .map(|child| child.name.as_str())
            .collect();
        let found: Vec<&str> = sorted_children(&root, SortKey::Size, false, text)
            .iter()
            .map(|child| child.name.as_str())
            .collect();
        assert_eq!(found, wanted, "{}", text);
    }
}

#[test]
fn children_are_listed_in_every_order() {
    let root = sample();
    let names = |sort, reversed, filter: &str| -> Vec<String> {
        sorted_children(&root, sort, reversed, filter)
            .iter()
            .map(|node| node.name.clone())
            .collect()
    };
    assert_eq!(names(SortKey::Size, false, ""), vec!["a", "b", "d", "E"]);
    assert_eq!(names(SortKey::Size, true, " \t"), vec!["E", "d", "b", "a"]);
    assert_eq!(names(SortKey::Name, false, ""), vec!["a", "b", "d", "E"]);
    assert_eq!(names(SortKey::Kind, true, ""), vec!["E", "d", "b", "a"]);
    assert_eq!(names(SortKey::Size, false, " e "), vec!["E"]);
    assert_eq!(names(SortKey::Size, false, "/R/").len(), 4);
    assert_eq!(SortKey::Size.label(), "size");
    assert_eq!(SortKey::Name.label(), "name");
    assert_eq!(SortKey::Kind.label(), "kind");
}

#[test]
fn maps_tell_paths_apart_by_their_parts() {
    let mut map: PathMap<u32> = PathMap::new();
    let path = |text: &str| EntryPath::from_text(text);
    for (n, text) in ["/b", "/a/c", "/a", "/a/b", "c", "/b/"].iter().enumerate() {
        map.insert(path(text), n as u32);
    }
    assert_eq!(map.len(), 5);
    assert_eq!(map.get(&path("/b")), Some(&5));
    assert_eq!(map.get(&path("/a/./c")), Some(&1));
    assert_eq!(map.get(&path("/d")), None);
    assert!(map.contains_key(&path("c/")));
    assert_eq!(map.values(), vec![&2, &3, &1, &5, &4]);
    assert!(map.remove(&path("/a//b")));
    assert!(!map.remove(&path("/a/b")));
    assert_eq!(map.len(), 4);
    map.clear();
    assert!(map.is_empty());
}
