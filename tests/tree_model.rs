use file_picker::picker::FilePickerData;
use file_picker::tree::{DirEntry, FileNodeItem};

fn p(parts: &[&str]) -> Vec<String> {
    parts.iter().map(|s| s.to_string()).collect()
}

fn entry(name: &str, is_dir: bool) -> DirEntry {
    DirEntry { name: name.to_string(), is_dir }
}

fn count_at(data: &FilePickerData, parts: &[&str]) -> usize {
    data.get_file_node(&p(parts)).expect("node exists").children_open_count
}

/// Rows below `n` by a plain depth-first walk, the node itself excluded.
fn flatten(n: &FileNodeItem, out: &mut Vec<Vec<String>>) {
    if n.is_dir && n.open {
        for c in n.children.iter() {
            out.push(c.path.clone());
            flatten(c, out);
        }
    }
}

fn home_abc() -> FilePickerData {
    let mut data = FilePickerData::new();
    data.init_home(&p(&["a", "b", "c"]));
    data
}

#[test]
fn new_picker_is_rooted_and_empty() {
    let data = FilePickerData::new();
    assert!(!data.active);
    assert!(data.pwd.is_empty());
    assert!(data.home.is_empty());
    assert_eq!(data.index, None);
    let root = data.get_file_node(&p(&[])).unwrap();
    assert!(root.is_dir);
    assert!(!root.read);
    assert!(!root.open);
    assert_eq!(root.children_open_count, 0);
    let d = FilePickerData::default();
    assert!(d.pwd.is_empty());
}

#[test]
fn init_home_builds_spine_of_four() {
    let data = home_abc();
    assert_eq!(data.home, p(&["a", "b", "c"]));
    assert_eq!(data.pwd, p(&["a", "b", "c"]));
    let spine: [&[&str]; 4] = [&[], &["a"], &["a", "b"], &["a", "b", "c"]];
    for (depth, parts) in spine.iter().enumerate() {
        let n = data.get_file_node(&p(parts)).expect("spine node");
        assert_eq!(n.path, p(parts));
        assert!(n.is_dir);
        assert!(!n.read);
        assert_eq!(n.open, depth < 3);
        assert_eq!(n.children.len(), if depth < 3 { 1 } else { 0 });
        assert_eq!(n.children_open_count, 3 - depth);
    }
    assert!(data.get_file_node(&p(&["a", "b", "c", "d"])).is_none());
    assert!(data.get_file_node(&p(&["a", "x"])).is_none());
    assert_eq!(data.node_count, 4);
}

#[test]
fn init_home_at_root_is_single_node() {
    let mut data = FilePickerData::new();
    data.init_home(&p(&[]));
    let root = data.get_file_node(&p(&[])).unwrap();
    assert!(!root.open);
    assert_eq!(root.children.len(), 0);
    assert!(data.get_file_node(&p(&["a"])).is_none());
}

#[test]
fn set_children_repairs_whole_chain() {
    let mut data = home_abc();
    data.set_item_children(&p(&["a", "b", "c"]), &vec![entry("d", true), entry("e", false)]);
    let c = data.get_file_node(&p(&["a", "b", "c"])).unwrap();
    assert!(c.read);
    assert!(c.open);
    assert_eq!(c.children.len(), 2);
    assert_eq!(count_at(&data, &["a", "b", "c"]), 2);
    assert_eq!(count_at(&data, &["a", "b"]), 3);
    assert_eq!(count_at(&data, &["a"]), 4);
    assert_eq!(count_at(&data, &[]), 5);
    let d = data.get_file_node(&p(&["a", "b", "c", "d"])).unwrap();
    assert!(d.is_dir && !d.read && !d.open);
    let e = data.get_file_node(&p(&["a", "b", "c", "e"])).unwrap();
    assert!(!e.is_dir);
}

#[test]
fn set_children_puts_directories_first() {
    let mut data = home_abc();
    let listing = vec![entry("z.txt", false), entry("src", true), entry("a.txt", false), entry("docs", true)];
    data.set_item_children(&p(&["a", "b", "c"]), &listing);
    let c = data.get_file_node(&p(&["a", "b", "c"])).unwrap();
    let names: Vec<String> = c.children.iter().map(|n| n.path.last().unwrap().clone()).collect();
    assert_eq!(names, p(&["src", "docs", "z.txt", "a.txt"]));
}

#[test]
fn set_children_on_missing_path_is_ignored() {
    let mut data = home_abc();
    data.set_item_children(&p(&["a", "q"]), &vec![entry("d", true)]);
    assert!(data.get_file_node(&p(&["a", "q"])).is_none());
    assert_eq!(count_at(&data, &[]), 3);
    assert_eq!(data.node_count, 4);
}

#[test]
fn set_children_again_overwrites() {
    let mut data = home_abc();
    data.set_item_children(&p(&["a", "b", "c"]), &vec![entry("d", true), entry("e", false)]);
    data.set_item_children(&p(&["a", "b", "c"]), &vec![entry("f", false)]);
    assert!(data.get_file_node(&p(&["a", "b", "c", "d"])).is_none());
    assert!(data.get_file_node(&p(&["a", "b", "c", "f"])).is_some());
    assert_eq!(count_at(&data, &["a", "b", "c"]), 1);
    assert_eq!(count_at(&data, &[]), 4);
}

#[test]
fn merge_into_collapsed_subdirectory_counts_once_open() {
    let mut data = home_abc();
    data.set_item_children(&p(&["a", "b", "c"]), &vec![entry("d", true), entry("e", false)]);
    data.set_item_children(&p(&["a", "b", "c", "d"]), &vec![entry("x", false), entry("y", false), entry("w", true)]);
    assert_eq!(count_at(&data, &["a", "b", "c", "d"]), 3);
    assert_eq!(count_at(&data, &["a", "b", "c"]), 5);
    assert_eq!(count_at(&data, &[]), 8);
}

#[test]
fn toggle_collapses_and_expands_with_counts() {
    let mut data = home_abc();
    data.set_item_children(&p(&["a", "b", "c"]), &vec![entry("d", true), entry("e", false)]);
    data.toggle_open(&p(&["a", "b", "c"]));
    let c = data.get_file_node(&p(&["a", "b", "c"])).unwrap();
    assert!(!c.open);
    assert_eq!(c.children_open_count, 0);
    assert_eq!(count_at(&data, &["a", "b"]), 1);
    assert_eq!(count_at(&data, &[]), 3);
    data.toggle_open(&p(&["a", "b", "c"]));
    assert_eq!(count_at(&data, &["a", "b", "c"]), 2);
    assert_eq!(count_at(&data, &[]), 5);
}

#[test]
fn toggle_on_missing_path_is_ignored() {
    let mut data = home_abc();
    data.toggle_open(&p(&["nope"]));
    assert_eq!(count_at(&data, &[]), 3);
}

#[test]
fn update_node_count_returns_none() {
    let mut data = home_abc();
    assert_eq!(data.update_node_count(&p(&["a", "b"])), None);
    assert_eq!(count_at(&data, &["a", "b"]), 1);
    assert_eq!(data.update_node_count(&p(&["a", "z"])), None);
    assert_eq!(count_at(&data, &[]), 3);
}

#[test]
fn recount_on_single_node() {
    let mut n = FileNodeItem {
        path: p(&["r"]),
        is_dir: true,
        read: true,
        open: true,
        children: vec![
            FileNodeItem { path: p(&["r", "a"]), is_dir: true, read: false, open: false, children: vec![], children_open_count: 0 },
            FileNodeItem { path: p(&["r", "b"]), is_dir: false, read: false, open: false, children: vec![], children_open_count: 0 },
        ],
        children_open_count: 0,
    };
    n.update_count();
    assert_eq!(n.children_open_count, 2);
    n.open = false;
    n.update_count();
    assert_eq!(n.children_open_count, 0);
}

#[test]
fn row_resolution_matches_linear_flattening() {
    let mut data = FilePickerData::new();
    data.init_home(&p(&["h"]));
    data.set_item_children(&p(&["h"]), &vec![entry("a", true), entry("b", true), entry("f", false)]);
    data.set_item_children(&p(&["h", "a"]), &vec![entry("a1", false), entry("a2", true)]);
    data.set_item_children(&p(&["h", "a", "a2"]), &vec![entry("deep", false)]);
    data.set_item_children(&p(&["h", "b"]), &vec![entry("b1", false)]);
    data.toggle_open(&p(&["h", "b"]));
    let home = data.get_file_node(&p(&["h"])).unwrap();
    let mut rows = Vec::new();
    flatten(home, &mut rows);
    assert_eq!(rows.len(), home.children_open_count);
    assert_eq!(
        rows,
        vec![p(&["h", "a"]), p(&["h", "a", "a2"]), p(&["h", "a", "a2", "deep"]), p(&["h", "a", "a1"]), p(&["h", "b"]), p(&["h", "f"])]
    );
    for (k, want) in rows.iter().enumerate() {
        let got = home.get_item_children(k).expect("row exists");
        assert_eq!(&got.path, want);
        assert_eq!(data.row_node(k).unwrap().path, *want);
    }
    assert!(home.get_item_children(rows.len()).is_none());
    assert!(data.row_node(rows.len() + 5).is_none());
}

#[test]
fn find_child_by_name() {
    let mut data = home_abc();
    data.set_item_children(&p(&["a", "b", "c"]), &vec![entry("d", true), entry("e", false)]);
    let c = data.get_file_node(&p(&["a", "b", "c"])).unwrap();
    assert_eq!(c.find_child(&"e".to_string()), Some(1));
    assert_eq!(c.find_child(&"q".to_string()), None);
}

#[test]
fn dedup_keeps_first_position_and_last_kind() {
    let listing = vec![entry("a", false), entry("b", true), entry("a", true), entry("c", false), entry("b", false)];
    let out = file_picker::tree::dedup_listing(&listing);
    let got: Vec<(String, bool)> = out.iter().map(|e| (e.name.clone(), e.is_dir)).collect();
    assert_eq!(got, vec![("a".to_string(), true), ("b".to_string(), false), ("c".to_string(), false)]);
    assert!(file_picker::tree::dedup_listing(&vec![]).is_empty());
}

#[test]
fn duplicate_merge_keeps_node_count() {
    let mut data = home_abc();
    let listing = vec![entry("d", true), entry("e", false)];
    data.set_item_children(&p(&["a", "b", "c"]), &listing);
    assert_eq!(data.node_count, 6);
    data.set_item_children(&p(&["a", "b", "c"]), &listing);
    assert_eq!(data.node_count, 6);
    assert_eq!(count_at(&data, &[]), 5);
    data.set_item_children(&p(&["a", "b", "c"]), &vec![entry("f", false)]);
    assert_eq!(data.node_count, 5);
}

#[test]
fn update_node_count_changes_nothing() {
    let mut data = home_abc();
    data.set_item_children(&p(&["a", "b", "c"]), &vec![entry("d", true)]);
    assert_eq!(data.update_node_count(&p(&["a", "b", "c", "d"])), None);
    assert_eq!(count_at(&data, &["a", "b", "c"]), 1);
    assert_eq!(count_at(&data, &[]), 4);
}
