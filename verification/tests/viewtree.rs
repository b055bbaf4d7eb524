use lrgex_compress::viewtree::ViewTree;

// Fixture: single root wrapper, 3 top folders (one nested), files.
// Creation order (sorted paths): root=0, Folder1=1, a=2, b=3,
// Folder2=4, deep=5, x=6, y=7, top.txt=8.
fn tree() -> ViewTree {
    ViewTree::build(vec![
        "root/Folder2/y.txt".into(),
        "root/Folder1/a.txt".into(),
        "root/top.txt".into(),
        "root/Folder2/deep/x.txt".into(),
        "root/Folder1/b.txt".into(),
    ])
}

#[test]
fn single_root_wrapper_auto_expands_others_collapsed() {
    let t = tree();
    let rows = t.flatten_visible();
    let labels: Vec<&str> = rows.iter().map(|r| r.label.as_str()).collect();
    assert_eq!(labels, vec!["root", "Folder1", "Folder2", "top.txt"]);
    assert!(rows.iter().all(|r| r.checked && !r.partial), "all selected initially");
    assert!(!rows.iter().any(|r| r.label == "a.txt"));
}

#[test]
fn three_root_folders_open_as_three_rows() {
    let mut paths = Vec::new();
    for f in 1..=3 {
        for i in 0..50 {
            paths.push(format!("Folder{}/file{}.txt", f, i));
        }
    }
    let t = ViewTree::build(paths);
    let rows = t.flatten_visible();
    let labels: Vec<&str> = rows.iter().map(|r| r.label.as_str()).collect();
    assert_eq!(labels, vec!["Folder1", "Folder2", "Folder3"], "opens as 3 rows");
    assert_eq!(t.collect_checked_files().len(), 150);
}

#[test]
fn unchecking_folder_deselects_whole_subtree() {
    let mut t = tree();
    let f2 = t.node_by_path("root/Folder2").unwrap();
    t.toggle(f2);
    let mut got = t.collect_checked_files();
    got.sort();
    assert_eq!(got, vec!["root/Folder1/a.txt", "root/Folder1/b.txt", "root/top.txt"]);
    let root_row = &t.flatten_visible()[0];
    assert!(!root_row.checked && root_row.partial, "root must be partial");
}

#[test]
fn clicking_partial_folder_selects_everything_again() {
    let mut t = tree();
    let f2 = t.node_by_path("root/Folder2").unwrap();
    t.toggle(f2);
    t.toggle(f2);
    assert_eq!(t.collect_checked_files().len(), 5);
}

#[test]
fn one_deep_file_deselect_makes_ancestors_partial() {
    let mut t = tree();
    let x = t.node_by_path("root/Folder2/deep/x.txt").unwrap();
    t.toggle(x);
    let deep = t.node_by_path("root/Folder2/deep").unwrap();
    let (deep_checked, deep_partial) = t.node_state(deep);
    assert!(!deep_partial && !deep_checked, "deep fully unchecked");
    let f2 = t.node_by_path("root/Folder2").unwrap();
    let (f2_checked, f2_partial) = t.node_state(f2);
    assert!(f2_partial && !f2_checked, "Folder2 must be partial");
    t.toggle(f2);
    assert!(!t.collect_checked_files().iter().any(|p| p.starts_with("root/Folder2")));
}

#[test]
fn collapse_hides_subtree_selection_survives() {
    let mut t = tree();
    let root = t.node_by_path("root").unwrap();
    t.toggle_expand(root);
    let rows = t.flatten_visible();
    assert_eq!(rows.len(), 1, "collapsed root shows only itself");
    assert_eq!(t.collect_checked_files().len(), 5, "selection survives collapse");
    t.toggle(root);
    assert_eq!(t.collect_checked_files().len(), 0);
}

#[test]
fn select_all_and_stats() {
    let mut t = tree();
    assert_eq!(t.selection_stats(), (5, 5));
    assert!(t.all_selected());
    t.set_all(false);
    assert_eq!(t.selection_stats(), (0, 5));
    assert!(!t.all_selected());
    t.set_all(true);
    assert!(t.all_selected());
}

#[test]
fn empty_and_flat_archives() {
    let empty = ViewTree::build(vec![]);
    assert_eq!(empty.flatten_visible().len(), 0);
    assert_eq!(empty.collect_checked_files().len(), 0);
    let flat = ViewTree::build(vec!["b.txt".into(), "a.txt".into()]);
    let flat_rows = flat.flatten_visible();
    let labels: Vec<&str> = flat_rows.iter().map(|r| r.label.as_str()).collect();
    assert_eq!(labels, vec!["a.txt", "b.txt"]);
    assert!(flat.flatten_visible().iter().all(|r| !r.is_folder && r.depth == 0));
}

#[test]
fn single_child_chain_auto_expands() {
    let t = ViewTree::build(vec!["a/b/c/file.txt".into()]);
    let rows = t.flatten_visible();
    let labels: Vec<&str> = rows.iter().map(|r| r.label.as_str()).collect();
    assert_eq!(labels, vec!["a", "b", "c", "file.txt"], "1-child chain unfolds");
    let depths: Vec<usize> = rows.iter().map(|r| r.depth).collect();
    assert_eq!(depths, vec![0, 1, 2, 3]);
}

#[test]
fn expand_all_shows_everything() {
    let mut t = tree();
    t.expand_all();
    let rows = t.flatten_visible();
    assert_eq!(rows.len(), 9, "all 5 files + 4 folders");
}

#[test]
fn dir_records_in_index_do_not_become_phantom_file_rows() {
    let t = ViewTree::build(vec![
        "New folder".into(),
        "New folder/New folder".into(),
        "New folder/New folder/New folder/x.txt".into(),
        "New folder/a.bmp".into(),
        "New folder/b.txt".into(),
    ]);
    let rows = t.flatten_visible();
    let names: Vec<&str> = rows.iter().map(|r| r.label.as_str()).collect();
    assert_eq!(
        names,
        vec!["New folder", "New folder", "New folder", "x.txt", "a.bmp", "b.txt"],
        "dir records must vanish — every 'New folder' row is a FOLDER row"
    );
    assert!(rows[0].is_folder && rows[1].is_folder && rows[2].is_folder);
    assert!(rows.iter().filter(|r| !r.is_folder).all(|r| r.label != "New folder"));
    assert_eq!(t.collect_checked_files().len(), 3);
}

#[test]
fn empty_folder_record_is_kept_as_a_row() {
    let t = ViewTree::build(vec!["empty".into(), "z.txt".into()]);
    let t_rows = t.flatten_visible();
    let names: Vec<&str> = t_rows.iter().map(|r| r.label.as_str()).collect();
    assert_eq!(names, vec!["empty", "z.txt"]);
    assert!(!t.flatten_visible()[0].is_folder);
}

#[test]
fn all_dir_records_filtered_in_nested_tree() {
    let t = ViewTree::build(vec![
        "A".into(),
        "A/B".into(),
        "A/B/C".into(),
        "A/B/C/f.txt".into(),
        "A/g.txt".into(),
    ]);
    let rows = t.flatten_visible();
    let files: Vec<&str> = rows.iter().filter(|r| !r.is_folder).map(|r| r.label.as_str()).collect();
    assert_eq!(
        files,
        vec!["f.txt", "g.txt"],
        "only real files appear as file rows (chain auto-expands so f.txt is visible)"
    );
    assert_eq!(t.collect_checked_files(), vec!["A/B/C/f.txt", "A/g.txt"]);
}

#[test]
fn dup_dir_and_file_names_do_not_confuse_build() {
    let t = ViewTree::build(vec!["notes.txt".into(), "notes.txt/inner.md".into()]);
    let rows = t.flatten_visible();
    assert_eq!(rows.len(), 2);
    assert_eq!(rows[0].label, "notes.txt");
    assert_eq!(rows[0].is_folder, true, "folder row only — no dead duplicate");
    assert_eq!(rows[1].label, "inner.md");
    assert_eq!(rows[1].is_folder, false);
}

#[test]
fn row_node_index_addresses_hidden_nodes() {
    let mut t = tree();
    let f1 = t.node_by_path("root/Folder1").unwrap();
    t.toggle_expand(f1);
    let rows = t.flatten_visible();
    let row = rows.iter().find(|r| r.label == "a.txt").unwrap();
    t.toggle(row.node);
    assert!(!t.collect_checked_files().contains(&"root/Folder1/a.txt".to_string()));
}

// ─── further cases ────────────────────────────────────────────────────────

#[test]
fn build_node_order_follows_sorted_paths() {
    let t = tree();
    let expect = [
        "root",
        "root/Folder1",
        "root/Folder1/a.txt",
        "root/Folder1/b.txt",
        "root/Folder2",
        "root/Folder2/deep",
        "root/Folder2/deep/x.txt",
        "root/Folder2/y.txt",
        "root/top.txt",
    ];
    assert_eq!(t.node_count(), expect.len());
    for (i, p) in expect.iter().enumerate() {
        assert_eq!(t.node_by_path(p), Some(i));
    }
}

#[test]
fn repeated_separators_collapse_in_paths() {
    let t = ViewTree::build(vec!["a//b.txt".into(), "/c.txt".into(), "///".into()]);
    assert_eq!(t.collect_checked_files(), vec!["c.txt", "a/b.txt"]);
    assert_eq!(t.selection_stats(), (2, 2));
}

#[test]
fn toggle_twice_restores_a_fully_selected_folder() {
    let mut t = tree();
    let f1 = t.node_by_path("root/Folder1").unwrap();
    t.toggle(f1);
    assert_eq!(t.node_state(f1), (false, false));
    t.toggle(f1);
    assert_eq!(t.node_state(f1), (true, false));
    assert_eq!(t.node_state(0), (true, false));
    assert!(t.all_selected());
}

#[test]
fn toggling_a_file_flips_only_it_and_updates_ancestors() {
    let mut t = tree();
    let top = t.node_by_path("root/top.txt").unwrap();
    t.toggle(top);
    assert_eq!(t.node_state(top), (false, false));
    assert_eq!(t.node_state(0), (false, true));
    assert_eq!(t.selection_stats(), (4, 5));
    let f1 = t.node_by_path("root/Folder1").unwrap();
    assert_eq!(t.node_state(f1), (true, false));
}

#[test]
fn toggle_expand_on_file_is_a_no_op() {
    let mut t = tree();
    let before = t.flatten_visible();
    let top = t.node_by_path("root/top.txt").unwrap();
    t.toggle_expand(top);
    assert_eq!(t.flatten_visible(), before);
}

#[test]
fn unknown_path_has_no_node() {
    let t = tree();
    assert_eq!(t.node_by_path("root/nothing"), None);
}

#[test]
fn input_order_does_not_change_the_files() {
    let a = ViewTree::build(vec!["b/z.txt".to_string(), "a/x.txt".to_string(), "a".to_string(), "c.txt".to_string()]);
    let b = ViewTree::build(vec!["c.txt".to_string(), "a".to_string(), "a/x.txt".to_string(), "b/z.txt".to_string()]);
    assert_eq!(a.collect_checked_files(), b.collect_checked_files());
    assert_eq!(a.collect_checked_files(), vec!["a/x.txt", "b/z.txt", "c.txt"]);
    assert_eq!(a.selection_stats(), b.selection_stats());
}
