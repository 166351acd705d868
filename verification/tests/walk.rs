use numloc::walk::{entry_allowed, survives};

fn path(components: &[&str]) -> Vec<String> {
    components.iter().map(|c| c.to_string()).collect()
}

#[test]
fn excluded_subtree_is_pruned() {
    let excludes = vec![path(&["a"])];
    assert!(!entry_allowed(&path(&["a", "x.txt"]), &excludes, false));
    assert!(entry_allowed(&path(&["b", "y.txt"]), &excludes, false));
    assert!(!survives(&path(&["a", "x.txt"]), &excludes, false));
    assert!(survives(&path(&["b", "y.txt"]), &excludes, false));
}

#[test]
fn exclusion_matches_whole_components_only() {
    let excludes = vec![path(&["a", "b"])];
    assert!(!entry_allowed(&path(&["a", "b", "c"]), &excludes, false));
    assert!(entry_allowed(&path(&["a", "x"]), &excludes, false));
}

#[test]
fn excluded_entry_stays_out_even_with_hidden_allowed() {
    let excludes = vec![path(&["a"])];
    assert!(!entry_allowed(&path(&["a"]), &excludes, true));
}

#[test]
fn hidden_entry_is_omitted_by_default() {
    let excludes: Vec<Vec<String>> = Vec::new();
    assert!(!entry_allowed(&path(&[".secret"]), &excludes, false));
}

#[test]
fn hidden_entry_is_kept_when_allowed() {
    let excludes: Vec<Vec<String>> = Vec::new();
    assert!(entry_allowed(&path(&[".secret"]), &excludes, true));
}

#[test]
fn hidden_ancestor_prunes_descendants() {
    let excludes: Vec<Vec<String>> = Vec::new();
    let p = path(&["sub", ".hid", "f.txt"]);
    assert!(entry_allowed(&p, &excludes, false));
    assert!(!survives(&p, &excludes, false));
    assert!(survives(&p, &excludes, true));
}

#[test]
fn plain_file_survives_without_filters() {
    let excludes: Vec<Vec<String>> = Vec::new();
    assert!(survives(&path(&["dir", "file.txt"]), &excludes, false));
}
