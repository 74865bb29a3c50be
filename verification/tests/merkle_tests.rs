use merkledir::digest::sha256_hash;
use merkledir::merkle::{
    build_merkle_tree, diff_merkle_trees, get_root_hash, FileHashEntry, MerkleNode,
};
use merkledir::paths::parent_path;

fn entry(path: &str, hash: &str) -> FileHashEntry {
    FileHashEntry { path: path.to_string(), hash: hash.to_string() }
}

fn find<'a>(nodes: &'a [MerkleNode], path: &str) -> &'a MerkleNode {
    nodes.iter().find(|n| n.path == path).expect("node missing")
}

fn sorted_concat(mut hashes: Vec<String>) -> String {
    hashes.sort();
    hashes.concat()
}

#[test]
fn parent_path_strips_last_segment() {
    assert_eq!(parent_path("a/b/c.txt"), "a/b");
    assert_eq!(parent_path("a/b"), "a");
}

#[test]
fn parent_path_of_top_level_is_root() {
    assert_eq!(parent_path("x.txt"), ".");
    assert_eq!(parent_path("."), ".");
}

#[test]
fn sha256_hash_known_vector() {
    assert_eq!(
        sha256_hash("abc".to_string()),
        "ba7816bf8f01cfea414140de5dae2223b00361a396177a9cb410ff61f20015ad"
    );
}

#[test]
fn sha256_hash_empty_string() {
    assert_eq!(
        sha256_hash(String::new()),
        "e3b0c44298fc1c149afbf4c8996fb92427ae41e4649b934ca495991b7852b855"
    );
}

#[test]
fn empty_input_yields_single_root_with_empty_digest() {
    let nodes = build_merkle_tree(vec![]);
    assert_eq!(nodes.len(), 1);
    assert_eq!(nodes[0].path, ".");
    assert!(!nodes[0].is_file);
    assert!(nodes[0].children.is_empty());
    assert_eq!(nodes[0].hash, sha256_hash(String::new()));
}

#[test]
fn builds_file_directory_and_root_nodes() {
    let nodes = build_merkle_tree(vec![entry("a/x.txt", "h1"), entry("a/y.txt", "h2")]);
    // two files, directory `a`, and the root
    assert_eq!(nodes.len(), 4);
    let x = find(&nodes, "a/x.txt");
    assert!(x.is_file);
    assert_eq!(x.hash, "h1");
    assert!(x.children.is_empty());
    let a = find(&nodes, "a");
    assert!(!a.is_file);
    let mut kids = a.children.clone();
    kids.sort();
    assert_eq!(kids, vec!["a/x.txt".to_string(), "a/y.txt".to_string()]);
    let root = find(&nodes, ".");
    assert!(!root.is_file);
    assert_eq!(root.children, vec!["a".to_string()]);
}

#[test]
fn concrete_scenario_digests_and_diff() {
    let old_nodes = build_merkle_tree(vec![
        entry("a/x.txt", "h1"),
        entry("a/y.txt", "h2"),
        entry("b/z.txt", "h3"),
    ]);
    let a = find(&old_nodes, "a");
    let b = find(&old_nodes, "b");
    let root = find(&old_nodes, ".");
    assert_eq!(a.hash, sha256_hash(sorted_concat(vec!["h1".into(), "h2".into()])));
    assert_eq!(b.hash, sha256_hash("h3".to_string()));
    assert_eq!(
        root.hash,
        sha256_hash(sorted_concat(vec![a.hash.clone(), b.hash.clone()]))
    );

    // change y.txt's digest: `a` and the root change, `b` does not
    let new_nodes = build_merkle_tree(vec![
        entry("a/x.txt", "h1"),
        entry("a/y.txt", "h2x"),
        entry("b/z.txt", "h3"),
    ]);
    let a2 = find(&new_nodes, "a");
    let b2 = find(&new_nodes, "b");
    let root2 = find(&new_nodes, ".");
    assert_ne!(a2.hash, a.hash);
    assert_ne!(root2.hash, root.hash);
    assert_eq!(b2.hash, b.hash);

    let diff = diff_merkle_trees(old_nodes, new_nodes);
    assert_eq!(diff.modified, vec!["a/y.txt".to_string()]);
    assert!(diff.added.is_empty());
    assert!(diff.removed.is_empty());
}

#[test]
fn build_is_deterministic_under_reordering() {
    let n1 = build_merkle_tree(vec![
        entry("src/lib.rs", "aa"),
        entry("src/util/io.rs", "bb"),
        entry("docs/readme.md", "cc"),
    ]);
    let n2 = build_merkle_tree(vec![
        entry("docs/readme.md", "cc"),
        entry("src/util/io.rs", "bb"),
        entry("src/lib.rs", "aa"),
    ]);
    assert_eq!(n1.len(), n2.len());
    for n in &n1 {
        let m = find(&n2, &n.path);
        assert_eq!(n.hash, m.hash);
        assert_eq!(n.is_file, m.is_file);
    }
    assert_eq!(get_root_hash(n1), get_root_hash(n2));
}

#[test]
fn directory_digest_ignores_child_discovery_order() {
    // the same directory reached with its files given in either order
    let n1 = build_merkle_tree(vec![entry("d/p", "k1"), entry("d/q", "k2")]);
    let n2 = build_merkle_tree(vec![entry("d/q", "k2"), entry("d/p", "k1")]);
    assert_eq!(find(&n1, "d").hash, find(&n2, "d").hash);
    assert_eq!(find(&n1, ".").hash, find(&n2, ".").hash);
}

#[test]
fn child_digests_are_sorted_before_hashing() {
    // the children's digests arrive out of order; the directory digest
    // must come from their sorted concatenation
    let nodes = build_merkle_tree(vec![entry("d/p", "zz"), entry("d/q", "aa")]);
    assert_eq!(find(&nodes, "d").hash, sha256_hash("aazz".to_string()));
}

#[test]
fn diff_of_tree_against_itself_is_empty() {
    let nodes = build_merkle_tree(vec![
        entry("a/x.txt", "h1"),
        entry("a/y.txt", "h2"),
        entry("b/z.txt", "h3"),
    ]);
    let diff = diff_merkle_trees(nodes.clone(), nodes);
    assert!(diff.added.is_empty());
    assert!(diff.removed.is_empty());
    assert!(diff.modified.is_empty());
}

#[test]
fn diff_classifies_each_path_exactly_once() {
    let old_nodes = build_merkle_tree(vec![
        entry("keep.txt", "same"),
        entry("gone.txt", "g1"),
        entry("edit.txt", "before"),
    ]);
    let new_nodes = build_merkle_tree(vec![
        entry("keep.txt", "same"),
        entry("fresh.txt", "f1"),
        entry("edit.txt", "after"),
    ]);
    let diff = diff_merkle_trees(old_nodes, new_nodes);
    assert_eq!(diff.added, vec!["fresh.txt".to_string()]);
    assert_eq!(diff.removed, vec!["gone.txt".to_string()]);
    assert_eq!(diff.modified, vec!["edit.txt".to_string()]);
    // no path shows up in more than one list
    for p in &diff.added {
        assert!(!diff.removed.contains(p) && !diff.modified.contains(p));
    }
    for p in &diff.removed {
        assert!(!diff.modified.contains(p));
    }
}

#[test]
fn diff_ignores_directory_nodes() {
    // a path that is a file on one side and a directory on the other is
    // judged on file presence alone
    let old_nodes = build_merkle_tree(vec![entry("a", "h1")]);
    let new_nodes = build_merkle_tree(vec![entry("a/inner.txt", "h2")]);
    let diff = diff_merkle_trees(old_nodes, new_nodes);
    assert_eq!(diff.removed, vec!["a".to_string()]);
    assert_eq!(diff.added, vec!["a/inner.txt".to_string()]);
    assert!(diff.modified.is_empty());
}

#[test]
fn root_hash_of_empty_set_is_none() {
    assert_eq!(get_root_hash(vec![]), None);
}

#[test]
fn root_hash_picks_shortest_path() {
    let nodes = build_merkle_tree(vec![entry("src/x.txt", "h1"), entry("docs/y.txt", "h2")]);
    let root = find(&nodes, ".").hash.clone();
    assert_eq!(get_root_hash(nodes), Some(root));
}

#[test]
fn deep_nesting_builds_full_ancestor_chain() {
    let nodes = build_merkle_tree(vec![entry("a/b/c/d.txt", "h")]);
    let paths: Vec<&str> = vec![".", "a", "a/b", "a/b/c", "a/b/c/d.txt"];
    assert_eq!(nodes.len(), paths.len());
    for p in paths {
        find(&nodes, p);
    }
    // each directory holds exactly its one child
    assert_eq!(find(&nodes, "a/b/c").children, vec!["a/b/c/d.txt".to_string()]);
    assert_eq!(find(&nodes, "a/b").children, vec!["a/b/c".to_string()]);
    assert_eq!(find(&nodes, "a").children, vec!["a/b".to_string()]);
    assert_eq!(find(&nodes, ".").children, vec!["a".to_string()]);
}

#[test]
fn equal_digests_under_different_paths_stay_distinct_nodes() {
    let nodes = build_merkle_tree(vec![entry("a/one.txt", "same"), entry("b/two.txt", "same")]);
    assert_eq!(find(&nodes, "a/one.txt").hash, "same");
    assert_eq!(find(&nodes, "b/two.txt").hash, "same");
    // both directories digest a single "same" child and so agree
    assert_eq!(find(&nodes, "a").hash, find(&nodes, "b").hash);
}
