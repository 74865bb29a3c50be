//! Merkle trees over directory hierarchies: building a complete node set
//! from flat `(path, digest)` pairs, diffing two node sets, and reading the
//! root digest.
//!
//! A node set is a flat list of nodes, one per path: a File node per input
//! pair, and a Directory node per distinct ancestor directory, the root
//! sentinel included. A directory's digest is the digest of the
//! concatenation of its children's digests in sorted order, so it depends
//! only on the set of child digests, never on discovery order.
use crate::digest::{sha256_hash, sha256_hex_of};
use crate::paths::{
    ancestors, dotslash_free, is_root, lemma_anc_dotslash_free, lemma_anc_rank, lemma_anc_trans,
    lemma_rank_parent, lemma_rank_parent_lt, parent_path, parent_seq, path_rank, rank, root_seq,
};
use crate::strorder::{concat_all, join_all, lex_leq_fn, sort_strings, views_of};
use vstd::prelude::*;

verus! {

/// A node in the Merkle tree: one file or directory of a snapshot.
#[derive(Clone, Debug)]
pub struct MerkleNode {
    /// Relative path of this node (file or directory).
    pub path: String,
    /// Hex-encoded digest.
    pub hash: String,
    /// Whether this is a file (leaf) or directory (internal node).
    pub is_file: bool,
    /// Children paths (empty for files).
    pub children: Vec<String>,
}

/// Result of diffing two Merkle trees.
#[derive(Clone, Debug)]
pub struct MerkleDiff {
    /// File paths present in the new tree but not the old.
    pub added: Vec<String>,
    /// File paths present in the old tree but not the new.
    pub removed: Vec<String>,
    /// File paths present in both trees with differing digests.
    pub modified: Vec<String>,
}

/// One input pair for the tree builder.
#[derive(Clone)]
pub struct FileHashEntry {
    pub path: String,
    pub hash: String,
}

/// The digest of a directory, as a function of its children's digests:
/// sort the digests, concatenate, and digest the concatenation. Sorting
/// first makes the result independent of the order the children came in.
pub open spec fn dir_digest(hs: Seq<Seq<char>>) -> Seq<char> {
    sha256_hex_of(concat_all(hs.sort_by(lex_leq_fn())))
}

// ---------------------------------------------------------------------------
// The tree builder's model: which paths a well-formed input produces, and
// what each produced node must hold.
// ---------------------------------------------------------------------------
/// A well-formed input: paths unique, none the root sentinel, none starting
/// `./`, and no path an ancestor directory of another.
pub open spec fn entries_ok(es: Seq<FileHashEntry>) -> bool {
    &&& forall|i: int, j: int|
        0 <= i < j < es.len() ==> (#[trigger] es[i].path@) != (#[trigger] es[j].path@)
    &&& forall|i: int|
        0 <= i < es.len() ==> (#[trigger] es[i].path@) != root_seq() && dotslash_free(es[i].path@)
    &&& forall|i: int, j: int|
        0 <= i < es.len() && 0 <= j < es.len() ==> !#[trigger] ancestors(es[j].path@).contains(
            es[i].path@,
        )
}

/// Whether `p` is one of the input file paths.
pub open spec fn is_input_path(es: Seq<FileHashEntry>, p: Seq<char>) -> bool {
    exists|i: int| 0 <= i < es.len() && (#[trigger] es[i].path@) == p
}

/// The digest the input assigns to file path `p`.
pub open spec fn input_hash(es: Seq<FileHashEntry>, p: Seq<char>) -> Seq<char> {
    es[choose|i: int| 0 <= i < es.len() && (#[trigger] es[i].path@) == p].hash@
}

/// Whether `p` is a directory of the tree: the root sentinel, or an
/// ancestor of some input file.
pub open spec fn is_tree_dir(es: Seq<FileHashEntry>, p: Seq<char>) -> bool {
    p == root_seq() || exists|i: int|
        0 <= i < es.len() && #[trigger] ancestors(es[i].path@).contains(p)
}

/// Every path of the complete node set: the input files, their ancestor
/// directories, and the root.
pub open spec fn is_tree_path(es: Seq<FileHashEntry>, p: Seq<char>) -> bool {
    is_input_path(es, p) || is_tree_dir(es, p)
}

/// No two nodes share a path.
pub open spec fn node_paths_distinct(ns: Seq<MerkleNode>) -> bool {
    forall|i: int, j: int|
        0 <= i < j < ns.len() ==> (#[trigger] ns[i].path@) != (#[trigger] ns[j].path@)
}

/// Whether the node set holds a node for path `p`.
pub open spec fn has_node(ns: Seq<MerkleNode>, p: Seq<char>) -> bool {
    exists|i: int| 0 <= i < ns.len() && (#[trigger] ns[i].path@) == p
}

/// The node the set holds for path `p`.
pub open spec fn node_at(ns: Seq<MerkleNode>, p: Seq<char>) -> MerkleNode {
    ns[choose|i: int| 0 <= i < ns.len() && (#[trigger] ns[i].path@) == p]
}

/// The digests of a node's children, looked up in the node set.
pub open spec fn child_hashes(ns: Seq<MerkleNode>, n: MerkleNode) -> Seq<Seq<char>> {
    views_of(n.children@).map_values(|c: Seq<char>| node_at(ns, c).hash@)
}

/// What a directory node of the result must hold: its children are exactly
/// the tree paths whose parent it is (the root is nobody's child), listed
/// once each, and its digest is the directory digest of their digests.
pub open spec fn dir_node_ok(es: Seq<FileHashEntry>, ns: Seq<MerkleNode>, n: MerkleNode) -> bool {
    &&& forall|k: int, l: int|
        0 <= k < l < n.children@.len() ==> (#[trigger] n.children@[k]@) != (
        #[trigger] n.children@[l]@)
    &&& forall|k: int|
        0 <= k < n.children@.len() ==> is_tree_path(es, #[trigger] n.children@[k]@)
            && parent_seq(n.children@[k]@) == n.path@ && n.children@[k]@ != root_seq()
    &&& forall|q: Seq<char>|
        is_tree_path(es, q) && q != root_seq() && parent_seq(q) == n.path@
            ==> #[trigger] views_of(n.children@).contains(q)
    &&& n.hash@ == dir_digest(child_hashes(ns, n))
}

/// The tree builder's full contract: the result holds exactly one node per
/// tree path; file nodes carry the input digest and no children; directory
/// nodes carry exactly their children and the digest derived from them.
pub open spec fn tree_post(es: Seq<FileHashEntry>, ns: Seq<MerkleNode>) -> bool {
    &&& node_paths_distinct(ns)
    &&& forall|i: int| 0 <= i < ns.len() ==> is_tree_path(es, (#[trigger] ns[i].path@))
    &&& forall|p: Seq<char>| is_tree_path(es, p) ==> has_node(ns, p)
    &&& forall|i: int|
        0 <= i < ns.len() ==> ((#[trigger] ns[i].is_file) <==> is_input_path(es, ns[i].path@))
    &&& forall|i: int|
        0 <= i < ns.len() && (#[trigger] ns[i].is_file) ==> ns[i].hash@ == input_hash(
            es,
            ns[i].path@,
        ) && ns[i].children@.len() == 0
    &&& forall|i: int|
        0 <= i < ns.len() && !(#[trigger] ns[i].is_file) ==> dir_node_ok(es, ns, ns[i])
}

// ---------------------------------------------------------------------------
// Root extraction
// ---------------------------------------------------------------------------
/// `i` indexes the first node of minimal path length.
pub open spec fn is_first_min(ns: Seq<MerkleNode>, i: int) -> bool {
    &&& 0 <= i < ns.len()
    &&& forall|j: int| 0 <= j < i ==> (#[trigger] ns[j].path@).len() > ns[i].path@.len()
    &&& forall|j: int| i <= j < ns.len() ==> (#[trigger] ns[j].path@).len() >= ns[i].path@.len()
}

/// The digest of the hierarchy's root: the hash of the node with the
/// shortest path (the first such node, were there several), or nothing
/// when the set is empty.
pub fn get_root_hash(nodes: Vec<MerkleNode>) -> (r: Option<String>)
    ensures
        (r is None <==> nodes@.len() == 0),
        nodes@.len() > 0 ==> exists|i: int|
            #[trigger] is_first_min(nodes@, i) && r == Some(nodes@[i].hash),
{
    if nodes.len() == 0 {
        return None;
    }
    let mut best: usize = 0;
    let mut best_len: usize = nodes[0].path.as_str().unicode_len();
    let mut i: usize = 1;
    while i < nodes.len()
        invariant
            0 <= best < i <= nodes@.len(),
            best_len == nodes@[best as int].path@.len(),
            forall|j: int| 0 <= j < best ==> (#[trigger] nodes@[j].path@).len() > best_len,
            forall|j: int| best <= j < i ==> (#[trigger] nodes@[j].path@).len() >= best_len,
        decreases nodes@.len() - i,
    {
        let l = nodes[i].path.as_str().unicode_len();
        if l < best_len {
            best = i;
            best_len = l;
        }
        i = i + 1;
    }
    proof {
        assert(is_first_min(nodes@, best as int));
    }
    Some(nodes[best].hash.clone())
}

// ---------------------------------------------------------------------------
// Diffing
// ---------------------------------------------------------------------------
/// Whether the node set holds a File node for path `p`.
pub open spec fn has_file(ns: Seq<MerkleNode>, p: Seq<char>) -> bool {
    exists|i: int| 0 <= i < ns.len() && (#[trigger] ns[i].is_file) && ns[i].path@ == p
}

/// The digest of the File node at path `p`.
pub open spec fn file_hash_of(ns: Seq<MerkleNode>, p: Seq<char>) -> Seq<char> {
    ns[choose|i: int| 0 <= i < ns.len() && (#[trigger] ns[i].is_file) && ns[i].path@ == p].hash@
}

/// No two File nodes share a path.
pub open spec fn file_nodes_distinct(ns: Seq<MerkleNode>) -> bool {
    forall|i: int, j: int|
        0 <= i < j < ns.len() && ns[i].is_file && ns[j].is_file ==> (#[trigger] ns[i].path@) != (
        #[trigger] ns[j].path@)
}

/// Holds of a File node with no counterpart on the other side.
pub open spec fn added_pred(other: Seq<MerkleNode>) -> spec_fn(MerkleNode) -> bool {
    |n: MerkleNode| n.is_file && !has_file(other, n.path@)
}

/// Holds of a File node whose counterpart on the other side carries a
/// different digest.
pub open spec fn modified_pred(other: Seq<MerkleNode>) -> spec_fn(MerkleNode) -> bool {
    |n: MerkleNode| n.is_file && has_file(other, n.path@) && file_hash_of(other, n.path@) != n.hash@
}

/// The paths of the nodes of `ns` satisfying `pred`, in order.
pub open spec fn diff_paths(ns: Seq<MerkleNode>, pred: spec_fn(MerkleNode) -> bool) -> Seq<
    Seq<char>,
> {
    ns.filter(pred).map_values(|n: MerkleNode| n.path@)
}

/// Find the digest of the File node at path `p`, if the set holds one.
fn find_file_hash(nodes: &Vec<MerkleNode>, p: &String) -> (r: Option<String>)
    requires
        file_nodes_distinct(nodes@),
    ensures
        (r is Some <==> has_file(nodes@, p@)),
        r is Some ==> r->0@ == file_hash_of(nodes@, p@),
{
    let mut i: usize = 0;
    while i < nodes.len()
        invariant
            i <= nodes@.len(),
            file_nodes_distinct(nodes@),
            forall|j: int| 0 <= j < i ==> !((#[trigger] nodes@[j].is_file) && nodes@[j].path@ == p@),
        decreases nodes@.len() - i,
    {
        if nodes[i].is_file && nodes[i].path == *p {
            proof {
                let w: int = choose|w: int|
                    0 <= w < nodes@.len() && (#[trigger] nodes@[w].is_file) && nodes@[w].path@
                        == p@;
                assert(nodes@[w].hash@ == file_hash_of(nodes@, p@));
                if w != i {
                    assert(false);
                }
            }
            return Some(nodes[i].hash.clone());
        }
        i = i + 1;
    }
    None
}

/// Diff two Merkle trees, given as flat node sets. Only File nodes are
/// compared: a file path only in `new_nodes` is added, one only in
/// `old_nodes` is removed, one on both sides with differing digests is
/// modified; equal digests are unchanged and reported nowhere. Each list
/// keeps its side's node order.
pub fn diff_merkle_trees(old_nodes: Vec<MerkleNode>, new_nodes: Vec<MerkleNode>) -> (r: MerkleDiff)
    requires
        file_nodes_distinct(old_nodes@),
        file_nodes_distinct(new_nodes@),
    ensures
        views_of(r.added@) == diff_paths(new_nodes@, added_pred(old_nodes@)),
        views_of(r.removed@) == diff_paths(old_nodes@, added_pred(new_nodes@)),
        views_of(r.modified@) == diff_paths(new_nodes@, modified_pred(old_nodes@)),
{
    let mut added: Vec<String> = Vec::new();
    let mut removed: Vec<String> = Vec::new();
    let mut modified: Vec<String> = Vec::new();
    proof {
        reveal(Seq::filter);
        assert(new_nodes@.take(0) =~= Seq::<MerkleNode>::empty());
        assert(views_of(added@) =~= diff_paths(new_nodes@.take(0), added_pred(old_nodes@)));
        assert(views_of(modified@) =~= diff_paths(new_nodes@.take(0), modified_pred(old_nodes@)));
    }
    let mut i: usize = 0;
    while i < new_nodes.len()
        invariant
            i <= new_nodes@.len(),
            file_nodes_distinct(old_nodes@),
            views_of(added@) == diff_paths(new_nodes@.take(i as int), added_pred(old_nodes@)),
            views_of(modified@) == diff_paths(
                new_nodes@.take(i as int),
                modified_pred(old_nodes@),
            ),
        decreases new_nodes@.len() - i,
    {
        let ghost pre_added = added@;
        let ghost pre_modified = modified@;
        if new_nodes[i].is_file {
            match find_file_hash(&old_nodes, &new_nodes[i].path) {
                Option::None => added.push(new_nodes[i].path.clone()),
                Option::Some(h) => {
                    if !(h == new_nodes[i].hash) {
                        modified.push(new_nodes[i].path.clone());
                    }
                },
            }
        }
        proof {
            reveal(Seq::filter);
            let t1 = new_nodes@.take(i + 1);
            assert(t1.drop_last() =~= new_nodes@.take(i as int));
            assert(t1.last() == new_nodes@[i as int]);
            if added_pred(old_nodes@)(new_nodes@[i as int]) {
                assert(views_of(added@) =~= views_of(pre_added).push(new_nodes@[i as int].path@));
                assert(views_of(added@) =~= diff_paths(t1, added_pred(old_nodes@)));
            } else {
                assert(views_of(added@) =~= diff_paths(t1, added_pred(old_nodes@)));
            }
            if modified_pred(old_nodes@)(new_nodes@[i as int]) {
                assert(views_of(modified@) =~= views_of(pre_modified).push(
                    new_nodes@[i as int].path@,
                ));
                assert(views_of(modified@) =~= diff_paths(t1, modified_pred(old_nodes@)));
            } else {
                assert(views_of(modified@) =~= diff_paths(t1, modified_pred(old_nodes@)));
            }
        }
        i = i + 1;
    }
    proof {
        assert(new_nodes@.take(i as int) =~= new_nodes@);
        reveal(Seq::filter);
        assert(old_nodes@.take(0) =~= Seq::<MerkleNode>::empty());
        assert(views_of(removed@) =~= diff_paths(old_nodes@.take(0), added_pred(new_nodes@)));
    }
    let mut k: usize = 0;
    while k < old_nodes.len()
        invariant
            k <= old_nodes@.len(),
            file_nodes_distinct(new_nodes@),
            views_of(added@) == diff_paths(new_nodes@, added_pred(old_nodes@)),
            views_of(modified@) == diff_paths(new_nodes@, modified_pred(old_nodes@)),
            views_of(removed@) == diff_paths(old_nodes@.take(k as int), added_pred(new_nodes@)),
        decreases old_nodes@.len() - k,
    {
        let ghost pre_removed = removed@;
        if old_nodes[k].is_file {
            match find_file_hash(&new_nodes, &old_nodes[k].path) {
                Option::None => removed.push(old_nodes[k].path.clone()),
                Option::Some(_) => {},
            }
        }
        proof {
            reveal(Seq::filter);
            let t1 = old_nodes@.take(k + 1);
            assert(t1.drop_last() =~= old_nodes@.take(k as int));
            assert(t1.last() == old_nodes@[k as int]);
            if added_pred(new_nodes@)(old_nodes@[k as int]) {
                assert(views_of(removed@) =~= views_of(pre_removed).push(
                    old_nodes@[k as int].path@,
                ));
                assert(views_of(removed@) =~= diff_paths(t1, added_pred(new_nodes@)));
            } else {
                assert(views_of(removed@) =~= diff_paths(t1, added_pred(new_nodes@)));
            }
        }
        k = k + 1;
    }
    proof {
        assert(old_nodes@.take(k as int) =~= old_nodes@);
    }
    MerkleDiff { added, removed, modified }
}

// ---------------------------------------------------------------------------
// Building: helpers
// ---------------------------------------------------------------------------
/// No two strings of the sequence read the same.
pub open spec fn strs_distinct(ss: Seq<String>) -> bool {
    forall|k: int, l: int|
        0 <= k < l < ss.len() ==> (#[trigger] ss[k]@) != (#[trigger] ss[l]@)
}

/// Every input path fits the machine's index range.
pub open spec fn entries_fit(es: Seq<FileHashEntry>) -> bool {
    forall|i: int| 0 <= i < es.len() ==> (#[trigger] es[i].path@).len() < usize::MAX
}

/// Like `is_tree_dir`, but counting only the first `m` input files.
pub open spec fn is_tree_dir_upto(es: Seq<FileHashEntry>, m: int, p: Seq<char>) -> bool {
    p == root_seq() || exists|i: int|
        0 <= i < m && #[trigger] ancestors(es[i].path@).contains(p)
}

/// The children clauses of `dir_node_ok`: the node lists exactly the tree
/// paths whose parent it is, once each.
pub open spec fn dir_children_ok(es: Seq<FileHashEntry>, n: MerkleNode) -> bool {
    &&& forall|k: int, l: int|
        0 <= k < l < n.children@.len() ==> (#[trigger] n.children@[k]@) != (
        #[trigger] n.children@[l]@)
    &&& forall|k: int|
        0 <= k < n.children@.len() ==> is_tree_path(es, #[trigger] n.children@[k]@)
            && parent_seq(n.children@[k]@) == n.path@ && n.children@[k]@ != root_seq()
    &&& forall|q: Seq<char>|
        is_tree_path(es, q) && q != root_seq() && parent_seq(q) == n.path@
            ==> #[trigger] views_of(n.children@).contains(q)
}

/// Under unique input paths, the digest assigned to an input path is that
/// entry's digest.
proof fn lemma_input_hash(es: Seq<FileHashEntry>, j: int)
    requires
        entries_ok(es),
        0 <= j < es.len(),
    ensures
        is_input_path(es, es[j].path@),
        input_hash(es, es[j].path@) == es[j].hash@,
{
    let p = es[j].path@;
    assert(is_input_path(es, p));
    let w: int = choose|i: int| 0 <= i < es.len() && (#[trigger] es[i].path@) == p;
    if w != j {
        assert(false);
    }
}

/// Under distinct paths, the node at `p` is the node any index holds for it.
pub proof fn lemma_node_at_is(ns: Seq<MerkleNode>, p: Seq<char>, i: int)
    requires
        node_paths_distinct(ns),
        0 <= i < ns.len(),
        ns[i].path@ == p,
    ensures
        has_node(ns, p),
        node_at(ns, p) == ns[i],
{
    assert(has_node(ns, p));
    let w: int = choose|w: int| 0 <= w < ns.len() && (#[trigger] ns[w].path@) == p;
    if w != i {
        assert(false);
    }
}

/// Appending a fresh node does not change what earlier paths resolve to.
proof fn lemma_node_at_push(ns: Seq<MerkleNode>, m: MerkleNode, p: Seq<char>)
    requires
        node_paths_distinct(ns.push(m)),
        has_node(ns, p),
    ensures
        has_node(ns.push(m), p),
        node_at(ns.push(m), p) == node_at(ns, p),
{
    let i: int = choose|i: int| 0 <= i < ns.len() && (#[trigger] ns[i].path@) == p;
    assert(node_paths_distinct(ns)) by {
        assert(forall|a: int, b: int|
            0 <= a < b < ns.len() ==> ns.push(m)[a] == ns[a] && ns.push(m)[b] == ns[b]);
    }
    lemma_node_at_is(ns, p, i);
    assert(ns.push(m)[i] == ns[i]);
    lemma_node_at_is(ns.push(m), p, i);
}

/// Appending a fresh node keeps every settled node's child digests.
proof fn lemma_child_hashes_push(ns: Seq<MerkleNode>, m: MerkleNode, n: MerkleNode)
    requires
        node_paths_distinct(ns.push(m)),
        forall|k: int| 0 <= k < n.children@.len() ==> has_node(ns, #[trigger] n.children@[k]@),
    ensures
        child_hashes(ns.push(m), n) == child_hashes(ns, n),
{
    assert forall|k: int| 0 <= k < n.children@.len() implies node_at(
        ns.push(m),
        #[trigger] n.children@[k]@,
    ) == node_at(ns, n.children@[k]@) by {
        lemma_node_at_push(ns, m, n.children@[k]@);
    }
    assert(child_hashes(ns.push(m), n) =~= child_hashes(ns, n));
}

/// A string seen in a prefix is seen in the whole.
proof fn lemma_views_contains_prefix(a: Seq<String>, b: Seq<String>, c: Seq<char>)
    requires
        views_of(a).contains(c),
        a.len() <= b.len(),
        forall|k: int| 0 <= k < a.len() ==> b[k] == a[k],
    ensures
        views_of(b).contains(c),
{
    let k0: int = choose|k0: int|
        0 <= k0 < views_of(a).len() && (#[trigger] views_of(a)[k0]) == c;
    assert(a[k0]@ == c);
    assert(b[k0]@ == c);
    assert(views_of(b)[k0] == c);
}

/// Append `s` unless an equal string is already present.
fn push_unique(v: &mut Vec<String>, s: &String)
    ensures
        forall|p: Seq<char>|
            #[trigger] views_of(final(v)@).contains(p) <==> (views_of(old(v)@).contains(p) || p
                == s@),
        strs_distinct(old(v)@) ==> strs_distinct(final(v)@),
        forall|k: int| 0 <= k < old(v)@.len() ==> final(v)@[k] == old(v)@[k],
        final(v)@ == old(v)@ || final(v)@ == old(v)@.push(*s),
{
    let mut i: usize = 0;
    while i < v.len()
        invariant
            i <= v@.len(),
            v@ == old(v)@,
            forall|j: int| 0 <= j < i ==> (#[trigger] v@[j]@) != s@,
        decreases v@.len() - i,
    {
        if v[i] == *s {
            proof {
                assert(views_of(v@)[i as int] == s@);
                assert forall|p: Seq<char>|
                    #[trigger] views_of(v@).contains(p) <==> (views_of(old(v)@).contains(p) || p
                        == s@) by {}
            }
            return ;
        }
        i = i + 1;
    }
    proof {
        assert forall|k: int| 0 <= k < views_of(v@).len() implies views_of(v@)[k] != s@ by {
            assert(v@[k]@ != s@);
        }
    }
    let ghost pre = v@;
    let c = s.clone();
    v.push(c);
    proof {
        assert forall|p: Seq<char>|
            #[trigger] views_of(v@).contains(p) <==> (views_of(pre).contains(p) || p == s@) by {
            if views_of(v@).contains(p) {
                let k0: int = choose|k0: int|
                    0 <= k0 < views_of(v@).len() && (#[trigger] views_of(v@)[k0]) == p;
                if k0 < pre.len() {
                    assert(views_of(pre)[k0] == p);
                } else {
                    assert(v@[k0]@ == s@);
                }
            }
            if views_of(pre).contains(p) {
                lemma_views_contains_prefix(pre, v@, p);
            }
            if p == s@ {
                assert(v@[pre.len() as int]@ == s@);
                assert(views_of(v@)[pre.len() as int] == s@);
            }
        }
        if strs_distinct(pre) {
            assert forall|k: int, l: int| 0 <= k < l < v@.len() implies (#[trigger] v@[k]@) != (
            #[trigger] v@[l]@) by {
                if l == pre.len() {
                    assert(v@[l]@ == s@);
                    assert(v@[k]@ == pre[k]@);
                }
            }
        }
    }
}

/// First position whose path ranks strictly below `x`: where to insert `x`
/// to keep a rank-descending vector rank-descending.
fn find_pos_desc(out: &Vec<String>, x: &str) -> (pos: usize)
    requires
        forall|k: int| 0 <= k < out@.len() ==> (#[trigger] out@[k]@).len() < usize::MAX,
        x@.len() < usize::MAX,
    ensures
        pos <= out@.len(),
        forall|j: int| 0 <= j < pos ==> rank(#[trigger] out@[j]@) >= rank(x@),
        pos < out@.len() ==> rank(out@[pos as int]@) < rank(x@),
{
    let rx = path_rank(x);
    let mut pos: usize = 0;
    while pos < out.len()
        invariant
            pos <= out@.len(),
            rx as nat == rank(x@),
            forall|k: int| 0 <= k < out@.len() ==> (#[trigger] out@[k]@).len() < usize::MAX,
            forall|j: int| 0 <= j < pos ==> rank(#[trigger] out@[j]@) >= rank(x@),
        decreases out@.len() - pos,
    {
        if path_rank(out[pos].as_str()) < rx {
            return pos;
        }
        pos = pos + 1;
    }
    pos
}

/// Order a vector of paths by rank, deepest first. Which paths occur, and
/// how often, is unchanged.
fn sort_dirs_desc(v: Vec<String>) -> (r: Vec<String>)
    requires
        forall|k: int| 0 <= k < v@.len() ==> (#[trigger] v@[k]@).len() < usize::MAX,
    ensures
        forall|p: Seq<char>|
            #[trigger] views_of(r@).contains(p) <==> views_of(v@).contains(p),
        strs_distinct(v@) ==> strs_distinct(r@),
        forall|k: int, l: int| 0 <= k < l < r@.len() ==> rank(#[trigger] r@[k]@) >= rank(
            #[trigger] r@[l]@),
        forall|k: int| 0 <= k < r@.len() ==> (#[trigger] r@[k]@).len() < usize::MAX,
{
    let mut out: Vec<String> = Vec::new();
    let mut i: usize = 0;
    while i < v.len()
        invariant
            i <= v@.len(),
            forall|k: int| 0 <= k < v@.len() ==> (#[trigger] v@[k]@).len() < usize::MAX,
            forall|p: Seq<char>|
                #[trigger] views_of(out@).contains(p) <==> views_of(v@.take(i as int)).contains(p),
            strs_distinct(v@) ==> strs_distinct(out@),
            forall|k: int, l: int| 0 <= k < l < out@.len() ==> rank(#[trigger] out@[k]@) >= rank(
                #[trigger] out@[l]@),
            forall|k: int| 0 <= k < out@.len() ==> (#[trigger] out@[k]@).len() < usize::MAX,
        decreases v@.len() - i,
    {
        let x = v[i].clone();
        let pos = find_pos_desc(&out, x.as_str());
        let ghost prev = out@;
        out.insert(pos, x);
        proof {
            prev.insert_ensures(pos as int, x);
            let nv = out@;
            // rank order is kept
            assert forall|k: int, l: int| 0 <= k < l < nv.len() implies rank(#[trigger] nv[k]@)
                >= rank(#[trigger] nv[l]@) by {
                if l < pos {
                    assert(nv[k] == prev[k] && nv[l] == prev[l]);
                } else if k > pos {
                    assert(nv[k] == prev[k - 1] && nv[l] == prev[l - 1]);
                } else if k < pos && l == pos {
                    assert(nv[k] == prev[k] && nv[l] == x);
                } else if k < pos && l > pos {
                    assert(nv[k] == prev[k] && nv[l] == prev[l - 1]);
                } else if k == pos && l > pos {
                    assert(nv[k] == x && nv[l] == prev[l - 1]);
                    assert(rank(prev[pos as int]@) < rank(x@));
                    if l - 1 > pos {
                        assert(rank(prev[pos as int]@) >= rank(prev[l - 1]@));
                    }
                }
            }
            // the same paths occur
            assert forall|p: Seq<char>|
                #[trigger] views_of(nv).contains(p) <==> views_of(v@.take(i + 1)).contains(
                    p,
                ) by {
                assert(v@.take(i + 1).drop_last() =~= v@.take(i as int));
                if views_of(nv).contains(p) {
                    let k0: int = choose|k0: int|
                        0 <= k0 < views_of(nv).len() && (#[trigger] views_of(nv)[k0]) == p;
                    if k0 < pos {
                        assert(views_of(prev)[k0] == p);
                        assert(views_of(prev).contains(p));
                        lemma_views_contains_prefix(v@.take(i as int), v@.take(i + 1), p);
                    } else if k0 == pos {
                        assert(nv[k0]@ == x@);
                        assert(v@.take(i + 1)[i as int]@ == p);
                        assert(views_of(v@.take(i + 1))[i as int] == p);
                    } else {
                        assert(nv[k0] == prev[k0 - 1]);
                        assert(views_of(prev)[k0 - 1] == p);
                        assert(views_of(prev).contains(p));
                        lemma_views_contains_prefix(v@.take(i as int), v@.take(i + 1), p);
                    }
                }
                if views_of(v@.take(i + 1)).contains(p) {
                    let k0: int = choose|k0: int|
                        0 <= k0 < views_of(v@.take(i + 1)).len() && (#[trigger] views_of(
                            v@.take(i + 1),
                        )[k0]) == p;
                    if k0 < i {
                        assert(v@.take(i + 1)[k0] == v@.take(i as int)[k0]);
                        assert(views_of(v@.take(i as int))[k0] == p);
                        assert(views_of(prev).contains(p));
                        let m0: int = choose|m0: int|
                            0 <= m0 < views_of(prev).len() && (#[trigger] views_of(prev)[m0]) == p;
                        if m0 < pos {
                            assert(nv[m0]@ == p);
                            assert(views_of(nv)[m0] == p);
                        } else {
                            assert(nv[m0 + 1]@ == p);
                            assert(views_of(nv)[m0 + 1] == p);
                        }
                    } else {
                        assert(v@.take(i + 1)[k0]@ == x@);
                        assert(nv[pos as int]@ == p);
                        assert(views_of(nv)[pos as int] == p);
                    }
                }
            }
            // distinctness is kept
            if strs_distinct(v@) {
                assert(strs_distinct(v@.take(i as int)));
                assert forall|k: int, l: int| 0 <= k < l < nv.len() implies (#[trigger] nv[k]@)
                    != (#[trigger] nv[l]@) by {
                    if k == pos || l == pos {
                        let o: int = if k == pos {
                            l
                        } else {
                            k
                        };
                        let ov: int = if o < pos {
                            o
                        } else {
                            o - 1
                        };
                        assert(nv[o] == prev[ov]);
                        if nv[o]@ == x@ {
                            assert(views_of(prev)[ov] == nv[o]@);
                            assert(views_of(prev).contains(x@));
                            assert(views_of(v@.take(i as int)).contains(x@));
                            let j0: int = choose|j0: int|
                                0 <= j0 < views_of(v@.take(i as int)).len() && (#[trigger] views_of(
                                    v@.take(i as int),
                                )[j0]) == x@;
                            assert(v@.take(i as int)[j0]@ == x@);
                            assert(v@[j0]@ == v@[i as int]@);
                            assert(false);
                        }
                    } else {
                        let kv: int = if k < pos {
                            k
                        } else {
                            k - 1
                        };
                        let lv: int = if l < pos {
                            l
                        } else {
                            l - 1
                        };
                        assert(nv[k] == prev[kv] && nv[l] == prev[lv]);
                    }
                }
            }
        }
        i = i + 1;
    }
    proof {
        assert(v@.take(i as int) =~= v@);
    }
    out
}

/// The digest of the node at path `p`.
fn lookup_hash(nodes: &Vec<MerkleNode>, p: &String) -> (r: String)
    requires
        node_paths_distinct(nodes@),
        has_node(nodes@, p@),
    ensures
        r@ == node_at(nodes@, p@).hash@,
{
    let mut i: usize = 0;
    while i < nodes.len()
        invariant
            i <= nodes@.len(),
            node_paths_distinct(nodes@),
            has_node(nodes@, p@),
            forall|j: int| 0 <= j < i ==> (#[trigger] nodes@[j].path@) != p@,
        decreases nodes@.len() - i,
    {
        if nodes[i].path == *p {
            proof {
                lemma_node_at_is(nodes@, p@, i as int);
            }
            return nodes[i].hash.clone();
        }
        i = i + 1;
    }
    proof {
        let w: int = choose|w: int| 0 <= w < nodes@.len() && (#[trigger] nodes@[w].path@) == p@;
        assert(false);
    }
    String::new()
}

/// The digests of the nodes at the given paths, in order.
fn gather_hashes(nodes: &Vec<MerkleNode>, kids: &Vec<String>) -> (hs: Vec<String>)
    requires
        node_paths_distinct(nodes@),
        forall|k: int| 0 <= k < kids@.len() ==> has_node(nodes@, #[trigger] kids@[k]@),
    ensures
        views_of(hs@) == views_of(kids@).map_values(
            |c: Seq<char>| node_at(nodes@, c).hash@,
        ),
{
    let mut hs: Vec<String> = Vec::new();
    let mut i: usize = 0;
    while i < kids.len()
        invariant
            i <= kids@.len(),
            node_paths_distinct(nodes@),
            forall|k: int| 0 <= k < kids@.len() ==> has_node(nodes@, #[trigger] kids@[k]@),
            hs@.len() == i,
            forall|k: int|
                0 <= k < i ==> (#[trigger] hs@[k]@) == node_at(nodes@, kids@[k]@).hash@,
        decreases kids@.len() - i,
    {
        let h = lookup_hash(nodes, &kids[i]);
        hs.push(h);
        i = i + 1;
    }
    proof {
        assert(views_of(hs@) =~= views_of(kids@).map_values(
            |c: Seq<char>| node_at(nodes@, c).hash@,
        ));
    }
    hs
}

/// The children of directory `dpath`: every input file and every tree
/// directory whose parent is `dpath`.
fn collect_children(file_hashes: &Vec<FileHashEntry>, dirs: &Vec<String>, dpath: &String) -> (kids:
    Vec<String>)
    requires
        entries_ok(file_hashes@),
        strs_distinct(dirs@),
        forall|p: Seq<char>|
            views_of(dirs@).contains(p) <==> is_tree_dir(file_hashes@, p),
    ensures
        strs_distinct(kids@),
        forall|c: Seq<char>|
            #[trigger] views_of(kids@).contains(c) <==> (is_tree_path(file_hashes@, c) && c
                != root_seq() && parent_seq(c) == dpath@),
{
    let ghost es = file_hashes@;
    let mut kids: Vec<String> = Vec::new();
    let mut i: usize = 0;
    while i < file_hashes.len()
        invariant
            i <= es.len(),
            es == file_hashes@,
            entries_ok(es),
            strs_distinct(kids@),
            forall|c: Seq<char>|
                #[trigger] views_of(kids@).contains(c) <==> (exists|j: int|
                    0 <= j < i && (#[trigger] es[j].path@) == c && parent_seq(c) == dpath@),
            forall|k: int|
                0 <= k < kids@.len() ==> is_input_path(es, #[trigger] kids@[k]@),
        decreases es.len() - i,
    {
        let par = parent_path(file_hashes[i].path.as_str());
        let ghost pre = kids@;
        if par == *dpath {
            let c = file_hashes[i].path.clone();
            proof {
                // the path is new to `kids`: it differs from every earlier input path
                assert forall|k: int| 0 <= k < pre.len() implies (#[trigger] pre[k]@)
                    != es[i as int].path@ by {
                    assert(views_of(pre)[k] == pre[k]@);
                    assert(views_of(pre).contains(pre[k]@));
}
                crate::strorder::lemma_views_push(pre, c);
            }
            kids.push(c);
        }
        proof {
            assert forall|c: Seq<char>| #[trigger] views_of(kids@).contains(c) implies (exists|
                j: int,
            |
                0 <= j <= i && (#[trigger] es[j].path@) == c && parent_seq(c) == dpath@) by {
                if views_of(pre).contains(c) {
                } else {
                    assert(es[i as int].path@ == c && parent_seq(c) == dpath@);
                }
            }
            assert forall|c: Seq<char>|
                (exists|j: int| 0 <= j <= i && (#[trigger] es[j].path@) == c && parent_seq(c)
                    == dpath@) implies #[trigger] views_of(kids@).contains(c) by {
                let j: int = choose|j: int|
                    0 <= j <= i && (#[trigger] es[j].path@) == c && parent_seq(c) == dpath@;
                if j < i {
                    assert(views_of(pre).contains(c));
                    lemma_views_contains_prefix(pre, kids@, c);
                } else {
                    assert(kids@.len() == pre.len() + 1);
                    assert(kids@[pre.len() as int]@ == c);
                    assert(views_of(kids@)[pre.len() as int] == c);
                    assert(views_of(kids@).contains(c));
                }
            }
        }
        i = i + 1;
    }
    let mut l: usize = 0;
    while l < dirs.len()
        invariant
            l <= dirs@.len(),
            es == file_hashes@,
            entries_ok(es),
            strs_distinct(dirs@),
            forall|p: Seq<char>| views_of(dirs@).contains(p) <==> is_tree_dir(es, p),
            strs_distinct(kids@),
            forall|c: Seq<char>|
                #[trigger] views_of(kids@).contains(c) <==> ((is_input_path(es, c) && parent_seq(c)
                    == dpath@) || (exists|m: int|
                    0 <= m < l && (#[trigger] dirs@[m]@) == c && c != root_seq() && parent_seq(c)
                        == dpath@)),
        decreases dirs@.len() - l,
    {
        let ghost pre = kids@;
        if !is_root(dirs[l].as_str()) {
            let par = parent_path(dirs[l].as_str());
            if par == *dpath {
                let c = dirs[l].clone();
                proof {
                    let cv = dirs@[l as int]@;
                    // `cv` is a tree directory, so it is no input path and no
                    // earlier entry of `kids` reads the same
                    assert(views_of(dirs@).contains(cv)) by {
                        assert(views_of(dirs@)[l as int] == cv);
                    }
                    assert(is_tree_dir(es, cv));
                    assert(!is_input_path(es, cv)) by {
                        if is_input_path(es, cv) {
                            let j: int = choose|j: int|
                                0 <= j < es.len() && (#[trigger] es[j].path@) == cv;
                            assert(cv != root_seq());
                            let w: int = choose|w: int|
                                0 <= w < es.len() && #[trigger] ancestors(es[w].path@).contains(
                                    cv,
                                );
                            assert(false);
                        }
                    }
                    assert forall|k: int| 0 <= k < pre.len() implies (#[trigger] pre[k]@)
                        != cv by {
                        assert(views_of(pre)[k] == pre[k]@);
                        assert(views_of(pre).contains(pre[k]@));
                        if pre[k]@ == cv {
                            if is_input_path(es, cv) {
                            } else {
                                let m: int = choose|m: int|
                                    0 <= m < l && (#[trigger] dirs@[m]@) == cv && cv != root_seq()
                                        && parent_seq(cv) == dpath@;
                                assert(false);
                            }
                        }
                    }
                    crate::strorder::lemma_views_push(pre, c);
                }
                kids.push(c);
            }
        }
        proof {
            assert forall|c: Seq<char>| #[trigger] views_of(kids@).contains(c) implies ((
            is_input_path(es, c) && parent_seq(c) == dpath@) || (exists|m: int|
                0 <= m <= l && (#[trigger] dirs@[m]@) == c && c != root_seq() && parent_seq(c)
                    == dpath@)) by {
                if !views_of(pre).contains(c) {
                    assert(dirs@[l as int]@ == c);
                }
            }
            assert forall|c: Seq<char>|
                ((is_input_path(es, c) && parent_seq(c) == dpath@) || (exists|m: int|
                    0 <= m <= l && (#[trigger] dirs@[m]@) == c && c != root_seq() && parent_seq(c)
                        == dpath@)) implies #[trigger] views_of(kids@).contains(c) by {
                if is_input_path(es, c) && parent_seq(c) == dpath@ {
                    assert(views_of(pre).contains(c));
                    lemma_views_contains_prefix(pre, kids@, c);
                } else {
                    let m: int = choose|m: int|
                        0 <= m <= l && (#[trigger] dirs@[m]@) == c && c != root_seq()
                            && parent_seq(c) == dpath@;
                    if m < l {
                        assert(views_of(pre).contains(c));
                        lemma_views_contains_prefix(pre, kids@, c);
                    } else {
                        assert(dirs@[l as int]@ == c);
                        assert(kids@.len() == pre.len() + 1);
                        assert(kids@[pre.len() as int]@ == c);
                        assert(views_of(kids@)[pre.len() as int] == c);
                        assert(views_of(kids@).contains(c));
                    }
                }
            }
        }
        l = l + 1;
    }
    proof {
        assert forall|c: Seq<char>|
            #[trigger] views_of(kids@).contains(c) implies (is_tree_path(es, c) && c != root_seq()
                && parent_seq(c) == dpath@) by {
            if is_input_path(es, c) && parent_seq(c) == dpath@ {
                let j: int = choose|j: int| 0 <= j < es.len() && (#[trigger] es[j].path@) == c;
                assert(c != root_seq());
            } else {
                let m: int = choose|m: int|
                    0 <= m < dirs@.len() && (#[trigger] dirs@[m]@) == c && c != root_seq()
                        && parent_seq(c) == dpath@;
                assert(views_of(dirs@)[m] == dirs@[m]@);
                assert(views_of(dirs@).contains(c));
                assert(is_tree_dir(es, c));
            }
        }
        assert forall|c: Seq<char>|
            (is_tree_path(es, c) && c != root_seq() && parent_seq(c)
                == dpath@) implies #[trigger] views_of(kids@).contains(c) by {
            if is_input_path(es, c) {
            } else {
                assert(is_tree_dir(es, c));
                assert(views_of(dirs@).contains(c));
                let m: int = choose|m: int|
                    0 <= m < views_of(dirs@).len() && (#[trigger] views_of(dirs@)[m]) == c;
                assert(dirs@[m]@ == c);
                assert(exists|m2: int|
                    0 <= m2 < dirs@.len() && (#[trigger] dirs@[m2]@) == c && c != root_seq()
                        && parent_seq(c) == dpath@);
            }
        }
    }
    kids
}

// ---------------------------------------------------------------------------
// Building
// ---------------------------------------------------------------------------
/// The file leaf at index `k` mirrors input entry `k`.
pub open spec fn file_node_ok_at(es: Seq<FileHashEntry>, ns: Seq<MerkleNode>, k: int) -> bool {
    &&& ns[k].path@ == es[k].path@
    &&& ns[k].hash@ == es[k].hash@
    &&& ns[k].is_file
    &&& ns[k].children@.len() == 0
}

/// The builder's state once the first `d` directories have their nodes.
pub open spec fn build_inv(
    es: Seq<FileHashEntry>,
    dirs: Seq<String>,
    ns: Seq<MerkleNode>,
    d: int,
) -> bool {
    &&& ns.len() == es.len() + d
    &&& 0 <= d <= dirs.len()
    &&& forall|k: int| 0 <= k < es.len() ==> #[trigger] file_node_ok_at(es, ns, k)
    &&& forall|k: int|
        es.len() <= k < ns.len() ==> (#[trigger] ns[k].path@) == dirs[k - es.len()]@
            && !ns[k].is_file && dir_children_ok(es, ns[k]) && ns[k].hash@ == dir_digest(
            child_hashes(ns, ns[k]),
        ) && (forall|ch: int|
            0 <= ch < ns[k].children@.len() ==> has_node(ns, #[trigger] ns[k].children@[ch]@))
    &&& node_paths_distinct(ns)
}

/// Build a Merkle tree from a flat list of `(path, digest)` pairs: one File
/// node per pair, one Directory node per distinct ancestor directory, and a
/// Directory node for the root sentinel, present even for an empty input.
/// Each directory's digest is the digest of its children's digests, sorted
/// and concatenated.
pub fn build_merkle_tree(file_hashes: Vec<FileHashEntry>) -> (r: Vec<MerkleNode>)
    requires
        entries_ok(file_hashes@),
        entries_fit(file_hashes@),
    ensures
        tree_post(file_hashes@, r@),
{
    let ghost es = file_hashes@;
    let nf = file_hashes.len();
    // File leaves, one per entry, in input order.
    let mut nodes: Vec<MerkleNode> = Vec::new();
    let mut i: usize = 0;
    while i < nf
        invariant
            i <= nf,
            nf == es.len(),
            es == file_hashes@,
            entries_ok(es),
            nodes@.len() == i,
            forall|k: int| 0 <= k < i ==> #[trigger] file_node_ok_at(es, nodes@, k),
        decreases nf - i,
    {
        let ghost pre = nodes@;
        nodes.push(
            MerkleNode {
                path: file_hashes[i].path.clone(),
                hash: file_hashes[i].hash.clone(),
                is_file: true,
                children: Vec::new(),
            },
        );
        proof {
            assert forall|k: int| 0 <= k < i + 1 implies #[trigger] file_node_ok_at(
                es,
                nodes@,
                k,
            ) by {
                if k < i {
                    assert(nodes@[k] == pre[k]);
                    assert(file_node_ok_at(es, pre, k));
                }
            }
        }
        i = i + 1;
    }
    // The directory key set: the root sentinel plus every ancestor of
    // every file, collected by walking each file's parent chain upward.
    let mut dirs: Vec<String> = Vec::new();
    let root = String::from_str(".");
    proof {
        reveal_strlit(".");
        assert(root@ =~= root_seq());
    }
    dirs.push(root);
    proof {
        assert(dirs@[0]@ == root_seq());
        assert forall|p: Seq<char>|
            #[trigger] views_of(dirs@).contains(p) <==> is_tree_dir_upto(es, 0, p) by {
            if views_of(dirs@).contains(p) {
                let k0: int = choose|k0: int|
                    0 <= k0 < views_of(dirs@).len() && (#[trigger] views_of(dirs@)[k0]) == p;
                assert(dirs@[k0]@ == p);
            }
            if p == root_seq() {
                assert(views_of(dirs@)[0] == p);
            }
        }
    }
    let mut fi: usize = 0;
    while fi < nf
        invariant
            fi <= nf,
            nf == es.len(),
            es == file_hashes@,
            entries_ok(es),
            entries_fit(es),
            strs_distinct(dirs@),
            forall|k: int| 0 <= k < dirs@.len() ==> (#[trigger] dirs@[k]@).len() < usize::MAX,
            forall|p: Seq<char>|
                #[trigger] views_of(dirs@).contains(p) <==> is_tree_dir_upto(es, fi as int, p),
        decreases nf - fi,
    {
        let ghost f = es[fi as int].path@;
        let child = file_hashes[fi].path.clone();
        let par = parent_path(child.as_str());
        proof {
            assert(f != root_seq() && dotslash_free(f) && f.len() < usize::MAX);
            assert(ancestors(f) == ancestors(parent_seq(f)).insert(parent_seq(f)));
            assert(ancestors(f).contains(par@));
            if ancestors(par@).contains(par@) {
                lemma_anc_rank(par@, par@);
            }
            if crate::paths::has_slash(child@) {
                crate::paths::lemma_last_slash_props(child@);
            }
            assert(par@.len() < usize::MAX);
        }
        push_unique(&mut dirs, &par);
        proof {
            // the set now registered for this file is its ancestors above `par`
            assert forall|p: Seq<char>|
                #[trigger] views_of(dirs@).contains(p) <==> (is_tree_dir_upto(es, fi as int, p)
                    || (ancestors(f).contains(p) && !ancestors(par@).contains(p))) by {
                if ancestors(f).contains(p) && !ancestors(par@).contains(p) {
                    assert(p == par@);
                }
            }
        }
        let mut child = child;
        let mut par = par;
        while !is_root(par.as_str())
            invariant
                fi < nf,
                nf == es.len(),
                es == file_hashes@,
                entries_ok(es),
                entries_fit(es),
                f == es[fi as int].path@,
                strs_distinct(dirs@),
                forall|k: int| 0 <= k < dirs@.len() ==> (#[trigger] dirs@[k]@).len() < usize::MAX,
                par@ == parent_seq(child@),
                child@ == f || ancestors(f).contains(child@),
                ancestors(f).contains(par@),
                child@ != root_seq(),
                dotslash_free(child@),
                child@.len() < usize::MAX,
                par@.len() < usize::MAX,
                forall|p: Seq<char>|
                    #[trigger] views_of(dirs@).contains(p) <==> (is_tree_dir_upto(es, fi as int, p)
                        || (ancestors(f).contains(p) && !ancestors(par@).contains(p))),
            decreases rank(par@),
        {
            proof {
                lemma_rank_parent_lt(child@);
                if child@ != f {
                    lemma_anc_dotslash_free(f, child@);
                    lemma_anc_trans(f, child@);
                }
                lemma_rank_parent(child@);
            }
            child = par;
            proof {
                // the new current node is an ancestor of the file, off the root
                assert(ancestors(f).contains(child@));
                assert(child@ != root_seq());
                lemma_anc_dotslash_free(f, child@);
                assert(ancestors(child@) == ancestors(parent_seq(child@)).insert(
                    parent_seq(child@),
                ));
            }
            par = parent_path(child.as_str());
            proof {
                assert(ancestors(child@).contains(par@));
                lemma_anc_trans(f, child@);
                assert(ancestors(f).contains(par@));
                if ancestors(par@).contains(par@) {
                    lemma_anc_rank(par@, par@);
                }
                if crate::paths::has_slash(child@) {
                    crate::paths::lemma_last_slash_props(child@);
                }
                assert(par@.len() < usize::MAX);
                lemma_rank_parent_lt(child@);
            }
            let ghost pre_dirs = dirs@;
            push_unique(&mut dirs, &par);
            proof {
                assert forall|p: Seq<char>|
                    #[trigger] views_of(dirs@).contains(p) <==> (is_tree_dir_upto(es, fi as int, p)
                        || (ancestors(f).contains(p) && !ancestors(par@).contains(p))) by {
                    if ancestors(f).contains(p) && !ancestors(par@).contains(p) {
                        if p != par@ {
                            assert(ancestors(child@).contains(p) == (ancestors(par@).contains(p)
                                || p == par@));
                        }
                    }
                }
            }
        }
        proof {
            // `par` is the root: everything above this file is registered
            assert(ancestors(par@) =~= Set::<Seq<char>>::empty());
            assert forall|p: Seq<char>|
                #[trigger] views_of(dirs@).contains(p) <==> is_tree_dir_upto(
                    es,
                    fi + 1,
                    p,
                ) by {
                if views_of(dirs@).contains(p) {
                    if is_tree_dir_upto(es, fi as int, p) {
                        if p != root_seq() {
                            let w: int = choose|w: int|
                                0 <= w < fi && #[trigger] ancestors(es[w].path@).contains(p);
                            assert(ancestors(es[w].path@).contains(p));
                        }
                    } else {
                        assert(ancestors(es[fi as int].path@).contains(p));
                    }
                }
                if is_tree_dir_upto(es, fi + 1, p) && p != root_seq() {
                    let w: int = choose|w: int|
                        0 <= w < fi + 1 && #[trigger] ancestors(es[w].path@).contains(p);
                    if w < fi {
                        assert(is_tree_dir_upto(es, fi as int, p));
                    } else {
                        assert(ancestors(f).contains(p));
                    }
                }
            }
        }
        fi = fi + 1;
    }
    proof {
        assert forall|p: Seq<char>|
            #[trigger] views_of(dirs@).contains(p) <==> is_tree_dir(es, p) by {}
    }
    // Deepest directories first, so every child is settled before its parent.
    let dirs = sort_dirs_desc(dirs);
    proof {
        assert forall|p: Seq<char>|
            #[trigger] views_of(dirs@).contains(p) <==> is_tree_dir(es, p) by {}
        assert(node_paths_distinct(nodes@)) by {
            assert forall|a: int, b: int| 0 <= a < b < nodes@.len() implies (
            #[trigger] nodes@[a].path@) != (#[trigger] nodes@[b].path@) by {
                assert(file_node_ok_at(es, nodes@, a));
                assert(file_node_ok_at(es, nodes@, b));
            }
        }
        assert(build_inv(es, dirs@, nodes@, 0));
    }
    let nd = dirs.len();
    let mut d: usize = 0;
    while d < nd
        invariant
            d <= nd,
            nd == dirs@.len(),
            nf == es.len(),
            es == file_hashes@,
            entries_ok(es),
            entries_fit(es),
            strs_distinct(dirs@),
            forall|k: int| 0 <= k < dirs@.len() ==> (#[trigger] dirs@[k]@).len() < usize::MAX,
            forall|p: Seq<char>| #[trigger] views_of(dirs@).contains(p) <==> is_tree_dir(es, p),
            forall|k: int, l: int| 0 <= k < l < dirs@.len() ==> rank(#[trigger] dirs@[k]@) >= rank(
                #[trigger] dirs@[l]@),
            build_inv(es, dirs@, nodes@, d as int),
        decreases nd - d,
    {
        let dpath = dirs[d].clone();
        let kids = collect_children(&file_hashes, &dirs, &dpath);
        proof {
            // every child already has a node: files are settled, and child
            // directories rank one deeper, so they came earlier in the order
            assert forall|k: int| 0 <= k < kids@.len() implies has_node(
                nodes@,
                #[trigger] kids@[k]@,
            ) by {
                let c = kids@[k]@;
                assert(views_of(kids@)[k] == c);
                assert(views_of(kids@).contains(c));
                assert(is_tree_path(es, c) && c != root_seq() && parent_seq(c) == dpath@);
                if is_input_path(es, c) {
                    let j: int = choose|j: int|
                        0 <= j < es.len() && (#[trigger] es[j].path@) == c;
                    assert(file_node_ok_at(es, nodes@, j));
                    assert(nodes@[j].path@ == c);
                } else {
                    assert(is_tree_dir(es, c));
                    assert(views_of(dirs@).contains(c));
                    let m: int = choose|m: int|
                        0 <= m < views_of(dirs@).len() && (#[trigger] views_of(dirs@)[m]) == c;
                    assert(dirs@[m]@ == c);
                    let w: int = choose|w: int|
                        0 <= w < es.len() && #[trigger] ancestors(es[w].path@).contains(c);
                    lemma_anc_dotslash_free(es[w].path@, c);
                    lemma_rank_parent(c);
                    assert(rank(c) == rank(dpath@) + 1);
                    if m == d {
                        assert(parent_seq(c) == c);
                        assert(false);
                    }
                    if m > d {
                        assert(rank(dirs@[d as int]@) >= rank(dirs@[m]@));
                        assert(false);
                    }
                    assert(nodes@[nf + m].path@ == c);
                }
            }
        }
        let hs = gather_hashes(&nodes, &kids);
        let sorted = sort_strings(&hs);
        let combined = join_all(&sorted);
        let dh = sha256_hash(combined);
        let ghost pre_nodes = nodes@;
        let n = MerkleNode { path: dpath, hash: dh, is_file: false, children: kids };
        nodes.push(n);
        proof {
            let nv = nodes@;
            let dv = dirs@[d as int]@;
            // the new path is fresh: no file and no earlier directory has it
            assert(views_of(dirs@)[d as int] == dv);
            assert(views_of(dirs@).contains(dv));
            assert(is_tree_dir(es, dv));
            assert forall|k: int| 0 <= k < pre_nodes.len() implies (
            #[trigger] pre_nodes[k].path@) != dv by {
                if k < nf {
                    assert(file_node_ok_at(es, pre_nodes, k));
                    if es[k].path@ == dv {
                        if dv != root_seq() {
                            let w: int = choose|w: int|
                                0 <= w < es.len() && #[trigger] ancestors(es[w].path@).contains(
                                    dv,
                                );
                            assert(false);
                        }
                    }
                } else {
                    assert(pre_nodes[k].path@ == dirs@[k - nf]@);
                }
            }
            assert(node_paths_distinct(nv)) by {
                assert forall|a: int, b: int| 0 <= a < b < nv.len() implies (
                #[trigger] nv[a].path@) != (#[trigger] nv[b].path@) by {
                    if b < pre_nodes.len() {
                        assert(nv[a] == pre_nodes[a] && nv[b] == pre_nodes[b]);
                    } else {
                        assert(nv[a] == pre_nodes[a] && nv[b].path@ == dv);
                    }
                }
            }
            // earlier nodes are untouched, and their lookups still resolve
            assert forall|k: int| 0 <= k < es.len() implies #[trigger] file_node_ok_at(
                es,
                nv,
                k,
            ) by {
                assert(nv[k] == pre_nodes[k]);
                assert(file_node_ok_at(es, pre_nodes, k));
            }
            assert forall|k: int|
                es.len() <= k < nv.len() implies (#[trigger] nv[k].path@) == dirs@[k - es.len()]@
                    && !nv[k].is_file && dir_children_ok(es, nv[k]) && nv[k].hash@ == dir_digest(
                    child_hashes(nv, nv[k]),
                ) && (forall|ch: int|
                    0 <= ch < nv[k].children@.len() ==> has_node(
                        nv,
                        #[trigger] nv[k].children@[ch]@,
                    )) by {
                if k < pre_nodes.len() {
                    assert(nv[k] == pre_nodes[k]);
                    assert(pre_nodes[k].path@ == dirs@[k - es.len()]@);
                    assert(forall|ch: int|
                        0 <= ch < pre_nodes[k].children@.len() ==> has_node(
                            pre_nodes,
                            #[trigger] pre_nodes[k].children@[ch]@,
                        ));
                    lemma_child_hashes_push(pre_nodes, n, pre_nodes[k]);
                    assert forall|ch: int| 0 <= ch < nv[k].children@.len() implies has_node(
                        nv,
                        #[trigger] nv[k].children@[ch]@,
                    ) by {
                        assert(pre_nodes[k].children@[ch]@ == nv[k].children@[ch]@);
                        assert(has_node(pre_nodes, nv[k].children@[ch]@));
                        let w: int = choose|w: int|
                            0 <= w < pre_nodes.len() && (#[trigger] pre_nodes[w].path@)
                                == nv[k].children@[ch]@;
                        assert(nv[w].path@ == nv[k].children@[ch]@);
                    }
                } else {
                    // the node just pushed
                    assert(nv[k] == n);
                    assert(n.path@ == dv);
                    assert forall|ch: int| 0 <= ch < n.children@.len() implies has_node(
                        nv,
                        #[trigger] n.children@[ch]@,
                    ) by {
                        assert(has_node(pre_nodes, n.children@[ch]@));
                        let w: int = choose|w: int|
                            0 <= w < pre_nodes.len() && (#[trigger] pre_nodes[w].path@)
                                == n.children@[ch]@;
                        assert(nv[w].path@ == n.children@[ch]@);
                    }
                    assert(dir_children_ok(es, n)) by {
                        assert forall|ck: int| 0 <= ck < n.children@.len() implies is_tree_path(
                            es,
                            #[trigger] n.children@[ck]@,
                        ) && parent_seq(n.children@[ck]@) == n.path@ && n.children@[ck]@
                            != root_seq() by {
                            assert(views_of(n.children@)[ck] == n.children@[ck]@);
                            assert(views_of(n.children@).contains(n.children@[ck]@));
                        }
                    }
                    // the digest matches the children's digests
                    assert(views_of(hs@) == child_hashes(pre_nodes, n));
                    lemma_child_hashes_push(pre_nodes, n, n);
                    assert(dh@ == dir_digest(child_hashes(nv, n)));
                }
            }
            assert(build_inv(es, dirs@, nodes@, d + 1));
        }
        d = d + 1;
    }
    proof {
        let ns = nodes@;
        assert forall|i2: int| 0 <= i2 < ns.len() implies is_tree_path(
            es,
            (#[trigger] ns[i2].path@),
        ) by {
            if i2 < nf {
                assert(file_node_ok_at(es, ns, i2));
                assert(es[i2].path@ == ns[i2].path@);
            } else {
                assert(ns[i2].path@ == dirs@[i2 - nf]@);
                assert(views_of(dirs@)[i2 - nf] == dirs@[i2 - nf]@);
                assert(views_of(dirs@).contains(ns[i2].path@));
            }
        }
        assert forall|p: Seq<char>| is_tree_path(es, p) implies has_node(ns, p) by {
            if is_input_path(es, p) {
                let j: int = choose|j: int| 0 <= j < es.len() && (#[trigger] es[j].path@) == p;
                assert(file_node_ok_at(es, ns, j));
                assert(ns[j].path@ == p);
            } else {
                assert(is_tree_dir(es, p));
                assert(views_of(dirs@).contains(p));
                let m: int = choose|m: int|
                    0 <= m < views_of(dirs@).len() && (#[trigger] views_of(dirs@)[m]) == p;
                assert(dirs@[m]@ == p);
                assert(ns[nf + m].path@ == p);
            }
        }
        assert forall|i2: int| 0 <= i2 < ns.len() implies ((#[trigger] ns[i2].is_file)
            <==> is_input_path(es, ns[i2].path@)) by {
            if i2 < nf {
                assert(file_node_ok_at(es, ns, i2));
                assert(ns[i2].path@ == es[i2].path@);
            } else {
                assert(ns[i2].path@ == dirs@[i2 - nf]@);
                assert(views_of(dirs@)[i2 - nf] == dirs@[i2 - nf]@);
                assert(views_of(dirs@).contains(ns[i2].path@));
                assert(is_tree_dir(es, ns[i2].path@));
                if is_input_path(es, ns[i2].path@) {
                    let j: int = choose|j: int|
                        0 <= j < es.len() && (#[trigger] es[j].path@) == ns[i2].path@;
                    if ns[i2].path@ == root_seq() {
                        assert(false);
                    } else {
                        let w: int = choose|w: int|
                            0 <= w < es.len() && #[trigger] ancestors(es[w].path@).contains(
                                ns[i2].path@,
                            );
                        assert(false);
                    }
                }
            }
        }
        assert forall|i2: int| 0 <= i2 < ns.len() && (#[trigger] ns[i2].is_file) implies ns[i2].hash@
            == input_hash(es, ns[i2].path@) && ns[i2].children@.len() == 0 by {
            assert(file_node_ok_at(es, ns, i2));
            lemma_input_hash(es, i2);
        }
        assert forall|i2: int|
            0 <= i2 < ns.len() && !(#[trigger] ns[i2].is_file) implies dir_node_ok(
            es,
            ns,
            ns[i2],
        ) by {
            if i2 < nf {
                assert(file_node_ok_at(es, ns, i2));
            } else {
                assert(ns[i2].path@ == dirs@[i2 - nf]@);
            }
        }
        assert(tree_post(es, ns));
    }
    nodes
}

} // verus!
