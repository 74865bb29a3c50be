//! The properties the library stands on, stated and proved once and for
//! all: a directory digest ignores child order, an empty build is the lone
//! root with the digest of the empty string, a tree diffed against itself
//! reports nothing, and a diff classifies every file path exactly once.
use crate::digest::sha256_hex_of;
use crate::merkle::{
    added_pred, child_hashes, diff_paths, dir_digest, dir_node_ok, entries_ok, file_hash_of,
    file_nodes_distinct, has_file, has_node, input_hash, is_input_path, is_tree_path,
    modified_pred, node_at, tree_post, FileHashEntry, MerkleNode,
};
use crate::paths::{
    ancestors, dotslash_free, lemma_anc_dotslash_free, lemma_anc_rank, lemma_rank_parent,
    parent_seq, rank, root_seq,
};
use crate::strorder::{concat_all, lemma_lex_total_ordering, lex_leq_fn, views_of};
use vstd::prelude::*;
use vstd::seq_lib::lemma_sorted_unique;

verus! {

/// A directory digest depends only on the multiset of its children's
/// digests: handing the digests over in any order gives the same result.
pub proof fn lemma_dir_digest_order_independent(a: Seq<Seq<char>>, b: Seq<Seq<char>>)
    requires
        a.to_multiset() == b.to_multiset(),
    ensures
        dir_digest(a) == dir_digest(b),
{
    lemma_lex_total_ordering();
    a.lemma_sort_by_ensures(lex_leq_fn());
    b.lemma_sort_by_ensures(lex_leq_fn());
    lemma_sorted_unique(a.sort_by(lex_leq_fn()), b.sort_by(lex_leq_fn()), lex_leq_fn());
}

/// Building from an empty input yields exactly one node: a childless root
/// directory whose digest is the digest of the empty string.
pub proof fn lemma_empty_build(es: Seq<FileHashEntry>, ns: Seq<MerkleNode>)
    requires
        es.len() == 0,
        tree_post(es, ns),
    ensures
        ns.len() == 1,
        ns[0].path@ == root_seq(),
        !ns[0].is_file,
        ns[0].children@.len() == 0,
        ns[0].hash@ == sha256_hex_of(Seq::<char>::empty()),
{
    assert(is_tree_path(es, root_seq()));
    assert(has_node(ns, root_seq()));
    let w: int = choose|w: int| 0 <= w < ns.len() && (#[trigger] ns[w].path@) == root_seq();
    assert forall|i: int| 0 <= i < ns.len() implies (#[trigger] ns[i].path@) == root_seq() by {
        assert(is_tree_path(es, ns[i].path@));
    }
    if ns.len() > 1 {
        assert(ns[0].path@ == ns[1].path@);
        assert(false);
    }
    let n = ns[0];
    assert(!n.is_file) by {
        if is_input_path(es, n.path@) {
            let j: int = choose|j: int| 0 <= j < es.len() && (#[trigger] es[j].path@) == n.path@;
            assert(false);
        }
    }
    assert(dir_node_ok(es, ns, n));
    assert(n.children@.len() == 0) by {
        if n.children@.len() > 0 {
            assert(is_tree_path(es, n.children@[0]@) && n.children@[0]@ != root_seq());
            if is_input_path(es, n.children@[0]@) {
                let j: int = choose|j: int|
                    0 <= j < es.len() && (#[trigger] es[j].path@) == n.children@[0]@;
                assert(false);
            }
            assert(false);
        }
    }
    // no children: the digest is the digest of the empty concatenation
    let ch = crate::merkle::child_hashes(ns, n);
    assert(ch.len() == 0);
    lemma_lex_total_ordering();
    ch.lemma_sort_by_ensures(lex_leq_fn());
    ch.to_multiset_ensures();
    ch.sort_by(lex_leq_fn()).to_multiset_ensures();
    assert(ch.sort_by(lex_leq_fn()).len() == 0);
    assert(concat_all(ch.sort_by(lex_leq_fn())) =~= Seq::<char>::empty());
}

/// Elements of a filtered sequence come from the sequence itself.
proof fn lemma_filter_subset(s: Seq<MerkleNode>, pred: spec_fn(MerkleNode) -> bool)
    ensures
        forall|i: int|
            0 <= i < s.filter(pred).len() ==> s.contains(#[trigger] s.filter(pred)[i]),
    decreases s.len(),
{
    reveal(Seq::filter);
    if s.len() > 0 {
        lemma_filter_subset(s.drop_last(), pred);
        let out = s.filter(pred);
        let sub = s.drop_last().filter(pred);
        assert forall|i: int| 0 <= i < out.len() implies s.contains(#[trigger] out[i]) by {
            if i < sub.len() {
                assert(out[i] == sub[i]);
                assert(s.drop_last().contains(sub[i]));
                let j: int = choose|j: int|
                    0 <= j < s.drop_last().len() && (#[trigger] s.drop_last()[j]) == sub[i];
                assert(s[j] == sub[i]);
            } else {
                assert(out[i] == s.last());
                assert(s[s.len() - 1] == s.last());
            }
        }
    }
}

/// A diff list over distinct file nodes repeats no path.
pub proof fn lemma_diff_paths_no_dup(ns: Seq<MerkleNode>, pred: spec_fn(MerkleNode) -> bool)
    requires
        file_nodes_distinct(ns),
        forall|n: MerkleNode| #[trigger] pred(n) ==> n.is_file,
    ensures
        forall|k: int, l: int|
            0 <= k < l < diff_paths(ns, pred).len() ==> diff_paths(ns, pred)[k] != diff_paths(
                ns,
                pred,
            )[l],
    decreases ns.len(),
{
    reveal(Seq::filter);
    if ns.len() > 0 {
        assert(file_nodes_distinct(ns.drop_last())) by {
            assert(forall|a: int|
                0 <= a < ns.len() - 1 ==> ns.drop_last()[a] == ns[a]);
        }
        lemma_diff_paths_no_dup(ns.drop_last(), pred);
        lemma_filter_subset(ns.drop_last(), pred);
        let out = ns.filter(pred);
        let sub = ns.drop_last().filter(pred);
        assert forall|k: int, l: int|
            0 <= k < l < diff_paths(ns, pred).len() implies diff_paths(ns, pred)[k] != diff_paths(
            ns,
            pred,
        )[l] by {
            assert(diff_paths(ns, pred)[k] == out[k].path@);
            assert(diff_paths(ns, pred)[l] == out[l].path@);
            if l < sub.len() {
                assert(out[k] == sub[k] && out[l] == sub[l]);
                assert(diff_paths(ns.drop_last(), pred)[k] == sub[k].path@);
                assert(diff_paths(ns.drop_last(), pred)[l] == sub[l].path@);
            } else {
                // `l` is the appended last node: its path is fresh
                assert(out[l] == ns.last());
                assert(out[k] == sub[k]);
                assert(ns.drop_last().contains(sub[k]));
                let j: int = choose|j: int|
                    0 <= j < ns.drop_last().len() && (#[trigger] ns.drop_last()[j]) == sub[k];
                assert(ns[j] == sub[k]);
                ns.drop_last().lemma_filter_pred(pred, k);
                assert(pred(sub[k]));
                assert(sub[k].is_file && ns.last().is_file);
                if sub[k].path@ == ns.last().path@ {
                    assert(ns[j].path@ == ns[ns.len() - 1].path@);
                    assert(false);
                }
            }
        }
    }
}

/// Diff completeness, per path: a file path only in `new` is added; one
/// only in `old` is removed; one on both sides with differing digests is
/// modified; and no path can satisfy two of the three conditions at once.
pub proof fn lemma_diff_complete(old: Seq<MerkleNode>, new: Seq<MerkleNode>, p: Seq<char>)
    requires
        file_nodes_distinct(old),
        file_nodes_distinct(new),
    ensures
        diff_paths(new, added_pred(old)).contains(p) <==> (has_file(new, p) && !has_file(old, p)),
        diff_paths(old, added_pred(new)).contains(p) <==> (has_file(old, p) && !has_file(new, p)),
        diff_paths(new, modified_pred(old)).contains(p) <==> (has_file(new, p) && has_file(old, p)
            && file_hash_of(new, p) != file_hash_of(old, p)),
        !(diff_paths(new, added_pred(old)).contains(p) && diff_paths(old, added_pred(new)).contains(
            p,
        )),
        !(diff_paths(new, added_pred(old)).contains(p) && diff_paths(
            new,
            modified_pred(old),
        ).contains(p)),
        !(diff_paths(old, added_pred(new)).contains(p) && diff_paths(
            new,
            modified_pred(old),
        ).contains(p)),
{
    lemma_diff_side(old, new, p);
    lemma_diff_side(new, old, p);
    lemma_diff_modified(old, new, p);
}

proof fn lemma_diff_side(old: Seq<MerkleNode>, new: Seq<MerkleNode>, p: Seq<char>)
    requires
        file_nodes_distinct(new),
    ensures
        diff_paths(new, added_pred(old)).contains(p) <==> (has_file(new, p) && !has_file(old, p)),
{
    let pred = added_pred(old);
    let out = new.filter(pred);
    lemma_filter_subset(new, pred);
    if diff_paths(new, pred).contains(p) {
        let k: int = choose|k: int|
            0 <= k < diff_paths(new, pred).len() && (#[trigger] diff_paths(new, pred)[k]) == p;
        assert(out[k].path@ == p);
        new.lemma_filter_pred(pred, k);
        assert(pred(out[k]));
        assert(new.contains(out[k]));
        let j: int = choose|j: int| 0 <= j < new.len() && (#[trigger] new[j]) == out[k];
        assert(new[j].is_file && new[j].path@ == p);
        assert(has_file(new, p));
    }
    if has_file(new, p) && !has_file(old, p) {
        let j: int = choose|j: int|
            0 <= j < new.len() && (#[trigger] new[j].is_file) && new[j].path@ == p;
        assert(pred(new[j]));
        new.lemma_filter_contains(pred, j);
        let k: int = choose|k: int| 0 <= k < out.len() && (#[trigger] out[k]) == new[j];
        assert(diff_paths(new, pred)[k] == p);
        assert(diff_paths(new, pred).contains(p));
    }
}

proof fn lemma_diff_modified(old: Seq<MerkleNode>, new: Seq<MerkleNode>, p: Seq<char>)
    requires
        file_nodes_distinct(old),
        file_nodes_distinct(new),
    ensures
        diff_paths(new, modified_pred(old)).contains(p) <==> (has_file(new, p) && has_file(old, p)
            && file_hash_of(new, p) != file_hash_of(old, p)),
{
    let pred = modified_pred(old);
    let out = new.filter(pred);
    lemma_filter_subset(new, pred);
    if diff_paths(new, pred).contains(p) {
        let k: int = choose|k: int|
            0 <= k < diff_paths(new, pred).len() && (#[trigger] diff_paths(new, pred)[k]) == p;
        assert(out[k].path@ == p);
        new.lemma_filter_pred(pred, k);
        assert(pred(out[k]));
        assert(new.contains(out[k]));
        let j: int = choose|j: int| 0 <= j < new.len() && (#[trigger] new[j]) == out[k];
        assert(new[j].is_file && new[j].path@ == p);
        assert(has_file(new, p));
        // the digest the spec reads for `p` is this very node's
        let w: int = choose|w: int|
            0 <= w < new.len() && (#[trigger] new[w].is_file) && new[w].path@ == p;
        if w != j {
            assert(false);
        }
        assert(file_hash_of(new, p) == new[j].hash@);
    }
    if has_file(new, p) && has_file(old, p) && file_hash_of(new, p) != file_hash_of(old, p) {
        let j: int = choose|j: int|
            0 <= j < new.len() && (#[trigger] new[j].is_file) && new[j].path@ == p;
        assert(file_hash_of(new, p) == new[j].hash@) by {
            let w: int = choose|w: int|
                0 <= w < new.len() && (#[trigger] new[w].is_file) && new[w].path@ == p;
            if w != j {
                assert(false);
            }
        }
        assert(pred(new[j]));
        new.lemma_filter_contains(pred, j);
        let k: int = choose|k: int| 0 <= k < out.len() && (#[trigger] out[k]) == new[j];
        assert(diff_paths(new, pred)[k] == p);
        assert(diff_paths(new, pred).contains(p));
    }
}

/// A tree diffed against itself reports nothing: every file path is on
/// both sides with the same digest.
pub proof fn lemma_diff_self(ns: Seq<MerkleNode>)
    requires
        file_nodes_distinct(ns),
    ensures
        diff_paths(ns, added_pred(ns)).len() == 0,
        diff_paths(ns, modified_pred(ns)).len() == 0,
{
    lemma_filter_subset(ns, added_pred(ns));
    lemma_filter_subset(ns, modified_pred(ns));
    let outa = ns.filter(added_pred(ns));
    if outa.len() > 0 {
        ns.lemma_filter_pred(added_pred(ns), 0);
        assert(ns.contains(outa[0]));
        let j: int = choose|j: int| 0 <= j < ns.len() && (#[trigger] ns[j]) == outa[0];
        assert(has_file(ns, outa[0].path@));
        assert(false);
    }
    let outm = ns.filter(modified_pred(ns));
    if outm.len() > 0 {
        ns.lemma_filter_pred(modified_pred(ns), 0);
        assert(ns.contains(outm[0]));
        let j: int = choose|j: int| 0 <= j < ns.len() && (#[trigger] ns[j]) == outm[0];
        assert(ns[j].is_file && ns[j].path@ == outm[0].path@);
        let w: int = choose|w: int|
            0 <= w < ns.len() && (#[trigger] ns[w].is_file) && ns[w].path@ == outm[0].path@;
        if w != j {
            assert(false);
        }
        assert(file_hash_of(ns, outm[0].path@) == ns[j].hash@);
        assert(false);
    }
}

// ---------------------------------------------------------------------------
// Determinism: two trees built from the same input set agree everywhere.
// ---------------------------------------------------------------------------
/// Two inputs carry the same set of `(path, digest)` pairs — in any order.
pub open spec fn same_input(e1: Seq<FileHashEntry>, e2: Seq<FileHashEntry>) -> bool {
    &&& forall|p: Seq<char>| #[trigger] is_input_path(e1, p) <==> #[trigger] is_input_path(e2, p)
    &&& forall|p: Seq<char>|
        is_input_path(e1, p) ==> #[trigger] input_hash(e1, p) == input_hash(e2, p)
}

/// The largest rank among the input paths.
pub open spec fn max_rank_entries(es: Seq<FileHashEntry>) -> nat
    decreases es.len(),
{
    if es.len() == 0 {
        0
    } else if rank(es.last().path@) >= max_rank_entries(es.drop_last()) {
        rank(es.last().path@)
    } else {
        max_rank_entries(es.drop_last())
    }
}

proof fn lemma_entry_rank_le_max(es: Seq<FileHashEntry>, i: int)
    requires
        0 <= i < es.len(),
    ensures
        rank(es[i].path@) <= max_rank_entries(es),
    decreases es.len(),
{
    if i < es.len() - 1 {
        lemma_entry_rank_le_max(es.drop_last(), i);
        assert(es.drop_last()[i] == es[i]);
    }
}

/// Every tree path ranks within the input's largest rank.
proof fn lemma_tree_path_rank(es: Seq<FileHashEntry>, p: Seq<char>)
    requires
        is_tree_path(es, p),
    ensures
        rank(p) <= max_rank_entries(es),
{
    if is_input_path(es, p) {
        let i: int = choose|i: int| 0 <= i < es.len() && (#[trigger] es[i].path@) == p;
        lemma_entry_rank_le_max(es, i);
    } else if p != root_seq() {
        let w: int = choose|w: int|
            0 <= w < es.len() && #[trigger] ancestors(es[w].path@).contains(p);
        lemma_anc_rank(es[w].path@, p);
        lemma_entry_rank_le_max(es, w);
    }
}

/// Inputs with the same path set produce the same tree paths.
proof fn lemma_same_tree_paths(e1: Seq<FileHashEntry>, e2: Seq<FileHashEntry>, p: Seq<char>)
    requires
        forall|q: Seq<char>|
            #[trigger] is_input_path(e1, q) <==> #[trigger] is_input_path(e2, q),
        is_tree_path(e1, p),
    ensures
        is_tree_path(e2, p),
{
    if is_input_path(e1, p) {
    } else if p != root_seq() {
        let w: int = choose|w: int|
            0 <= w < e1.len() && #[trigger] ancestors(e1[w].path@).contains(p);
        assert(is_input_path(e1, e1[w].path@));
        assert(is_input_path(e2, e1[w].path@));
        let j: int = choose|j: int|
            0 <= j < e2.len() && (#[trigger] e2[j].path@) == e1[w].path@;
        assert(ancestors(e2[j].path@).contains(p));
    }
}

/// A tree path off the root never begins with `./`.
proof fn lemma_tree_path_dotslash_free(es: Seq<FileHashEntry>, p: Seq<char>)
    requires
        entries_ok(es),
        is_tree_path(es, p),
        p != root_seq(),
    ensures
        dotslash_free(p),
{
    if is_input_path(es, p) {
        let i: int = choose|i: int| 0 <= i < es.len() && (#[trigger] es[i].path@) == p;
    } else {
        let w: int = choose|w: int|
            0 <= w < es.len() && #[trigger] ancestors(es[w].path@).contains(p);
        lemma_anc_dotslash_free(es[w].path@, p);
    }
}

/// Duplicate-free sequences over the same elements carry equal multisets.
proof fn lemma_dupfree_same_set_multiset(a: Seq<Seq<char>>, b: Seq<Seq<char>>)
    requires
        forall|k: int, l: int| 0 <= k < l < a.len() ==> a[k] != a[l],
        forall|k: int, l: int| 0 <= k < l < b.len() ==> b[k] != b[l],
        forall|x: Seq<char>| #[trigger] a.contains(x) <==> #[trigger] b.contains(x),
    ensures
        a.to_multiset() == b.to_multiset(),
{
    a.to_multiset_ensures();
    b.to_multiset_ensures();
    assert(a.no_duplicates());
    assert(b.no_duplicates());
    a.lemma_multiset_has_no_duplicates();
    b.lemma_multiset_has_no_duplicates();
    assert forall|x: Seq<char>| #[trigger] a.to_multiset().count(x) == b.to_multiset().count(
        x,
    ) by {
        if a.contains(x) {
            assert(a.to_multiset().count(x) == 1);
            assert(b.to_multiset().count(x) == 1);
        } else {
            assert(a.to_multiset().count(x) == 0);
            assert(b.to_multiset().count(x) == 0);
        }
    }
    assert(a.to_multiset() =~= b.to_multiset());
}

/// Mapping permutation-equal sequences through one function keeps the
/// multiset of results.
proof fn lemma_map_multiset(
    s1: Seq<Seq<char>>,
    s2: Seq<Seq<char>>,
    f: spec_fn(Seq<char>) -> Seq<char>,
)
    requires
        s1.to_multiset() == s2.to_multiset(),
    ensures
        s1.map_values(f).to_multiset() == s2.map_values(f).to_multiset(),
    decreases s1.len(),
{
    s1.to_multiset_ensures();
    s2.to_multiset_ensures();
    if s1.len() == 0 {
        assert(s2.len() == 0);
        assert(s1.map_values(f) =~= s2.map_values(f));
    } else {
        let x = s1[0];
        assert(s1.contains(x));
        assert(s1.to_multiset().count(x) > 0);
        assert(s2.to_multiset().count(x) > 0);
        assert(s2.contains(x));
        let j: int = choose|j: int| 0 <= j < s2.len() && (#[trigger] s2[j]) == x;
        assert(s1.remove(0).to_multiset() =~= s1.to_multiset().remove(x));
        assert(s2.remove(j).to_multiset() =~= s2.to_multiset().remove(x));
        lemma_map_multiset(s1.remove(0), s2.remove(j), f);
        let m1 = s1.map_values(f);
        let m2 = s2.map_values(f);
        m1.to_multiset_ensures();
        m2.to_multiset_ensures();
        assert(s1.remove(0).map_values(f) =~= m1.remove(0));
        assert(s2.remove(j).map_values(f) =~= m2.remove(j));
        assert(m1.remove(0).to_multiset() =~= m1.to_multiset().remove(m1[0]));
        assert(m2.remove(j).to_multiset() =~= m2.to_multiset().remove(m2[j]));
        assert(m1[0] == f(x) && m2[j] == f(x));
        assert(m1.to_multiset().remove(f(x)) == m2.to_multiset().remove(f(x)));
        assert(m1.contains(m1[0]));
        assert(m1.to_multiset().count(f(x)) > 0);
        assert(m2.contains(m2[j]));
        assert(m2.to_multiset().count(f(x)) > 0);
        assert forall|y: Seq<char>| #[trigger] m1.to_multiset().count(y) == m2.to_multiset().count(
            y,
        ) by {
            assert(m1.to_multiset().remove(f(x)).count(y) == m2.to_multiset().remove(f(x)).count(
                y,
            ));
        }
        assert(m1.to_multiset() =~= m2.to_multiset());
    }
}

/// The heart of determinism: in two complete trees built from the same
/// input set, the node at any tree path has the same kind and digest.
pub proof fn lemma_same_node_at(
    e1: Seq<FileHashEntry>,
    e2: Seq<FileHashEntry>,
    n1: Seq<MerkleNode>,
    n2: Seq<MerkleNode>,
    p: Seq<char>,
)
    requires
        entries_ok(e1),
        entries_ok(e2),
        same_input(e1, e2),
        tree_post(e1, n1),
        tree_post(e2, n2),
        is_tree_path(e1, p),
    ensures
        has_node(n1, p),
        has_node(n2, p),
        node_at(n1, p).is_file == node_at(n2, p).is_file,
        node_at(n1, p).hash@ == node_at(n2, p).hash@,
    decreases max_rank_entries(e1) + 1 - rank(p),
{
    lemma_tree_path_rank(e1, p);
    lemma_same_tree_paths(e1, e2, p);
    assert(has_node(n1, p));
    assert(has_node(n2, p));
    let i1: int = choose|i: int| 0 <= i < n1.len() && (#[trigger] n1[i].path@) == p;
    let i2: int = choose|i: int| 0 <= i < n2.len() && (#[trigger] n2[i].path@) == p;
    crate::merkle::lemma_node_at_is(n1, p, i1);
    crate::merkle::lemma_node_at_is(n2, p, i2);
    let m1 = node_at(n1, p);
    let m2 = node_at(n2, p);
    assert(m1 == n1[i1] && m2 == n2[i2]);
    assert(n1[i1].is_file <==> is_input_path(e1, p));
    assert(n2[i2].is_file <==> is_input_path(e2, p));
    if is_input_path(e1, p) {
        assert(n1[i1].is_file && n2[i2].is_file);
        assert(n1[i1].hash@ == input_hash(e1, p));
        assert(n2[i2].hash@ == input_hash(e2, p));
    } else {
        assert(!n1[i1].is_file && !n2[i2].is_file);
        assert(dir_node_ok(e1, n1, n1[i1]));
        assert(dir_node_ok(e2, n2, n2[i2]));
        let c1 = views_of(m1.children@);
        let c2 = views_of(m2.children@);
        // the two children lists hold the same paths, once each
        assert forall|q: Seq<char>| #[trigger] c1.contains(q) implies c2.contains(q) by {
            let k: int = choose|k: int| 0 <= k < c1.len() && (#[trigger] c1[k]) == q;
            assert(m1.children@[k]@ == q);
            assert(is_tree_path(e1, q) && q != root_seq() && parent_seq(q) == p);
            lemma_same_tree_paths(e1, e2, q);
        }
        assert forall|q: Seq<char>| #[trigger] c2.contains(q) implies c1.contains(q) by {
            let k: int = choose|k: int| 0 <= k < c2.len() && (#[trigger] c2[k]) == q;
            assert(m2.children@[k]@ == q);
            assert(is_tree_path(e2, q) && q != root_seq() && parent_seq(q) == p);
            lemma_same_tree_paths(e2, e1, q);
        }
        assert forall|k: int, l: int| 0 <= k < l < c1.len() implies c1[k] != c1[l] by {
            assert(c1[k] == m1.children@[k]@);
            assert(c1[l] == m1.children@[l]@);
        }
        assert forall|k: int, l: int| 0 <= k < l < c2.len() implies c2[k] != c2[l] by {
            assert(c2[k] == m2.children@[k]@);
            assert(c2[l] == m2.children@[l]@);
        }
        lemma_dupfree_same_set_multiset(c1, c2);
        // each child path resolves to the same digest on both sides
        let f1 = |c: Seq<char>| node_at(n1, c).hash@;
        let f2 = |c: Seq<char>| node_at(n2, c).hash@;
        assert forall|k: int| 0 <= k < c2.len() implies #[trigger] c2.map_values(f2)[k]
            == c2.map_values(f1)[k] by {
            let q = c2[k];
            assert(m2.children@[k]@ == q);
            assert(is_tree_path(e2, q) && q != root_seq() && parent_seq(q) == p);
            lemma_same_tree_paths(e2, e1, q);
            lemma_tree_path_dotslash_free(e1, q);
            lemma_rank_parent(q);
            lemma_same_node_at(e1, e2, n1, n2, q);
        }
        assert(c2.map_values(f2) =~= c2.map_values(f1));
        lemma_map_multiset(c1, c2, f1);
        assert(child_hashes(n1, m1) =~= c1.map_values(f1));
        assert(child_hashes(n2, m2) =~= c2.map_values(f2));
        lemma_dir_digest_order_independent(c1.map_values(f1), c2.map_values(f1));
        assert(m1.hash@ == dir_digest(child_hashes(n1, m1)));
        assert(m2.hash@ == dir_digest(child_hashes(n2, m2)));
    }
}

/// Two inputs carry the same paths, and the same digests everywhere but
/// possibly at path `x`.
pub open spec fn same_input_except(
    e1: Seq<FileHashEntry>,
    e2: Seq<FileHashEntry>,
    x: Seq<char>,
) -> bool {
    &&& forall|p: Seq<char>| #[trigger] is_input_path(e1, p) <==> #[trigger] is_input_path(e2, p)
    &&& forall|p: Seq<char>|
        is_input_path(e1, p) && p != x ==> #[trigger] input_hash(e1, p) == input_hash(e2, p)
}

/// Change confinement: when one leaf's digest changes, every node off
/// that leaf's ancestor chain — every sibling subtree — keeps its digest.
/// (That the chain itself changes is a property of the hash function's
/// collision resistance, not of this construction.)
pub proof fn lemma_sibling_digests_unchanged(
    e1: Seq<FileHashEntry>,
    e2: Seq<FileHashEntry>,
    n1: Seq<MerkleNode>,
    n2: Seq<MerkleNode>,
    x: Seq<char>,
    p: Seq<char>,
)
    requires
        entries_ok(e1),
        entries_ok(e2),
        same_input_except(e1, e2, x),
        tree_post(e1, n1),
        tree_post(e2, n2),
        is_tree_path(e1, p),
        p != x,
        !ancestors(x).contains(p),
    ensures
        has_node(n1, p),
        has_node(n2, p),
        node_at(n1, p).is_file == node_at(n2, p).is_file,
        node_at(n1, p).hash@ == node_at(n2, p).hash@,
    decreases max_rank_entries(e1) + 1 - rank(p),
{
    lemma_tree_path_rank(e1, p);
    lemma_same_tree_paths(e1, e2, p);
    assert(has_node(n1, p));
    assert(has_node(n2, p));
    let i1: int = choose|i: int| 0 <= i < n1.len() && (#[trigger] n1[i].path@) == p;
    let i2: int = choose|i: int| 0 <= i < n2.len() && (#[trigger] n2[i].path@) == p;
    crate::merkle::lemma_node_at_is(n1, p, i1);
    crate::merkle::lemma_node_at_is(n2, p, i2);
    let m1 = node_at(n1, p);
    let m2 = node_at(n2, p);
    assert(m1 == n1[i1] && m2 == n2[i2]);
    assert(n1[i1].is_file <==> is_input_path(e1, p));
    assert(n2[i2].is_file <==> is_input_path(e2, p));
    if is_input_path(e1, p) {
        assert(n1[i1].is_file && n2[i2].is_file);
        assert(n1[i1].hash@ == input_hash(e1, p));
        assert(n2[i2].hash@ == input_hash(e2, p));
    } else {
        assert(!n1[i1].is_file && !n2[i2].is_file);
        assert(dir_node_ok(e1, n1, n1[i1]));
        assert(dir_node_ok(e2, n2, n2[i2]));
        let c1 = views_of(m1.children@);
        let c2 = views_of(m2.children@);
        assert forall|q: Seq<char>| #[trigger] c1.contains(q) implies c2.contains(q) by {
            let k: int = choose|k: int| 0 <= k < c1.len() && (#[trigger] c1[k]) == q;
            assert(m1.children@[k]@ == q);
            assert(is_tree_path(e1, q) && q != root_seq() && parent_seq(q) == p);
            lemma_same_tree_paths(e1, e2, q);
        }
        assert forall|q: Seq<char>| #[trigger] c2.contains(q) implies c1.contains(q) by {
            let k: int = choose|k: int| 0 <= k < c2.len() && (#[trigger] c2[k]) == q;
            assert(m2.children@[k]@ == q);
            assert(is_tree_path(e2, q) && q != root_seq() && parent_seq(q) == p);
            lemma_same_tree_paths(e2, e1, q);
        }
        assert forall|k: int, l: int| 0 <= k < l < c1.len() implies c1[k] != c1[l] by {
            assert(c1[k] == m1.children@[k]@);
            assert(c1[l] == m1.children@[l]@);
        }
        assert forall|k: int, l: int| 0 <= k < l < c2.len() implies c2[k] != c2[l] by {
            assert(c2[k] == m2.children@[k]@);
            assert(c2[l] == m2.children@[l]@);
        }
        lemma_dupfree_same_set_multiset(c1, c2);
        let f1 = |c: Seq<char>| node_at(n1, c).hash@;
        let f2 = |c: Seq<char>| node_at(n2, c).hash@;
        assert forall|k: int| 0 <= k < c2.len() implies #[trigger] c2.map_values(f2)[k]
            == c2.map_values(f1)[k] by {
            let q = c2[k];
            assert(m2.children@[k]@ == q);
            assert(is_tree_path(e2, q) && q != root_seq() && parent_seq(q) == p);
            lemma_same_tree_paths(e2, e1, q);
            lemma_tree_path_dotslash_free(e1, q);
            lemma_rank_parent(q);
            // a child of a node off the chain is itself off the chain
            assert(q != x) by {
                if q == x {
                    assert(ancestors(x).contains(parent_seq(x)));
                    assert(false);
                }
            }
            assert(!ancestors(x).contains(q)) by {
                if ancestors(x).contains(q) {
                    crate::paths::lemma_anc_trans(x, q);
                    assert(ancestors(q).contains(parent_seq(q)));
                    assert(false);
                }
            }
            lemma_sibling_digests_unchanged(e1, e2, n1, n2, x, q);
        }
        assert(c2.map_values(f2) =~= c2.map_values(f1));
        lemma_map_multiset(c1, c2, f1);
        assert(child_hashes(n1, m1) =~= c1.map_values(f1));
        assert(child_hashes(n2, m2) =~= c2.map_values(f2));
        lemma_dir_digest_order_independent(c1.map_values(f1), c2.map_values(f1));
        assert(m1.hash@ == dir_digest(child_hashes(n1, m1)));
        assert(m2.hash@ == dir_digest(child_hashes(n2, m2)));
    }
}

/// Determinism: trees built from the same input set — reordered or not —
/// hold nodes for the same paths, with the same kinds and digests.
pub proof fn lemma_build_deterministic(
    e1: Seq<FileHashEntry>,
    e2: Seq<FileHashEntry>,
    n1: Seq<MerkleNode>,
    n2: Seq<MerkleNode>,
)
    requires
        entries_ok(e1),
        entries_ok(e2),
        same_input(e1, e2),
        tree_post(e1, n1),
        tree_post(e2, n2),
    ensures
        forall|p: Seq<char>| has_node(n1, p) <==> has_node(n2, p),
        forall|p: Seq<char>|
            #[trigger] has_node(n1, p) ==> node_at(n1, p).is_file == node_at(n2, p).is_file
                && node_at(n1, p).hash@ == node_at(n2, p).hash@,
{
    assert forall|p: Seq<char>| #[trigger] has_node(n1, p) implies has_node(n2, p) by {
        let i: int = choose|i: int| 0 <= i < n1.len() && (#[trigger] n1[i].path@) == p;
        assert(is_tree_path(e1, p));
        lemma_same_node_at(e1, e2, n1, n2, p);
    }
    assert forall|p: Seq<char>| #[trigger] has_node(n2, p) implies has_node(n1, p) by {
        let i: int = choose|i: int| 0 <= i < n2.len() && (#[trigger] n2[i].path@) == p;
        assert(is_tree_path(e2, p));
        lemma_same_tree_paths(e2, e1, p);
        lemma_same_node_at(e1, e2, n1, n2, p);
    }
    assert forall|p: Seq<char>| #[trigger] has_node(n1, p) implies node_at(n1, p).is_file
        == node_at(n2, p).is_file && node_at(n1, p).hash@ == node_at(n2, p).hash@ by {
        let i: int = choose|i: int| 0 <= i < n1.len() && (#[trigger] n1[i].path@) == p;
        assert(is_tree_path(e1, p));
        lemma_same_node_at(e1, e2, n1, n2, p);
    }
}

} // verus!
