//! Path model: normalized, `/`-separated relative paths, with `"."` as the
//! reserved root sentinel. Gives each path a parent, a depth rank, and the
//! set of its ancestor directories.
use vstd::prelude::*;

verus! {

/// The reserved path denoting the root of the hierarchy.
pub open spec fn root_seq() -> Seq<char> {
    seq!['.']
}

/// Index of the last `/` in `s`, or `-1` when `s` has none.
pub open spec fn last_slash(s: Seq<char>) -> int
    decreases s.len(),
{
    if s.len() == 0 {
        -1
    } else if s[s.len() - 1] == '/' {
        s.len() - 1
    } else {
        last_slash(s.drop_last())
    }
}

pub open spec fn has_slash(s: Seq<char>) -> bool {
    last_slash(s) >= 0
}

/// The parent of a path: everything before the final `/`, or the root
/// sentinel when the path has no separator.
pub open spec fn parent_seq(s: Seq<char>) -> Seq<char> {
    if has_slash(s) {
        s.take(last_slash(s))
    } else {
        root_seq()
    }
}

/// Number of `/` separators in `s`.
pub open spec fn slash_count(s: Seq<char>) -> nat
    decreases s.len(),
{
    if s.len() == 0 {
        0
    } else if s[s.len() - 1] == '/' {
        slash_count(s.drop_last()) + 1
    } else {
        slash_count(s.drop_last())
    }
}

/// Distance of a path from the root: 0 for the root sentinel itself,
/// one more than its separator count for every other path.
pub open spec fn rank(s: Seq<char>) -> nat {
    if s == root_seq() {
        0
    } else {
        slash_count(s) + 1
    }
}

/// A path that does not begin with `./`. Walking parents of such a path
/// loses exactly one rank per step, so the ancestor chain is well shaped.
pub open spec fn dotslash_free(s: Seq<char>) -> bool {
    !(s.len() >= 2 && s[0] == '.' && s[1] == '/')
}

pub proof fn lemma_last_slash_props(s: Seq<char>)
    ensures
        -1 <= last_slash(s) < s.len(),
        last_slash(s) >= 0 ==> s[last_slash(s)] == '/',
        forall|j: int| last_slash(s) < j < s.len() ==> s[j] != '/',
    decreases s.len(),
{
    if s.len() == 0 {
    } else if s[s.len() - 1] == '/' {
    } else {
        lemma_last_slash_props(s.drop_last());
        assert forall|j: int| last_slash(s) < j < s.len() implies s[j] != '/' by {
            if j < s.len() - 1 {
                assert(s.drop_last()[j] == s[j]);
            }
        }
    }
}

/// Cutting a string at its last slash removes exactly that one separator.
pub proof fn lemma_slash_count_take(s: Seq<char>)
    requires
        has_slash(s),
    ensures
        slash_count(s.take(last_slash(s))) + 1 == slash_count(s),
    decreases s.len(),
{
    if s.len() == 0 {
    } else if s[s.len() - 1] == '/' {
        assert(s.take(s.len() - 1) =~= s.drop_last());
    } else {
        lemma_slash_count_take(s.drop_last());
        lemma_last_slash_props(s.drop_last());
        assert(s.take(last_slash(s)) =~= s.drop_last().take(last_slash(s.drop_last())));
    }
}

/// A path without a separator has separator count zero.
pub proof fn lemma_no_slash_count(s: Seq<char>)
    requires
        !has_slash(s),
    ensures
        slash_count(s) == 0,
    decreases s.len(),
{
    if s.len() == 0 {
    } else if s[s.len() - 1] == '/' {
    } else {
        lemma_no_slash_count(s.drop_last());
    }
}

/// Every non-root path has a parent of strictly smaller rank.
pub proof fn lemma_rank_parent_lt(s: Seq<char>)
    requires
        s != root_seq(),
    ensures
        rank(parent_seq(s)) < rank(s),
{
    if has_slash(s) {
        lemma_slash_count_take(s);
    }
}

/// For a path that does not begin with `./`, the parent sits exactly one
/// rank below, and is itself free of a leading `./`.
pub proof fn lemma_rank_parent(s: Seq<char>)
    requires
        s != root_seq(),
        dotslash_free(s),
    ensures
        rank(parent_seq(s)) + 1 == rank(s),
        dotslash_free(parent_seq(s)),
{
    if has_slash(s) {
        lemma_last_slash_props(s);
        lemma_slash_count_take(s);
        let p = s.take(last_slash(s));
        if p == root_seq() {
            // p is "." so the last slash sits at index 1 and s begins "./"
            assert(p.len() == 1);
            assert(s[0] == p[0]);
            assert(s[1] == '/');
            assert(false);
        }
        if p.len() >= 2 {
            assert(p[0] == s[0] && p[1] == s[1]);
        }
    } else {
        lemma_no_slash_count(s);
    }
}

/// The set of strict ancestor directories of a path: its parent, the
/// parent's parent, and so on up to (and including) the root sentinel.
pub open spec fn ancestors(s: Seq<char>) -> Set<Seq<char>>
    decreases rank(s),
    via ancestors_decreases
{
    if s == root_seq() {
        Set::empty()
    } else {
        ancestors(parent_seq(s)).insert(parent_seq(s))
    }
}

#[via_fn]
proof fn ancestors_decreases(s: Seq<char>) {
    if s != root_seq() {
        lemma_rank_parent_lt(s);
    }
}

/// Every ancestor has strictly smaller rank than the path itself.
pub proof fn lemma_anc_rank(s: Seq<char>, a: Seq<char>)
    requires
        ancestors(s).contains(a),
    ensures
        rank(a) < rank(s),
    decreases rank(s),
{
    lemma_rank_parent_lt(s);
    if a != parent_seq(s) {
        lemma_anc_rank(parent_seq(s), a);
    }
}

/// Ancestry is transitive: an ancestor's ancestors are ancestors.
pub proof fn lemma_anc_trans(s: Seq<char>, a: Seq<char>)
    requires
        ancestors(s).contains(a),
    ensures
        ancestors(a).subset_of(ancestors(s)),
    decreases rank(s),
{
    lemma_rank_parent_lt(s);
    if a == parent_seq(s) {
    } else {
        lemma_anc_trans(parent_seq(s), a);
    }
}

/// Freedom from a leading `./` carries to every ancestor.
pub proof fn lemma_anc_dotslash_free(s: Seq<char>, a: Seq<char>)
    requires
        dotslash_free(s),
        ancestors(s).contains(a),
    ensures
        dotslash_free(a),
    decreases rank(s),
{
    if s == root_seq() {
    } else {
        lemma_rank_parent(s);
        if a != parent_seq(s) {
            lemma_anc_dotslash_free(parent_seq(s), a);
        }
    }
}

/// Decide whether a path is the root sentinel.
pub fn is_root(s: &str) -> (r: bool)
    ensures
        r == (s@ == root_seq()),
{
    let n = s.unicode_len();
    if n == 1 {
        let c = s.get_char(0);
        proof {
            if c == '.' {
                assert(s@ =~= root_seq());
            }
        }
        c == '.'
    } else {
        false
    }
}

/// Compute the parent of a path: the prefix before the final `/`, or the
/// root sentinel `"."` when the path has no separator.
pub fn parent_path(path: &str) -> (r: String)
    ensures
        r@ == parent_seq(path@),
{
    let n = path.unicode_len();
    let mut i: usize = n;
    while i > 0
        invariant
            i <= n,
            n == path@.len(),
            forall|j: int| i <= j < n ==> path@[j] != '/',
        decreases i,
    {
        if path.get_char(i - 1) == '/' {
            proof {
                lemma_last_slash_props(path@);
                let ls: int = last_slash(path@);
                if ls < i - 1 {
                    assert(path@[i - 1] != '/');
                }
                if ls > i - 1 {
                    assert(path@[ls] != '/');
                }
                assert(ls == i - 1);
                assert(path@.subrange(0, i - 1) =~= path@.take(last_slash(path@)));
            }
            let p = path.substring_char(0, i - 1);
            return String::from_str(p);
        }
        i = i - 1;
    }
    proof {
        lemma_last_slash_props(path@);
        if has_slash(path@) {
            assert(path@[last_slash(path@)] != '/');
        }
        reveal_strlit(".");
        assert("."@ =~= root_seq());
    }
    String::from_str(".")
}

/// Compute the rank of a path: 0 for the root sentinel, one more than
/// its separator count otherwise.
pub fn path_rank(path: &str) -> (r: usize)
    requires
        path@.len() < usize::MAX,
    ensures
        r as nat == rank(path@),
{
    let n = path.unicode_len();
    if n == 1 && path.get_char(0) == '.' {
        proof {
            assert(path@ =~= root_seq());
        }
        return 0;
    }
    proof {
        assert(path@ != root_seq());
    }
    let mut count: usize = 0;
    let mut i: usize = 0;
    while i < n
        invariant
            i <= n,
            n == path@.len() < usize::MAX,
            count <= i,
            count as nat == slash_count(path@.take(i as int)),
        decreases n - i,
    {
        proof {
            assert(path@.take(i + 1).drop_last() =~= path@.take(i as int));
            assert(path@.take(i + 1)[i as int] == path@[i as int]);
        }
        if path.get_char(i) == '/' {
            count = count + 1;
        }
        i = i + 1;
    }
    proof {
        assert(path@.take(n as int) =~= path@);
    }
    count + 1
}

} // verus!

