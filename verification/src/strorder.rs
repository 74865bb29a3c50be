//! Lexicographic order on character sequences, a verified sort for vectors
//! of strings, and concatenation of a sequence of strings. The tree builder
//! sorts child digests with this order before hashing them, which is what
//! makes a directory digest independent of discovery order.
use vstd::prelude::*;
use vstd::relations::{sorted_by, total_ordering};
use vstd::seq_lib::lemma_sorted_unique;

verus! {

/// Lexicographic "less or equal" on character sequences, comparing scalar
/// values position by position.
pub open spec fn lex_leq(a: Seq<char>, b: Seq<char>) -> bool
    decreases a.len(),
{
    if a.len() == 0 {
        true
    } else if b.len() == 0 {
        false
    } else if a[0] == b[0] {
        lex_leq(a.drop_first(), b.drop_first())
    } else {
        (a[0] as u32) < (b[0] as u32)
    }
}

/// The order as a first-class relation, for use with vstd's sorting lemmas.
pub open spec fn lex_leq_fn() -> spec_fn(Seq<char>, Seq<char>) -> bool {
    |a: Seq<char>, b: Seq<char>| lex_leq(a, b)
}

/// The views of a sequence of strings.
pub open spec fn views_of(ss: Seq<String>) -> Seq<Seq<char>> {
    ss.map_values(|s: String| s@)
}

proof fn lemma_lex_refl(a: Seq<char>)
    ensures
        lex_leq(a, a),
    decreases a.len(),
{
    if a.len() > 0 {
        lemma_lex_refl(a.drop_first());
    }
}

proof fn lemma_lex_antisym(a: Seq<char>, b: Seq<char>)
    requires
        lex_leq(a, b),
        lex_leq(b, a),
    ensures
        a == b,
    decreases a.len(),
{
    if a.len() == 0 {
        assert(a =~= b);
    } else {
        assert(b.len() > 0);
        lemma_lex_antisym(a.drop_first(), b.drop_first());
        assert(a.len() == b.len());
        assert forall|i: int| 0 <= i < a.len() implies a[i] == b[i] by {
            if i > 0 {
                assert(a[i] == a.drop_first()[i - 1]);
                assert(b[i] == b.drop_first()[i - 1]);
            }
        }
        assert(a =~= b);
    }
}

proof fn lemma_lex_trans(a: Seq<char>, b: Seq<char>, c: Seq<char>)
    requires
        lex_leq(a, b),
        lex_leq(b, c),
    ensures
        lex_leq(a, c),
    decreases a.len(),
{
    if a.len() == 0 || b.len() == 0 || c.len() == 0 {
    } else {
        if a[0] == b[0] && b[0] == c[0] {
            lemma_lex_trans(a.drop_first(), b.drop_first(), c.drop_first());
        }
    }
}

proof fn lemma_lex_connected(a: Seq<char>, b: Seq<char>)
    ensures
        lex_leq(a, b) || lex_leq(b, a),
    decreases a.len(),
{
    if a.len() > 0 && b.len() > 0 {
        if a[0] == b[0] {
            lemma_lex_connected(a.drop_first(), b.drop_first());
        } else {
            vstd::utf8::char_u32_cast(a[0], a[0] as u32);
            vstd::utf8::char_u32_cast(b[0], b[0] as u32);
        }
    }
}

/// The lexicographic order is a total order.
pub proof fn lemma_lex_total_ordering()
    ensures
        total_ordering(lex_leq_fn()),
{
    assert forall|a: Seq<char>| #[trigger] lex_leq_fn()(a, a) by {
        lemma_lex_refl(a);
    }
    assert forall|a: Seq<char>, b: Seq<char>|
        #[trigger] lex_leq_fn()(a, b) && #[trigger] lex_leq_fn()(b, a) implies a == b by {
        lemma_lex_antisym(a, b);
    }
    assert forall|a: Seq<char>, b: Seq<char>, c: Seq<char>|
        #[trigger] lex_leq_fn()(a, b) && #[trigger] lex_leq_fn()(b, c) implies lex_leq_fn()(
        a,
        c,
    ) by {
        lemma_lex_trans(a, b, c);
    }
    assert forall|a: Seq<char>, b: Seq<char>| #[trigger] lex_leq_fn()(a, b) || #[trigger] lex_leq_fn()(
        b,
        a,
    ) by {
        lemma_lex_connected(a, b);
    }
}

proof fn lemma_lex_skip(a: Seq<char>, b: Seq<char>, i: int)
    requires
        0 <= i <= a.len(),
        i <= b.len(),
        forall|j: int| 0 <= j < i ==> a[j] == b[j],
    ensures
        lex_leq(a, b) == lex_leq(a.skip(i), b.skip(i)),
    decreases i,
{
    if i == 0 {
        assert(a.skip(0) =~= a);
        assert(b.skip(0) =~= b);
    } else {
        assert(a[0] == b[0]);
        lemma_lex_skip(a.drop_first(), b.drop_first(), i - 1);
        assert(a.drop_first().skip(i - 1) =~= a.skip(i));
        assert(b.drop_first().skip(i - 1) =~= b.skip(i));
        assert(forall|j: int|
            0 <= j < i - 1 ==> a.drop_first()[j] == #[trigger] b.drop_first()[j]);
    }
}

/// Decide the lexicographic order on two strings.
pub fn str_le(a: &str, b: &str) -> (r: bool)
    ensures
        r == lex_leq(a@, b@),
{
    let alen = a.unicode_len();
    let blen = b.unicode_len();
    let mut i: usize = 0;
    loop
        invariant
            i <= alen,
            i <= blen,
            alen == a@.len(),
            blen == b@.len(),
            forall|j: int| 0 <= j < i ==> a@[j] == b@[j],
        decreases alen - i,
    {
        proof {
            lemma_lex_skip(a@, b@, i as int);
        }
        if i == alen {
            return true;
        }
        if i == blen {
            return false;
        }
        let ca = a.get_char(i);
        let cb = b.get_char(i);
        if ca != cb {
            proof {
                assert(a@.skip(i as int)[0] == ca);
                assert(b@.skip(i as int)[0] == cb);
            }
            return (ca as u32) < (cb as u32);
        }
        proof {
            assert(a@.skip(i as int)[0] == b@.skip(i as int)[0]);
        }
        i = i + 1;
    }
}

/// First position whose element is strictly above `x` in the order; the
/// place to insert `x` so a sorted vector stays sorted.
fn find_insert_pos(out: &Vec<String>, x: &str) -> (pos: usize)
    ensures
        pos <= out@.len(),
        forall|j: int| 0 <= j < pos ==> lex_leq(views_of(out@)[j], x@),
        pos < out@.len() ==> !lex_leq(views_of(out@)[pos as int], x@),
{
    let mut pos: usize = 0;
    while pos < out.len()
        invariant
            pos <= out@.len(),
            forall|j: int| 0 <= j < pos ==> lex_leq(views_of(out@)[j], x@),
        decreases out@.len() - pos,
    {
        if !str_le(&out[pos], x) {
            return pos;
        }
        pos = pos + 1;
    }
    pos
}

/// Sort a vector of strings into lexicographic order. The result is the
/// canonical sorted permutation of the input: it depends only on the
/// multiset of input strings.
pub fn sort_strings(v: &Vec<String>) -> (r: Vec<String>)
    ensures
        views_of(r@) == views_of(v@).sort_by(lex_leq_fn()),
{
    let mut out: Vec<String> = Vec::new();
    let mut i: usize = 0;
    proof {
        assert(v@.take(0) =~= Seq::<String>::empty());
        assert(views_of(out@) =~= views_of(v@.take(0)));
    }
    while i < v.len()
        invariant
            i <= v@.len(),
            sorted_by(views_of(out@), lex_leq_fn()),
            views_of(out@).to_multiset() == views_of(v@.take(i as int)).to_multiset(),
        decreases v@.len() - i,
    {
        let x = v[i].clone();
        let pos = find_insert_pos(&out, x.as_str());
        proof {
            if pos < out@.len() {
                lemma_lex_connected(views_of(out@)[pos as int], x@);
            }
        }
        let ghost prev = out@;
        out.insert(pos, x);
        proof {
            lemma_lex_total_ordering();
            let xs = views_of(prev);
            let nv = views_of(out@);
            assert(nv =~= xs.insert(pos as int, x@));
            xs.insert_ensures(pos as int, x@);
            assert(pos < xs.len() ==> lex_leq(x@, xs[pos as int]));
            assert forall|p: int, q: int| 0 <= p < q < xs.len() implies #[trigger] lex_leq(
                xs[p],
                xs[q],
            ) by {
                assert(lex_leq_fn()(xs[p], xs[q]));
            }
            // sortedness of the new sequence
            assert forall|p: int, q: int| 0 <= p < q < nv.len() implies #[trigger] lex_leq_fn()(
                nv[p],
                nv[q],
            ) by {
                if q < pos {
                    assert(nv[p] == xs[p] && nv[q] == xs[q]);
                } else if p > pos {
                    assert(nv[p] == xs[p - 1] && nv[q] == xs[q - 1]);
                } else if p < pos && q == pos {
                    assert(nv[p] == xs[p] && nv[q] == x@);
                } else if p < pos && q > pos {
                    assert(nv[p] == xs[p] && nv[q] == xs[q - 1]);
                } else if p == pos && q > pos {
                    assert(nv[p] == x@ && nv[q] == xs[q - 1]);
                    if q - 1 > pos {
                        lemma_lex_trans(x@, xs[pos as int], xs[q - 1]);
                    }
                }
            }
            // multiset of the new sequence
            assert(nv.remove(pos as int) =~= xs);
            nv.to_multiset_ensures();
            xs.to_multiset_ensures();
            assert(nv.to_multiset().remove(x@) =~= xs.to_multiset());
            assert(nv.to_multiset().contains(x@)) by {
                assert(nv[pos as int] == x@);
            }
            assert(nv.to_multiset() =~= xs.to_multiset().insert(x@));
            // the consumed prefix grew by one element
            assert(views_of(v@.take(i + 1)) =~= views_of(v@.take(i as int)).push(v@[i as int]@));
            views_of(v@.take(i as int)).to_multiset_ensures();
            assert(views_of(v@.take(i + 1)).to_multiset() =~= views_of(
                v@.take(i as int),
            ).to_multiset().insert(v@[i as int]@));
        }
        i = i + 1;
    }
    proof {
        lemma_lex_total_ordering();
        assert(v@.take(i as int) =~= v@);
        views_of(v@).lemma_sort_by_ensures(lex_leq_fn());
        lemma_sorted_unique(views_of(out@), views_of(v@).sort_by(lex_leq_fn()), lex_leq_fn());
    }
    out
}

/// Views distribute over push.
pub proof fn lemma_views_push(ss: Seq<String>, x: String)
    ensures
        views_of(ss.push(x)) == views_of(ss).push(x@),
{
    assert(views_of(ss.push(x)) =~= views_of(ss).push(x@));
}

/// Concatenation of a sequence of strings, front to back.
pub open spec fn concat_all(ss: Seq<Seq<char>>) -> Seq<char>
    decreases ss.len(),
{
    if ss.len() == 0 {
        Seq::empty()
    } else {
        ss[0] + concat_all(ss.drop_first())
    }
}

pub proof fn lemma_concat_push(ss: Seq<Seq<char>>, x: Seq<char>)
    ensures
        concat_all(ss.push(x)) == concat_all(ss) + x,
    decreases ss.len(),
{
    if ss.len() == 0 {
        assert(ss.push(x)[0] == x);
        assert(ss.push(x).drop_first() =~= Seq::<Seq<char>>::empty());
        assert(concat_all(ss.push(x).drop_first()) == Seq::<char>::empty());
        assert(concat_all(ss.push(x)) == x + Seq::<char>::empty());
        assert(concat_all(ss) == Seq::<char>::empty());
        assert(x + Seq::<char>::empty() =~= Seq::<char>::empty() + x);
    } else {
        assert(ss.push(x).drop_first() =~= ss.drop_first().push(x));
        lemma_concat_push(ss.drop_first(), x);
        assert(ss.push(x)[0] == ss[0]);
        assert(ss[0] + (concat_all(ss.drop_first()) + x) =~= (ss[0] + concat_all(ss.drop_first()))
            + x);
    }
}

/// Join a vector of strings into one string, in order.
pub fn join_all(parts: &Vec<String>) -> (r: String)
    ensures
        r@ == concat_all(views_of(parts@)),
{
    let mut s = String::new();
    let mut i: usize = 0;
    while i < parts.len()
        invariant
            i <= parts@.len(),
            s@ == concat_all(views_of(parts@.take(i as int))),
        decreases parts@.len() - i,
    {
        s.append(parts[i].as_str());
        proof {
            assert(views_of(parts@.take(i + 1)) =~= views_of(parts@.take(i as int)).push(
                parts@[i as int]@,
            ));
            lemma_concat_push(views_of(parts@.take(i as int)), parts@[i as int]@);
        }
        i = i + 1;
    }
    proof {
        assert(parts@.take(i as int) =~= parts@);
    }
    s
}

} // verus!
