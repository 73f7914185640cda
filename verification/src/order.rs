//! Ordering of texts: lexicographic by character, which for UTF-8 strings is the
//! order of `String`'s `Ord` (byte order), and sorting of names by it.

use vstd::prelude::*;
use vstd::seq_lib::to_multiset_insert;

use crate::text::chars_of;

verus! {

/// `a` comes before or equals `b` in lexicographic character order.
pub open spec fn lex_le(a: Seq<char>, b: Seq<char>) -> bool
    decreases a.len(),
{
    if a.len() == 0 {
        true
    } else if b.len() == 0 {
        false
    } else if a[0] != b[0] {
        a[0] < b[0]
    } else {
        lex_le(a.drop_first(), b.drop_first())
    }
}

pub proof fn lemma_lex_total(a: Seq<char>, b: Seq<char>)
    ensures
        lex_le(a, b) || lex_le(b, a),
    decreases a.len(),
{
    if a.len() > 0 && b.len() > 0 && a[0] == b[0] {
        lemma_lex_total(a.drop_first(), b.drop_first());
    }
}

pub proof fn lemma_lex_trans(a: Seq<char>, b: Seq<char>, c: Seq<char>)
    requires
        lex_le(a, b),
        lex_le(b, c),
    ensures
        lex_le(a, c),
    decreases a.len(),
{
    if a.len() > 0 && b.len() > 0 && c.len() > 0 && a[0] == b[0] && b[0] == c[0] {
        lemma_lex_trans(a.drop_first(), b.drop_first(), c.drop_first());
    }
}

pub proof fn lemma_lex_antisym(a: Seq<char>, b: Seq<char>)
    requires
        lex_le(a, b),
        lex_le(b, a),
    ensures
        a == b,
    decreases a.len(),
{
    if a.len() > 0 && b.len() > 0 {
        lemma_lex_antisym(a.drop_first(), b.drop_first());
        assert(a =~= seq![a[0]] + a.drop_first());
        assert(b =~= seq![b[0]] + b.drop_first());
    } else if a.len() == 0 && b.len() == 0 {
        assert(a =~= b);
    }
}

pub proof fn lemma_lex_refl(a: Seq<char>)
    ensures
        lex_le(a, a),
    decreases a.len(),
{
    if a.len() > 0 {
        lemma_lex_refl(a.drop_first());
    }
}

/// Two sorted orderings of the same texts are the same sequence.
pub proof fn lemma_sorted_texts_unique(x: Seq<Seq<char>>, y: Seq<Seq<char>>)
    requires
        sorted_texts(x),
        sorted_texts(y),
        x.to_multiset() == y.to_multiset(),
    ensures
        x == y,
{
    let leq = |a: Seq<char>, b: Seq<char>| lex_le(a, b);
    assert(vstd::relations::total_ordering(leq)) by {
        assert forall|a: Seq<char>| #[trigger] leq(a, a) by {
            lemma_lex_refl(a);
        }
        assert forall|a: Seq<char>, b: Seq<char>| #[trigger] leq(a, b) && #[trigger] leq(b, a) implies a == b by {
            lemma_lex_antisym(a, b);
        }
        assert forall|a: Seq<char>, b: Seq<char>, c: Seq<char>|
            #[trigger] leq(a, b) && #[trigger] leq(b, c) implies leq(a, c) by {
            lemma_lex_trans(a, b, c);
        }
        assert forall|a: Seq<char>, b: Seq<char>| #[trigger] leq(a, b) || leq(b, a) by {
            lemma_lex_total(a, b);
        }
    }
    assert(vstd::relations::sorted_by(x, leq));
    assert(vstd::relations::sorted_by(y, leq));
    vstd::seq_lib::lemma_sorted_unique(x, y, leq);
}

/// Every text precedes or equals each one after it.
pub open spec fn sorted_texts(s: Seq<Seq<char>>) -> bool {
    forall|i: int, j: int| 0 <= i < j < s.len() ==> lex_le(#[trigger] s[i], #[trigger] s[j])
}

pub open spec fn texts(v: Seq<String>) -> Seq<Seq<char>> {
    v.map_values(|s: String| s@)
}

/// Lexicographic comparison of two texts.
pub fn lex_le_exec(a: &[char], b: &[char]) -> (r: bool)
    ensures
        r == lex_le(a@, b@),
{
    let mut i: usize = 0;
    assert(a@.subrange(0, a@.len() as int) =~= a@);
    assert(b@.subrange(0, b@.len() as int) =~= b@);
    while i < a.len() && i < b.len() && a[i] == b[i]
        invariant
            i <= a@.len(),
            i <= b@.len(),
            lex_le(a@, b@) == lex_le(a@.subrange(i as int, a@.len() as int), b@.subrange(i as int, b@.len() as int)),
        decreases a.len() - i,
    {
        proof {
            let sa = a@.subrange(i as int, a@.len() as int);
            let sb = b@.subrange(i as int, b@.len() as int);
            assert(sa.drop_first() =~= a@.subrange(i + 1, a@.len() as int));
            assert(sb.drop_first() =~= b@.subrange(i + 1, b@.len() as int));
        }
        i += 1;
    }
    if i == a.len() {
        true
    } else if i == b.len() {
        false
    } else {
        a[i] < b[i]
    }
}

/// The names in lexicographic order.
pub fn sort_texts(v: &Vec<String>) -> (r: Vec<String>)
    ensures
        sorted_texts(texts(r@)),
        texts(r@).to_multiset() == texts(v@).to_multiset(),
{
    let mut r: Vec<String> = Vec::new();
    let mut i: usize = 0;
    assert(texts(r@) =~= texts(v@.take(0)));
    while i < v.len()
        invariant
            i <= v@.len(),
            sorted_texts(texts(r@)),
            texts(r@).to_multiset() == texts(v@.take(i as int)).to_multiset(),
        decreases v.len() - i,
    {
        let x = v[i].clone();
        let xc = chars_of(x.as_str());
        let mut p: usize = 0;
        while p < r.len() && lex_le_exec(&chars_of(r[p].as_str()), &xc)
            invariant
                p <= r@.len(),
                xc@ == x@,
                forall|k: int| 0 <= k < p ==> lex_le(#[trigger] r@[k]@, x@),
            decreases r.len() - p,
        {
            p += 1;
        }
        let ghost old_r = texts(r@);
        proof {
            if p < r@.len() {
                lemma_lex_total(r@[p as int]@, x@);
                assert forall|k: int| p <= k < old_r.len() implies lex_le(x@, #[trigger] old_r[k]) by {
                    assert(sorted_texts(old_r));
                    if k > p {
                        assert(lex_le(old_r[p as int], old_r[k]));
                        lemma_lex_trans(x@, old_r[p as int], old_r[k]);
                    }
                }
            }
        }
        r.insert(p, x);
        proof {
            let nr = texts(r@);
            assert(nr =~= old_r.insert(p as int, x@));
            assert forall|a: int, b: int| 0 <= a < b < nr.len() implies lex_le(#[trigger] nr[a], #[trigger] nr[b]) by {
                if a < p && b == p {
                } else if a < p && b > p {
                    assert(nr[a] == old_r[a]);
                    assert(nr[b] == old_r[b - 1]);
                    assert(lex_le(old_r[a], x@));
                    lemma_lex_trans(old_r[a], x@, old_r[b - 1]);
                } else if a == p {
                    assert(nr[b] == old_r[b - 1]);
                } else if a < p {
                    assert(nr[a] == old_r[a]);
                    assert(nr[b] == old_r[b]);
                } else {
                    assert(nr[a] == old_r[a - 1]);
                    assert(nr[b] == old_r[b - 1]);
                }
            }
            to_multiset_insert(old_r, p as int, x@);
            assert(texts(v@.take(i + 1)) =~= texts(v@.take(i as int)).push(v@[i as int]@));
            vstd::seq_lib::to_multiset_build(texts(v@.take(i as int)), v@[i as int]@);
        }
        i += 1;
    }
    assert(v@.take(v@.len() as int) =~= v@);
    r
}

} // verus!
