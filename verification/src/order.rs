//! Lexicographic ordering of strings by Unicode code point, as `str`
//! comparison orders them, with the lemmas the sorting passes need.

use vstd::prelude::*;
use vstd::relations::{sorted_by, strongly_connected, transitive};
use vstd::seq_lib::group_to_multiset_ensures;
use vstd::string::StrSliceExecFns;

verus! {

/// Strict lexicographic order on character sequences, comparing code points
/// left to right; a proper prefix precedes any extension of it.
pub open spec fn lex_lt(a: Seq<char>, b: Seq<char>) -> bool
    decreases a.len(),
{
    if b.len() == 0 {
        false
    } else if a.len() == 0 {
        true
    } else if (a[0] as u32) < (b[0] as u32) {
        true
    } else if (b[0] as u32) < (a[0] as u32) {
        false
    } else {
        lex_lt(a.drop_first(), b.drop_first())
    }
}

pub proof fn lemma_lex_lt_asym(a: Seq<char>, b: Seq<char>)
    ensures
        !(lex_lt(a, b) && lex_lt(b, a)),
    decreases a.len(),
{
    if b.len() == 0 || a.len() == 0 {
    } else if (a[0] as u32) < (b[0] as u32) || (b[0] as u32) < (a[0] as u32) {
    } else {
        lemma_lex_lt_asym(a.drop_first(), b.drop_first());
    }
}

pub proof fn lemma_lex_lt_connex(a: Seq<char>, b: Seq<char>)
    ensures
        lex_lt(a, b) || lex_lt(b, a) || a == b,
    decreases a.len(),
{
    if b.len() == 0 {
        if a.len() == 0 {
            assert(a =~= b);
        }
    } else if a.len() == 0 {
    } else if (a[0] as u32) < (b[0] as u32) || (b[0] as u32) < (a[0] as u32) {
    } else {
        lemma_lex_lt_connex(a.drop_first(), b.drop_first());
        if !lex_lt(a, b) && !lex_lt(b, a) {
            assert(a.drop_first() == b.drop_first());
            assert(a[0] == b[0]) by {
                assert((a[0] as u32) == (b[0] as u32));
                vstd::utf8::char_u32_cast(a[0], a[0] as u32);
                vstd::utf8::char_u32_cast(b[0], b[0] as u32);
            }
            assert(a =~= seq![a[0]] + a.drop_first());
            assert(b =~= seq![b[0]] + b.drop_first());
        }
    }
}

pub proof fn lemma_lex_lt_trans(a: Seq<char>, b: Seq<char>, c: Seq<char>)
    requires
        lex_lt(a, b),
        lex_lt(b, c),
    ensures
        lex_lt(a, c),
    decreases a.len() + b.len() + c.len(),
{
    if a.len() == 0 {
    } else if b.len() == 0 || c.len() == 0 {
    } else if (a[0] as u32) < (b[0] as u32) {
    } else if (b[0] as u32) < (a[0] as u32) {
    } else {
        if (b[0] as u32) < (c[0] as u32) {
        } else if (c[0] as u32) < (b[0] as u32) {
        } else {
            lemma_lex_lt_trans(a.drop_first(), b.drop_first(), c.drop_first());
        }
    }
}

/// Equal prefixes do not affect the comparison: it is decided by the
/// remainders once the first `i` characters agree.
pub proof fn lemma_lex_lt_skip(a: Seq<char>, b: Seq<char>, i: int)
    requires
        0 <= i <= a.len(),
        i <= b.len(),
        forall|j: int| 0 <= j < i ==> (a[j] as u32) == (b[j] as u32),
    ensures
        lex_lt(a, b) == lex_lt(a.skip(i), b.skip(i)),
    decreases i,
{
    if i == 0 {
        assert(a.skip(0) =~= a);
        assert(b.skip(0) =~= b);
    } else {
        assert(a.len() >= 1 && b.len() >= 1);
        assert((a[0] as u32) == (b[0] as u32));
        lemma_lex_lt_skip(a.drop_first(), b.drop_first(), i - 1);
        assert(a.drop_first().skip(i - 1) =~= a.skip(i));
        assert(b.drop_first().skip(i - 1) =~= b.skip(i));
    }
}

/// `x` placed into the sorted sequence `s`, before the maximal run of trailing
/// elements that do not compare at-or-below `x`; insertion this way from the
/// left is stable.
pub open spec fn insert_by<T>(leq: spec_fn(T, T) -> bool, s: Seq<T>, x: T) -> Seq<T>
    decreases s.len(),
{
    if s.len() == 0 {
        seq![x]
    } else if leq(s.last(), x) {
        s.push(x)
    } else {
        insert_by(leq, s.drop_last(), x).push(s.last())
    }
}

/// Stable insertion sort of `s` under `leq`: elements are inserted left to
/// right, so elements `leq` places in either order keep their original order.
pub open spec fn sort_by_key<T>(leq: spec_fn(T, T) -> bool, s: Seq<T>) -> Seq<T>
    decreases s.len(),
{
    if s.len() == 0 {
        Seq::empty()
    } else {
        insert_by(leq, sort_by_key(leq, s.drop_last()), s.last())
    }
}

/// Inserting `x` at the first position `k` from the right whose predecessor
/// compares at-or-below `x` is what `insert_by` computes.
pub proof fn lemma_insert_by_position<T>(leq: spec_fn(T, T) -> bool, s: Seq<T>, x: T, k: int)
    requires
        0 <= k <= s.len(),
        forall|m: int| k <= m < s.len() ==> !leq(#[trigger] s[m], x),
        k > 0 ==> leq(s[k - 1], x),
    ensures
        insert_by(leq, s, x) =~= s.insert(k, x),
    decreases s.len(),
{
    if s.len() == 0 {
    } else if leq(s.last(), x) {
        assert(k == s.len());
    } else {
        assert(k < s.len());
        lemma_insert_by_position(leq, s.drop_last(), x, k);
        assert(insert_by(leq, s.drop_last(), x) =~= s.drop_last().insert(k, x));
        assert(s.drop_last().insert(k, x).push(s.last()) =~= s.insert(k, x));
    }
}

/// Decide whether `a` precedes `b` in strict lexicographic order.
pub fn str_lt(a: &str, b: &str) -> (r: bool)
    ensures
        r == lex_lt(a@, b@),
{
    let an = a.unicode_len();
    let bn = b.unicode_len();
    let mut i: usize = 0;
    while i < an && i < bn
        invariant
            an == a@.len(),
            bn == b@.len(),
            0 <= i <= an,
            0 <= i <= bn,
            forall|j: int| 0 <= j < i ==> (a@[j] as u32) == (b@[j] as u32),
        decreases an - i,
    {
        let ca = a.get_char(i);
        let cb = b.get_char(i);
        if (ca as u32) < (cb as u32) {
            proof {
                lemma_lex_lt_skip(a@, b@, i as int);
            }
            return true;
        }
        if (cb as u32) < (ca as u32) {
            proof {
                lemma_lex_lt_skip(a@, b@, i as int);
            }
            return false;
        }
        i = i + 1;
    }
    proof {
        lemma_lex_lt_skip(a@, b@, i as int);
        if i < an {
            assert(b@.skip(i as int).len() == 0);
        } else if i < bn {
            assert(a@.skip(i as int).len() == 0);
            assert(b@.skip(i as int).len() > 0);
        } else {
            assert(a@.skip(i as int).len() == 0);
            assert(b@.skip(i as int).len() == 0);
        }
    }
    an < bn
}

/// What insertion guarantees: one more element, the multiset grown by `x`,
/// no foreign elements, and sortedness kept when `leq` is a total preorder.
pub proof fn lemma_insert_by_props<T>(leq: spec_fn(T, T) -> bool, s: Seq<T>, x: T)
    requires
        transitive(leq),
        strongly_connected(leq),
    ensures
        insert_by(leq, s, x).len() == s.len() + 1,
        insert_by(leq, s, x).to_multiset() == s.to_multiset().insert(x),
        forall|i: int|
            0 <= i < insert_by(leq, s, x).len() ==> insert_by(leq, s, x)[i] == x || s.contains(
                #[trigger] insert_by(leq, s, x)[i],
            ),
        sorted_by(s, leq) ==> sorted_by(insert_by(leq, s, x), leq),
    decreases s.len(),
{
    broadcast use group_to_multiset_ensures;

    let out = insert_by(leq, s, x);
    if s.len() == 0 {
        assert(out =~= Seq::empty().push(x));
        assert(out.to_multiset() =~= s.to_multiset().insert(x));
    } else if leq(s.last(), x) {
        assert(out == s.push(x));
        assert(forall|i: int| 0 <= i < s.len() ==> s.contains(#[trigger] s[i]));
        if sorted_by(s, leq) {
            assert forall|i: int, j: int| 0 <= i < j < out.len() implies leq(out[i], out[j]) by {
                if j < s.len() {
                } else {
                    assert(out[j] == x);
                    if i < s.len() - 1 {
                        assert(leq(s[i], s.last()));
                    }
                }
            }
        }
    } else {
        let d = s.drop_last();
        lemma_insert_by_props(leq, d, x);
        let ins = insert_by(leq, d, x);
        assert(out == ins.push(s.last()));
        assert(s =~= d.push(s.last()));
        assert(s.to_multiset() == d.to_multiset().insert(s.last()));
        assert(ins.to_multiset() == d.to_multiset().insert(x));
        assert(out.to_multiset() == d.to_multiset().insert(x).insert(s.last()));
        assert(d.to_multiset().insert(x).insert(s.last()) =~= d.to_multiset().insert(
            s.last(),
        ).insert(x));
        assert forall|i: int|
            0 <= i < out.len() implies out[i] == x || s.contains(#[trigger] out[i]) by {
            if i < ins.len() {
                assert(out[i] == ins[i]);
                if ins[i] != x {
                    assert(d.contains(ins[i]));
                    let w = choose|w: int| 0 <= w < d.len() && d[w] == ins[i];
                    assert(s[w] == ins[i]);
                }
            } else {
                assert(out[i] == s.last());
                assert(s.contains(s.last()));
            }
        }
        if sorted_by(s, leq) {
            assert forall|i: int, j: int| 0 <= i < j < d.len() implies leq(
                #[trigger] d[i],
                #[trigger] d[j],
            ) by {
                assert(leq(s[i], s[j]));
            }
            assert(sorted_by(d, leq));
            assert(sorted_by(ins, leq));
            assert forall|i: int, j: int| 0 <= i < j < out.len() implies leq(out[i], out[j]) by {
                if j < ins.len() {
                } else {
                    assert(out[j] == s.last());
                    assert(out[i] == ins[i]);
                    if ins[i] == x {
                        assert(!leq(s.last(), x));
                        assert(leq(x, s.last()));
                    } else {
                        assert(d.contains(ins[i]));
                        let w = choose|w: int| 0 <= w < d.len() && d[w] == ins[i];
                        assert(leq(s[w], s.last()));
                    }
                }
            }
        }
    }
}

/// What the insertion sort guarantees as a whole: the same elements, in an
/// order sorted by `leq`, when `leq` is a total preorder.
pub proof fn lemma_sort_by_key_props<T>(leq: spec_fn(T, T) -> bool, s: Seq<T>)
    requires
        transitive(leq),
        strongly_connected(leq),
    ensures
        sort_by_key(leq, s).len() == s.len(),
        sort_by_key(leq, s).to_multiset() == s.to_multiset(),
        sorted_by(sort_by_key(leq, s), leq),
    decreases s.len(),
{
    broadcast use group_to_multiset_ensures;

    if s.len() == 0 {
        assert(sort_by_key(leq, s).to_multiset() =~= s.to_multiset());
    } else {
        let d = s.drop_last();
        lemma_sort_by_key_props(leq, d);
        lemma_insert_by_props(leq, sort_by_key(leq, d), s.last());
        assert(s =~= d.push(s.last()));
        assert(s.to_multiset() == d.to_multiset().insert(s.last()));
    }
}

} // verus!
