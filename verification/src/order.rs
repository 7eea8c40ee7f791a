//! Lexicographic ordering of entry names, and a verified sort.
//!
//! Entry names are compared character by character, by code point.  This is
//! the order that recovers insertion order for containers written under the
//! zero-padded naming scheme, and a deterministic page order for any other
//! container.

use vstd::prelude::*;
use vstd::relations::{sorted_by, total_ordering};
use vstd::string::StrSliceExecFns;

verus! {

/// Lexicographic "less than or equal", by code point.
pub open spec fn lex_le(a: Seq<char>, b: Seq<char>) -> bool
    decreases a.len(),
{
    if a.len() == 0 {
        true
    } else if b.len() == 0 {
        false
    } else if a[0] < b[0] {
        true
    } else if a[0] > b[0] {
        false
    } else {
        lex_le(a.drop_first(), b.drop_first())
    }
}

/// `lex_le` as a binary relation value, for `sorted_by` and friends.
pub open spec fn lex_leq() -> spec_fn(Seq<char>, Seq<char>) -> bool {
    |a: Seq<char>, b: Seq<char>| lex_le(a, b)
}

proof fn lemma_lex_le_refl(a: Seq<char>)
    ensures
        lex_le(a, a),
    decreases a.len(),
{
    if a.len() > 0 {
        lemma_lex_le_refl(a.drop_first());
    }
}

proof fn lemma_lex_le_antisym(a: Seq<char>, b: Seq<char>)
    requires
        lex_le(a, b),
        lex_le(b, a),
    ensures
        a == b,
    decreases a.len(),
{
    if a.len() == 0 {
        assert(b.len() == 0);
        assert(a =~= b);
    } else {
        assert(b.len() > 0);
        lemma_lex_le_antisym(a.drop_first(), b.drop_first());
        assert(a.drop_first().len() == b.drop_first().len());
        assert(a.len() == b.len());
        assert(a[0] == b[0]);
        assert forall|k: int| 0 <= k < a.len() implies a[k] == b[k] by {
            if k > 0 {
                assert(a[k] == a.drop_first()[k - 1]);
                assert(b[k] == b.drop_first()[k - 1]);
            }
        }
        assert(a =~= b);
    }
}

proof fn lemma_lex_le_trans(a: Seq<char>, b: Seq<char>, c: Seq<char>)
    requires
        lex_le(a, b),
        lex_le(b, c),
    ensures
        lex_le(a, c),
    decreases a.len(),
{
    if a.len() > 0 && b.len() > 0 && c.len() > 0 {
        if a[0] == b[0] && b[0] == c[0] {
            lemma_lex_le_trans(a.drop_first(), b.drop_first(), c.drop_first());
        }
    }
}

proof fn lemma_lex_le_connected(a: Seq<char>, b: Seq<char>)
    ensures
        lex_le(a, b) || lex_le(b, a),
    decreases a.len(),
{
    if a.len() > 0 && b.len() > 0 && a[0] == b[0] {
        lemma_lex_le_connected(a.drop_first(), b.drop_first());
    }
}

/// The lexicographic order is a total order, so sorting by it is
/// well-behaved and a sorted arrangement of distinct names is unique.
pub proof fn lemma_lex_total_ordering()
    ensures
        total_ordering(lex_leq()),
{
    assert forall|a: Seq<char>| #[trigger] lex_leq()(a, a) by {
        lemma_lex_le_refl(a);
    }
    assert forall|a: Seq<char>, b: Seq<char>|
        #[trigger] lex_leq()(a, b) && #[trigger] lex_leq()(b, a) implies a == b by {
        lemma_lex_le_antisym(a, b);
    }
    assert forall|a: Seq<char>, b: Seq<char>, c: Seq<char>|
        #[trigger] lex_leq()(a, b) && #[trigger] lex_leq()(b, c) implies lex_leq()(a, c) by {
        lemma_lex_le_trans(a, b, c);
    }
    assert forall|a: Seq<char>, b: Seq<char>| #[trigger] lex_leq()(a, b) || #[trigger] lex_leq()(
        b,
        a,
    ) by {
        lemma_lex_le_connected(a, b);
    }
}

/// Whether `a` comes at or before `b` in lexicographic order.
pub fn str_lex_le(a: &str, b: &str) -> (r: bool)
    ensures
        r == lex_le(a@, b@),
{
    let a_len = a.unicode_len();
    let b_len = b.unicode_len();
    let mut i: usize = 0;

    proof {
        assert(a@.skip(0int) =~= a@);
        assert(b@.skip(0int) =~= b@);
    }

    loop
        invariant
            i <= a_len,
            i <= b_len,
            a_len == a@.len(),
            b_len == b@.len(),
            lex_le(a@, b@) == lex_le(a@.skip(i as int), b@.skip(i as int)),
        decreases a_len - i,
    {
        if i >= a_len {
            return true;
        }
        if i >= b_len {
            return false;
        }

        let ca = a.get_char(i);
        let cb = b.get_char(i);
        if ca < cb {
            return true;
        }
        if ca > cb {
            return false;
        }

        proof {
            assert(a@.skip(i as int).drop_first() =~= a@.skip(i + 1));
            assert(b@.skip(i as int).drop_first() =~= b@.skip(i + 1));
        }
        i = i + 1;
    }
}

/// The names of `v`, arranged in lexicographic order.
pub fn sorted_names(v: &Vec<String>) -> (r: Vec<String>)
    ensures
        r.deep_view().to_multiset() == v.deep_view().to_multiset(),
        sorted_by(r.deep_view(), lex_leq()),
{
    broadcast use vstd::seq_lib::group_to_multiset_ensures;

    let mut out: Vec<String> = Vec::new();
    let mut i: usize = 0;

    proof {
        assert(out.deep_view() =~= Seq::<Seq<char>>::empty());
        assert(v.deep_view().take(0int) =~= Seq::<Seq<char>>::empty());
    }

    while i < v.len()
        invariant
            i <= v.len(),
            out.deep_view().to_multiset() == v.deep_view().take(i as int).to_multiset(),
            sorted_by(out.deep_view(), lex_leq()),
        decreases v.len() - i,
    {
        let s = v[i].clone();
        proof {
            assert(s@ == v.deep_view()[i as int]);
        }
        let mut p: usize = 0;

        loop
            invariant_except_break
                p <= out.len(),
                forall|k: int| 0 <= k < p ==> !lex_le(s@, out.deep_view()[k]),
            ensures
                p <= out.len(),
                forall|k: int| 0 <= k < p ==> !lex_le(s@, out.deep_view()[k]),
                p < out.len() ==> lex_le(s@, out.deep_view()[p as int]),
            decreases out.len() - p,
        {
            if p >= out.len() {
                break ;
            }
            if str_lex_le(&s, out[p].as_str()) {
                break ;
            }
            p = p + 1;
        }

        proof {
            let old_out = out.deep_view();
            assert forall|k: int| 0 <= k < p implies #[trigger] lex_le(old_out[k], s@) by {
                lemma_lex_le_connected(s@, old_out[k]);
            }
        }

        let ghost pre = out.deep_view();
        out.insert(p, s);

        proof {
            assert(out.deep_view() =~= pre.insert(p as int, v.deep_view()[i as int]));
            vstd::seq_lib::to_multiset_insert(pre, p as int, v.deep_view()[i as int]);
            assert(v.deep_view().take(i + 1).drop_last() =~= v.deep_view().take(i as int));
            assert(v.deep_view().take(i + 1).last() == v.deep_view()[i as int]);
            assert(v.deep_view().take(i + 1) =~= v.deep_view().take(i as int).push(
                v.deep_view()[i as int],
            ));
            vstd::seq_lib::to_multiset_build(v.deep_view().take(i as int), v.deep_view()[i as int]);
            assert(out.deep_view().to_multiset() == v.deep_view().take(i + 1).to_multiset());

            let inserted = pre.insert(p as int, v.deep_view()[i as int]);
            assert forall|x: int, y: int|
                0 <= x < y < inserted.len() implies #[trigger] lex_leq()(
                inserted[x],
                inserted[y],
            ) by {
                if y < p {
                    assert(lex_leq()(pre[x], pre[y]));
                } else if x < p && y == p {
                    assert(lex_le(pre[x], v.deep_view()[i as int]));
                } else if x < p && y > p {
                    assert(lex_leq()(pre[x], pre[y - 1]));
                } else if x == p {
                    assert(lex_le(v.deep_view()[i as int], pre[p as int]));
                    if y - 1 > p {
                        assert(lex_leq()(pre[p as int], pre[y - 1]));
                        lemma_lex_le_trans(v.deep_view()[i as int], pre[p as int], pre[y - 1]);
                    }
                } else {
                    assert(lex_leq()(pre[x - 1], pre[y - 1]));
                }
            }
        }

        i = i + 1;
    }

    proof {
        assert(v.deep_view().take(i as int) =~= v.deep_view());
    }
    out
}

} // verus!
