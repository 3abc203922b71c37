//! Stable ordering of a list of documents by one attribute.
use std::collections::HashMap;
use vstd::prelude::*;

use crate::document::Document;
use crate::field::Field;
use crate::keys::{
    lemma_sorts_before_irreflexive, lemma_sorts_before_negative_transitive,
    lemma_sorts_before_transitive, sort_tie, sorts_before, sorts_before_exec,
};
use vstd::multiset::group_multiset_axioms;
use vstd::seq_lib::{group_to_multiset_ensures, lemma_multiset_commutative};

verus! {

/// `s` with `x` placed after every element that `x` does not come before,
/// and ahead of the first element that it does come before.
pub open spec fn insert_in_order(
    f: Field,
    lookup: Map<u64, String>,
    x: Document,
    s: Seq<Document>,
) -> Seq<Document>
    decreases s.len(),
{
    if s.len() == 0 {
        seq![x]
    } else if sorts_before(f, x, s[0], lookup) {
        seq![x] + s
    } else {
        seq![s[0]] + insert_in_order(f, lookup, x, s.drop_first())
    }
}

/// The stable ordering of `s` by `f`: each element in turn, in the order of
/// `s`, is placed after all those placed before it that it does not come
/// before.
pub open spec fn stable_sort(f: Field, lookup: Map<u64, String>, s: Seq<Document>) -> Seq<
    Document,
>
    decreases s.len(),
{
    if s.len() == 0 {
        s
    } else {
        insert_in_order(f, lookup, s.last(), stable_sort(f, lookup, s.drop_last()))
    }
}

proof fn lemma_insert_at(f: Field, lookup: Map<u64, String>, x: Document, s: Seq<Document>, p: int)
    requires
        0 <= p <= s.len(),
        forall|j: int| 0 <= j < p ==> !sorts_before(f, x, #[trigger] s[j], lookup),
        p < s.len() ==> sorts_before(f, x, s[p], lookup),
    ensures
        insert_in_order(f, lookup, x, s) == s.insert(p, x),
    decreases s.len(),
{
    if p == 0 {
        assert(s.insert(0, x) =~= seq![x] + s);
    } else {
        let t = s.drop_first();
        assert forall|j: int| 0 <= j < p - 1 implies !sorts_before(f, x, #[trigger] t[j], lookup) by {
            assert(t[j] == s[j + 1]);
        }
        lemma_insert_at(f, lookup, x, t, p - 1);
        assert(s.insert(p, x) =~= seq![s[0]] + t.insert(p - 1, x));
    }
}

/// Places `x` into `out` after every document that it does not come before.
fn insert_document(out: &mut Vec<Document>, x: Document, f: Field, lookup: &HashMap<u64, String>)
    ensures
        final(out)@ == insert_in_order(f, lookup@, x, old(out)@),
{
    let mut p: usize = 0;
    while p < out.len() && !sorts_before_exec(f, &x, &out[p], lookup)
        invariant
            p <= out@.len(),
            forall|j: int| 0 <= j < p ==> !sorts_before(f, x, #[trigger] out@[j], lookup@),
        decreases out@.len() - p,
    {
        p = p + 1;
    }
    proof {
        lemma_insert_at(f, lookup@, x, out@, p as int);
    }
    out.insert(p, x);
}

/// Orders the documents by `f`, keeping documents that tie in their given
/// order.
pub fn sort_documents(documents: Vec<Document>, f: Field, lookup: &HashMap<u64, String>) -> (r: Vec<
    Document,
>)
    ensures
        r@ == stable_sort(f, lookup@, documents@),
{
    let ghost all = documents@;
    let mut out: Vec<Document> = Vec::new();
    for d in it: documents.into_iter()
        invariant
            it.seq() == all,
            out@ == stable_sort(f, lookup@, all.take(it.index() as int)),
    {
        proof {
            assert(all.take(it.index() as int + 1).drop_last() =~= all.take(it.index() as int));
        }
        insert_document(&mut out, d, f, lookup);
    }
    proof {
        assert(all.take(all.len() as int) =~= all);
    }
    out
}

/// No element of `s` comes before an earlier one.
pub open spec fn in_order(f: Field, lookup: Map<u64, String>, s: Seq<Document>) -> bool {
    forall|i: int, j: int|
        0 <= i < j < s.len() ==> !sorts_before(f, #[trigger] s[j], #[trigger] s[i], lookup)
}

/// The elements of `s` that tie with `e` in the order by `f`, in their order
/// in `s`.
pub open spec fn ties_with(f: Field, lookup: Map<u64, String>, s: Seq<Document>, e: Document) -> Seq<
    Document,
> {
    s.filter(|d: Document| sort_tie(f, d, e, lookup))
}

proof fn lemma_insert_in_order_multiset(
    f: Field,
    lookup: Map<u64, String>,
    x: Document,
    s: Seq<Document>,
)
    ensures
        insert_in_order(f, lookup, x, s).to_multiset() =~= s.to_multiset().insert(x),
    decreases s.len(),
{
    broadcast use group_to_multiset_ensures, group_multiset_axioms;

    if s.len() == 0 {
        assert(seq![x] =~= s.push(x));
    } else if sorts_before(f, x, s[0], lookup) {
        lemma_multiset_commutative(seq![x], s);
        assert(seq![x] =~= Seq::<Document>::empty().push(x));
    } else {
        let rest = s.drop_first();
        lemma_insert_in_order_multiset(f, lookup, x, rest);
        lemma_multiset_commutative(seq![s[0]], insert_in_order(f, lookup, x, rest));
        lemma_multiset_commutative(seq![s[0]], rest);
        assert(s =~= seq![s[0]] + rest);
    }
}

/// The stable ordering holds exactly the given documents, each as often.
pub proof fn lemma_stable_sort_permutes(f: Field, lookup: Map<u64, String>, s: Seq<Document>)
    ensures
        stable_sort(f, lookup, s).to_multiset() == s.to_multiset(),
    decreases s.len(),
{
    broadcast use group_to_multiset_ensures;

    if s.len() > 0 {
        lemma_stable_sort_permutes(f, lookup, s.drop_last());
        lemma_insert_in_order_multiset(f, lookup, s.last(), stable_sort(f, lookup, s.drop_last()));
        assert(s =~= s.drop_last().push(s.last()));
    }
}

proof fn lemma_insert_in_order_in_order(
    f: Field,
    lookup: Map<u64, String>,
    x: Document,
    s: Seq<Document>,
)
    requires
        in_order(f, lookup, s),
    ensures
        in_order(f, lookup, insert_in_order(f, lookup, x, s)),
    decreases s.len(),
{
    broadcast use group_to_multiset_ensures, group_multiset_axioms;

    if s.len() == 0 {
    } else if sorts_before(f, x, s[0], lookup) {
        let r = seq![x] + s;
        assert forall|i: int, j: int| 0 <= i < j < r.len() implies !sorts_before(
            f,
            #[trigger] r[j],
            #[trigger] r[i],
            lookup,
        ) by {
            if i == 0 {
                if sorts_before(f, r[j], x, lookup) {
                    lemma_sorts_before_transitive(f, r[j], x, s[0], lookup);
                    if j == 1 {
                        lemma_sorts_before_irreflexive(f, s[0], lookup);
                    } else {
                        assert(r[j] == s[j - 1]);
                    }
                }
            } else {
                assert(r[i] == s[i - 1] && r[j] == s[j - 1]);
            }
        }
    } else {
        let rest = s.drop_first();
        assert(in_order(f, lookup, rest)) by {
            assert forall|i: int, j: int| 0 <= i < j < rest.len() implies !sorts_before(
                f,
                #[trigger] rest[j],
                #[trigger] rest[i],
                lookup,
            ) by {
                assert(rest[i] == s[i + 1] && rest[j] == s[j + 1]);
            }
        }
        lemma_insert_in_order_in_order(f, lookup, x, rest);
        lemma_insert_in_order_multiset(f, lookup, x, rest);
        let t = insert_in_order(f, lookup, x, rest);
        let r = seq![s[0]] + t;
        assert forall|i: int, j: int| 0 <= i < j < r.len() implies !sorts_before(
            f,
            #[trigger] r[j],
            #[trigger] r[i],
            lookup,
        ) by {
            if i == 0 {
                let y = t[j - 1];
                assert(t.contains(y));
                assert(t.to_multiset().count(y) > 0);
                if y != x {
                    assert(rest.to_multiset().count(y) > 0);
                    let k = choose|k: int| 0 <= k < rest.len() && rest[k] == y;
                    assert(s[k + 1] == y);
                }
            } else {
                assert(r[i] == t[i - 1] && r[j] == t[j - 1]);
            }
        }
    }
}

/// The stable ordering is in order: no document comes before an earlier one.
pub proof fn lemma_stable_sort_in_order(f: Field, lookup: Map<u64, String>, s: Seq<Document>)
    ensures
        in_order(f, lookup, stable_sort(f, lookup, s)),
    decreases s.len(),
{
    if s.len() > 0 {
        lemma_stable_sort_in_order(f, lookup, s.drop_last());
        lemma_insert_in_order_in_order(
            f,
            lookup,
            s.last(),
            stable_sort(f, lookup, s.drop_last()),
        );
    }
}

proof fn lemma_no_ties_after(
    f: Field,
    lookup: Map<u64, String>,
    x: Document,
    s: Seq<Document>,
    e: Document,
)
    requires
        in_order(f, lookup, s),
        s.len() > 0,
        sorts_before(f, x, s[0], lookup),
        sort_tie(f, x, e, lookup),
    ensures
        ties_with(f, lookup, s, e) == Seq::<Document>::empty(),
{
    let p = |d: Document| sort_tie(f, d, e, lookup);
    assert forall|k: int| 0 <= k < s.len() implies !p(#[trigger] s[k]) by {
        let y = s[k];
        if k > 0 {
            assert(!sorts_before(f, s[k], s[0], lookup));
            if !sorts_before(f, x, y, lookup) {
                lemma_sorts_before_negative_transitive(f, x, y, s[0], lookup);
            }
        }
        if sort_tie(f, y, e, lookup) {
            lemma_sorts_before_negative_transitive(f, x, e, y, lookup);
        }
    }
    s.lemma_all_neg_filter_empty(p);
    assert(s.filter(p) =~= Seq::<Document>::empty());
}

proof fn lemma_insert_in_order_ties(
    f: Field,
    lookup: Map<u64, String>,
    x: Document,
    s: Seq<Document>,
    e: Document,
)
    requires
        in_order(f, lookup, s),
    ensures
        ties_with(f, lookup, insert_in_order(f, lookup, x, s), e) == ties_with(
            f,
            lookup,
            s.push(x),
            e,
        ),
    decreases s.len(),
{
    broadcast use vstd::seq_lib::group_seq_lib_default;

    let p = |d: Document| sort_tie(f, d, e, lookup);
    assert(s.push(x) =~= s + seq![x]);
    if s.len() == 0 {
        assert(seq![x] =~= s.push(x));
    } else if sorts_before(f, x, s[0], lookup) {
        if sort_tie(f, x, e, lookup) {
            lemma_no_ties_after(f, lookup, x, s, e);
        } else {
            assert(seq![x].filter(p) =~= Seq::<Document>::empty()) by {
                reveal_with_fuel(Seq::filter, 2);
            }
        }
        assert(seq![x].filter(p) =~= Seq::<Document>::empty() || s.filter(p)
            =~= Seq::<Document>::empty());
    } else {
        let rest = s.drop_first();
        assert(in_order(f, lookup, rest)) by {
            assert forall|i: int, j: int| 0 <= i < j < rest.len() implies !sorts_before(
                f,
                #[trigger] rest[j],
                #[trigger] rest[i],
                lookup,
            ) by {
                assert(rest[i] == s[i + 1] && rest[j] == s[j + 1]);
            }
        }
        lemma_insert_in_order_ties(f, lookup, x, rest, e);
        assert(s =~= seq![s[0]] + rest);
        assert(rest.push(x) =~= rest + seq![x]);
    }
}

/// Documents that tie keep their given order: among the documents that tie
/// with any one document, the stable ordering lists them as `s` does.
pub proof fn lemma_stable_sort_keeps_ties(
    f: Field,
    lookup: Map<u64, String>,
    s: Seq<Document>,
    e: Document,
)
    ensures
        ties_with(f, lookup, stable_sort(f, lookup, s), e) == ties_with(f, lookup, s, e),
    decreases s.len(),
{
    broadcast use vstd::seq_lib::group_seq_lib_default;

    if s.len() > 0 {
        let prev = s.drop_last();
        lemma_stable_sort_keeps_ties(f, lookup, prev, e);
        lemma_stable_sort_in_order(f, lookup, prev);
        lemma_insert_in_order_ties(f, lookup, s.last(), stable_sort(f, lookup, prev), e);
        let p = |d: Document| sort_tie(f, d, e, lookup);
        assert(stable_sort(f, lookup, prev).push(s.last()) =~= stable_sort(f, lookup, prev) + seq![
            s.last(),
        ]);
        assert(s =~= prev + seq![s.last()]);
    }
}

} // verus!
