//! Partitioning documents into named groups, each in order.
use std::collections::HashMap;
use vstd::hash_map::StringHashMap;
use vstd::prelude::*;

use crate::document::Document;
use crate::field::{field_of_name, is_known_name, Field};
use crate::keys::{group_key, key_of};
use crate::sort::{lemma_stable_sort_permutes, sort_documents, stable_sort, ties_with};
use vstd::multiset::{group_multiset_axioms, Multiset};
use vstd::seq_lib::group_to_multiset_ensures;

verus! {

broadcast use vstd::hash_map::group_hash_map_axioms;

/// The documents of `docs` whose group key under `g` is `k`, in their given
/// order.
pub open spec fn members(g: Field, lookup: Map<u64, String>, docs: Seq<Document>, k: Seq<char>) -> Seq<
    Document,
>
    decreases docs.len(),
{
    if docs.len() == 0 {
        Seq::empty()
    } else {
        let m = members(g, lookup, docs.drop_last(), k);
        if group_key(g, docs.last(), lookup) == k {
            m.push(docs.last())
        } else {
            m
        }
    }
}

/// The distinct group keys of `docs` under `g`, in order of first appearance.
pub open spec fn keys_in_order(g: Field, lookup: Map<u64, String>, docs: Seq<Document>) -> Seq<
    Seq<char>,
>
    decreases docs.len(),
{
    if docs.len() == 0 {
        Seq::empty()
    } else {
        let ks = keys_in_order(g, lookup, docs.drop_last());
        let k = group_key(g, docs.last(), lookup);
        if ks.contains(k) {
            ks
        } else {
            ks.push(k)
        }
    }
}

/// The final order of one group: stably ordered by `s`, then reversed when
/// `descending`.
pub open spec fn arrange(
    s: Field,
    lookup: Map<u64, String>,
    docs: Seq<Document>,
    descending: bool,
) -> Seq<Document> {
    let r = stable_sort(s, lookup, docs);
    if descending {
        r.reverse()
    } else {
        r
    }
}

/// One group for each key of `ks`, holding the documents of `docs` with
/// that key arranged by `s`.
pub open spec fn arranged_groups(
    docs: Seq<Document>,
    lookup: Map<u64, String>,
    g: Field,
    s: Field,
    descending: bool,
    ks: Seq<Seq<char>>,
) -> Seq<(Seq<char>, Seq<Document>)> {
    ks.map_values(|k: Seq<char>| (k, arrange(s, lookup, members(g, lookup, docs, k), descending)))
}

/// The groups of `docs`: one per distinct key under `g`, in order of first
/// appearance, each holding the documents with that key arranged by `s`.
pub open spec fn grouping(
    docs: Seq<Document>,
    lookup: Map<u64, String>,
    g: Field,
    s: Field,
    descending: bool,
) -> Seq<(Seq<char>, Seq<Document>)> {
    arranged_groups(docs, lookup, g, s, descending, keys_in_order(g, lookup, docs))
}

/// The groups of `docs` with the attributes given by selector names.
pub open spec fn grouping_by_names(
    docs: Seq<Document>,
    lookup: Map<u64, String>,
    group_by: Seq<char>,
    sort_by: Seq<char>,
    descending: bool,
) -> Seq<(Seq<char>, Seq<Document>)> {
    grouping(docs, lookup, field_of_name(group_by), field_of_name(sort_by), descending)
}

/// The keys are distinct.
pub proof fn lemma_keys_distinct(g: Field, lookup: Map<u64, String>, docs: Seq<Document>)
    ensures
        keys_in_order(g, lookup, docs).no_duplicates(),
    decreases docs.len(),
{
    if docs.len() > 0 {
        lemma_keys_distinct(g, lookup, docs.drop_last());
    }
}

/// A key that no document has has no members.
pub proof fn lemma_members_of_absent_key(
    g: Field,
    lookup: Map<u64, String>,
    docs: Seq<Document>,
    k: Seq<char>,
)
    requires
        !keys_in_order(g, lookup, docs).contains(k),
    ensures
        members(g, lookup, docs, k) == Seq::<Document>::empty(),
    decreases docs.len(),
{
    if docs.len() > 0 {
        let ks = keys_in_order(g, lookup, docs.drop_last());
        if ks.contains(k) {
            let j = choose|j: int| 0 <= j < ks.len() && ks[j] == k;
            let last = group_key(g, docs.last(), lookup);
            if !ks.contains(last) {
                assert(ks.push(last)[j] == k);
            }
        }
        if group_key(g, docs.last(), lookup) == k {
            if !ks.contains(k) {
                assert(ks.push(k)[ks.len() as int] == k);
            }
        }
        lemma_members_of_absent_key(g, lookup, docs.drop_last(), k);
    }
}

/// The documents that share one group key.
pub struct DocumentGroup {
    pub key: String,
    pub documents: Vec<Document>,
}

/// Documents partitioned by key; no two groups have the same key.
pub struct GroupedDocuments {
    pub groups: Vec<DocumentGroup>,
}

impl View for GroupedDocuments {
    type V = Seq<(Seq<char>, Seq<Document>)>;

    open spec fn view(&self) -> Seq<(Seq<char>, Seq<Document>)> {
        self.groups@.map_values(|grp: DocumentGroup| (grp.key@, grp.documents@))
    }
}

impl GroupedDocuments {
    /// The number of groups.
    pub fn len(&self) -> (r: usize)
        ensures
            r == self@.len(),
    {
        self.groups.len()
    }

    /// The documents of the first group whose key is `key`, if there is one.
    pub fn get(&self, key: &str) -> (r: Option<&Vec<Document>>)
        ensures
            match r {
                Some(v) => exists|i: int|
                    0 <= i < self@.len() && (#[trigger] self@[i]).0 == key@ && self@[i].1 == v@,
                None => forall|i: int| 0 <= i < self@.len() ==> (#[trigger] self@[i]).0 != key@,
            },
    {
        let wanted = key.to_owned();
        let mut i: usize = 0;
        while i < self.groups.len()
            invariant
                wanted@ == key@,
                i <= self.groups@.len(),
                forall|j: int| 0 <= j < i ==> (#[trigger] self@[j]).0 != key@,
            decreases self.groups@.len() - i,
        {
            if self.groups[i].key == wanted {
                assert(self@[i as int].0 == key@);
                return Some(&self.groups[i].documents);
            }
            i = i + 1;
        }
        None
    }
}

/// Reverses the order of the documents.
fn reverse_documents(documents: Vec<Document>) -> (r: Vec<Document>)
    ensures
        r@ == documents@.reverse(),
{
    let ghost all = documents@;
    let mut rest = documents;
    let mut out: Vec<Document> = Vec::new();
    while rest.len() > 0
        invariant
            rest@ == all.take(rest@.len() as int),
            out@ == all.skip(rest@.len() as int).reverse(),
            rest@.len() <= all.len(),
        decreases rest@.len(),
    {
        let ghost n = rest@.len() as int;
        let d = rest.pop().unwrap();
        proof {
            assert(all.skip(n - 1).reverse() =~= all.skip(n).reverse().push(all[n - 1]));
            assert(all.take(n - 1) =~= all.take(n).drop_last());
        }
        out.push(d);
    }
    proof {
        assert(all.skip(0) =~= all);
    }
    out
}

/// Partitions the documents by the key that `group_by` derives, orders each
/// group stably by `sort_by`, and reverses each group when `descending`.
pub fn group_documents_by(
    documents: Vec<Document>,
    correspondents: &HashMap<u64, String>,
    group_by: Field,
    sort_by: Field,
    descending: bool,
) -> (r: GroupedDocuments)
    ensures
        r@ == grouping(documents@, correspondents@, group_by, sort_by, descending),
{
    let ghost all = documents@;
    let ghost lookup = correspondents@;
    let mut index: StringHashMap<usize> = StringHashMap::new();
    let mut parts: Vec<DocumentGroup> = Vec::new();
    for d in it: documents.into_iter()
        invariant
            it.seq() == all,
            lookup == correspondents@,
            parts@.len() == keys_in_order(group_by, lookup, all.take(it.index() as int)).len(),
            forall|i: int|
                0 <= i < parts@.len() ==> {
                    let k = keys_in_order(group_by, lookup, all.take(it.index() as int))[i];
                    &&& (#[trigger] parts@[i]).key@ == k
                    &&& parts@[i].documents@ == members(
                        group_by,
                        lookup,
                        all.take(it.index() as int),
                        k,
                    )
                },
            forall|k: Seq<char>|
                #[trigger] index@.contains_key(k) <==> keys_in_order(
                    group_by,
                    lookup,
                    all.take(it.index() as int),
                ).contains(k),
            forall|k: Seq<char>|
                #[trigger] index@.contains_key(k) ==> index@[k] < parts@.len() && keys_in_order(
                    group_by,
                    lookup,
                    all.take(it.index() as int),
                )[index@[k] as int] == k,
    {
        let ghost done = all.take(it.index() as int);
        let ghost next = all.take(it.index() as int + 1);
        proof {
            assert(next.drop_last() =~= done);
            assert(next.last() == d);
            lemma_keys_distinct(group_by, lookup, done);
        }
        let key = key_of(group_by, &d, correspondents);
        let ghost ks = keys_in_order(group_by, lookup, done);
        let ghost old_parts = parts@;
        match index.get(key.as_str()) {
            Some(i) => {
                let i = *i;
                proof {
                    assert(index@.contains_key(key@));
                    assert(ks.contains(key@));
                }
                parts[i].documents.push(d);
                proof {
                    assert(keys_in_order(group_by, lookup, next) == ks);
                    assert forall|j: int| 0 <= j < parts@.len() implies {
                        let k = ks[j];
                        &&& (#[trigger] parts@[j]).key@ == k
                        &&& parts@[j].documents@ == members(group_by, lookup, next, k)
                    } by {
                        if j != i {
                            assert(parts@[j] == old_parts[j]);
                            assert(ks[j] != ks[i as int]);
                        }
                    }
                }
            },
            None => {
                proof {
                    assert(!index@.contains_key(key@));
                    assert(!ks.contains(key@));
                }
                let n = parts.len();
                index.insert(key.clone(), n);
                let mut documents: Vec<Document> = Vec::new();
                documents.push(d);
                parts.push(DocumentGroup { key, documents });
                proof {
                    let nks = keys_in_order(group_by, lookup, next);
                    assert(nks == ks.push(key@));
                    assert(members(group_by, lookup, done, key@) =~= Seq::empty()) by {
                        lemma_members_of_absent_key(group_by, lookup, done, key@);
                    }
                    assert forall|j: int| 0 <= j < parts@.len() implies {
                        let k = nks[j];
                        &&& (#[trigger] parts@[j]).key@ == k
                        &&& parts@[j].documents@ == members(group_by, lookup, next, k)
                    } by {
                        if j < n {
                            assert(parts@[j] == old_parts[j]);
                            assert(ks[j] != key@);
                        } else {
                            assert(documents@ =~= Seq::empty().push(d));
                        }
                    }
                    assert forall|k: Seq<char>| #[trigger]
                        index@.contains_key(k) <==> nks.contains(k) by {
                        if k == key@ {
                            assert(nks[n as int] == k);
                        } else if ks.contains(k) {
                            let j = choose|j: int| 0 <= j < ks.len() && ks[j] == k;
                            assert(nks[j] == k);
                        } else if nks.contains(k) {
                            let j = choose|j: int| 0 <= j < nks.len() && nks[j] == k;
                            assert(ks[j] == k);
                        }
                    }
                }
            },
        }
    }
    let ghost keys = keys_in_order(group_by, lookup, all);
    let ghost ps = parts@;
    proof {
        assert(all.take(all.len() as int) =~= all);
    }
    let mut groups: Vec<DocumentGroup> = Vec::new();
    for grp in jt: parts.into_iter()
        invariant
            jt.seq() == ps,
            lookup == correspondents@,
            keys == keys_in_order(group_by, lookup, all),
            ps.len() == keys.len(),
            forall|i: int|
                0 <= i < ps.len() ==> (#[trigger] ps[i]).key@ == keys[i]
                    && ps[i].documents@ == members(group_by, lookup, all, keys[i]),
            groups@.len() == jt.index(),
            forall|i: int|
                0 <= i < jt.index() ==> (#[trigger] groups@[i]).key@ == keys[i]
                    && groups@[i].documents@ == arrange(
                    sort_by,
                    lookup,
                    members(group_by, lookup, all, keys[i]),
                    descending,
                ),
    {
        proof {
            assert(grp == ps[jt.index() as int]);
        }
        let sorted = sort_documents(grp.documents, sort_by, correspondents);
        let documents = if descending {
            reverse_documents(sorted)
        } else {
            sorted
        };
        groups.push(DocumentGroup { key: grp.key, documents });
    }
    let r = GroupedDocuments { groups };
    proof {
        assert(r@ =~= grouping(all, lookup, group_by, sort_by, descending));
    }
    r
}

/// Partitions the documents by the attribute named by `group_by`, orders
/// each group stably by the attribute named by `sort_by`, and reverses each
/// group when `sort_desc`. The names are `"ID"`, `"ASN"`, `"Correspondent"`,
/// `"Title"` and `"Created Date"`; any other name selects the identifier.
pub fn group_documents(
    documents: Vec<Document>,
    correspondents: &HashMap<u64, String>,
    group_by: &str,
    sort_by: &str,
    sort_desc: bool,
) -> (r: GroupedDocuments)
    ensures
        r@ == grouping_by_names(documents@, correspondents@, group_by@, sort_by@, sort_desc),
{
    group_documents_by(
        documents,
        correspondents,
        Field::from_name(group_by),
        Field::from_name(sort_by),
        sort_desc,
    )
}

/// All documents of all groups, counted with multiplicity.
pub open spec fn all_grouped(groups: Seq<(Seq<char>, Seq<Document>)>) -> Multiset<Document>
    decreases groups.len(),
{
    if groups.len() == 0 {
        Multiset::empty()
    } else {
        all_grouped(groups.drop_last()).add(groups.last().1.to_multiset())
    }
}

/// The members of `docs` for each key of `ks`, counted with multiplicity.
pub open spec fn all_members(
    g: Field,
    lookup: Map<u64, String>,
    docs: Seq<Document>,
    ks: Seq<Seq<char>>,
) -> Multiset<Document>
    decreases ks.len(),
{
    if ks.len() == 0 {
        Multiset::empty()
    } else {
        all_members(g, lookup, docs, ks.drop_last()).add(
            members(g, lookup, docs, ks.last()).to_multiset(),
        )
    }
}

proof fn lemma_members_contains(
    g: Field,
    lookup: Map<u64, String>,
    docs: Seq<Document>,
    k: Seq<char>,
    d: Document,
)
    ensures
        members(g, lookup, docs, k).contains(d) <==> (docs.contains(d) && group_key(g, d, lookup)
            == k),
    decreases docs.len(),
{
    if docs.len() > 0 {
        let prev = docs.drop_last();
        lemma_members_contains(g, lookup, prev, k, d);
        let m = members(g, lookup, prev, k);
        assert(docs =~= prev.push(docs.last()));
        if prev.contains(d) {
            let j = choose|j: int| 0 <= j < prev.len() && prev[j] == d;
            assert(docs[j] == d);
        }
        if docs.contains(d) && d != docs.last() {
            let j = choose|j: int| 0 <= j < docs.len() && docs[j] == d;
            assert(prev[j] == d);
        }
        if group_key(g, docs.last(), lookup) == k {
            assert(m.push(docs.last())[m.len() as int] == docs.last());
            if m.contains(d) {
                let j = choose|j: int| 0 <= j < m.len() && m[j] == d;
                assert(m.push(docs.last())[j] == d);
            }
            if m.push(docs.last()).contains(d) && d != docs.last() {
                let j = choose|j: int| 0 <= j < m.len() + 1 && m.push(docs.last())[j] == d;
                assert(m[j] == d);
            }
        }
    }
}

proof fn lemma_keys_contains(g: Field, lookup: Map<u64, String>, docs: Seq<Document>, d: Document)
    requires
        docs.contains(d),
    ensures
        keys_in_order(g, lookup, docs).contains(group_key(g, d, lookup)),
    decreases docs.len(),
{
    let prev = docs.drop_last();
    let ks = keys_in_order(g, lookup, prev);
    let k = group_key(g, d, lookup);
    if d == docs.last() {
        if !ks.contains(k) {
            assert(ks.push(k)[ks.len() as int] == k);
        }
    } else {
        let j = choose|j: int| 0 <= j < docs.len() && docs[j] == d;
        assert(prev[j] == d);
        lemma_keys_contains(g, lookup, prev, d);
        let i = choose|i: int| 0 <= i < ks.len() && ks[i] == k;
        let last = group_key(g, docs.last(), lookup);
        if !ks.contains(last) {
            assert(ks.push(last)[i] == k);
        }
    }
}

proof fn lemma_all_members_push(
    g: Field,
    lookup: Map<u64, String>,
    docs: Seq<Document>,
    ks: Seq<Seq<char>>,
    x: Document,
)
    requires
        ks.no_duplicates(),
    ensures
        all_members(g, lookup, docs.push(x), ks) == if ks.contains(group_key(g, x, lookup)) {
            all_members(g, lookup, docs, ks).insert(x)
        } else {
            all_members(g, lookup, docs, ks)
        },
    decreases ks.len(),
{
    broadcast use group_to_multiset_ensures, group_multiset_axioms;

    if ks.len() > 0 {
        let prev = ks.drop_last();
        let kl = ks.last();
        let kx = group_key(g, x, lookup);
        assert(docs.push(x).drop_last() =~= docs);
        assert(prev.no_duplicates());
        lemma_all_members_push(g, lookup, docs, prev, x);
        if kx == kl {
            if prev.contains(kx) {
                let j = choose|j: int| 0 <= j < prev.len() && prev[j] == kx;
                assert(ks[j] == ks[ks.len() - 1]);
            }
            assert(ks.contains(kx)) by {
                assert(ks[ks.len() - 1] == kx);
            }
            assert(all_members(g, lookup, docs.push(x), ks) =~= all_members(
                g,
                lookup,
                docs,
                ks,
            ).insert(x));
        } else {
            if ks.contains(kx) {
                let j = choose|j: int| 0 <= j < ks.len() && ks[j] == kx;
                assert(prev[j] == kx);
            }
            if prev.contains(kx) {
                let j = choose|j: int| 0 <= j < prev.len() && prev[j] == kx;
                assert(ks[j] == kx);
            }
            if ks.contains(kx) {
                assert(all_members(g, lookup, docs.push(x), ks) =~= all_members(
                    g,
                    lookup,
                    docs,
                    ks,
                ).insert(x));
            }
        }
    }
}

proof fn lemma_all_members_keys(g: Field, lookup: Map<u64, String>, docs: Seq<Document>)
    ensures
        all_members(g, lookup, docs, keys_in_order(g, lookup, docs)) == docs.to_multiset(),
    decreases docs.len(),
{
    broadcast use group_to_multiset_ensures, group_multiset_axioms;

    if docs.len() == 0 {
        assert(docs.to_multiset() =~= Multiset::empty());
    } else {
        let prev = docs.drop_last();
        let x = docs.last();
        let ks = keys_in_order(g, lookup, prev);
        let kx = group_key(g, x, lookup);
        lemma_all_members_keys(g, lookup, prev);
        lemma_keys_distinct(g, lookup, prev);
        assert(docs =~= prev.push(x));
        lemma_all_members_push(g, lookup, prev, ks, x);
        if !ks.contains(kx) {
            let nks = ks.push(kx);
            assert(nks.drop_last() =~= ks);
            lemma_members_of_absent_key(g, lookup, prev, kx);
            assert(members(g, lookup, docs, kx) =~= Seq::<Document>::empty().push(x));
            assert(all_members(g, lookup, docs, nks) =~= prev.to_multiset().insert(x));
        }
    }
}

proof fn lemma_all_grouped_members(
    docs: Seq<Document>,
    lookup: Map<u64, String>,
    g: Field,
    s: Field,
    descending: bool,
    ks: Seq<Seq<char>>,
)
    ensures
        all_grouped(arranged_groups(docs, lookup, g, s, descending, ks)) == all_members(
            g,
            lookup,
            docs,
            ks,
        ),
    decreases ks.len(),
{
    if ks.len() > 0 {
        let prev = ks.drop_last();
        lemma_all_grouped_members(docs, lookup, g, s, descending, prev);
        assert(arranged_groups(docs, lookup, g, s, descending, ks).drop_last()
            =~= arranged_groups(docs, lookup, g, s, descending, prev));
        lemma_arrange_permutes(s, lookup, members(g, lookup, docs, ks.last()), descending);
    }
}

proof fn lemma_arrange_permutes(s: Field, lookup: Map<u64, String>, docs: Seq<Document>, descending: bool)
    ensures
        arrange(s, lookup, docs, descending).to_multiset() == docs.to_multiset(),
{
    lemma_stable_sort_permutes(s, lookup, docs);
    stable_sort(s, lookup, docs).lemma_reverse_to_multiset();
}

/// Every document lands in exactly one group: the keys of the groups are
/// distinct, some group has the key of each document, a group holds a
/// document exactly when the document was given and has the group's key,
/// and the groups together hold the given documents, each as often as it was
/// given (so as many documents in all).
pub proof fn lemma_grouping_complete(
    docs: Seq<Document>,
    lookup: Map<u64, String>,
    g: Field,
    s: Field,
    descending: bool,
)
    ensures
        ({
            let r = grouping(docs, lookup, g, s, descending);
            &&& forall|i: int, j: int|
                0 <= i < j < r.len() ==> (#[trigger] r[i]).0 != (#[trigger] r[j]).0
            &&& forall|d: Document|
                docs.contains(d) ==> exists|i: int|
                    0 <= i < r.len() && (#[trigger] r[i]).0 == group_key(g, d, lookup)
            &&& forall|i: int, d: Document|
                0 <= i < r.len() ==> (#[trigger] r[i].1.contains(d) <==> (docs.contains(d)
                    && group_key(g, d, lookup) == r[i].0))
            &&& all_grouped(r) == docs.to_multiset()
            &&& all_grouped(r).len() == docs.len()
        }),
{
    broadcast use group_to_multiset_ensures;

    let ks = keys_in_order(g, lookup, docs);
    let r = grouping(docs, lookup, g, s, descending);
    lemma_keys_distinct(g, lookup, docs);
    assert forall|d: Document| docs.contains(d) implies exists|i: int|
        0 <= i < r.len() && (#[trigger] r[i]).0 == group_key(g, d, lookup) by {
        lemma_keys_contains(g, lookup, docs, d);
        let i = choose|i: int| 0 <= i < ks.len() && ks[i] == group_key(g, d, lookup);
        assert(r[i].0 == ks[i]);
    }
    assert forall|i: int, d: Document| 0 <= i < r.len() implies (#[trigger] r[i].1.contains(d)
        <==> (docs.contains(d) && group_key(g, d, lookup) == r[i].0)) by {
        let m = members(g, lookup, docs, ks[i]);
        lemma_members_contains(g, lookup, docs, ks[i], d);
        lemma_arrange_permutes(s, lookup, m, descending);
        assert(r[i].1 == arrange(s, lookup, m, descending));
        assert(r[i].1.to_multiset() == m.to_multiset());
        assert(r[i].1.contains(d) <==> r[i].1.to_multiset().count(d) > 0);
        assert(m.contains(d) <==> m.to_multiset().count(d) > 0);
    }
    lemma_all_grouped_members(docs, lookup, g, s, descending, ks);
    lemma_all_members_keys(g, lookup, docs);
}

/// A document without a correspondent, or with one that the lookup does not
/// know, is filed under "Unknown Correspondent" when grouping by
/// correspondent.
pub proof fn lemma_unknown_correspondent_group(
    docs: Seq<Document>,
    lookup: Map<u64, String>,
    s: Field,
    descending: bool,
    d: Document,
)
    requires
        docs.contains(d),
        d.correspondent is None || !lookup.contains_key(d.correspondent->Some_0),
    ensures
        group_key(Field::Correspondent, d, lookup) == "Unknown Correspondent"@,
        exists|i: int|
            0 <= i < grouping(docs, lookup, Field::Correspondent, s, descending).len() && {
                let grp = #[trigger] grouping(docs, lookup, Field::Correspondent, s, descending)[i];
                grp.0 == "Unknown Correspondent"@ && grp.1.contains(d)
            },
{
    lemma_grouping_complete(docs, lookup, Field::Correspondent, s, descending);
    let r = grouping(docs, lookup, Field::Correspondent, s, descending);
    let i = choose|i: int|
        0 <= i < r.len() && (#[trigger] r[i]).0 == group_key(Field::Correspondent, d, lookup);
    assert(r[i].1.contains(d));
}

/// A selector name that is not recognised behaves as `"ID"`, for grouping
/// and for ordering alike.
pub proof fn lemma_unknown_selector_falls_back(
    docs: Seq<Document>,
    lookup: Map<u64, String>,
    group_by: Seq<char>,
    sort_by: Seq<char>,
    descending: bool,
)
    ensures
        !is_known_name(group_by) ==> grouping_by_names(docs, lookup, group_by, sort_by, descending)
            == grouping_by_names(docs, lookup, "ID"@, sort_by, descending),
        !is_known_name(sort_by) ==> grouping_by_names(docs, lookup, group_by, sort_by, descending)
            == grouping_by_names(docs, lookup, group_by, "ID"@, descending),
{
}

/// Within a group in ascending order, documents that tie in the order by `s`
/// keep the order in which they were given.
pub proof fn lemma_group_keeps_given_order(
    docs: Seq<Document>,
    lookup: Map<u64, String>,
    g: Field,
    s: Field,
    i: int,
    e: Document,
)
    requires
        0 <= i < grouping(docs, lookup, g, s, false).len(),
    ensures
        ({
            let grp = grouping(docs, lookup, g, s, false)[i];
            ties_with(s, lookup, grp.1, e) == ties_with(s, lookup, members(g, lookup, docs, grp.0), e)
        }),
{
    let k = keys_in_order(g, lookup, docs)[i];
    crate::sort::lemma_stable_sort_keeps_ties(s, lookup, members(g, lookup, docs, k), e);
}

/// Descending order gives the same groups, each the exact reverse of its
/// ascending order.
pub proof fn lemma_descending_reverses(
    docs: Seq<Document>,
    lookup: Map<u64, String>,
    g: Field,
    s: Field,
)
    ensures
        grouping(docs, lookup, g, s, true).len() == grouping(docs, lookup, g, s, false).len(),
        forall|i: int|
            0 <= i < grouping(docs, lookup, g, s, true).len() ==> {
                let down = #[trigger] grouping(docs, lookup, g, s, true)[i];
                let up = grouping(docs, lookup, g, s, false)[i];
                down.0 == up.0 && down.1 == up.1.reverse()
            },
{
}

/// Grouping is a function of its inputs: two results for the same inputs
/// are identical.
pub proof fn lemma_grouping_deterministic(
    docs: Seq<Document>,
    lookup: Map<u64, String>,
    g: Field,
    s: Field,
    descending: bool,
    r1: GroupedDocuments,
    r2: GroupedDocuments,
)
    requires
        r1@ == grouping(docs, lookup, g, s, descending),
        r2@ == grouping(docs, lookup, g, s, descending),
    ensures
        r1@ == r2@,
{
}

} // verus!
