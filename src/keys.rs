//! Group keys and the sort order derived from a document attribute.
use std::collections::HashMap;
use vstd::prelude::*;
use vstd::utf8::encode_utf8;

use crate::document::Document;
use crate::field::Field;

verus! {

broadcast use vstd::std_specs::hash::group_hash_axioms;

/// The character of a decimal digit.
pub open spec fn digit_char(d: nat) -> char {
    if d == 0 {
        '0'
    } else if d == 1 {
        '1'
    } else if d == 2 {
        '2'
    } else if d == 3 {
        '3'
    } else if d == 4 {
        '4'
    } else if d == 5 {
        '5'
    } else if d == 6 {
        '6'
    } else if d == 7 {
        '7'
    } else if d == 8 {
        '8'
    } else {
        '9'
    }
}

/// The decimal representation of `n`, without sign or leading zeros.
pub open spec fn decimal(n: nat) -> Seq<char>
    decreases n,
{
    if n < 10 {
        seq![digit_char(n)]
    } else {
        decimal(n / 10).push(digit_char(n % 10))
    }
}

/// The name under which documents without a known correspondent are filed.
pub open spec fn unknown_correspondent() -> Seq<char> {
    "Unknown Correspondent"@
}

/// The display name of a document's correspondent, or the fallback name when
/// the document has none or the lookup does not know it.
pub open spec fn correspondent_name(d: Document, lookup: Map<u64, String>) -> Seq<char> {
    match d.correspondent {
        Some(id) => if lookup.contains_key(id) {
            lookup[id]@
        } else {
            unknown_correspondent()
        },
        None => unknown_correspondent(),
    }
}

/// The key under which `d` is grouped when grouping by `f`.
pub open spec fn group_key(f: Field, d: Document, lookup: Map<u64, String>) -> Seq<char> {
    match f {
        Field::Identifier => decimal(d.id as nat),
        Field::ArchiveSerialNumber => decimal(d.archive_serial_number as nat),
        Field::Correspondent => correspondent_name(d, lookup),
        Field::Title => d.title@,
        Field::CreatedDate => d.created_date@,
    }
}

/// Lexicographic order on byte strings; a proper prefix comes first.
pub open spec fn bytes_less(a: Seq<u8>, b: Seq<u8>) -> bool
    decreases a.len(),
{
    if a.len() == 0 {
        b.len() > 0
    } else if b.len() == 0 {
        false
    } else if a[0] != b[0] {
        a[0] < b[0]
    } else {
        bytes_less(a.drop_first(), b.drop_first())
    }
}

/// The order of strings: lexicographic on their UTF-8 encodings.
pub open spec fn text_less(a: Seq<char>, b: Seq<char>) -> bool {
    bytes_less(encode_utf8(a), encode_utf8(b))
}

/// Whether `a` comes strictly before `b` when ordering by `f`: numerically
/// for the identifier and the archive serial number, as text otherwise.
pub open spec fn sorts_before(f: Field, a: Document, b: Document, lookup: Map<u64, String>) -> bool {
    match f {
        Field::Identifier => a.id < b.id,
        Field::ArchiveSerialNumber => a.archive_serial_number < b.archive_serial_number,
        Field::Correspondent => text_less(
            correspondent_name(a, lookup),
            correspondent_name(b, lookup),
        ),
        Field::Title => text_less(a.title@, b.title@),
        Field::CreatedDate => text_less(a.created_date@, b.created_date@),
    }
}

/// Whether neither of `a` and `b` comes before the other when ordering by `f`.
pub open spec fn sort_tie(f: Field, a: Document, b: Document, lookup: Map<u64, String>) -> bool {
    !sorts_before(f, a, b, lookup) && !sorts_before(f, b, a, lookup)
}

/// Relies on `ToString` for `u64`, through its `Display`: the decimal digits
/// of the number, without sign or leading zeros.
#[verifier::external_body]
fn decimal_string(n: u64) -> (r: String)
    ensures
        r@ == decimal(n as nat),
{
    n.to_string()
}

/// The display name of the document's correspondent, borrowed from the
/// lookup, or the fallback name.
pub fn correspondent_name_of<'a>(d: &Document, lookup: &'a HashMap<u64, String>) -> (r: &'a str)
    ensures
        r@ == correspondent_name(*d, lookup@),
{
    match d.correspondent {
        Some(id) => match lookup.get(&id) {
            Some(name) => name.as_str(),
            None => "Unknown Correspondent",
        },
        None => "Unknown Correspondent",
    }
}

/// The key under which the document is grouped when grouping by `f`.
pub fn key_of(f: Field, d: &Document, lookup: &HashMap<u64, String>) -> (r: String)
    ensures
        r@ == group_key(f, *d, lookup@),
{
    match f {
        Field::Identifier => decimal_string(d.id),
        Field::ArchiveSerialNumber => decimal_string(d.archive_serial_number),
        Field::Correspondent => correspondent_name_of(d, lookup).to_owned(),
        Field::Title => d.title.clone(),
        Field::CreatedDate => d.created_date.clone(),
    }
}

proof fn lemma_bytes_less_step(a: Seq<u8>, b: Seq<u8>, i: int)
    requires
        0 <= i < a.len(),
        i < b.len(),
        a[i] == b[i],
    ensures
        bytes_less(a.skip(i), b.skip(i)) == bytes_less(a.skip(i + 1), b.skip(i + 1)),
{
    assert(a.skip(i).drop_first() =~= a.skip(i + 1));
    assert(b.skip(i).drop_first() =~= b.skip(i + 1));
}

/// Whether `a` comes strictly before `b` in the order of strings.
pub fn text_lt(a: &str, b: &str) -> (r: bool)
    ensures
        r == text_less(a@, b@),
{
    let x = a.as_bytes();
    let y = b.as_bytes();
    let mut i: usize = 0;
    proof {
        assert(x@.skip(0) =~= x@);
        assert(y@.skip(0) =~= y@);
    }
    while i < x.len() && i < y.len()
        invariant
            x@ == encode_utf8(a@),
            y@ == encode_utf8(b@),
            0 <= i <= x@.len(),
            i <= y@.len(),
            bytes_less(x@, y@) == bytes_less(x@.skip(i as int), y@.skip(i as int)),
        decreases x@.len() - i,
    {
        if x[i] != y[i] {
            return x[i] < y[i];
        }
        proof {
            lemma_bytes_less_step(x@, y@, i as int);
        }
        i = i + 1;
    }
    i < y.len()
}

/// Whether `a` comes strictly before `b` when ordering by `f`.
pub fn sorts_before_exec(f: Field, a: &Document, b: &Document, lookup: &HashMap<u64, String>) -> (r:
    bool)
    ensures
        r == sorts_before(f, *a, *b, lookup@),
{
    match f {
        Field::Identifier => a.id < b.id,
        Field::ArchiveSerialNumber => a.archive_serial_number < b.archive_serial_number,
        Field::Correspondent => text_lt(
            correspondent_name_of(a, lookup),
            correspondent_name_of(b, lookup),
        ),
        Field::Title => text_lt(a.title.as_str(), b.title.as_str()),
        Field::CreatedDate => text_lt(a.created_date.as_str(), b.created_date.as_str()),
    }
}

} // verus!

verus! {

proof fn lemma_bytes_less_irreflexive(a: Seq<u8>)
    ensures
        !bytes_less(a, a),
    decreases a.len(),
{
    if a.len() > 0 {
        lemma_bytes_less_irreflexive(a.drop_first());
    }
}

proof fn lemma_bytes_less_transitive(a: Seq<u8>, b: Seq<u8>, c: Seq<u8>)
    requires
        bytes_less(a, b),
        bytes_less(b, c),
    ensures
        bytes_less(a, c),
    decreases a.len(),
{
    if a.len() > 0 && b.len() > 0 && c.len() > 0 && a[0] == b[0] && b[0] == c[0] {
        lemma_bytes_less_transitive(a.drop_first(), b.drop_first(), c.drop_first());
    }
}

proof fn lemma_bytes_less_negative_transitive(a: Seq<u8>, b: Seq<u8>, c: Seq<u8>)
    requires
        !bytes_less(a, b),
        !bytes_less(b, c),
    ensures
        !bytes_less(a, c),
    decreases a.len(),
{
    if a.len() > 0 && b.len() > 0 && c.len() > 0 && a[0] == b[0] && b[0] == c[0] {
        lemma_bytes_less_negative_transitive(a.drop_first(), b.drop_first(), c.drop_first());
    }
}

/// No document comes before itself.
pub proof fn lemma_sorts_before_irreflexive(f: Field, a: Document, lookup: Map<u64, String>)
    ensures
        !sorts_before(f, a, a, lookup),
{
    match f {
        Field::Correspondent => lemma_bytes_less_irreflexive(
            encode_utf8(correspondent_name(a, lookup)),
        ),
        Field::Title => lemma_bytes_less_irreflexive(encode_utf8(a.title@)),
        Field::CreatedDate => lemma_bytes_less_irreflexive(encode_utf8(a.created_date@)),
        _ => {},
    }
}

/// The order by any attribute is transitive.
pub proof fn lemma_sorts_before_transitive(
    f: Field,
    a: Document,
    b: Document,
    c: Document,
    lookup: Map<u64, String>,
)
    requires
        sorts_before(f, a, b, lookup),
        sorts_before(f, b, c, lookup),
    ensures
        sorts_before(f, a, c, lookup),
{
    match f {
        Field::Correspondent => lemma_bytes_less_transitive(
            encode_utf8(correspondent_name(a, lookup)),
            encode_utf8(correspondent_name(b, lookup)),
            encode_utf8(correspondent_name(c, lookup)),
        ),
        Field::Title => lemma_bytes_less_transitive(
            encode_utf8(a.title@),
            encode_utf8(b.title@),
            encode_utf8(c.title@),
        ),
        Field::CreatedDate => lemma_bytes_less_transitive(
            encode_utf8(a.created_date@),
            encode_utf8(b.created_date@),
            encode_utf8(c.created_date@),
        ),
        _ => {},
    }
}

/// Not coming before is transitive too: with transitivity and
/// irreflexivity this makes each order a strict weak order, whose ties are
/// an equivalence.
pub proof fn lemma_sorts_before_negative_transitive(
    f: Field,
    a: Document,
    b: Document,
    c: Document,
    lookup: Map<u64, String>,
)
    requires
        !sorts_before(f, a, b, lookup),
        !sorts_before(f, b, c, lookup),
    ensures
        !sorts_before(f, a, c, lookup),
{
    match f {
        Field::Correspondent => lemma_bytes_less_negative_transitive(
            encode_utf8(correspondent_name(a, lookup)),
            encode_utf8(correspondent_name(b, lookup)),
            encode_utf8(correspondent_name(c, lookup)),
        ),
        Field::Title => lemma_bytes_less_negative_transitive(
            encode_utf8(a.title@),
            encode_utf8(b.title@),
            encode_utf8(c.title@),
        ),
        Field::CreatedDate => lemma_bytes_less_negative_transitive(
            encode_utf8(a.created_date@),
            encode_utf8(b.created_date@),
            encode_utf8(c.created_date@),
        ),
        _ => {},
    }
}

} // verus!
