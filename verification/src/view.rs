//! A table's entries in the order of their keys.

use vstd::prelude::*;
use vstd::string::StringSliceAdditionalSpecFns;
use crate::accumulator::Accumulator;
use crate::record::Tally;
use crate::table::{Table, key_bytes, lists};

verus! {

/// Whether `a` comes before `b` in byte-lexicographic order, given that the
/// two agree before offset `i`.
pub open spec fn less_from(a: Seq<u8>, b: Seq<u8>, i: int) -> bool
    decreases a.len() - i,
{
    if i >= b.len() {
        false
    } else if i >= a.len() {
        true
    } else if a[i] != b[i] {
        a[i] < b[i]
    } else {
        less_from(a, b, i + 1)
    }
}

/// Whether `a` comes before `b` in byte-lexicographic order.
pub open spec fn lex_less(a: Seq<u8>, b: Seq<u8>) -> bool {
    less_from(a, b, 0)
}

/// The keys rise strictly from each pair to the next.
pub open spec fn sorted(pairs: Seq<(String, Accumulator)>) -> bool {
    forall|i: int, j: int|
        0 <= i < j < pairs.len() ==> lex_less(
            key_bytes(#[trigger] pairs[i]),
            key_bytes(#[trigger] pairs[j]),
        )
}

/// The order is transitive.
pub proof fn lemma_less_transitive(a: Seq<u8>, b: Seq<u8>, c: Seq<u8>, i: int)
    requires
        0 <= i,
        less_from(a, b, i),
        less_from(b, c, i),
    ensures
        less_from(a, c, i),
    decreases a.len() - i,
{
    if i < a.len() && a[i] == b[i] && b[i] == c[i] {
        lemma_less_transitive(a, b, c, i + 1);
    }
}

/// Nothing comes before itself.
pub proof fn lemma_less_irreflexive(a: Seq<u8>, i: int)
    requires
        0 <= i,
    ensures
        !less_from(a, a, i),
    decreases a.len() - i,
{
    if i < a.len() {
        lemma_less_irreflexive(a, i + 1);
    }
}

/// Of two byte strings that agree before offset `i`, one comes before the
/// other or the two are equal.
pub proof fn lemma_less_total(a: Seq<u8>, b: Seq<u8>, i: int)
    requires
        0 <= i <= a.len(),
        i <= b.len(),
        forall|k: int| 0 <= k < i ==> a[k] == b[k],
        !less_from(a, b, i),
        !less_from(b, a, i),
    ensures
        a == b,
    decreases a.len() - i,
{
    if i < a.len() && i < b.len() {
        lemma_less_total(a, b, i + 1);
    } else {
        assert(a =~= b);
    }
}

proof fn lemma_listings_agree(
    a: Seq<(String, Accumulator)>,
    b: Seq<(String, Accumulator)>,
    t: Tally,
    n: int,
)
    requires
        lists(a, t),
        sorted(a),
        lists(b, t),
        sorted(b),
        0 <= n <= a.len(),
        n <= b.len(),
    ensures
        forall|i: int| 0 <= i < n ==> key_bytes(#[trigger] a[i]) == key_bytes(b[i]),
    decreases n,
{
    if n > 0 {
        lemma_listings_agree(a, b, t, n - 1);
        let i = n - 1;
        let ka = key_bytes(a[i]);
        let kb = key_bytes(b[i]);
        assert(t.contains_key(ka));
        assert(t.contains_key(kb));
        let j = choose|j: int| 0 <= j < b.len() && key_bytes(#[trigger] b[j]) == ka;
        let k = choose|k: int| 0 <= k < a.len() && key_bytes(#[trigger] a[k]) == kb;
        if j < i {
            assert(key_bytes(a[j]) == key_bytes(b[j]));
            assert(key_bytes(a[j]) != key_bytes(a[i]));
        }
        if k < i {
            assert(key_bytes(a[k]) == key_bytes(b[k]));
            assert(key_bytes(b[k]) != key_bytes(b[i]));
        }
        if j > i && k > i {
            assert(lex_less(key_bytes(b[i]), key_bytes(b[j])));
            assert(lex_less(key_bytes(a[i]), key_bytes(a[k])));
            lemma_less_transitive(ka, kb, ka, 0);
            lemma_less_irreflexive(ka, 0);
        }
    }
}

proof fn lemma_listing_not_longer(
    a: Seq<(String, Accumulator)>,
    b: Seq<(String, Accumulator)>,
    t: Tally,
)
    requires
        lists(a, t),
        sorted(a),
        lists(b, t),
        sorted(b),
    ensures
        a.len() >= b.len(),
{
    if a.len() < b.len() {
        lemma_listings_agree(a, b, t, a.len() as int);
        let kb = key_bytes(b[a.len() as int]);
        assert(t.contains_key(kb));
        let k = choose|k: int| 0 <= k < a.len() && key_bytes(#[trigger] a[k]) == kb;
        assert(key_bytes(a[k]) == key_bytes(b[k]));
        assert(key_bytes(b[k]) != key_bytes(b[a.len() as int]));
    }
}

/// A tally has one sorted listing: any two sorted listings of it are equally
/// long and hold the same key with the same accumulator at every place.
pub proof fn lemma_sorted_listing_unique(
    a: Seq<(String, Accumulator)>,
    b: Seq<(String, Accumulator)>,
    t: Tally,
)
    requires
        lists(a, t),
        sorted(a),
        lists(b, t),
        sorted(b),
    ensures
        a.len() == b.len(),
        forall|i: int|
            0 <= i < a.len() ==> key_bytes(#[trigger] a[i]) == key_bytes(b[i]) && a[i].1
                == b[i].1,
{
    lemma_listing_not_longer(a, b, t);
    lemma_listing_not_longer(b, a, t);
    lemma_listings_agree(a, b, t, a.len() as int);
    assert forall|i: int| 0 <= i < a.len() implies key_bytes(#[trigger] a[i]) == key_bytes(b[i])
        && a[i].1 == b[i].1 by {
        assert(a[i].1@ == t[key_bytes(a[i])]);
        assert(b[i].1@ == t[key_bytes(b[i])]);
    }
}

/// Whether `a` comes before `b` in byte-lexicographic order.
pub fn bytes_less(a: &[u8], b: &[u8]) -> (r: bool)
    ensures
        r == lex_less(a@, b@),
{
    let mut i: usize = 0;
    while i < a.len() && i < b.len() && a[i] == b[i]
        invariant
            0 <= i <= a@.len(),
            i <= b@.len(),
            lex_less(a@, b@) == less_from(a@, b@, i as int),
        decreases a@.len() - i,
    {
        i += 1;
    }
    if i >= b.len() {
        false
    } else if i >= a.len() {
        true
    } else {
        a[i] < b[i]
    }
}

/// The first place in `rows` whose key does not come before `key`.
fn insertion_point(rows: &Vec<(String, Accumulator)>, key: &str) -> (p: usize)
    ensures
        p <= rows@.len(),
        forall|i: int|
            0 <= i < p ==> lex_less(key_bytes(#[trigger] rows@[i]), key.spec_bytes()),
        p < rows@.len() ==> !lex_less(key_bytes(rows@[p as int]), key.spec_bytes()),
{
    let mut p: usize = 0;
    while p < rows.len() && bytes_less(rows[p].0.as_str().as_bytes(), key.as_bytes())
        invariant
            p <= rows@.len(),
            forall|i: int|
                0 <= i < p ==> lex_less(key_bytes(#[trigger] rows@[i]), key.spec_bytes()),
        decreases rows@.len() - p,
    {
        p += 1;
    }
    p
}

/// The entries of `table`, sorted by key in byte-lexicographic order.
pub fn result_view(table: &Table) -> (rows: Vec<(String, Accumulator)>)
    requires
        table.wf(),
    ensures
        lists(rows@, table@),
        sorted(rows@),
{
    let mut pending: Vec<(String, Accumulator)> = table.entries();
    let mut rows: Vec<(String, Accumulator)> = Vec::new();
    assert(rows@ + pending@ == pending@);
    while pending.len() > 0
        invariant
            sorted(rows@),
            lists(rows@ + pending@, table@),
        decreases pending@.len(),
    {
        let ghost rows_before = rows@;
        let ghost all_before = rows@ + pending@;
        let ghost n = rows@.len() as int;
        let ghost m = pending@.len() as int;
        let entry: (String, Accumulator) = pending.pop().unwrap();
        let p: usize = insertion_point(&rows, entry.0.as_str());
        proof {
            let key = key_bytes(entry);
            assert(all_before[n + m - 1] == entry);
            assert forall|j: int| p <= j < n implies lex_less(
                key,
                key_bytes(#[trigger] rows_before[j]),
            ) by {
                assert(all_before[p as int] == rows_before[p as int]);
                assert(all_before[j] == rows_before[j]);
                assert(key_bytes(all_before[p as int]) != key_bytes(all_before[n + m - 1]));
                if !lex_less(key, key_bytes(rows_before[p as int])) {
                    lemma_less_total(key, key_bytes(rows_before[p as int]), 0);
                }
                if j > p {
                    lemma_less_transitive(
                        key,
                        key_bytes(rows_before[p as int]),
                        key_bytes(rows_before[j]),
                        0,
                    );
                }
            }
        }
        rows.insert(p, entry);
        proof {
            let all_after = rows@ + pending@;
            assert forall|i: int| 0 <= i < n + m implies #[trigger] all_after[i] == all_before[if i
                < p {
                i
            } else if i == p {
                n + m - 1
            } else {
                i - 1
            }] by {}
            assert forall|i: int| 0 <= i < n + m implies #[trigger] all_before[i] == all_after[if i
                < p {
                i
            } else if i == n + m - 1 {
                p as int
            } else {
                i + 1
            }] by {}
            assert(lists(all_after, table@));
            assert(sorted(rows@));
        }
    }
    assert(rows@ + pending@ == rows@);
    rows
}

} // verus!
