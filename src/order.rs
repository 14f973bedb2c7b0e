//! The name order of a trait table: byte-wise lexicographic, the order of
//! Rust's strings.

use crate::model::Trait;
use vstd::prelude::*;
use vstd::utf8::encode_utf8;

verus! {

/// `a` comes no later than `b` in byte-wise lexicographic order.
pub open spec fn bytes_le(a: Seq<u8>, b: Seq<u8>) -> bool
    decreases a.len(),
{
    if a.len() == 0 {
        true
    } else if b.len() == 0 {
        false
    } else if a[0] != b[0] {
        a[0] < b[0]
    } else {
        bytes_le(a.drop_first(), b.drop_first())
    }
}

/// The sort key of a trait: its name's UTF-8 bytes.
pub open spec fn name_key(t: Trait) -> Seq<u8> {
    encode_utf8(t.name@)
}

/// Indices of equal names appear in increasing order.
pub open spec fn stable_by_name(traits: Seq<Trait>, order: Seq<usize>) -> bool {
    forall|a: int, b: int|
        0 <= a < b < order.len() && name_key(traits[#[trigger] order[a] as int]) == name_key(
            traits[#[trigger] order[b] as int],
        ) ==> order[a] < order[b]
}

/// `order` lists every index of `traits` once, by name; traits of equal
/// names keep their table order.
pub open spec fn sorted_by_name(traits: Seq<Trait>, order: Seq<usize>) -> bool {
    &&& stable_by_name(traits, order)
    &&& order.len() == traits.len()
    &&& order.no_duplicates()
    &&& forall|k: int| 0 <= k < order.len() ==> #[trigger] order[k] < traits.len()
    &&& forall|a: int, b: int|
        0 <= a < b < order.len() ==> bytes_le(
            name_key(traits[#[trigger] order[a] as int]),
            name_key(traits[#[trigger] order[b] as int]),
        )
}

proof fn lemma_bytes_total(a: Seq<u8>, b: Seq<u8>)
    ensures
        bytes_le(a, b) || bytes_le(b, a),
    decreases a.len(),
{
    if a.len() > 0 && b.len() > 0 && a[0] == b[0] {
        lemma_bytes_total(a.drop_first(), b.drop_first());
    }
}

proof fn lemma_bytes_trans(a: Seq<u8>, b: Seq<u8>, c: Seq<u8>)
    requires
        bytes_le(a, b),
        bytes_le(b, c),
    ensures
        bytes_le(a, c),
    decreases a.len(),
{
    if a.len() > 0 && b.len() > 0 && c.len() > 0 && a[0] == b[0] && b[0] == c[0] {
        lemma_bytes_trans(a.drop_first(), b.drop_first(), c.drop_first());
    }
}

/// Whether `a` comes no later than `b` in byte-wise lexicographic order.
pub fn bytes_le_exec(a: &[u8], b: &[u8]) -> (r: bool)
    ensures
        r == bytes_le(a@, b@),
{
    let mut i: usize = 0;
    assert(a@.subrange(0, a@.len() as int) =~= a@);
    assert(b@.subrange(0, b@.len() as int) =~= b@);
    while i < a.len() && i < b.len() && a[i] == b[i]
        invariant
            i <= a@.len(),
            i <= b@.len(),
            bytes_le(a@, b@) == bytes_le(a@.subrange(i as int, a@.len() as int), b@.subrange(i as int, b@.len() as int)),
        decreases a@.len() - i,
    {
        let ghost sa = a@.subrange(i as int, a@.len() as int);
        let ghost sb = b@.subrange(i as int, b@.len() as int);
        assert(sa.drop_first() =~= a@.subrange(i + 1, a@.len() as int));
        assert(sb.drop_first() =~= b@.subrange(i + 1, b@.len() as int));
        i = i + 1;
    }
    let ghost sa = a@.subrange(i as int, a@.len() as int);
    let ghost sb = b@.subrange(i as int, b@.len() as int);
    if i == a.len() {
        true
    } else if i == b.len() {
        false
    } else {
        assert(sa[0] == a@[i as int] && sb[0] == b@[i as int]);
        a[i] < b[i]
    }
}

/// Whether trait `a` comes no later than trait `b` by name.
pub fn name_le(a: &Trait, b: &Trait) -> (r: bool)
    ensures
        r == bytes_le(name_key(*a), name_key(*b)),
{
    bytes_le_exec(a.name.as_str().as_bytes(), b.name.as_str().as_bytes())
}

/// The indices of `traits` sorted by name; traits of equal names keep their
/// table order.
pub fn name_order(traits: &Vec<Trait>) -> (r: Vec<usize>)
    ensures
        sorted_by_name(traits@, r@),
{
    let n = traits.len();
    let mut r: Vec<usize> = Vec::new();
    let mut i: usize = 0;
    while i < n
        invariant
            n == traits@.len(),
            i <= n,
            r@.len() == i,
            r@.no_duplicates(),
            stable_by_name(traits@, r@),
            forall|k: int| 0 <= k < r@.len() ==> #[trigger] r@[k] < i,
            forall|a: int, b: int|
                0 <= a < b < r@.len() ==> bytes_le(
                    name_key(traits@[#[trigger] r@[a] as int]),
                    name_key(traits@[#[trigger] r@[b] as int]),
                ),
        decreases n - i,
    {
        let mut p: usize = 0;
        while p < r.len() && name_le(&traits[r[p]], &traits[i])
            invariant
                n == traits@.len(),
                i < n,
                p <= r@.len(),
                forall|k: int| 0 <= k < r@.len() ==> #[trigger] r@[k] < i,
                forall|q: int|
                    0 <= q < p ==> bytes_le(
                        name_key(traits@[#[trigger] r@[q] as int]),
                        name_key(traits@[i as int]),
                    ),
            decreases r@.len() - p,
        {
            p = p + 1;
        }
        let ghost old_r = r@;
        let ghost x = name_key(traits@[i as int]);
        proof {
            if p < old_r.len() {
                lemma_bytes_total(name_key(traits@[old_r[p as int] as int]), x);
            }
        }
        r.insert(p, i);
        assert(forall|q: int| 0 <= q < p ==> #[trigger] r@[q] == old_r[q]);
        assert(forall|q: int| p < q < r@.len() ==> #[trigger] r@[q] == old_r[q - 1]);
        assert(r@[p as int] == i);
        assert forall|a: int, b: int| 0 <= a < b < r@.len() implies bytes_le(
            name_key(traits@[#[trigger] r@[a] as int]),
            name_key(traits@[#[trigger] r@[b] as int]),
        ) by {
            if a == p && b > p {
                let y = name_key(traits@[old_r[p as int] as int]);
                if b - 1 > p {
                    assert(bytes_le(y, name_key(traits@[old_r[b - 1] as int])));
                    lemma_bytes_trans(x, y, name_key(traits@[old_r[b - 1] as int]));
                }
            } else if a < p && b > p {
                assert(bytes_le(
                    name_key(traits@[old_r[a] as int]),
                    name_key(traits@[old_r[b - 1] as int]),
                ));
            } else if a > p {
                assert(bytes_le(
                    name_key(traits@[old_r[a - 1] as int]),
                    name_key(traits@[old_r[b - 1] as int]),
                ));
            }
        }
        assert forall|a: int, b: int|
            0 <= a < b < r@.len() && name_key(traits@[#[trigger] r@[a] as int]) == name_key(
                traits@[#[trigger] r@[b] as int],
            ) implies r@[a] < r@[b] by {
            if a == p && b > p {
                let y = name_key(traits@[old_r[p as int] as int]);
                if b - 1 > p {
                    assert(bytes_le(y, name_key(traits@[old_r[b - 1] as int])));
                }
                assert(bytes_le(y, x));
            } else if a < p && b > p {
                assert(r@[a] == old_r[a] && r@[b] == old_r[b - 1]);
            } else if a > p {
                assert(r@[a] == old_r[a - 1] && r@[b] == old_r[b - 1]);
            }
        }
        assert forall|a: int, b: int| 0 <= a < b < r@.len() implies r@[a] != r@[b] by {
            if a < p && b > p {
                assert(old_r[a] != old_r[b - 1]);
            } else if a > p {
                assert(old_r[a - 1] != old_r[b - 1]);
            }
        }
        i = i + 1;
    }
    r
}

} // verus!
