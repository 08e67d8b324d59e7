//! The compound container: named values kept in a vector that is sorted by
//! key on demand.
use vstd::prelude::*;
use crate::key::{
    bytes_lt, key_bytes, key_lt, key_less, lemma_bytes_lt_irreflexive, lemma_bytes_lt_total,
    lemma_bytes_lt_transitive, lemma_key_bytes_injective, lemma_bytes_le_transitive, lemma_bytes_lt_le,
    key_equal,
};
use crate::tag::{Tag, copy_tag, lemma_tag_eq_reflexive, tag_eq, tag_equal};
use crate::codec::{canonical, encodable, payload, str_bytes, str_fits};

verus! {

/// A compound: a sequence of (key, value) pairs, and whether it is known to
/// be sorted by key.
#[derive(Debug)]
pub struct NbtCompound {
    sorted: bool,
    inner: Vec<(String, Tag)>,
}

/// The byte strings of the keys of a pair sequence.
pub open spec fn keys_of(s: Seq<(String, Tag)>) -> Seq<Seq<u8>> {
    s.map_values(|e: (String, Tag)| key_bytes(e.0@))
}

/// Whether a sequence of byte strings is in ascending order.
pub open spec fn ascending(ks: Seq<Seq<u8>>) -> bool {
    forall|i: int, j: int| 0 <= i < j < ks.len() ==> !bytes_lt(#[trigger] ks[j], #[trigger] ks[i])
}

/// Where `k` goes in `ks`: after the leading run of keys not greater than it.
pub open spec fn insert_pos(ks: Seq<Seq<u8>>, k: Seq<u8>) -> nat
    decreases ks.len(),
{
    if ks.len() == 0 {
        0
    } else if bytes_lt(k, ks[0]) {
        0
    } else {
        1 + insert_pos(ks.drop_first(), k)
    }
}

/// The order in which sorting puts positions `0 .. ks.len()`: each key in
/// turn is inserted after every earlier key that is not greater than it.
pub open spec fn sort_order(ks: Seq<Seq<u8>>) -> Seq<int>
    decreases ks.len(),
{
    if ks.len() == 0 {
        seq![]
    } else {
        let prev = sort_order(ks.drop_last());
        let p = insert_pos(prev.map_values(|j: int| ks[j]), ks.last());
        prev.insert(p as int, ks.len() - 1)
    }
}

/// `s` rearranged by `ord`.
pub open spec fn permute<T>(ord: Seq<int>, s: Seq<T>) -> Seq<T> {
    ord.map_values(|j: int| s[j])
}

/// A pair sequence after sorting by key.
pub open spec fn sort_entries(s: Seq<(String, Tag)>) -> Seq<(String, Tag)> {
    permute(sort_order(keys_of(s)), s)
}

/// The position of the last pair with key `k`, or -1 when there is none.
pub open spec fn find_last(s: Seq<(String, Tag)>, k: Seq<char>) -> int
    decreases s.len(),
{
    if s.len() == 0 {
        -1
    } else if s.last().0@ == k {
        s.len() - 1
    } else {
        find_last(s.drop_last(), k)
    }
}

/// Whether some pair has key `k`.
pub open spec fn has_key(s: Seq<(String, Tag)>, k: Seq<char>) -> bool {
    exists|i: int| 0 <= i < s.len() && (#[trigger] s[i]).0@ == k
}

pub proof fn lemma_find_last(s: Seq<(String, Tag)>, k: Seq<char>)
    ensures
        -1 <= find_last(s, k) < s.len(),
        find_last(s, k) >= 0 ==> s[find_last(s, k)].0@ == k,
        forall|q: int| find_last(s, k) < q < s.len() ==> (#[trigger] s[q]).0@ != k,
        has_key(s, k) <==> find_last(s, k) >= 0,
    decreases s.len(),
{
    if s.len() > 0 {
        lemma_find_last(s.drop_last(), k);
        if s.last().0@ != k {
            assert forall|q: int| find_last(s, k) < q < s.len() implies (#[trigger] s[q]).0@ != k by {
                if q < s.len() - 1 {
                    assert(s[q] == s.drop_last()[q]);
                }
            }
            if has_key(s, k) {
                let i = choose|i: int| 0 <= i < s.len() && (#[trigger] s[i]).0@ == k;
                assert(s.drop_last()[i] == s[i]);
            }
            if find_last(s, k) >= 0 {
                assert(s.drop_last()[find_last(s, k)] == s[find_last(s, k)]);
            }
        }
    }
}

/// `find_last` is the position of a pair with the key after which no pair has it.
proof fn lemma_find_last_at(s: Seq<(String, Tag)>, k: Seq<char>, i: int)
    requires
        -1 <= i < s.len(),
        i >= 0 ==> s[i].0@ == k,
        forall|q: int| i < q < s.len() ==> (#[trigger] s[q]).0@ != k,
    ensures
        find_last(s, k) == i,
{
    lemma_find_last(s, k);
    let f = find_last(s, k);
    if f > i {
    } else if f < i {
        assert(has_key(s, k) ==> f >= 0);
        assert(s[i].0@ == k);
    }
}

/// A compound on the wire: for each pair its value's type-ID, its key as a
/// string and its value's payload, then an end byte.
pub open spec fn compound_bytes(c: NbtCompound) -> Seq<u8>
    decreases c, 1nat,
{
    compound_chunks(c).flatten() + seq![0u8]
}

/// The encoded pairs of a compound, one per pair.
pub open spec fn compound_chunks(c: NbtCompound) -> Seq<Seq<u8>>
    decreases c, 0nat,
{
    Seq::new(
        c.entries().len(),
        |i: int|
            if 0 <= i < c.entries().len() {
                seq![c.entries()[i].1.spec_id()] + str_bytes(c.entries()[i].0@) + payload(
                    c.entries()[i].1,
                )
            } else {
                seq![]
            },
    )
}

/// Whether every key and value of a compound fits the wire's length fields.
pub open spec fn compound_encodable(c: NbtCompound) -> bool
    decreases c,
{
    forall|i: int|
        0 <= i < c.entries().len() ==> str_fits(#[trigger] c.entries()[i].0@) && encodable(
            c.entries()[i].1,
        )
}

/// Whether a compound holds no end value and each value is canonical within
/// `d` further levels of nesting.
pub open spec fn compound_canonical(c: NbtCompound, d: nat) -> bool
    decreases c,
{
    forall|i: int|
        0 <= i < c.entries().len() ==> !(#[trigger] c.entries()[i].1 is End) && canonical(
            c.entries()[i].1,
            d,
        )
}

/// What `compound_canonical` says of each pair.
pub proof fn lemma_compound_canonical(c: NbtCompound, d: nat)
    requires
        compound_canonical(c, d),
    ensures
        forall|i: int|
            0 <= i < c.entries().len() ==> !(#[trigger] c.entries()[i].1 is End) && canonical(
                c.entries()[i].1,
                d,
            ),
{
}

/// Compounds whose pairs match one by one are equal.
pub proof fn lemma_compound_eq_pairwise(a: NbtCompound, b: NbtCompound)
    requires
        a.entries().len() == b.entries().len(),
        forall|i: int|
            0 <= i < a.entries().len() ==> (#[trigger] a.entries()[i]).0@ == b.entries()[i].0@ && tag_eq(
                a.entries()[i].1,
                b.entries()[i].1,
            ),
    ensures
        compound_eq(a, b),
{
}

/// What `compound_encodable` says of each pair.
pub proof fn lemma_compound_encodable(c: NbtCompound)
    requires
        compound_encodable(c),
    ensures
        forall|i: int|
            0 <= i < c.entries().len() ==> str_fits(#[trigger] c.entries()[i].0@) && encodable(
                c.entries()[i].1,
            ),
{
}

/// Each value of a compound is smaller than the compound.
pub proof fn lemma_entries_decrease(c: NbtCompound)
    ensures
        forall|i: int|
            0 <= i < c.entries().len() ==> decreases_to!(c => #[trigger] c.entries()[i].1),
{
    assert forall|i: int| 0 <= i < c.entries().len() implies decreases_to!(c => #[trigger] c.entries()[i].1) by {
        assert(decreases_to!(c.inner => c.inner[i]));
    }
}

impl NbtCompound {
    #[verifier::type_invariant]
    spec fn inv(self) -> bool {
        self.sorted ==> ascending(keys_of(self.inner@))
    }

    /// The pairs, in their current order.
    pub closed spec fn entries(self) -> Seq<(String, Tag)> {
        self.inner@
    }

    /// Whether the pairs are known to be sorted by key.
    pub closed spec fn is_sorted(self) -> bool {
        self.sorted
    }

    /// The order in which equality visits the pairs: as they stand when
    /// sorted, else as sorting would put them.
    pub closed spec fn visit_order(self) -> Seq<int> {
        if self.sorted {
            Seq::new(self.inner@.len(), |i: int| i)
        } else {
            sort_order(keys_of(self.inner@))
        }
    }
}

/// Equality of compounds, as the fast path and then the sorted comparison
/// decide it: equal lengths, and the pairs match one by one either as they
/// stand or in the order sorting gives them.
pub closed spec fn compound_eq(a: NbtCompound, b: NbtCompound) -> bool
    decreases a,
{
    let n = a.inner.len();
    let oa = a.visit_order();
    let ob = b.visit_order();
    &&& n == b.inner.len()
    &&& {
        ||| forall|i: int|
            0 <= i < n ==> {
                &&& (#[trigger] a.inner[i]).0@ == b.inner[i].0@
                &&& tag_eq(a.inner[i].1, b.inner[i].1)
            }
        ||| forall|i: int|
            0 <= i < n ==> {
                &&& 0 <= #[trigger] oa[i] < n
                &&& 0 <= ob[i] < n
                &&& a.inner[oa[i]].0@ == b.inner[ob[i]].0@
                &&& tag_eq(a.inner[oa[i]].1, b.inner[ob[i]].1)
            }
    }
}


proof fn lemma_insert_pos_bounds(ks: Seq<Seq<u8>>, k: Seq<u8>)
    ensures
        insert_pos(ks, k) <= ks.len(),
        forall|q: int| 0 <= q < insert_pos(ks, k) ==> !bytes_lt(k, #[trigger] ks[q]),
        insert_pos(ks, k) < ks.len() ==> bytes_lt(k, ks[insert_pos(ks, k) as int]),
    decreases ks.len(),
{
    if ks.len() > 0 && !bytes_lt(k, ks[0]) {
        lemma_insert_pos_bounds(ks.drop_first(), k);
        assert forall|q: int| 0 <= q < insert_pos(ks, k) implies !bytes_lt(k, #[trigger] ks[q]) by {
            if q > 0 {
                assert(ks[q] == ks.drop_first()[q - 1]);
            }
        }
    }
}

/// The first position whose key is greater than `k`, if any, is where `k` goes.
proof fn lemma_insert_pos_at(ks: Seq<Seq<u8>>, k: Seq<u8>, p: int)
    requires
        0 <= p <= ks.len(),
        forall|q: int| 0 <= q < p ==> !bytes_lt(k, #[trigger] ks[q]),
        p < ks.len() ==> bytes_lt(k, ks[p]),
    ensures
        insert_pos(ks, k) == p,
    decreases ks.len(),
{
    if ks.len() > 0 && p > 0 {
        assert(!bytes_lt(k, ks[0]));
        assert forall|q: int| 0 <= q < p - 1 implies !bytes_lt(k, #[trigger] ks.drop_first()[q]) by {
            assert(ks.drop_first()[q] == ks[q + 1]);
        }
        lemma_insert_pos_at(ks.drop_first(), k, p - 1);
    }
}

proof fn lemma_sort_order_range(ks: Seq<Seq<u8>>)
    ensures
        sort_order(ks).len() == ks.len(),
        forall|k: int| 0 <= k < ks.len() ==> 0 <= #[trigger] sort_order(ks)[k] < ks.len(),
    decreases ks.len(),
{
    if ks.len() > 0 {
        let prev = sort_order(ks.drop_last());
        lemma_sort_order_range(ks.drop_last());
        lemma_insert_pos_bounds(prev.map_values(|j: int| ks[j]), ks.last());
    }
}

/// Sorting a sequence inserts its last pair into the sorted rest.
proof fn lemma_sort_entries_step(s: Seq<(String, Tag)>)
    requires
        s.len() > 0,
    ensures
        ({
            let t = sort_entries(s.drop_last());
            let p = insert_pos(keys_of(t), key_bytes(s.last().0@));
            &&& p <= t.len()
            &&& sort_entries(s) == t.insert(p as int, s.last())
        }),
{
    let ks = keys_of(s);
    let t0 = s.drop_last();
    assert(ks.drop_last() =~= keys_of(t0));
    let prev = sort_order(keys_of(t0));
    lemma_sort_order_range(keys_of(t0));
    let t = sort_entries(t0);
    assert(prev.map_values(|j: int| ks[j]) =~= keys_of(t));
    let p = insert_pos(keys_of(t), key_bytes(s.last().0@));
    lemma_insert_pos_bounds(keys_of(t), key_bytes(s.last().0@));
    assert(sort_order(ks) == prev.insert(p as int, ks.len() - 1));
    assert(sort_entries(s) =~= t.insert(p as int, s.last()));
}

proof fn lemma_ascending_insert(ks: Seq<Seq<u8>>, k: Seq<u8>)
    requires
        ascending(ks),
    ensures
        insert_pos(ks, k) <= ks.len(),
        ascending(ks.insert(insert_pos(ks, k) as int, k)),
{
    let p = insert_pos(ks, k) as int;
    lemma_insert_pos_bounds(ks, k);
    let r = ks.insert(p, k);
    assert forall|i: int, j: int| 0 <= i < j < r.len() implies !bytes_lt(#[trigger] r[j], #[trigger] r[i]) by {
        if j == p {
            // r[i] == ks[i] with i < p
        } else if i == p {
            // r[j] == ks[j - 1] with j - 1 >= p
            assert(bytes_lt(k, ks[p]));
            if j - 1 > p {
                assert(!bytes_lt(ks[j - 1], ks[p]));
                lemma_bytes_lt_total(ks[j - 1], ks[p]);
                if bytes_lt(ks[p], ks[j - 1]) {
                    lemma_bytes_lt_transitive(k, ks[p], ks[j - 1]);
                }
            }
            lemma_bytes_lt_total(k, ks[j - 1]);
        } else {
            let a = if i < p { i } else { i - 1 };
            let b = if j < p { j } else { j - 1 };
            assert(r[i] == ks[a] && r[j] == ks[b]);
            if a == b {
                lemma_bytes_lt_irreflexive(ks[a]);
            }
        }
    }
}

/// A sorted pair sequence is in ascending key order.
proof fn lemma_sort_entries_ascending(s: Seq<(String, Tag)>)
    ensures
        ascending(keys_of(sort_entries(s))),
        sort_entries(s).len() == s.len(),
    decreases s.len(),
{
    if s.len() == 0 {
        assert(sort_entries(s).len() == 0);
    } else {
        lemma_sort_entries_ascending(s.drop_last());
        lemma_sort_entries_step(s);
        let t = sort_entries(s.drop_last());
        let k = key_bytes(s.last().0@);
        lemma_ascending_insert(keys_of(t), k);
        assert(keys_of(t.insert(insert_pos(keys_of(t), k) as int, s.last())) =~= keys_of(t).insert(
            insert_pos(keys_of(t), k) as int,
            k,
        ));
    }
}

impl NbtCompound {
    /// An empty compound with room for `capacity` pairs.
    pub fn with_capacity(capacity: usize) -> (r: Self)
        ensures
            r.entries().len() == 0,
            !r.is_sorted(),
    {
        NbtCompound { sorted: false, inner: Vec::with_capacity(capacity) }
    }

    /// A compound holding `entries` in the given order, duplicates included.
    pub fn from_entries(entries: Vec<(String, Tag)>) -> (r: Self)
        ensures
            r.entries() == entries@,
            !r.is_sorted(),
    {
        NbtCompound { sorted: false, inner: entries }
    }

    /// The number of pairs.
    pub fn len(&self) -> (r: usize)
        ensures
            r == self.entries().len(),
    {
        self.inner.len()
    }

    /// The upper bound of `key` in the sorted pairs: `Ok(i)` when pair `i` is
    /// the last with that key, else `Err` of where the key would go.
    fn binary_search(&self, key: &String) -> (r: Result<usize, usize>)
        requires
            self.is_sorted(),
        ensures
            r matches Ok(i) ==> i == find_last(self.entries(), key@),
            r is Err ==> !has_key(self.entries(), key@),
            r matches Err(i) ==> i <= self.entries().len() && (forall|q: int|
                0 <= q < i ==> key_lt(#[trigger] self.entries()[q].0@, key@)) && (forall|q: int|
                i <= q < self.entries().len() ==> key_lt(key@, #[trigger] self.entries()[q].0@)),
    {
        proof {
            use_type_invariant(self);
        }
        let ghost ks = keys_of(self.inner@);
        let ghost kk = key_bytes(key@);
        let n = self.inner.len();
        let mut lo: usize = 0;
        let mut hi: usize = n;
        while lo < hi
            invariant
                0 <= lo <= hi <= n,
                n == self.inner@.len(),
                ks == keys_of(self.inner@),
                kk == key_bytes(key@),
                ascending(ks),
                forall|q: int| 0 <= q < lo ==> !bytes_lt(kk, #[trigger] ks[q]),
                forall|q: int| hi <= q < n ==> bytes_lt(kk, #[trigger] ks[q]),
            decreases hi - lo,
        {
            let mid = lo + (hi - lo) / 2;
            assert(ks[mid as int] == key_bytes(self.inner@[mid as int].0@));
            if key_less(key, &self.inner[mid].0) {
                proof {
                    assert forall|q: int| mid <= q < n implies bytes_lt(kk, #[trigger] ks[q]) by {
                        if q > mid {
                            lemma_bytes_lt_le(kk, ks[mid as int], ks[q]);
                        }
                    }
                }
                hi = mid;
            } else {
                proof {
                    assert forall|q: int| 0 <= q <= mid implies !bytes_lt(kk, #[trigger] ks[q]) by {
                        if q < mid {
                            lemma_bytes_le_transitive(ks[q], ks[mid as int], kk);
                        }
                    }
                }
                lo = mid + 1;
            }
        }
        let ghost s = self.inner@;
        assert(lo > 0 ==> ks[lo - 1] == key_bytes(s[lo - 1].0@));
        if lo > 0 && key_equal(&self.inner[lo - 1].0, key) {
            proof {
                assert forall|q: int| lo - 1 < q < n implies (#[trigger] s[q]).0@ != key@ by {
                    assert(bytes_lt(kk, ks[q]));
                    lemma_bytes_lt_irreflexive(kk);
                }
                lemma_find_last_at(s, key@, lo - 1);
            }
            Ok(lo - 1)
        } else {
            proof {
                assert forall|q: int| 0 <= q < n implies (#[trigger] s[q]).0@ != key@ by {
                    if q >= lo {
                        assert(bytes_lt(kk, ks[q]));
                        lemma_bytes_lt_irreflexive(kk);
                    } else {
                        let m = lo - 1;
                        assert(s[m].0@ != key@);
                        lemma_bytes_lt_total(ks[m], kk);
                        if ks[m] == kk {
                            lemma_key_bytes_injective(s[m].0@, key@);
                        }
                        if q < m {
                            lemma_bytes_lt_total(ks[q], ks[m]);
                            if ks[q] != ks[m] {
                                lemma_bytes_lt_transitive(ks[q], ks[m], kk);
                            }
                        }
                        assert(ks[q] == key_bytes(s[q].0@));
                        if s[q].0@ == key@ {
                            lemma_bytes_lt_irreflexive(kk);
                        }
                    }
                }
                assert forall|q: int| 0 <= q < lo implies key_lt(#[trigger] s[q].0@, key@) by {
                    assert(ks[q] == key_bytes(s[q].0@));
                    assert(!bytes_lt(kk, ks[q]));
                    lemma_bytes_lt_total(ks[q], kk);
                    if ks[q] == kk {
                        lemma_key_bytes_injective(s[q].0@, key@);
                    }
                }
                assert forall|q: int| lo <= q < n implies key_lt(key@, #[trigger] s[q].0@) by {
                    assert(ks[q] == key_bytes(s[q].0@));
                }
            }
            Err(lo)
        }
    }

    /// Look up `key`, sorting the pairs first when they are not known to be
    /// sorted. Among pairs with equal keys the last one in sorted order
    /// answers.
    pub fn get(&mut self, key: &String) -> (r: Option<&Tag>)
        ensures
            final(self).is_sorted(),
            final(self).entries() == (if old(self).is_sorted() {
                old(self).entries()
            } else {
                sort_entries(old(self).entries())
            }),
            ascending(keys_of(final(self).entries())),
            r is None <==> !has_key(final(self).entries(), key@),
            r matches Some(v) ==> *v == final(self).entries()[find_last(final(self).entries(), key@)].1,
    {
        if !self.sorted {
            self.sort();
        }
        proof {
            use_type_invariant(&*self);
            lemma_find_last(self.inner@, key@);
        }
        match self.binary_search(key) {
            Ok(i) => Some(&self.inner[i].1),
            Err(_) => None,
        }
    }

    /// The pairs in their current order; this does not sort.
    pub fn iter(&self) -> (r: &[(String, Tag)])
        ensures
            r@ == self.entries(),
    {
        self.inner.as_slice()
    }

    /// Take the pairs and the flag out, leaving the compound empty.
    fn take_parts(&mut self) -> (r: (bool, Vec<(String, Tag)>))
        ensures
            r.0 == old(self).is_sorted(),
            r.1@ == old(self).entries(),
            r.0 ==> ascending(keys_of(r.1@)),
    {
        proof {
            use_type_invariant(&*self);
        }
        let mut parts = NbtCompound { sorted: false, inner: Vec::new() };
        std::mem::swap(self, &mut parts);
        proof {
            use_type_invariant(&parts);
        }
        let NbtCompound { sorted, inner } = parts;
        (sorted, inner)
    }

    /// Append a pair; the compound is then no longer known to be sorted.
    pub fn insert(&mut self, key: String, value: Tag)
        ensures
            final(self).entries() == old(self).entries().push((key, value)),
            !final(self).is_sorted(),
    {
        let (_, mut inner) = self.take_parts();
        inner.push((key, value));
        *self = NbtCompound { sorted: false, inner };
    }

    /// Append a pair without sorting; the compound stays known to be sorted
    /// only when the new key is not less than the last one.
    pub fn insert_unsorted(&mut self, key: String, value: Tag)
        ensures
            final(self).entries() == old(self).entries().push((key, value)),
            final(self).is_sorted() == (old(self).is_sorted() && (old(self).entries().len() == 0
                || !key_lt(key@, old(self).entries().last().0@))),
    {
        let (was_sorted, mut inner) = self.take_parts();
        let n = inner.len();
        let still_sorted = was_sorted && (n == 0 || !key_less(&key, &inner[n - 1].0));
        let ghost before = inner@;
        if still_sorted {
            proof {
                let ks = keys_of(before.push((key, value)));
                assert forall|i: int, j: int| 0 <= i < j < ks.len() implies !bytes_lt(
                    #[trigger] ks[j],
                    #[trigger] ks[i],
                ) by {
                    if j == n && i < n - 1 {
                        assert(ks[i] == keys_of(before)[i]);
                        assert(ks[n - 1] == keys_of(before)[n - 1]);
                        lemma_bytes_lt_total(ks[i], ks[n - 1]);
                        if bytes_lt(ks[j], ks[i]) && bytes_lt(ks[i], ks[n - 1]) {
                            lemma_bytes_lt_transitive(ks[j], ks[i], ks[n - 1]);
                        }
                    } else if j < n {
                        assert(ks[i] == keys_of(before)[i] && ks[j] == keys_of(before)[j]);
                    }
                }
            }
        }
        inner.push((key, value));
        *self = NbtCompound { sorted: still_sorted, inner };
    }

    /// Sort the pairs by key (an insertion sort, so pairs with equal keys
    /// keep their relative order); the compound is then known to be sorted.
    pub fn sort(&mut self)
        ensures
            final(self).entries() == sort_entries(old(self).entries()),
            final(self).is_sorted(),
            ascending(keys_of(final(self).entries())),
    {
        let (_, mut inner) = self.take_parts();
        sort_pairs(&mut inner);
        proof {
            lemma_sort_entries_ascending(old(self).entries());
        }
        *self = NbtCompound { sorted: true, inner };
    }
}

/// Sort pairs by key, keeping the relative order of pairs with equal keys.
fn sort_pairs(v: &mut Vec<(String, Tag)>)
    ensures
        final(v)@ == sort_entries(old(v)@),
{
    let ghost s = v@;
    let n = v.len();
    let mut i: usize = 0;
    while i < n
        invariant
            v@.len() == n,
            n == s.len(),
            0 <= i <= n,
            v@.take(i as int) == sort_entries(s.take(i as int)),
            v@.skip(i as int) == s.skip(i as int),
        decreases n - i,
    {
        let ghost cur = v@;
        let e = v.remove(i);
        proof {
            assert(e == cur.skip(i as int)[0]);
            assert(v@.take(i as int) =~= cur.take(i as int));
        }
        let ghost ks = keys_of(v@.take(i as int));
        let mut p: usize = 0;
        while p < i && !key_less(&e.0, &v[p].0)
            invariant
                0 <= p <= i,
                i < n,
                v@.len() == n - 1,
                ks == keys_of(v@.take(i as int)),
                forall|q: int| 0 <= q < p ==> !bytes_lt(key_bytes(e.0@), #[trigger] ks[q]),
            decreases i - p,
        {
            p = p + 1;
        }
        proof {
            lemma_insert_pos_at(ks, key_bytes(e.0@), p as int);
            let si = s.take(i + 1);
            assert(si.drop_last() =~= s.take(i as int));
            assert(si.last() == e);
            lemma_sort_entries_step(si);
        }
        v.insert(p, e);
        proof {
            assert(v@.take(i + 1) =~= cur.take(i as int).insert(p as int, e));
            assert(v@.skip(i + 1) =~= cur.skip(i + 1));
            assert(cur.skip(i + 1) =~= cur.skip(i as int).drop_first());
            assert(s.skip(i + 1) =~= s.skip(i as int).drop_first());
        }
        i = i + 1;
    }
    proof {
        assert(v@ =~= v@.take(n as int));
        assert(s =~= s.take(n as int));
    }
}

/// The positions `0 .. v.len()` in the order sorting would put the pairs.
fn sorted_order(v: &Vec<(String, Tag)>) -> (r: Vec<usize>)
    ensures
        r@.map_values(|x: usize| x as int) == sort_order(keys_of(v@)),
{
    let ghost ks = keys_of(v@);
    let n = v.len();
    let mut ord: Vec<usize> = Vec::with_capacity(n);
    let mut i: usize = 0;
    proof {
        assert(ks.take(0) =~= seq![]);
        assert(ord@.map_values(|x: usize| x as int) =~= seq![]);
    }
    while i < n
        invariant
            0 <= i <= n,
            n == v@.len(),
            ks == keys_of(v@),
            ord@.map_values(|x: usize| x as int) == sort_order(ks.take(i as int)),
        decreases n - i,
    {
        let ghost prev = sort_order(ks.take(i as int));
        proof {
            lemma_sort_order_range(ks.take(i as int));
        }
        let ghost ki = ks[i as int];
        assert(ki == key_bytes(v@[i as int].0@));
        let ghost pk = prev.map_values(|j: int| ks.take(i + 1)[j]);
        proof {
            assert forall|k: int| 0 <= k < i implies #[trigger] ord@[k] < i by {
                assert(prev[k] == ord@[k] as int);
            }
        }
        let mut p: usize = 0;
        while p < i && !key_less(&v[i].0, &v[ord[p]].0)
            invariant
                0 <= p <= i < n,
                n == v@.len(),
                ks == keys_of(v@),
                ki == ks[i as int],
                ki == key_bytes(v@[i as int].0@),
                ord@.len() == i,
                forall|k: int| 0 <= k < i ==> #[trigger] ord@[k] < i,
                ord@.map_values(|x: usize| x as int) == prev,
                prev.len() == i,
                forall|k: int| 0 <= k < i ==> 0 <= #[trigger] prev[k] < i,
                pk == prev.map_values(|j: int| ks.take(i + 1)[j]),
                forall|q: int| 0 <= q < p ==> !bytes_lt(ki, #[trigger] pk[q]),
            decreases i - p,
        {
            assert(prev[p as int] == ord@[p as int] as int);
            assert(pk[p as int] == key_bytes(v@[ord@[p as int] as int].0@));
            p = p + 1;
        }
        proof {
            if p < i {
                assert(prev[p as int] == ord@[p as int] as int);
                assert(pk[p as int] == key_bytes(v@[ord@[p as int] as int].0@));
            }
            lemma_insert_pos_at(pk, ki, p as int);
            let kt = ks.take(i + 1);
            assert(kt.drop_last() =~= ks.take(i as int));
            assert(sort_order(kt) == prev.insert(p as int, i as int));
        }
        ord.insert(p, i);
        proof {
            assert(ord@.map_values(|x: usize| x as int) =~= prev.insert(p as int, i as int));
        }
        i = i + 1;
    }
    proof {
        assert(ks.take(n as int) =~= ks);
    }
    ord
}

/// Whether the pairs match one by one as they stand.
fn pairs_equal(a: &Vec<(String, Tag)>, b: &Vec<(String, Tag)>) -> (r: bool)
    requires
        a@.len() == b@.len(),
    ensures
        r == (forall|i: int|
            0 <= i < a@.len() ==> {
                &&& (#[trigger] a@[i]).0@ == b@[i].0@
                &&& tag_eq(a@[i].1, b@[i].1)
            }),
    decreases a,
{
    let n = a.len();
    let mut i: usize = 0;
    while i < n
        invariant
            0 <= i <= n,
            n == a@.len(),
            n == b@.len(),
            forall|q: int|
                0 <= q < i ==> {
                    &&& (#[trigger] a@[q]).0@ == b@[q].0@
                    &&& tag_eq(a@[q].1, b@[q].1)
                },
        decreases n - i,
    {
        assert(decreases_to!(a => a@[i as int]));
        if !key_equal(&a[i].0, &b[i].0) || !tag_equal(&a[i].1, &b[i].1) {
            return false;
        }
        i = i + 1;
    }
    true
}

/// Whether the pairs match one by one when visited in the given orders.
fn ordered_pairs_equal(
    a: &Vec<(String, Tag)>,
    oa: &Vec<usize>,
    b: &Vec<(String, Tag)>,
    ob: &Vec<usize>,
) -> (r: bool)
    requires
        a@.len() == b@.len(),
        oa@.len() == a@.len(),
        ob@.len() == a@.len(),
    ensures
        ({
            let va = oa@.map_values(|x: usize| x as int);
            let vb = ob@.map_values(|x: usize| x as int);
            r == (forall|i: int|
                0 <= i < a@.len() ==> {
                    &&& 0 <= #[trigger] va[i] < a@.len()
                    &&& 0 <= vb[i] < a@.len()
                    &&& a@[va[i]].0@ == b@[vb[i]].0@
                    &&& tag_eq(a@[va[i]].1, b@[vb[i]].1)
                })
        }),
    decreases a,
{
    let ghost va = oa@.map_values(|x: usize| x as int);
    let ghost vb = ob@.map_values(|x: usize| x as int);
    let n = a.len();
    let mut i: usize = 0;
    while i < n
        invariant
            0 <= i <= n,
            n == a@.len(),
            n == b@.len(),
            n == oa@.len(),
            n == ob@.len(),
            va == oa@.map_values(|x: usize| x as int),
            vb == ob@.map_values(|x: usize| x as int),
            forall|q: int|
                0 <= q < i ==> {
                    &&& 0 <= #[trigger] va[q] < n
                    &&& 0 <= vb[q] < n
                    &&& a@[va[q]].0@ == b@[vb[q]].0@
                    &&& tag_eq(a@[va[q]].1, b@[vb[q]].1)
                },
        decreases n - i,
    {
        let ia = oa[i];
        let ib = ob[i];
        assert(va[i as int] == ia as int && vb[i as int] == ib as int);
        if ia >= n || ib >= n {
            return false;
        }
        assert(decreases_to!(a => a@[ia as int]));
        if !key_equal(&a[ia].0, &b[ib].0) || !tag_equal(&a[ia].1, &b[ib].1) {
            return false;
        }
        i = i + 1;
    }
    true
}

/// Compare two compounds, ignoring the order of the keys: equal lengths, then
/// the pairs as they stand, then the pairs in sorted order, sorting (by
/// position, leaving both compounds untouched) only a side not known to be
/// sorted.
pub fn compound_equal(a: &NbtCompound, b: &NbtCompound) -> (r: bool)
    ensures
        r == compound_eq(*a, *b),
    decreases a,
{
    let n = a.inner.len();
    if n != b.inner.len() {
        return false;
    }
    if pairs_equal(&a.inner, &b.inner) {
        return true;
    }
    let oa = if a.sorted {
        identity_order(n)
    } else {
        sorted_order(&a.inner)
    };
    let ob = if b.sorted {
        identity_order(n)
    } else {
        sorted_order(&b.inner)
    };
    proof {
        lemma_sort_order_range(keys_of(a.inner@));
        lemma_sort_order_range(keys_of(b.inner@));
        let va = oa@.map_values(|x: usize| x as int);
        let vb = ob@.map_values(|x: usize| x as int);
        assert(va =~= a.visit_order());
        assert(vb =~= b.visit_order());
        assert(va.len() == n);
    }
    ordered_pairs_equal(&a.inner, &oa, &b.inner, &ob)
}

/// The positions `0 .. n` in order.
fn identity_order(n: usize) -> (r: Vec<usize>)
    ensures
        r@.len() == n,
        forall|i: int| 0 <= i < n ==> #[trigger] r@[i] == i,
{
    let mut r: Vec<usize> = Vec::with_capacity(n);
    let mut i: usize = 0;
    while i < n
        invariant
            0 <= i <= n,
            r@.len() == i,
            forall|q: int| 0 <= q < i ==> #[trigger] r@[q] == q,
        decreases n - i,
    {
        r.push(i);
        i = i + 1;
    }
    r
}

/// A copy of a compound: the same pairs in the same order, and the same flag.
pub fn copy_compound(c: &NbtCompound) -> (r: NbtCompound)
    ensures
        r.is_sorted() == c.is_sorted(),
        pairs_match(r.entries(), c.entries()),
        compound_eq(r, *c),
    decreases c,
{
    proof {
        use_type_invariant(c);
        lemma_entries_decrease(*c);
    }
    let n = c.inner.len();
    let mut v: Vec<(String, Tag)> = Vec::with_capacity(n);
    let mut i: usize = 0;
    while i < n
        invariant
            0 <= i <= n,
            n == c.inner@.len(),
            v@.len() == i,
            forall|k: int| 0 <= k < n ==> decreases_to!(*c => #[trigger] c.entries()[k].1),
            forall|k: int| 0 <= k < i ==> (#[trigger] v@[k]).0@ == c.inner@[k].0@ && tag_eq(v@[k].1, c.inner@[k].1),
        decreases n - i,
    {
        let key = c.inner[i].0.clone();
        let value = copy_tag(&c.inner[i].1);
        v.push((key, value));
        i = i + 1;
    }
    proof {
        if c.sorted {
            assert(keys_of(v@) =~= keys_of(c.inner@));
        }
    }
    let r = NbtCompound { sorted: c.sorted, inner: v };
    proof {
        lemma_compound_eq_pairwise(r, *c);
    }
    r
}

impl Clone for NbtCompound {
    /// A copy equal to this compound, as `copy_compound` states.
    fn clone(&self) -> Self {
        copy_compound(self)
    }
}

impl PartialEq for NbtCompound {
    /// Compare two NBT compounds for equality, ignoring the order of the keys.
    fn eq(&self, other: &Self) -> (r: bool) {
        compound_equal(self, other)
    }
}

impl vstd::std_specs::cmp::PartialEqSpecImpl for NbtCompound {
    open spec fn obeys_eq_spec() -> bool {
        true
    }

    open spec fn eq_spec(&self, other: &NbtCompound) -> bool {
        compound_eq(*self, *other)
    }
}

/// Every compound equals itself.
pub proof fn lemma_compound_eq_reflexive(c: NbtCompound)
    ensures
        compound_eq(c, c),
    decreases c,
{
    assert forall|i: int| 0 <= i < c.inner.len() implies {
        &&& (#[trigger] c.inner[i]).0@ == c.inner[i].0@
        &&& tag_eq(c.inner[i].1, c.inner[i].1)
    } by {
        assert(decreases_to!(c.inner => c.inner[i]));
        lemma_tag_eq_reflexive(c.inner[i].1);
    }
}

/// Two compounds holding the same pairs, each either as given or sorted
/// (with its flag saying which), are equal: whichever of the two is sorted,
/// if either, equality finds the same pairs in the same order.
pub proof fn law_sorted_and_unsorted_equal(a: NbtCompound, b: NbtCompound, s: Seq<(String, Tag)>)
    requires
        a.entries() == (if a.is_sorted() {
            sort_entries(s)
        } else {
            s
        }),
        b.entries() == (if b.is_sorted() {
            sort_entries(s)
        } else {
            s
        }),
    ensures
        compound_eq(a, b),
{
    let n = s.len();
    let ord = sort_order(keys_of(s));
    lemma_sort_order_range(keys_of(s));
    assert forall|i: int| 0 <= i < n implies tag_eq(#[trigger] s[i].1, s[i].1) by {
        lemma_tag_eq_reflexive(s[i].1);
    }
    if a.sorted == b.sorted {
        assert forall|i: int| 0 <= i < a.inner.len() implies {
            &&& (#[trigger] a.inner[i]).0@ == b.inner[i].0@
            &&& tag_eq(a.inner[i].1, b.inner[i].1)
        } by {
            lemma_tag_eq_reflexive(a.inner[i].1);
        }
    } else {
        let oa = a.visit_order();
        let ob = b.visit_order();
        assert forall|i: int| 0 <= i < n implies {
            &&& 0 <= #[trigger] oa[i] < n
            &&& 0 <= ob[i] < n
            &&& a.inner[oa[i]].0@ == b.inner[ob[i]].0@
            &&& tag_eq(a.inner[oa[i]].1, b.inner[ob[i]].1)
        } by {
            assert(0 <= ord[i] < n);
            assert(s[ord[i]] == s[ord[i]]);
        }
    }
}

/// After a pair (k, v) is appended to any pairs and they are sorted, the
/// last pair with key k is (k, v): a lookup finds the value last given.
pub proof fn law_lookup_after_append_and_sort(s: Seq<(String, Tag)>, k: String, v: Tag)
    ensures
        ({
            let t = sort_entries(s.push((k, v)));
            &&& has_key(t, k@)
            &&& 0 <= find_last(t, k@) < t.len()
            &&& t[find_last(t, k@)] == (k, v)
        }),
{
    let s2 = s.push((k, v));
    assert(s2.drop_last() =~= s);
    lemma_sort_entries_step(s2);
    lemma_sort_entries_ascending(s);
    let t = sort_entries(s);
    let ks = keys_of(t);
    let kb = key_bytes(k@);
    let p = insert_pos(ks, kb) as int;
    lemma_insert_pos_bounds(ks, kb);
    let r = t.insert(p, (k, v));
    assert forall|q: int| p < q < r.len() implies (#[trigger] r[q]).0@ != k@ by {
        assert(r[q] == t[q - 1]);
        assert(ks[q - 1] == key_bytes(t[q - 1].0@));
        assert(bytes_lt(kb, ks[p]));
        if q - 1 > p {
            lemma_bytes_lt_le(kb, ks[p], ks[q - 1]);
        }
        lemma_bytes_lt_irreflexive(kb);
    }
    lemma_find_last_at(r, k@, p);
    lemma_find_last(r, k@);
}

/// Whether no two pairs share a key.
pub open spec fn unique_keys(s: Seq<(String, Tag)>) -> bool {
    forall|i: int, j: int| 0 <= i < j < s.len() ==> (#[trigger] s[i]).0@ != (#[trigger] s[j]).0@
}

/// Whether `p` rearranges the positions `0 .. n`, each exactly once.
pub open spec fn is_permutation(p: Seq<int>, n: nat) -> bool {
    &&& p.len() == n
    &&& forall|i: int| 0 <= i < n ==> 0 <= #[trigger] p[i] < n
    &&& forall|i: int, j: int| 0 <= i < n && 0 <= j < n && i != j ==> #[trigger] p[i] != #[trigger] p[j]
    &&& forall|j: int| 0 <= j < n ==> #[trigger] p.contains(j)
}

proof fn lemma_sort_order_permutation(ks: Seq<Seq<u8>>)
    ensures
        is_permutation(sort_order(ks), ks.len()),
    decreases ks.len(),
{
    lemma_sort_order_range(ks);
    if ks.len() > 0 {
        let n = ks.len() as int;
        let prev = sort_order(ks.drop_last());
        lemma_sort_order_permutation(ks.drop_last());
        let p = insert_pos(prev.map_values(|j: int| ks[j]), ks.last()) as int;
        lemma_insert_pos_bounds(prev.map_values(|j: int| ks[j]), ks.last());
        let ord = sort_order(ks);
        assert(ord == prev.insert(p, n - 1));
        assert forall|i: int, j: int| 0 <= i < n && 0 <= j < n && i != j implies #[trigger] ord[i]
            != #[trigger] ord[j] by {
            let pi = if i < p { i } else { i - 1 };
            let pj = if j < p { j } else { j - 1 };
            if i != p && j != p {
                assert(ord[i] == prev[pi] && ord[j] == prev[pj]);
            } else if i == p {
                assert(ord[j] == prev[pj]);
            } else {
                assert(ord[i] == prev[pi]);
            }
        }
        assert forall|j: int| 0 <= j < n implies #[trigger] ord.contains(j) by {
            if j == n - 1 {
                assert(ord[p] == j);
            } else {
                assert(prev.contains(j));
                let k = choose|k: int| 0 <= k < n - 1 && #[trigger] prev[k] == j;
                if k < p {
                    assert(ord[k] == j);
                } else {
                    assert(ord[k + 1] == j);
                }
            }
        }
    }
}

/// Two strictly ascending sequences of byte strings, each of whose elements
/// occurs in the other, are the same sequence.
proof fn lemma_strictly_ascending_unique(a: Seq<Seq<u8>>, b: Seq<Seq<u8>>)
    requires
        a.len() == b.len(),
        forall|i: int, j: int| 0 <= i < j < a.len() ==> bytes_lt(#[trigger] a[i], #[trigger] a[j]),
        forall|i: int, j: int| 0 <= i < j < b.len() ==> bytes_lt(#[trigger] b[i], #[trigger] b[j]),
        forall|i: int| 0 <= i < a.len() ==> b.contains(#[trigger] a[i]),
        forall|j: int| 0 <= j < b.len() ==> a.contains(#[trigger] b[j]),
    ensures
        a == b,
    decreases a.len(),
{
    if a.len() == 0 {
        assert(a =~= b);
    } else {
        assert(b.contains(a[0]) && a.contains(b[0]));
        let j = choose|j: int| 0 <= j < b.len() && #[trigger] b[j] == a[0];
        let i = choose|i: int| 0 <= i < a.len() && #[trigger] a[i] == b[0];
        if j > 0 {
            // b[0] < b[j] == a[0] <= a[i] == b[0]
            if i > 0 {
                lemma_bytes_lt_transitive(b[0], a[0], a[i]);
            }
            lemma_bytes_lt_irreflexive(b[0]);
        } else if i > 0 {
            lemma_bytes_lt_irreflexive(a[0]);
        }
        assert(a[0] == b[0]);
        let a1 = a.drop_first();
        let b1 = b.drop_first();
        assert forall|x: int| 0 <= x < a1.len() implies b1.contains(#[trigger] a1[x]) by {
            assert(b.contains(a[x + 1]));
            let y = choose|y: int| 0 <= y < b.len() && #[trigger] b[y] == a[x + 1];
            assert(bytes_lt(a[0], a[x + 1]));
            if y == 0 {
                lemma_bytes_lt_irreflexive(a[0]);
            }
            assert(b1[y - 1] == a1[x]);
        }
        assert forall|y: int| 0 <= y < b1.len() implies a1.contains(#[trigger] b1[y]) by {
            assert(a.contains(b[y + 1]));
            let x = choose|x: int| 0 <= x < a.len() && #[trigger] a[x] == b[y + 1];
            assert(bytes_lt(b[0], b[y + 1]));
            if x == 0 {
                lemma_bytes_lt_irreflexive(b[0]);
            }
            assert(a1[x - 1] == b1[y]);
        }
        assert forall|x: int, y: int| 0 <= x < y < a1.len() implies bytes_lt(#[trigger] a1[x], #[trigger] a1[y]) by {
            assert(a1[x] == a[x + 1] && a1[y] == a[y + 1]);
        }
        assert forall|x: int, y: int| 0 <= x < y < b1.len() implies bytes_lt(#[trigger] b1[x], #[trigger] b1[y]) by {
            assert(b1[x] == b[x + 1] && b1[y] == b[y + 1]);
        }
        lemma_strictly_ascending_unique(a1, b1);
        assert(a =~= seq![a[0]] + a1);
        assert(b =~= seq![b[0]] + b1);
    }
}

/// Sorting pairs with unique keys puts their keys in strictly ascending order.
proof fn lemma_sorted_strictly_ascending(s: Seq<(String, Tag)>)
    requires
        unique_keys(s),
    ensures
        forall|i: int, j: int|
            0 <= i < j < s.len() ==> bytes_lt(
                #[trigger] keys_of(sort_entries(s))[i],
                #[trigger] keys_of(sort_entries(s))[j],
            ),
{
    let ord = sort_order(keys_of(s));
    lemma_sort_order_permutation(keys_of(s));
    lemma_sort_entries_ascending(s);
    let ks = keys_of(sort_entries(s));
    assert forall|i: int, j: int| 0 <= i < j < s.len() implies bytes_lt(#[trigger] ks[i], #[trigger] ks[j]) by {
        assert(!bytes_lt(ks[j], ks[i]));
        assert(ord[i] != ord[j]);
        assert(ks[i] == key_bytes(s[ord[i]].0@) && ks[j] == key_bytes(s[ord[j]].0@));
        if ks[i] == ks[j] {
            lemma_key_bytes_injective(s[ord[i]].0@, s[ord[j]].0@);
            if ord[i] < ord[j] {
                assert(s[ord[i]].0@ != s[ord[j]].0@);
            } else {
                assert(s[ord[j]].0@ != s[ord[i]].0@);
            }
        }
        lemma_bytes_lt_total(ks[i], ks[j]);
    }
}

/// Compounds built from the same pairs with unique keys, in any two orders,
/// are equal.
pub proof fn law_equal_under_permutation(
    s: Seq<(String, Tag)>,
    perm: Seq<int>,
    a: NbtCompound,
    b: NbtCompound,
)
    requires
        unique_keys(s),
        is_permutation(perm, s.len()),
        a.entries() == s,
        !a.is_sorted(),
        b.entries() == permute(perm, s),
        !b.is_sorted(),
    ensures
        compound_eq(a, b),
{
    let n = s.len() as int;
    let t = permute(perm, s);
    let oa = sort_order(keys_of(s));
    let ob = sort_order(keys_of(t));
    lemma_sort_order_permutation(keys_of(s));
    lemma_sort_order_permutation(keys_of(t));
    let sa = sort_entries(s);
    let sb = sort_entries(t);
    assert forall|i: int, j: int| 0 <= i < j < n implies (#[trigger] t[i]).0@ != (#[trigger] t[j]).0@ by {
        assert(perm[i] != perm[j]);
        if perm[i] < perm[j] {
            assert(s[perm[i]].0@ != s[perm[j]].0@);
        } else {
            assert(s[perm[j]].0@ != s[perm[i]].0@);
        }
    }
    lemma_sorted_strictly_ascending(s);
    lemma_sorted_strictly_ascending(t);
    let ka = keys_of(sa);
    let kb = keys_of(sb);
    assert forall|i: int| 0 <= i < n implies kb.contains(#[trigger] ka[i]) by {
        assert(perm.contains(oa[i]));
        let q = choose|q: int| 0 <= q < n && #[trigger] perm[q] == oa[i];
        assert(ob.contains(q));
        let r = choose|r: int| 0 <= r < n && #[trigger] ob[r] == q;
        assert(kb[r] == key_bytes(t[q].0@));
    }
    assert forall|j: int| 0 <= j < n implies ka.contains(#[trigger] kb[j]) by {
        assert(oa.contains(perm[ob[j]]));
        let i = choose|i: int| 0 <= i < n && #[trigger] oa[i] == perm[ob[j]];
        assert(ka[i] == key_bytes(s[perm[ob[j]]].0@));
    }
    lemma_strictly_ascending_unique(ka, kb);
    assert forall|i: int| 0 <= i < n implies {
        &&& 0 <= #[trigger] oa[i] < n
        &&& 0 <= ob[i] < n
        &&& a.inner[oa[i]].0@ == b.inner[ob[i]].0@
        &&& tag_eq(a.inner[oa[i]].1, b.inner[ob[i]].1)
    } by {
        let x = oa[i];
        let y = perm[ob[i]];
        assert(ka[i] == kb[i]);
        assert(ka[i] == key_bytes(s[x].0@));
        assert(kb[i] == key_bytes(s[y].0@));
        lemma_key_bytes_injective(s[x].0@, s[y].0@);
        if x < y {
            assert(s[x].0@ != s[y].0@);
        } else if y < x {
            assert(s[y].0@ != s[x].0@);
        }
        lemma_tag_eq_reflexive(s[x].1);
    }
    assert(a.visit_order() == oa);
    assert(b.visit_order() == ob);
}

/// Whether two pair sequences match one by one: same length, equal keys and
/// equal values at each position.
pub open spec fn pairs_match(x: Seq<(String, Tag)>, y: Seq<(String, Tag)>) -> bool {
    &&& x.len() == y.len()
    &&& forall|i: int| 0 <= i < x.len() ==> (#[trigger] x[i]).0@ == y[i].0@ && tag_eq(x[i].1, y[i].1)
}

/// The pairs of a compound in key order: as they stand when the compound is
/// known to be sorted, else as sorting would put them.
pub open spec fn arranged(c: NbtCompound) -> Seq<(String, Tag)> {
    if c.is_sorted() {
        c.entries()
    } else {
        sort_entries(c.entries())
    }
}

/// Two compounds are equal exactly when their pairs match one by one as they
/// stand, or match one by one in key order.
pub proof fn law_compound_eq_meaning(a: NbtCompound, b: NbtCompound)
    ensures
        compound_eq(a, b) <==> (pairs_match(a.entries(), b.entries()) || pairs_match(arranged(a), arranged(b))),
{
    let n = a.inner@.len();
    lemma_sort_order_range(keys_of(a.inner@));
    lemma_sort_order_range(keys_of(b.inner@));
    let oa = a.visit_order();
    let ob = b.visit_order();
    if a.inner@.len() == b.inner@.len() {
        assert(arranged(a).len() == n && arranged(b).len() == n);
        assert forall|i: int| 0 <= i < n implies 0 <= #[trigger] oa[i] < n && arranged(a)[i] == a.inner[oa[i]]
            && 0 <= ob[i] < n && arranged(b)[i] == b.inner[ob[i]] by {}
        let x = arranged(a);
        let y = arranged(b);
        let d2 = forall|i: int|
            0 <= i < n ==> {
                &&& 0 <= #[trigger] oa[i] < n
                &&& 0 <= ob[i] < n
                &&& a.inner[oa[i]].0@ == b.inner[ob[i]].0@
                &&& tag_eq(a.inner[oa[i]].1, b.inner[ob[i]].1)
            };
        if d2 {
            assert forall|i: int| 0 <= i < x.len() implies (#[trigger] x[i]).0@ == y[i].0@ && tag_eq(x[i].1, y[i].1) by {
                assert(0 <= oa[i] < n);
            }
        }
        if pairs_match(x, y) {
            assert forall|i: int| 0 <= i < n implies {
                &&& 0 <= #[trigger] oa[i] < n
                &&& 0 <= ob[i] < n
                &&& a.inner[oa[i]].0@ == b.inner[ob[i]].0@
                &&& tag_eq(a.inner[oa[i]].1, b.inner[ob[i]].1)
            } by {
                assert(x[i] == a.inner[oa[i]]);
            }
        }
        assert(pairs_match(a.entries(), b.entries()) == (forall|i: int|
            0 <= i < n ==> {
                &&& (#[trigger] a.inner[i]).0@ == b.inner[i].0@
                &&& tag_eq(a.inner[i].1, b.inner[i].1)
            }));
    } else {
        lemma_sort_entries_ascending(a.inner@);
        lemma_sort_entries_ascending(b.inner@);
    }
}

/// Sorting rearranges the pairs, each exactly once, into ascending key order.
pub proof fn law_sort_is_an_ascending_permutation(s: Seq<(String, Tag)>)
    ensures
        is_permutation(sort_order(keys_of(s)), s.len()),
        sort_entries(s) == permute(sort_order(keys_of(s)), s),
        sort_entries(s).len() == s.len(),
        ascending(keys_of(sort_entries(s))),
{
    lemma_sort_order_permutation(keys_of(s));
    lemma_sort_entries_ascending(s);
}

} // verus!
