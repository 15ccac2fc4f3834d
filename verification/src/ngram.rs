//! N-gram indices of memory images, and how much two of them have in common.

use vstd::prelude::*;
use vstd::multiset::Multiset;
use std::collections::HashMap;
use rustc_hash::FxBuildHasher;
use crate::fx_map::{fx_entries, fx_get, fx_insert, fx_new, lists_entries};
use crate::memory::{bytes_before, lemma_bytes_before_bound, regions_wf, MemoryImage, MemoryRegion};

verus! {

/// The number of windows of `n` bytes in `data` that begin before `upto` and
/// hold the bytes `gram`.
pub open spec fn windows_in(data: Seq<u8>, n: int, upto: int, gram: Seq<u8>) -> int
    decreases upto,
{
    if upto <= 0 {
        0
    } else {
        windows_in(data, n, upto - 1, gram) + if data.subrange(upto - 1, upto - 1 + n) == gram {
            1int
        } else {
            0int
        }
    }
}

/// The number of windows of `n` bytes in `data`.
pub open spec fn window_count(data: Seq<u8>, n: int) -> int {
    if data.len() >= n {
        data.len() - n + 1
    } else {
        0
    }
}

/// The number of windows of `n` bytes, in the first `regions_upto` regions,
/// that hold the bytes `gram`. A window lies inside one region.
pub open spec fn windows_of(regions: Seq<MemoryRegion>, n: int, regions_upto: int, gram: Seq<u8>) -> int
    decreases regions_upto,
{
    if regions_upto <= 0 {
        0
    } else {
        windows_of(regions, n, regions_upto - 1, gram) + windows_in(
            regions[regions_upto - 1].data@,
            n,
            window_count(regions[regions_upto - 1].data@, n),
            gram,
        )
    }
}

/// The number of windows of `n` bytes in the first `regions_upto` regions.
pub open spec fn all_windows(regions: Seq<MemoryRegion>, n: int, regions_upto: int) -> int
    decreases regions_upto,
{
    if regions_upto <= 0 {
        0
    } else {
        all_windows(regions, n, regions_upto - 1) + window_count(regions[regions_upto - 1].data@, n)
    }
}

/// How much two indices have in common: the number of n-grams in both,
/// counted as often as they occur in each, and the number in either.
#[derive(Copy, Clone, Debug, PartialEq, Eq, Structural)]
pub struct Similarity {
    pub intersection: u64,
    pub union: u64,
}

/// Two samples belong together where the share of the intersection of their
/// n-grams in the union is above three tenths.
pub const SIMILARITY_THRESHOLD: (u32, u32) = (3, 10);

impl Similarity {
    /// Whether the two samples are similar enough to belong together.
    pub fn is_similar(&self) -> (r: bool)
        ensures
            r == (self.intersection * 10 > 3 * self.union),
    {
        self.exceeds(SIMILARITY_THRESHOLD.0, SIMILARITY_THRESHOLD.1)
    }

    /// Whether the share of the intersection in the union is above
    /// `numerator / denominator`.
    pub fn exceeds(&self, numerator: u32, denominator: u32) -> (r: bool)
        ensures
            r == (self.intersection * denominator > numerator * self.union),
    {
        assert(self.intersection * denominator <= u64::MAX * u32::MAX) by (nonlinear_arith)
            requires
                self.intersection <= u64::MAX,
                denominator <= u32::MAX,
        ;
        assert(numerator * self.union <= u32::MAX * u64::MAX) by (nonlinear_arith)
            requires
                self.union <= u64::MAX,
                numerator <= u32::MAX,
        ;
        (self.intersection as u128) * (denominator as u128) > (numerator as u128) * (self.union as u128)
    }
}

/// The multiset of every window of `N` bytes of a memory image.
pub struct NGramIndex<const N: usize> {
    ngrams: HashMap<[u8; N], usize, FxBuildHasher>,
    total_count: usize,
    grams: Ghost<Multiset<[u8; N]>>,
}

impl<const N: usize> View for NGramIndex<N> {
    type V = Multiset<[u8; N]>;

    closed spec fn view(&self) -> Multiset<[u8; N]> {
        self.grams@
    }
}

/// Copies of `gram` added to `set`, `copies` of them.
pub open spec fn with_copies<const N: usize>(set: Multiset<[u8; N]>, gram: [u8; N], copies: nat) -> Multiset<
    [u8; N],
>
    decreases copies,
{
    if copies == 0 {
        set
    } else {
        with_copies(set, gram, (copies - 1) as nat).insert(gram)
    }
}

proof fn lemma_with_copies<const N: usize>(set: Multiset<[u8; N]>, gram: [u8; N], copies: nat)
    ensures
        with_copies(set, gram, copies).len() == set.len() + copies,
        with_copies(set, gram, copies).count(gram) == set.count(gram) + copies,
        forall|other: [u8; N]| other != gram ==> with_copies(set, gram, copies).count(other) == set.count(other),
    decreases copies,
{
    broadcast use vstd::multiset::group_multiset_axioms;

    if copies > 0 {
        lemma_with_copies(set, gram, (copies - 1) as nat);
    }
}

impl<const N: usize> NGramIndex<N> {
    /// The map holds the count of each n-gram that occurs, and the total is
    /// the number of all of them.
    pub closed spec fn wf(self) -> bool {
        &&& self.total_count == self.grams@.len()
        &&& self.total_count <= u32::MAX
        &&& forall|gram: [u8; N]|
            self.grams@.count(gram) == (if self.ngrams@.contains_key(gram) {
                self.ngrams@[gram] as nat
            } else {
                0nat
            })
        &&& forall|gram: [u8; N]| self.ngrams@.contains_key(gram) ==> self.ngrams@[gram] > 0
    }

    /// The window of `N` bytes of `data` that begins at `start`.
    fn window_at(data: &[u8], start: usize) -> (r: [u8; N])
        requires
            start + N <= data@.len(),
        ensures
            r@ == data@.subrange(start as int, start + N),
    {
        let len = data.len();
        let mut gram = [0u8;N];
        let mut j: usize = 0;
        while j < N
            invariant
                0 <= j <= N,
                start + N <= data@.len(),
                len == data@.len(),
                forall|k: int| 0 <= k < j ==> gram@[k] == data@[start + k],
            decreases N - j,
        {
            gram[j] = data[start + j];
            j += 1;
        }
        assert(gram@ =~= data@.subrange(start as int, start + N));
        gram
    }

    /// The index of every window of `N` bytes of `program`. A window lies
    /// inside one region.
    pub fn new(program: &MemoryImage) -> (r: NGramIndex<N>)
        requires
            N > 0,
            program.wf(),
        ensures
            r.wf(),
            r@.len() == all_windows(program@, N as int, program@.len() as int),
            forall|gram: [u8; N]| #[trigger]
                r@.count(gram) == windows_of(program@, N as int, program@.len() as int, gram@),
    {
        broadcast use vstd::multiset::group_multiset_axioms;

        let ghost regions = program@;
        let mut ngrams: HashMap<[u8; N], usize, FxBuildHasher> = fx_new();
        let mut total_count: usize = 0;
        let ghost mut grams: Multiset<[u8; N]> = Multiset::empty();
        let count = program.regions().len();
        let mut r: usize = 0;
        while r < count
            invariant
                0 <= r <= count,
                N > 0,
                count == regions.len(),
                regions == program@,
                regions_wf(regions),
                total_count == grams.len(),
                total_count == all_windows(regions, N as int, r as int),
                total_count <= bytes_before(regions, r as int),
                forall|gram: [u8; N]|
                    grams.count(gram) == (if ngrams@.contains_key(gram) {
                        ngrams@[gram] as nat
                    } else {
                        0nat
                    }),
                forall|gram: [u8; N]| ngrams@.contains_key(gram) ==> ngrams@[gram] > 0,
                forall|gram: [u8; N]| #[trigger]
                    grams.count(gram) == windows_of(regions, N as int, r as int, gram@),
            decreases count - r,
        {
            let region = &program.regions()[r];
            let data = region.data.as_slice();
            let len = data.len();
            let windows: usize = if len >= N { len - N + 1 } else { 0 };
            let ghost base = total_count;
            let ghost before = grams;
            proof {
                lemma_bytes_before_bound(regions, r + 1);
            }
            let mut w: usize = 0;
            while w < windows
                invariant
                    0 <= w <= windows,
                    N > 0,
                    len == data@.len(),
                    data@ == regions[r as int].data@,
                    windows == window_count(data@, N as int),
                    total_count == grams.len(),
                    total_count == base + w,
                    base + windows <= u32::MAX,
                    forall|gram: [u8; N]|
                        grams.count(gram) == (if ngrams@.contains_key(gram) {
                            ngrams@[gram] as nat
                        } else {
                            0nat
                        }),
                    forall|gram: [u8; N]| ngrams@.contains_key(gram) ==> ngrams@[gram] > 0,
                    forall|gram: [u8; N]| #[trigger]
                        grams.count(gram) == before.count(gram) + windows_in(
                            data@,
                            N as int,
                            w as int,
                            gram@,
                        ),
                decreases windows - w,
            {
                let ngram = Self::window_at(data, w);
                let seen = match fx_get(&ngrams, ngram) {
                    Some(count) => count,
                    None => 0,
                };
                proof {
                    assert(seen == grams.count(ngram));
                    assert(grams.count(ngram) <= grams.len());
                }
                fx_insert(&mut ngrams, ngram, seen + 1);
                total_count = total_count + 1;
                let ghost previous = grams;
                proof {
                    grams = grams.insert(ngram);
                    assert forall|gram: [u8; N]| #[trigger]
                        grams.count(gram) == before.count(gram) + windows_in(
                            data@,
                            N as int,
                            w + 1,
                            gram@,
                        ) by {
                        assert(previous.count(gram) == before.count(gram) + windows_in(
                            data@,
                            N as int,
                            w as int,
                            gram@,
                        ));
                        if gram == ngram {
                        } else {
                            assert(gram@ != ngram@) by {
                                if gram@ == ngram@ {
                                    assert(gram =~= ngram);
                                }
                            }
                        }
                    }
                }
                w += 1;
            }
            proof {
                assert forall|gram: [u8; N]| #[trigger]
                    grams.count(gram) == windows_of(regions, N as int, r + 1, gram@) by {
                    assert(before.count(gram) == windows_of(regions, N as int, r as int, gram@));
                }
            }
            r += 1;
        }
        proof {
            lemma_bytes_before_bound(regions, count as int);
        }
        NGramIndex { ngrams, total_count, grams: Ghost(grams) }
    }

    /// How much this index and `other` have in common.
    pub fn similarity(&self, other: &NGramIndex<N>) -> (r: Similarity)
        requires
            self.wf(),
            other.wf(),
        ensures
            r.intersection == self@.intersection_with(other@).len(),
            r.union == self@.len() + other@.len() - self@.intersection_with(other@).len(),
            r.intersection <= r.union,
    {
        broadcast use {vstd::multiset::group_multiset_axioms, vstd::multiset::lemma_intersection_count};

        let ghost common = self@.intersection_with(other@);
        let entries = fx_entries(&self.ngrams);
        let mut intersection: usize = 0;
        let ghost mut done: Multiset<[u8; N]> = Multiset::empty();
        proof {
            lemma_common(self@, other@);
        }
        let mut i: usize = 0;
        while i < entries.len()
            invariant
                0 <= i <= entries@.len(),
                self.wf(),
                other.wf(),
                common == self@.intersection_with(other@),
                lists_entries(self.ngrams@, entries@),
                intersection == done.len(),
                done.subset_of(common),
                common.len() <= self@.len(),
                forall|gram: [u8; N]|
                    done.count(gram) == (if exists|k: int| 0 <= k < i && (#[trigger] entries@[k]).0 == gram {
                        common.count(gram)
                    } else {
                        0nat
                    }),
            decreases entries@.len() - i,
        {
            let (ngram, count) = entries[i];
            let ghost before = done;
            proof {
                assert(self.ngrams@.contains_key(entries@[i as int].0));
                assert(self@.count(ngram) == count);
                assert(!(exists|k: int| 0 <= k < i && (#[trigger] entries@[k]).0 == ngram)) by {
                    if exists|k: int| 0 <= k < i && (#[trigger] entries@[k]).0 == ngram {
                        let k = choose|k: int| 0 <= k < i && (#[trigger] entries@[k]).0 == ngram;
                        assert(entries@[k].0 != entries@[i as int].0);
                    }
                }
            }
            if let Some(other_count) = fx_get(&other.ngrams, ngram) {
                let shared = if count <= other_count { count } else { other_count };
                proof {
                    assert(other@.count(ngram) == other_count);
                    vstd::multiset::lemma_intersection_count(self@, other@, ngram);
                    assert(common.count(ngram) == shared);
                    lemma_with_copies(before, ngram, shared as nat);
                    done = with_copies(before, ngram, shared as nat);
                    lemma_subset_len(done, common);
                }
                intersection = intersection + shared;
            } else {
                proof {
                    assert(other@.count(ngram) == 0);
                    vstd::multiset::lemma_intersection_count(self@, other@, ngram);
                    assert(common.count(ngram) == 0);
                }
            }
            proof {
                assert forall|gram: [u8; N]|
                    done.count(gram) == (if exists|k: int|
                        0 <= k < i + 1 && (#[trigger] entries@[k]).0 == gram {
                        common.count(gram)
                    } else {
                        0nat
                    }) by {
                    let was = exists|k: int| 0 <= k < i && (#[trigger] entries@[k]).0 == gram;
                    let is = exists|k: int| 0 <= k < i + 1 && (#[trigger] entries@[k]).0 == gram;
                    assert(before.count(gram) == (if was { common.count(gram) } else { 0nat }));
                    if gram != ngram {
                        assert(done.count(gram) == before.count(gram));
                    } else {
                        assert(!was);
                        assert(done.count(gram) == common.count(gram));
                    }
                    if was {
                        let k = choose|k: int| 0 <= k < i && (#[trigger] entries@[k]).0 == gram;
                        assert(0 <= k < i + 1 && entries@[k].0 == gram);
                    }
                    if gram == ngram {
                        assert(entries@[i as int].0 == gram);
                    }
                    if is && !was {
                        let k = choose|k: int| 0 <= k < i + 1 && (#[trigger] entries@[k]).0 == gram;
                        assert(k == i);
                    }
                }
                assert(done.subset_of(common));
            }
            i += 1;
        }
        proof {
            assert(done =~= common) by {
                assert forall|gram: [u8; N]| done.count(gram) == common.count(gram) by {
                    if common.count(gram) > 0 {
                        assert(self@.count(gram) > 0);
                        assert(self.ngrams@.contains_key(gram));
                        let k = choose|k: int| 0 <= k < entries@.len() && (#[trigger] entries@[k]).0 == gram;
                        assert(0 <= k < i && entries@[k].0 == gram);
                    }
                }
            }
        }
        let total: u64 = self.total_count as u64 + other.total_count as u64;
        Similarity { intersection: intersection as u64, union: total - intersection as u64 }
    }

    /// The number of distinct n-grams.
    pub fn len(&self) -> (r: usize)
        requires
            self.wf(),
        ensures
            r == self@.dom().len(),
    {
        broadcast use vstd::multiset::group_multiset_axioms;

        let entries = fx_entries(&self.ngrams);
        proof {
            let keys = entries@.map_values(|e: ([u8; N], usize)| e.0);
            assert(keys.no_duplicates()) by {
                assert forall|i: int, j: int| 0 <= i < keys.len() && 0 <= j < keys.len() && i != j implies keys[i]
                    != keys[j] by {
                    if i < j {
                        assert(entries@[i].0 != entries@[j].0);
                    } else {
                        assert(entries@[j].0 != entries@[i].0);
                    }
                }
            }
            keys.unique_seq_to_set();
            assert(keys.to_set() =~= self@.dom()) by {
                assert forall|gram: [u8; N]| keys.to_set().contains(gram) <==> self@.dom().contains(
                    gram,
                ) by {
                    if keys.to_set().contains(gram) {
                        let k = choose|k: int| 0 <= k < keys.len() && keys[k] == gram;
                        assert(self.ngrams@.contains_key(entries@[k].0));
                        assert(self@.count(gram) > 0);
                    }
                    if self@.dom().contains(gram) {
                        assert(self@.count(gram) > 0);
                        assert(self.ngrams@.contains_key(gram));
                        let k = choose|k: int| 0 <= k < entries@.len() && (#[trigger] entries@[k]).0 == gram;
                        assert(keys[k] == gram);
                    }
                }
            }
        }
        entries.len()
    }
}

/// A multiset inside another has no more items.
pub proof fn lemma_subset_len<V>(inner: Multiset<V>, outer: Multiset<V>)
    requires
        inner.subset_of(outer),
    ensures
        inner.len() <= outer.len(),
{
    broadcast use vstd::multiset::group_multiset_axioms;

    assert(outer =~= inner.add(outer.sub(inner)));
}

/// What two multisets have in common is inside each of them.
pub proof fn lemma_common<V>(a: Multiset<V>, b: Multiset<V>)
    ensures
        a.intersection_with(b).subset_of(a),
        a.intersection_with(b).subset_of(b),
        a.intersection_with(b).len() <= a.len(),
        a.intersection_with(b).len() <= b.len(),
{
    broadcast use {vstd::multiset::group_multiset_axioms, vstd::multiset::lemma_intersection_count};

    lemma_subset_len(a.intersection_with(b), a);
    lemma_subset_len(a.intersection_with(b), b);
}

/// The similarity of two indices lies between nothing and everything: the
/// intersection is no larger than the union, and neither is negative.
pub proof fn law_similarity_bounds<const N: usize>(a: NGramIndex<N>, b: NGramIndex<N>)
    ensures
        0 <= a@.intersection_with(b@).len() <= a@.len() + b@.len() - a@.intersection_with(b@).len(),
{
    lemma_common(a@, b@);
}

/// An index is wholly similar to itself: the intersection is the union.
pub proof fn law_similarity_of_self<const N: usize>(a: NGramIndex<N>)
    ensures
        a@.intersection_with(a@).len() == a@.len() + a@.len() - a@.intersection_with(a@).len(),
{
    broadcast use {vstd::multiset::group_multiset_axioms, vstd::multiset::lemma_intersection_count};

    assert(a@.intersection_with(a@) =~= a@);
}

/// Similarity does not depend on the order of the two indices.
pub proof fn law_similarity_symmetric<const N: usize>(a: NGramIndex<N>, b: NGramIndex<N>)
    ensures
        a@.intersection_with(b@).len() == b@.intersection_with(a@).len(),
        a@.len() + b@.len() - a@.intersection_with(b@).len() == b@.len() + a@.len() - b@.intersection_with(
            a@,
        ).len(),
{
    broadcast use {vstd::multiset::group_multiset_axioms, vstd::multiset::lemma_intersection_count};

    assert(a@.intersection_with(b@) =~= b@.intersection_with(a@));
}

} // verus!
