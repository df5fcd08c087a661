//! Buckets: the groups of codepoints that share one sub-table slice at a
//! tier of the lookup table.

use vstd::prelude::*;

verus! {

/// A codepoint with its width.
pub type Entry = (u32, u8);

/// A group of codepoints that share one sub-table slice.
///
/// `widths` is the slice: for a bucket that came straight out of a
/// partition it holds the width of each member in order; after merges it is
/// the longest slice among the buckets that were merged into this one.
#[derive(Debug, Clone)]
pub struct Bucket {
    pub codepoints: Vec<Entry>,
    pub widths: Vec<u8>,
}

/// The mathematical content of a [`Bucket`].
pub struct BucketView {
    pub codepoints: Seq<Entry>,
    pub widths: Seq<u8>,
}

impl View for Bucket {
    type V = BucketView;

    open spec fn view(&self) -> BucketView {
        BucketView { codepoints: self.codepoints@, widths: self.widths@ }
    }
}

/// The views of a sequence of buckets.
pub open spec fn bucket_views(buckets: Seq<Bucket>) -> Seq<BucketView> {
    buckets.map_values(|b: Bucket| b@)
}

/// The low `bits` bits set.
pub open spec fn low_mask(bits: u32) -> u32 {
    !(0xFFFF_FFFFu32 << bits)
}

/// The value of bits `low_bit..cap_bit` of a codepoint.
pub open spec fn window(cp: u32, low_bit: u32, cap_bit: u32) -> u32 {
    (cp >> low_bit) & low_mask((cap_bit - low_bit) as u32)
}

/// Number of values that bits `low_bit..cap_bit` can take.
pub open spec fn bucket_count(low_bit: u32, cap_bit: u32) -> nat {
    (1u32 << ((cap_bit - low_bit) as u32)) as nat
}

/// A bit window that a tier can be built on: not empty, and narrower than
/// a whole `u32`.
pub open spec fn valid_window(low_bit: u32, cap_bit: u32) -> bool {
    low_bit < cap_bit <= 32 && cap_bit - low_bit < 32
}

/// The test that picks the entries whose window value is `b`.
pub open spec fn in_bucket(low_bit: u32, cap_bit: u32, b: u32) -> spec_fn(Entry) -> bool {
    |e: Entry| window(e.0, low_bit, cap_bit) == b
}

/// The width of an entry.
pub open spec fn width_of() -> spec_fn(Entry) -> u8 {
    |e: Entry| e.1
}

/// Bucket `b` of the partition of `entries` by bits `low_bit..cap_bit`: the
/// entries with that window value, in their order, and their widths.
pub open spec fn raw_bucket(entries: Seq<Entry>, low_bit: u32, cap_bit: u32, b: u32) -> BucketView {
    let members = entries.filter(in_bucket(low_bit, cap_bit, b));
    BucketView { codepoints: members, widths: members.map_values(width_of()) }
}

/// The partition of `entries` by bits `low_bit..cap_bit`, one bucket per
/// window value.
pub open spec fn raw_buckets(entries: Seq<Entry>, low_bit: u32, cap_bit: u32) -> Seq<BucketView> {
    Seq::new(bucket_count(low_bit, cap_bit), |b: int| raw_bucket(entries, low_bit, cap_bit, b as u32))
}

/// `a` is an initial part of `b`.
pub open spec fn is_prefix(a: Seq<u8>, b: Seq<u8>) -> bool {
    a.len() <= b.len() && a == b.take(a.len() as int)
}

/// Two buckets can share a sub-table when the shorter slice is an initial
/// part of the longer one.
pub open spec fn mergeable(a: BucketView, b: BucketView) -> bool {
    if a.widths.len() > b.widths.len() {
        is_prefix(b.widths, a.widths)
    } else {
        is_prefix(a.widths, b.widths)
    }
}

/// The bucket that results from merging `b` into `a`: the members of both,
/// and the longer slice.
pub open spec fn merged(a: BucketView, b: BucketView) -> BucketView {
    BucketView {
        codepoints: a.codepoints + b.codepoints,
        widths: if a.widths.len() > b.widths.len() {
            a.widths
        } else {
            b.widths
        },
    }
}

/// The one width of a slice that is not empty and holds the same width
/// throughout.
pub open spec fn uniform_width(widths: Seq<u8>) -> Option<u8> {
    if widths.len() > 0 && (forall|i: int|
        0 <= i < widths.len() ==> #[trigger] widths[i] == widths[0]) {
        Some(widths[0])
    } else {
        None
    }
}

/// Entries in ascending order of codepoint.
pub open spec fn sorted_by_codepoint(entries: Seq<Entry>) -> bool {
    forall|i: int, j: int| 0 <= i < j < entries.len() ==> entries[i].0 <= entries[j].0
}

/// `sort_unstable_by_key` of the standard library's slices, with the
/// codepoint as key: the entries are rearranged, none is added or lost, and
/// afterwards they stand in ascending order of codepoint.
#[verifier::external_body]
fn sort_by_codepoint(entries: &mut Vec<Entry>)
    ensures
        final(entries)@.to_multiset() == old(entries)@.to_multiset(),
        sorted_by_codepoint(final(entries)@),
{
    entries.sort_unstable_by_key(|&(codepoint, _)| codepoint)
}

impl Bucket {
    /// Partitions `codepoints` by the value of bits `low_bit..cap_bit`.
    pub fn for_bits(codepoints: &[Entry], low_bit: u32, cap_bit: u32) -> (buckets: Vec<Bucket>)
        requires
            valid_window(low_bit, cap_bit),
        ensures
            bucket_views(buckets@) == raw_buckets(codepoints@, low_bit, cap_bit),
    {
        let num_bits: u32 = cap_bit - low_bit;
        assert((1u32 << num_bits) >= 1 && ((1u32 << num_bits) - 1) as u32 == low_mask(num_bits)
            && (1u32 << num_bits) == 2u32 << ((num_bits - 1) as u32) && (1u32 << num_bits)
            <= 0x8000_0000u32) by (bit_vector)
            requires
                0 < num_bits < 32,
        ;
        let mask: u32 = (1u32 << num_bits) - 1;
        let count: usize = (2u32 << (num_bits - 1)) as usize;
        let mut buckets: Vec<Bucket> = Vec::new();
        while buckets.len() < count
            invariant
                buckets.len() <= count,
                forall|b: int|
                    0 <= b < buckets.len() ==> (#[trigger] buckets[b])@ == raw_bucket(
                        Seq::<Entry>::empty(),
                        low_bit,
                        cap_bit,
                        b as u32,
                    ),
            decreases count - buckets.len(),
        {
            let ghost b = buckets.len() as u32;
            let empty = Bucket { codepoints: Vec::new(), widths: Vec::new() };
            assert(empty@ =~= raw_bucket(Seq::<Entry>::empty(), low_bit, cap_bit, b)) by {
                let nothing = Seq::<Entry>::empty();
                assert(nothing.filter(in_bucket(low_bit, cap_bit, b)) =~= nothing);
                assert(nothing.map_values(width_of()) =~= Seq::<u8>::empty());
            }
            buckets.push(empty);
        }
        assert(codepoints@.take(0) =~= Seq::<Entry>::empty());
        let mut i: usize = 0;
        while i < codepoints.len()
            invariant
                i <= codepoints.len(),
                num_bits == cap_bit - low_bit,
                0 < num_bits < 32,
                low_bit < 32,
                mask == low_mask(num_bits),
                buckets.len() == count,
                count == (1u32 << num_bits),
                forall|b: int|
                    0 <= b < buckets.len() ==> (#[trigger] buckets[b])@ == raw_bucket(
                        codepoints@.take(i as int),
                        low_bit,
                        cap_bit,
                        b as u32,
                    ),
            decreases codepoints.len() - i,
        {
            let (codepoint, width) = codepoints[i];
            let shifted: u32 = codepoint >> low_bit;
            let key: u32 = shifted & mask;
            assert(key < (1u32 << num_bits)) by (bit_vector)
                requires
                    key == shifted & low_mask(num_bits),
                    0 < num_bits < 32,
            ;
            let ghost before = codepoints@.take(i as int);
            let ghost after = codepoints@.take(i + 1);
            let ghost old_buckets = buckets@;
            buckets[key as usize].codepoints.push((codepoint, width));
            buckets[key as usize].widths.push(width);
            proof {
                assert(after =~= before.push(codepoints@[i as int]));
                assert forall|b: int| 0 <= b < buckets.len() implies (#[trigger] buckets[b])@
                    == raw_bucket(after, low_bit, cap_bit, b as u32) by {
                    let pred = in_bucket(low_bit, cap_bit, b as u32);
                    assert(old_buckets[b]@ == raw_bucket(before, low_bit, cap_bit, b as u32));
                    assert(pred(codepoints@[i as int]) == (key == b as u32));
                    before.lemma_filter_push(codepoints@[i as int], pred);
                    if b == key {
                        assert(after.filter(pred).map_values(width_of()) =~= before.filter(
                            pred,
                        ).map_values(width_of()).push(width));
                    }
                }
            }
            i += 1;
        }
        proof {
            assert(codepoints@.take(codepoints.len() as int) =~= codepoints@);
            assert(bucket_views(buckets@) =~= raw_buckets(codepoints@, low_bit, cap_bit));
        }
        buckets
    }

    /// Merges `other` into this bucket if the two can share a sub-table
    /// slice, and says whether it did. A bucket that is not merged is left
    /// as it was.
    pub fn try_merge(&mut self, other: &Bucket) -> (did_merge: bool)
        ensures
            did_merge == mergeable(old(self)@, other@),
            final(self)@ == if did_merge {
                merged(old(self)@, other@)
            } else {
                old(self)@
            },
    {
        let shorter: usize = if self.widths.len() > other.widths.len() {
            other.widths.len()
        } else {
            self.widths.len()
        };
        let mut i: usize = 0;
        while i < shorter
            invariant
                i <= shorter,
                shorter <= self.widths.len(),
                shorter <= other.widths.len(),
                *self == *old(self),
                self.widths@.take(i as int) == other.widths@.take(i as int),
            decreases shorter - i,
        {
            if self.widths[i] != other.widths[i] {
                assert(self.widths@.take(shorter as int)[i as int] != other.widths@.take(
                    shorter as int,
                )[i as int]);
                return false;
            }
            assert(self.widths@.take(i + 1) =~= self.widths@.take(i as int).push(
                self.widths@[i as int],
            ));
            assert(other.widths@.take(i + 1) =~= other.widths@.take(i as int).push(
                other.widths@[i as int],
            ));
            i += 1;
        }
        assert(self.widths@.take(self.widths.len() as int) =~= self.widths@);
        assert(other.widths@.take(other.widths.len() as int) =~= other.widths@);
        if other.widths.len() > self.widths.len() {
            self.widths = copy_widths(&other.widths);
        }
        let mut k: usize = 0;
        while k < other.codepoints.len()
            invariant
                k <= other.codepoints.len(),
                self.widths@ == (if other.widths.len() > old(self).widths.len() {
                    other.widths@
                } else {
                    old(self).widths@
                }),
                self.codepoints@ == old(self).codepoints@ + other.codepoints@.take(k as int),
            decreases other.codepoints.len() - k,
        {
            self.codepoints.push(other.codepoints[k]);
            assert(other.codepoints@.take(k + 1) =~= other.codepoints@.take(k as int).push(
                other.codepoints@[k as int],
            ));
            k += 1;
        }
        assert(other.codepoints@.take(other.codepoints.len() as int) =~= other.codepoints@);
        true
    }

    /// The members of this bucket in ascending order of codepoint.
    pub fn codepoints(&self) -> (sorted: Vec<Entry>)
        ensures
            sorted@.to_multiset() == self.codepoints@.to_multiset(),
            sorted_by_codepoint(sorted@),
    {
        let mut sorted: Vec<Entry> = Vec::new();
        let mut i: usize = 0;
        while i < self.codepoints.len()
            invariant
                i <= self.codepoints.len(),
                sorted@ == self.codepoints@.take(i as int),
            decreases self.codepoints.len() - i,
        {
            sorted.push(self.codepoints[i]);
            assert(self.codepoints@.take(i + 1) =~= self.codepoints@.take(i as int).push(
                self.codepoints@[i as int],
            ));
            i += 1;
        }
        assert(self.codepoints@.take(self.codepoints.len() as int) =~= self.codepoints@);
        sort_by_codepoint(&mut sorted);
        sorted
    }

    /// The sub-table slice of this bucket.
    pub fn widths(&self) -> (widths: &[u8])
        ensures
            widths@ == self.widths@,
    {
        self.widths.as_slice()
    }

    /// The one width of this bucket, if its slice is not empty and holds
    /// the same width throughout.
    pub fn width(&self) -> (width: Option<u8>)
        ensures
            width == uniform_width(self.widths@),
    {
        if self.widths.len() == 0 {
            return None;
        }
        let width_0: u8 = self.widths[0];
        let mut i: usize = 1;
        while i < self.widths.len()
            invariant
                1 <= i <= self.widths.len(),
                width_0 == self.widths@[0],
                forall|j: int| 0 <= j < i ==> #[trigger] self.widths@[j] == width_0,
            decreases self.widths.len() - i,
        {
            if self.widths[i] != width_0 {
                return None;
            }
            i += 1;
        }
        Some(width_0)
    }
}

/// A copy of a slice of widths.
fn copy_widths(widths: &Vec<u8>) -> (copy: Vec<u8>)
    ensures
        copy@ == widths@,
{
    let mut copy: Vec<u8> = Vec::with_capacity(widths.len());
    let mut i: usize = 0;
    while i < widths.len()
        invariant
            i <= widths.len(),
            copy@ == widths@.take(i as int),
        decreases widths.len() - i,
    {
        copy.push(widths[i]);
        assert(widths@.take(i + 1) =~= widths@.take(i as int).push(widths@[i as int]));
        i += 1;
    }
    assert(widths@.take(widths.len() as int) =~= widths@);
    copy
}

} // verus!
