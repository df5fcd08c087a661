//! One tier of the lookup table: the buckets that survive merging, and for
//! each bucket of the partition the index of the one it was merged into.

use vstd::prelude::*;
use crate::width::MAX_WIDTH;
use crate::bucket::{
    bucket_views, merged, mergeable, raw_buckets, uniform_width, valid_window, Bucket, BucketView,
    Entry,
};

verus! {

/// One tier of the lookup table.
#[derive(Debug)]
pub struct Table {
    /// For each bucket of the partition, the index in `buckets` of the
    /// bucket that it was merged into.
    pub entries: Vec<usize>,
    /// The buckets that are left after merging.
    pub buckets: Vec<Bucket>,
}

/// The mathematical content of a [`Table`].
pub struct TableView {
    pub entries: Seq<usize>,
    pub buckets: Seq<BucketView>,
}

impl View for Table {
    type V = TableView;

    open spec fn view(&self) -> TableView {
        TableView { entries: self.entries@, buckets: bucket_views(self.buckets@) }
    }
}

/// Index of the first bucket at or after `from` that `b` can be merged
/// into, or the number of buckets if there is none.
pub open spec fn first_fit(buckets: Seq<BucketView>, b: BucketView, from: int) -> int
    decreases buckets.len() - from,
{
    if from < 0 || from >= buckets.len() {
        buckets.len() as int
    } else if mergeable(buckets[from], b) {
        from
    } else {
        first_fit(buckets, b, from + 1)
    }
}

/// The table after one more bucket of the partition was placed: merged into
/// the first bucket that it fits, or added as a bucket of its own.
pub open spec fn place(t: TableView, b: BucketView) -> TableView {
    let i = first_fit(t.buckets, b, 0);
    TableView {
        entries: t.entries.push(i as usize),
        buckets: if i < t.buckets.len() {
            t.buckets.update(i, merged(t.buckets[i], b))
        } else {
            t.buckets.push(b)
        },
    }
}

/// The table that results from placing the buckets of a partition one after
/// the other.
pub open spec fn merge_all(raw: Seq<BucketView>) -> TableView
    decreases raw.len(),
{
    if raw.len() == 0 {
        TableView { entries: Seq::empty(), buckets: Seq::empty() }
    } else {
        place(merge_all(raw.drop_last()), raw.last())
    }
}

/// The partitions of all groups by bits `low_bit..cap_bit`, one after the
/// other.
pub open spec fn all_raw_buckets(groups: Seq<Seq<Entry>>, low_bit: u32, cap_bit: u32) -> Seq<
    BucketView,
>
    decreases groups.len(),
{
    if groups.len() == 0 {
        Seq::empty()
    } else {
        all_raw_buckets(groups.drop_last(), low_bit, cap_bit) + raw_buckets(
            groups.last(),
            low_bit,
            cap_bit,
        )
    }
}

/// The tier that is built on bits `low_bit..cap_bit` from the given groups
/// of entries.
pub open spec fn table_of(groups: Seq<Seq<Entry>>, low_bit: u32, cap_bit: u32) -> TableView {
    merge_all(all_raw_buckets(groups, low_bit, cap_bit))
}

/// The views of a sequence of groups.
pub open spec fn group_views(groups: Seq<Vec<Entry>>) -> Seq<Seq<Entry>> {
    groups.map_values(|g: Vec<Entry>| g@)
}

/// Four two-bit widths in one byte, the first in the lowest bits.
pub open spec fn pack4(w0: u8, w1: u8, w2: u8, w3: u8) -> u8 {
    w0 | (w1 << 2) | (w2 << 4) | (w3 << 6)
}

impl TableView {
    /// Every entry is the index of a bucket.
    pub open spec fn wf(self) -> bool {
        forall|i: int| 0 <= i < self.entries.len() ==> (#[trigger] self.entries[i]) < self.buckets.len()
    }

    /// Every entry fits in a byte.
    pub open spec fn fits_bytes(self) -> bool {
        forall|i: int| 0 <= i < self.entries.len() ==> (#[trigger] self.entries[i]) < 256
    }

    /// The width that entry `i` stands for: the first width of its bucket.
    pub open spec fn entry_width(self, i: int) -> u8 {
        self.buckets[self.entries[i] as int].widths[0]
    }

    /// The entries come in fours, and each stands for a bucket with one
    /// width, which is a width class.
    pub open spec fn is_flat(self) -> bool {
        &&& self.wf()
        &&& self.entries.len() % 4 == 0
        &&& forall|i: int|
            0 <= i < self.entries.len() ==> uniform_width(
                self.buckets[(#[trigger] self.entries[i]) as int].widths,
            ) is Some
        &&& forall|i: int| 0 <= i < self.entries.len() ==> #[trigger] self.entry_width(i) <= MAX_WIDTH
    }

    /// The entries as bytes.
    pub open spec fn index_bytes(self) -> Seq<u8> {
        Seq::new(self.entries.len(), |i: int| self.entries[i] as u8)
    }

    /// The widths of the entries, four to a byte.
    pub open spec fn flat_bytes(self) -> Seq<u8> {
        Seq::new(
            self.entries.len() / 4,
            |k: int|
                pack4(
                    self.entry_width(4 * k),
                    self.entry_width(4 * k + 1),
                    self.entry_width(4 * k + 2),
                    self.entry_width(4 * k + 3),
                ),
        )
    }
}

/// `first_fit` is the one index before which nothing fits and at which
/// something does, if there is one.
pub proof fn lemma_first_fit(buckets: Seq<BucketView>, b: BucketView, from: int, i: int)
    requires
        0 <= from <= i <= buckets.len(),
        forall|j: int| from <= j < i ==> !mergeable(#[trigger] buckets[j], b),
        i < buckets.len() ==> mergeable(buckets[i], b),
    ensures
        first_fit(buckets, b, from) == i,
    decreases i - from,
{
    if from < i {
        lemma_first_fit(buckets, b, from + 1, i);
    }
}

impl Table {
    /// Builds the tier on bits `low_bit..cap_bit`: partitions each group,
    /// then places the buckets one after the other, each into the first
    /// bucket that it can be merged into.
    pub fn new(codepoints_groups: &[Vec<Entry>], low_bit: u32, cap_bit: u32) -> (table: Table)
        requires
            valid_window(low_bit, cap_bit),
        ensures
            table@ == table_of(group_views(codepoints_groups@), low_bit, cap_bit),
    {
        let ghost groups = group_views(codepoints_groups@);
        let mut buckets: Vec<Bucket> = Vec::new();
        let mut g: usize = 0;
        while g < codepoints_groups.len()
            invariant
                g <= codepoints_groups.len(),
                valid_window(low_bit, cap_bit),
                groups == group_views(codepoints_groups@),
                bucket_views(buckets@) == all_raw_buckets(groups.take(g as int), low_bit, cap_bit),
            decreases codepoints_groups.len() - g,
        {
            let mut part = Bucket::for_bits(codepoints_groups[g].as_slice(), low_bit, cap_bit);
            proof {
                assert(groups.take(g + 1).drop_last() =~= groups.take(g as int));
                assert(groups.take(g + 1).last() == codepoints_groups@[g as int]@);
                assert(bucket_views(buckets@ + part@) =~= bucket_views(buckets@) + bucket_views(
                    part@,
                ));
            }
            buckets.append(&mut part);
            g += 1;
        }
        let ghost raw = bucket_views(buckets@);
        assert(groups.take(codepoints_groups.len() as int) =~= groups);
        let mut merged_buckets: Vec<Bucket> = Vec::new();
        let mut bucket_indices: Vec<usize> = Vec::new();
        proof {
            assert(bucket_views(merged_buckets@) =~= Seq::<BucketView>::empty());
            assert(raw.take(0) =~= Seq::<BucketView>::empty());
        }
        for bucket in it: buckets
            invariant
                bucket_views(it.seq()) == raw,
                (TableView { entries: bucket_indices@, buckets: bucket_views(merged_buckets@) })
                    == merge_all(raw.take(it.index() as int)),
        {
            let ghost k = it.index() as int;
            let ghost before = bucket_views(merged_buckets@);
            proof {
                assert(raw.take(k + 1).drop_last() =~= raw.take(k));
                assert(raw.take(k + 1).last() == bucket@);
            }
            let mut i: usize = 0;
            let mut placed = false;
            while i < merged_buckets.len() && !placed
                invariant
                    i <= merged_buckets.len(),
                    !placed ==> bucket_views(merged_buckets@) == before,
                    !placed ==> forall|j: int| 0 <= j < i ==> !mergeable(#[trigger] before[j], bucket@),
                    placed ==> i < before.len() && mergeable(before[i as int], bucket@)
                        && bucket_views(merged_buckets@) == before.update(
                        i as int,
                        merged(before[i as int], bucket@),
                    ) && forall|j: int| 0 <= j < i ==> !mergeable(#[trigger] before[j], bucket@),
                decreases merged_buckets.len() - i + if placed { 0int } else { 1int },
            {
                let ghost old_merged = merged_buckets@;
                if merged_buckets[i].try_merge(&bucket) {
                    placed = true;
                    assert(bucket_views(merged_buckets@) =~= before.update(
                        i as int,
                        merged(before[i as int], bucket@),
                    ));
                } else {
                    assert(merged_buckets@[i as int]@ == old_merged[i as int]@);
                    assert(bucket_views(merged_buckets@) =~= before);
                    i += 1;
                }
            }
            proof {
                lemma_first_fit(before, bucket@, 0, i as int);
            }
            bucket_indices.push(i);
            if !placed {
                assert(bucket_views(merged_buckets@.push(bucket)) =~= before.push(bucket@));
                merged_buckets.push(bucket);
            }
        }
        assert(raw.take(raw.len() as int) =~= raw);
        Table { entries: bucket_indices, buckets: merged_buckets }
    }

    /// The widths that the entries stand for, packed four to a byte: the
    /// emitted form of the last tier.
    pub fn into_flat_bytes(self) -> (bytes: Vec<u8>)
        requires
            self@.is_flat(),
        ensures
            bytes@ == self@.flat_bytes(),
    {
        let ghost t = self@;
        let chunks: usize = self.entries.len() / 4;
        let mut bytes: Vec<u8> = Vec::with_capacity(chunks);
        let mut k: usize = 0;
        while k < chunks
            invariant
                k <= chunks,
                chunks == self.entries.len() / 4,
                t == self@,
                t.is_flat(),
                bytes@ == Seq::new(
                    k as nat,
                    |j: int|
                        pack4(
                            t.entry_width(4 * j),
                            t.entry_width(4 * j + 1),
                            t.entry_width(4 * j + 2),
                            t.entry_width(4 * j + 3),
                        ),
                ),
            decreases chunks - k,
        {
            let w0 = self.first_width(4 * k);
            let w1 = self.first_width(4 * k + 1);
            let w2 = self.first_width(4 * k + 2);
            let w3 = self.first_width(4 * k + 3);
            let packed: u8 = w0 | (w1 << 2) | (w2 << 4) | (w3 << 6);
            let ghost before = bytes@;
            bytes.push(packed);
            assert(bytes@ =~= Seq::new(
                (k + 1) as nat,
                |j: int|
                    pack4(
                        t.entry_width(4 * j),
                        t.entry_width(4 * j + 1),
                        t.entry_width(4 * j + 2),
                        t.entry_width(4 * j + 3),
                    ),
            ));
            k += 1;
        }
        bytes
    }

    /// The width that entry `i` stands for.
    fn first_width(&self, i: usize) -> (w: u8)
        requires
            self@.is_flat(),
            i < self.entries.len(),
        ensures
            w == self@.entry_width(i as int),
            w <= MAX_WIDTH,
    {
        let e: usize = self.entries[i];
        assert(self@.entries[i as int] < self@.buckets.len());
        assert(uniform_width(self@.buckets[self@.entries[i as int] as int].widths) is Some);
        assert(self@.entry_width(i as int) <= MAX_WIDTH);
        self.buckets[e].widths[0]
    }

    /// The entries as bytes: the emitted form of a tier that is not the
    /// last.
    pub fn into_bytes(self) -> (bytes: Vec<u8>)
        requires
            self@.fits_bytes(),
        ensures
            bytes@ == self@.index_bytes(),
    {
        let mut bytes: Vec<u8> = Vec::with_capacity(self.entries.len());
        let mut i: usize = 0;
        while i < self.entries.len()
            invariant
                i <= self.entries.len(),
                self@.fits_bytes(),
                bytes@ == Seq::new(i as nat, |j: int| self.entries@[j] as u8),
            decreases self.entries.len() - i,
        {
            let e: usize = self.entries[i];
            assert(self@.entries[i as int] < 256);
            bytes.push(e as u8);
            assert(bytes@ =~= Seq::new((i + 1) as nat, |j: int| self.entries@[j] as u8));
            i += 1;
        }
        assert(bytes@ =~= self@.index_bytes());
        bytes
    }

    /// Whether [`Table::into_bytes`] can emit this tier: every entry fits
    /// in a byte.
    pub fn fits_bytes(&self) -> (ok: bool)
        ensures
            ok == self@.fits_bytes(),
    {
        let mut i: usize = 0;
        while i < self.entries.len()
            invariant
                i <= self.entries.len(),
                forall|j: int| 0 <= j < i ==> (#[trigger] self.entries@[j]) < 256,
            decreases self.entries.len() - i,
        {
            if self.entries[i] >= 256 {
                assert(!(self@.entries[i as int] < 256));
                return false;
            }
            i += 1;
        }
        true
    }

    /// Whether [`Table::into_flat_bytes`] can emit this tier: the entries
    /// come in fours, and each stands for a bucket with one width, which is
    /// a width class.
    pub fn is_flat(&self) -> (ok: bool)
        ensures
            ok == self@.is_flat(),
    {
        if self.entries.len() % 4 != 0 {
            return false;
        }
        // The one width of each bucket, where it has one.
        let mut uniform: Vec<Option<u8>> = Vec::with_capacity(self.buckets.len());
        let mut b: usize = 0;
        while b < self.buckets.len()
            invariant
                b <= self.buckets.len(),
                uniform.len() == b,
                forall|j: int|
                    0 <= j < b ==> #[trigger] uniform@[j] == uniform_width(self.buckets@[j].widths@),
            decreases self.buckets.len() - b,
        {
            uniform.push(self.buckets[b].width());
            b += 1;
        }
        let ghost t = self@;
        let mut i: usize = 0;
        while i < self.entries.len()
            invariant
                i <= self.entries.len(),
                t == self@,
                uniform.len() == self.buckets.len(),
                forall|j: int|
                    0 <= j < uniform.len() ==> #[trigger] uniform@[j] == uniform_width(
                        self.buckets@[j].widths@,
                    ),
                forall|j: int| 0 <= j < i ==> (#[trigger] t.entries[j]) < t.buckets.len(),
                forall|j: int|
                    0 <= j < i ==> uniform_width(t.buckets[(#[trigger] t.entries[j]) as int].widths)
                        is Some,
                forall|j: int| 0 <= j < i ==> #[trigger] t.entry_width(j) <= MAX_WIDTH,
            decreases self.entries.len() - i,
        {
            let e: usize = self.entries[i];
            if e >= self.buckets.len() {
                assert(!(t.entries[i as int] < t.buckets.len()));
                return false;
            }
            assert(t.buckets[e as int] == self.buckets@[e as int]@);
            match uniform[e] {
                Some(w) => {
                    if w > MAX_WIDTH {
                        assert(!(t.entry_width(i as int) <= MAX_WIDTH));
                        return false;
                    }
                },
                None => {
                    assert(!(uniform_width(t.buckets[t.entries[i as int] as int].widths) is Some));
                    return false;
                },
            }
            i += 1;
        }
        true
    }
}

} // verus!
