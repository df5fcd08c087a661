//! Why the compiled tiers give back the dense width array.

use vstd::prelude::*;
use crate::bucket::{
    bucket_count, in_bucket, is_prefix, low_mask, mergeable, merged, raw_bucket, uniform_width,
    valid_window, window, BucketView, Entry,
};
use crate::compile::{
    clamp_width, clamped_entries, compiled_from, groups_of, MAX_CODEPOINT_BITS, NUM_CODEPOINTS,
};
use crate::table::{all_raw_buckets, first_fit, merge_all, pack4, place, table_of, TableView};
use crate::width::{
    tier_0_index, tier_1_index, tier_2_index, tier_width, tiers_wf, unpack, MAX_WIDTH,
};

verus! {

/// `first_fit` stays within the buckets, and where it finds one, the bucket
/// fits.
pub proof fn lemma_first_fit_bounds(buckets: Seq<BucketView>, b: BucketView, from: int)
    requires
        0 <= from <= buckets.len(),
    ensures
        from <= first_fit(buckets, b, from) <= buckets.len(),
        first_fit(buckets, b, from) < buckets.len() ==> mergeable(
            buckets[first_fit(buckets, b, from)],
            b,
        ),
    decreases buckets.len() - from,
{
    if from < buckets.len() && !mergeable(buckets[from], b) {
        lemma_first_fit_bounds(buckets, b, from + 1);
    }
}

/// An initial part of an initial part is an initial part.
pub proof fn lemma_prefix_transitive(a: Seq<u8>, b: Seq<u8>, c: Seq<u8>)
    requires
        is_prefix(a, b),
        is_prefix(b, c),
    ensures
        is_prefix(a, c),
{
    assert(a =~= c.take(a.len() as int));
}

/// A merge keeps the slices of both buckets as initial parts of the merged
/// slice, and the members of both.
pub proof fn lemma_merged_extends(a: BucketView, b: BucketView)
    requires
        mergeable(a, b),
    ensures
        is_prefix(a.widths, merged(a, b).widths),
        is_prefix(b.widths, merged(a, b).widths),
        forall|e: Entry| a.codepoints.contains(e) ==> #[trigger] merged(a, b).codepoints.contains(e),
        forall|e: Entry| b.codepoints.contains(e) ==> #[trigger] merged(a, b).codepoints.contains(e),
{
    let m = merged(a, b);
    assert(m.widths.take(m.widths.len() as int) =~= m.widths);
    assert forall|e: Entry| a.codepoints.contains(e) implies #[trigger] m.codepoints.contains(e) by {
        let i = choose|i: int| 0 <= i < a.codepoints.len() && a.codepoints[i] == e;
        assert(m.codepoints[i] == e);
    }
    assert forall|e: Entry| b.codepoints.contains(e) implies #[trigger] m.codepoints.contains(e) by {
        let i = choose|i: int| 0 <= i < b.codepoints.len() && b.codepoints[i] == e;
        assert(m.codepoints[a.codepoints.len() + i] == e);
    }
}

/// What merging keeps of the partition.
pub open spec fn keeps(raw: Seq<BucketView>, t: TableView) -> bool {
    &&& t.entries.len() == raw.len()
    &&& t.buckets.len() <= raw.len()
    &&& t.wf()
    &&& forall|i: int|
        0 <= i < raw.len() ==> is_prefix(
            (#[trigger] raw[i]).widths,
            t.buckets[t.entries[i] as int].widths,
        )
    &&& forall|i: int, e: Entry|
        0 <= i < raw.len() && #[trigger] raw[i].codepoints.contains(e)
            ==> t.buckets[t.entries[i] as int].codepoints.contains(e)
}

/// Merging loses nothing: each bucket of the partition has an entry, its
/// slice is an initial part of the slice of the bucket it was merged into,
/// and its members are members of that bucket.
pub proof fn lemma_merge_all_keeps(raw: Seq<BucketView>)
    requires
        raw.len() <= usize::MAX,
    ensures
        keeps(raw, merge_all(raw)),
    decreases raw.len(),
{
    if raw.len() > 0 {
        let rest = raw.drop_last();
        let b = raw.last();
        let before = merge_all(rest);
        let t = merge_all(raw);
        lemma_merge_all_keeps(rest);
        lemma_first_fit_bounds(before.buckets, b, 0);
        let at = first_fit(before.buckets, b, 0);
        assert(t == place(before, b));
        assert(t.entries[raw.len() - 1] == at as usize);
        if at < before.buckets.len() {
            lemma_merged_extends(before.buckets[at], b);
        }
        assert forall|i: int| 0 <= i < raw.len() implies is_prefix(
            (#[trigger] raw[i]).widths,
            t.buckets[t.entries[i] as int].widths,
        ) by {
            if i < raw.len() - 1 {
                assert(raw[i] == rest[i]);
                assert(t.entries[i] == before.entries[i]);
                let m = before.entries[i] as int;
                if m == at {
                    lemma_prefix_transitive(
                        raw[i].widths,
                        before.buckets[m].widths,
                        t.buckets[m].widths,
                    );
                }
            } else {
                if at >= before.buckets.len() {
                    assert(b.widths.take(b.widths.len() as int) =~= b.widths);
                }
            }
        }
        assert forall|i: int, e: Entry|
            0 <= i < raw.len() && #[trigger] raw[i].codepoints.contains(
                e,
            ) implies t.buckets[t.entries[i] as int].codepoints.contains(e) by {
            if i < raw.len() - 1 {
                assert(raw[i] == rest[i]);
                assert(t.entries[i] == before.entries[i]);
                assert(before.buckets[before.entries[i] as int].codepoints.contains(e));
            }
        }
        assert(t.wf()) by {
            assert forall|i: int| 0 <= i < t.entries.len() implies (#[trigger] t.entries[i])
                < t.buckets.len() by {
                if i < raw.len() - 1 {
                    assert(t.entries[i] == before.entries[i]);
                }
            }
        }
    }
}

/// The partitions of the groups stand one after the other, each with one
/// bucket per window value.
pub proof fn lemma_all_raw_buckets(groups: Seq<Seq<Entry>>, low_bit: u32, cap_bit: u32)
    ensures
        all_raw_buckets(groups, low_bit, cap_bit).len() == groups.len() * bucket_count(
            low_bit,
            cap_bit,
        ),
        forall|g: int, b: int|
            0 <= g < groups.len() && 0 <= b < bucket_count(low_bit, cap_bit) ==> all_raw_buckets(
                groups,
                low_bit,
                cap_bit,
            )[g * bucket_count(low_bit, cap_bit) + b] == #[trigger] raw_bucket(
                groups[g],
                low_bit,
                cap_bit,
                b as u32,
            ),
    decreases groups.len(),
{
    let count = bucket_count(low_bit, cap_bit) as int;
    if groups.len() > 0 {
        let rest = groups.drop_last();
        let n = rest.len() as int;
        lemma_all_raw_buckets(rest, low_bit, cap_bit);
        assert((n + 1) * count == n * count + count) by (nonlinear_arith);
        assert forall|g: int, b: int| 0 <= g < groups.len() && 0 <= b < count implies all_raw_buckets(
            groups,
            low_bit,
            cap_bit,
        )[g * count + b] == #[trigger] raw_bucket(groups[g], low_bit, cap_bit, b as u32) by {
            if g < n {
                assert(g * count + count <= n * count) by (nonlinear_arith)
                    requires
                        g < n,
                        count >= 0,
                ;
                assert(rest[g] == groups[g]);
            } else {
                assert(g * count + b - n * count == b);
            }
        }
    } else {
        assert(0 * count == 0);
    }
}

/// An entry of a group is a member of the bucket of the partition that its
/// window value names, and the slice of that bucket holds its width at the
/// place where the entry stands.
pub proof fn lemma_raw_bucket_member(entries: Seq<Entry>, low_bit: u32, cap_bit: u32, e: Entry)
    requires
        valid_window(low_bit, cap_bit),
        entries.contains(e),
    ensures
        window(e.0, low_bit, cap_bit) < bucket_count(low_bit, cap_bit),
        raw_bucket(entries, low_bit, cap_bit, window(e.0, low_bit, cap_bit)).codepoints.contains(e),
        forall|j: int|
            #![trigger raw_bucket(entries, low_bit, cap_bit, window(e.0, low_bit, cap_bit)).widths[j]]
            0 <= j < raw_bucket(
                entries,
                low_bit,
                cap_bit,
                window(e.0, low_bit, cap_bit),
            ).codepoints.len() && raw_bucket(
                entries,
                low_bit,
                cap_bit,
                window(e.0, low_bit, cap_bit),
            ).codepoints[j] == e ==> raw_bucket(
                entries,
                low_bit,
                cap_bit,
                window(e.0, low_bit, cap_bit),
            ).widths[j] == e.1,
{
    let bits = (cap_bit - low_bit) as u32;
    let shifted = e.0 >> low_bit;
    assert((shifted & low_mask(bits)) < (1u32 << bits)) by (bit_vector)
        requires
            0 < bits < 32,
    ;
    let b = window(e.0, low_bit, cap_bit);
    let i = choose|i: int| 0 <= i < entries.len() && entries[i] == e;
    entries.lemma_filter_contains(in_bucket(low_bit, cap_bit, b), i);
}

/// Where a codepoint ends up in a tier: in the bucket that the entry for
/// its group and window value names, and the slice of that bucket holds its
/// width.
pub proof fn lemma_tier_member(
    groups: Seq<Seq<Entry>>,
    low_bit: u32,
    cap_bit: u32,
    g: int,
    e: Entry,
)
    requires
        valid_window(low_bit, cap_bit),
        0 <= g < groups.len(),
        groups[g].contains(e),
        groups.len() * bucket_count(low_bit, cap_bit) <= usize::MAX,
    ensures
        ({
            let t = table_of(groups, low_bit, cap_bit);
            let idx = g * bucket_count(low_bit, cap_bit) + window(e.0, low_bit, cap_bit);
            let m = t.entries[idx] as int;
            &&& t.entries.len() == groups.len() * bucket_count(low_bit, cap_bit)
            &&& t.buckets.len() <= t.entries.len()
            &&& t.wf()
            &&& 0 <= idx < t.entries.len()
            &&& window(e.0, low_bit, cap_bit) < bucket_count(low_bit, cap_bit)
            &&& 0 <= m < t.buckets.len()
            &&& t.buckets[m].codepoints.contains(e)
            &&& exists|j: int| 0 <= j < t.buckets[m].widths.len() && t.buckets[m].widths[j] == e.1
        }),
{
    let count = bucket_count(low_bit, cap_bit) as int;
    let raw = all_raw_buckets(groups, low_bit, cap_bit);
    let t = table_of(groups, low_bit, cap_bit);
    let b = window(e.0, low_bit, cap_bit);
    let idx = g * count + b;
    lemma_all_raw_buckets(groups, low_bit, cap_bit);
    lemma_raw_bucket_member(groups[g], low_bit, cap_bit, e);
    lemma_merge_all_keeps(raw);
    assert(g * count + count <= groups.len() * count) by (nonlinear_arith)
        requires
            0 <= g < groups.len(),
            count >= 0,
    ;
    assert(0 <= g * count) by (nonlinear_arith)
        requires
            0 <= g,
            count >= 0,
    ;
    let bucket = raw_bucket(groups[g], low_bit, cap_bit, b);
    assert(raw[idx] == bucket);
    let m = t.entries[idx] as int;
    assert(raw[idx].codepoints.contains(e));
    assert(t.buckets[m].codepoints.contains(e));
    let j = choose|j: int| 0 <= j < bucket.codepoints.len() && bucket.codepoints[j] == e;
    assert(bucket.widths[j] == e.1);
    assert(is_prefix(raw[idx].widths, t.buckets[m].widths));
    assert(t.buckets[m].widths.take(bucket.widths.len() as int)[j] == bucket.widths[j]);
    assert(t.buckets[m].widths[j] == e.1);
}

/// The shape of a tier: one entry per group and window value, no more
/// buckets than entries, and every entry the index of a bucket.
pub proof fn lemma_tier_shape(groups: Seq<Seq<Entry>>, low_bit: u32, cap_bit: u32)
    requires
        groups.len() * bucket_count(low_bit, cap_bit) <= usize::MAX,
    ensures
        table_of(groups, low_bit, cap_bit).entries.len() == groups.len() * bucket_count(
            low_bit,
            cap_bit,
        ),
        table_of(groups, low_bit, cap_bit).buckets.len() <= table_of(
            groups,
            low_bit,
            cap_bit,
        ).entries.len(),
        table_of(groups, low_bit, cap_bit).wf(),
{
    lemma_all_raw_buckets(groups, low_bit, cap_bit);
    lemma_merge_all_keeps(all_raw_buckets(groups, low_bit, cap_bit));
}

/// Sorting the members of a bucket keeps them.
pub proof fn lemma_group_member(t: TableView, groups: Seq<Seq<Entry>>, m: int, e: Entry)
    requires
        groups_of(t, groups),
        0 <= m < t.buckets.len(),
        t.buckets[m].codepoints.contains(e),
    ensures
        groups[m].contains(e),
{
    groups[m].to_multiset_ensures();
    t.buckets[m].codepoints.to_multiset_ensures();
    assert(t.buckets[m].codepoints.to_multiset().count(e) > 0);
    assert(groups[m].to_multiset().count(e) > 0);
}

/// Unpacking a slot of four packed width classes gives the width class
/// that was packed into it.
pub proof fn lemma_unpack_pack(w0: u8, w1: u8, w2: u8, w3: u8)
    requires
        w0 <= MAX_WIDTH,
        w1 <= MAX_WIDTH,
        w2 <= MAX_WIDTH,
        w3 <= MAX_WIDTH,
    ensures
        unpack(pack4(w0, w1, w2, w3), 0) == w0,
        unpack(pack4(w0, w1, w2, w3), 1) == w1,
        unpack(pack4(w0, w1, w2, w3), 2) == w2,
        unpack(pack4(w0, w1, w2, w3), 3) == w3,
{
    assert(unpack(pack4(w0, w1, w2, w3), 0) == w0 && unpack(pack4(w0, w1, w2, w3), 1) == w1
        && unpack(pack4(w0, w1, w2, w3), 2) == w2 && unpack(pack4(w0, w1, w2, w3), 3) == w3)
        by (bit_vector)
        requires
            w0 <= 2 && w1 <= 2 && w2 <= 2 && w3 <= 2,
    ;
}

/// The bit windows of the three tiers have 256, 128 and 64 values, and
/// are the indices that the resolver takes from a codepoint.
pub proof fn lemma_tier_windows(cp: u32)
    ensures
        bucket_count(13, MAX_CODEPOINT_BITS) == 256,
        bucket_count(6, 13) == 128,
        bucket_count(0, 6) == 64,
        window(cp, 13, MAX_CODEPOINT_BITS) == tier_0_index(cp),
        window(cp, 6, 13) == tier_1_index(cp),
        window(cp, 0, 6) == 4 * tier_2_index(cp) + (cp & 0b11),
        (cp & 0b11) < 4,
        tier_2_index(cp) < 16,
{
    assert((1u32 << 8u32) == 256 && (1u32 << 7u32) == 128 && (1u32 << 6u32) == 64) by (bit_vector);
    assert((cp >> 13) & low_mask(8) == (cp >> 13) & 0xFF) by (bit_vector);
    assert((cp >> 6) & low_mask(7) == (cp >> 6) & 0x7F) by (bit_vector);
    assert((cp >> 0) & low_mask(6) == 4 * ((cp >> 2) & 0xF) + (cp & 0b11) && (cp & 0b11) < 4 && ((cp
        >> 2) & 0xF) < 16) by (bit_vector);
}

/// The tiers behind `compiled_from`, with the groups that the second and
/// third tier are built from named.
pub open spec fn compiled_through(
    widths: Seq<u8>,
    t0: TableView,
    groups_1: Seq<Seq<Entry>>,
    t1: TableView,
    groups_2: Seq<Seq<Entry>>,
    t2: TableView,
) -> bool {
    &&& t0 == table_of(seq![clamped_entries(widths)], 13, MAX_CODEPOINT_BITS)
    &&& groups_of(t0, groups_1)
    &&& t1 == table_of(groups_1, 6, 13)
    &&& groups_of(t1, groups_2)
    &&& t2 == table_of(groups_2, 0, 6)
}

/// The shapes of the three tiers of a compiled table.
pub proof fn lemma_compiled_shape(
    widths: Seq<u8>,
    t0: TableView,
    groups_1: Seq<Seq<Entry>>,
    t1: TableView,
    groups_2: Seq<Seq<Entry>>,
    t2: TableView,
)
    requires
        compiled_through(widths, t0, groups_1, t1, groups_2, t2),
    ensures
        t0.entries.len() == 256,
        t0.buckets.len() <= 256,
        t0.wf(),
        t1.entries.len() == 128 * t0.buckets.len(),
        t1.buckets.len() <= t1.entries.len(),
        t1.wf(),
        t2.entries.len() == 64 * t1.buckets.len(),
        t2.wf(),
{
    lemma_tier_windows(0);
    let groups_0 = seq![clamped_entries(widths)];
    lemma_tier_shape(groups_0, 13, MAX_CODEPOINT_BITS);
    lemma_tier_shape(groups_1, 6, 13);
    lemma_tier_shape(groups_2, 0, 6);
}

/// The walk through the emitted bytes ends at the clamped width of the
/// codepoint.
pub proof fn lemma_round_trip_at(
    widths: Seq<u8>,
    t0: TableView,
    groups_1: Seq<Seq<Entry>>,
    t1: TableView,
    groups_2: Seq<Seq<Entry>>,
    t2: TableView,
    cp: u32,
)
    requires
        widths.len() == NUM_CODEPOINTS,
        compiled_through(widths, t0, groups_1, t1, groups_2, t2),
        t0.fits_bytes(),
        t1.fits_bytes(),
        t2.is_flat(),
        cp < NUM_CODEPOINTS,
    ensures
        tier_width(t0.index_bytes(), t1.index_bytes(), t2.flat_bytes(), cp) == clamp_width(
            widths[cp as int],
        ),
{
    let entries = clamped_entries(widths);
    let e: Entry = (cp, clamp_width(widths[cp as int]));
    assert(entries[cp as int] == e);
    let groups_0 = seq![entries];
    lemma_tier_windows(cp);
    lemma_compiled_shape(widths, t0, groups_1, t1, groups_2, t2);
    // First tier.
    lemma_tier_member(groups_0, 13, MAX_CODEPOINT_BITS, 0, e);
    let i0 = tier_0_index(cp);
    assert(0 * bucket_count(13, MAX_CODEPOINT_BITS) + window(cp, 13, MAX_CODEPOINT_BITS) == i0);
    let m0 = t0.entries[i0] as int;
    lemma_group_member(t0, groups_1, m0, e);
    // Second tier.
    lemma_tier_member(groups_1, 6, 13, m0, e);
    let i1 = 128 * m0 + tier_1_index(cp);
    assert(m0 * bucket_count(6, 13) + window(cp, 6, 13) == i1);
    let m1 = t1.entries[i1] as int;
    lemma_group_member(t1, groups_2, m1, e);
    // Third tier.
    lemma_tier_member(groups_2, 0, 6, m1, e);
    let i2 = 64 * m1 + 4 * tier_2_index(cp) + (cp & 0b11);
    assert(m1 * bucket_count(0, 6) + window(cp, 0, 6) == i2);
    let m2 = t2.entries[i2] as int;
    assert(uniform_width(t2.buckets[t2.entries[i2] as int].widths) is Some);
    assert(t2.entry_width(i2) == e.1);
    // The emitted bytes.
    let b0 = t0.index_bytes();
    let b1 = t1.index_bytes();
    let b2 = t2.flat_bytes();
    assert(t0.entries[i0] < 256);
    assert(b0[i0] == m0);
    assert(t1.entries[i1] < 256);
    assert(b1[i1] == m1);
    let k = 16 * m1 + tier_2_index(cp);
    assert(b2[k] == pack4(
        t2.entry_width(4 * k),
        t2.entry_width(4 * k + 1),
        t2.entry_width(4 * k + 2),
        t2.entry_width(4 * k + 3),
    ));
    assert(t2.entry_width(4 * k) <= MAX_WIDTH);
    assert(t2.entry_width(4 * k + 1) <= MAX_WIDTH);
    assert(t2.entry_width(4 * k + 2) <= MAX_WIDTH);
    assert(t2.entry_width(4 * k + 3) <= MAX_WIDTH);
    lemma_unpack_pack(
        t2.entry_width(4 * k),
        t2.entry_width(4 * k + 1),
        t2.entry_width(4 * k + 2),
        t2.entry_width(4 * k + 3),
    );
}

/// The emitted bytes of a compiled table are well formed.
pub proof fn lemma_compiled_wf(
    widths: Seq<u8>,
    t0: TableView,
    groups_1: Seq<Seq<Entry>>,
    t1: TableView,
    groups_2: Seq<Seq<Entry>>,
    t2: TableView,
)
    requires
        compiled_through(widths, t0, groups_1, t1, groups_2, t2),
        t0.fits_bytes(),
        t1.fits_bytes(),
        t2.is_flat(),
    ensures
        tiers_wf(t0.index_bytes(), t1.index_bytes(), t2.flat_bytes()),
{
    lemma_compiled_shape(widths, t0, groups_1, t1, groups_2, t2);
    let b0 = t0.index_bytes();
    let b1 = t1.index_bytes();
    let b2 = t2.flat_bytes();
    assert forall|i: int| 0 <= i < b0.len() implies 128 * (#[trigger] b0[i] as int) + 128
        <= b1.len() by {
        assert(t0.entries[i] < 256);
        assert(t0.entries[i] < t0.buckets.len());
    }
    assert forall|j: int| 0 <= j < b1.len() implies 16 * (#[trigger] b1[j] as int) + 16
        <= b2.len() by {
        assert(t1.entries[j] < 256);
        assert(t1.entries[j] < t1.buckets.len());
    }
    assert forall|k: int, slot: u32| 0 <= k < b2.len() && slot < 4 implies #[trigger] unpack(
        b2[k],
        slot,
    ) <= MAX_WIDTH by {
        assert(t2.entry_width(4 * k) <= MAX_WIDTH);
        assert(t2.entry_width(4 * k + 1) <= MAX_WIDTH);
        assert(t2.entry_width(4 * k + 2) <= MAX_WIDTH);
        assert(t2.entry_width(4 * k + 3) <= MAX_WIDTH);
        lemma_unpack_pack(
            t2.entry_width(4 * k),
            t2.entry_width(4 * k + 1),
            t2.entry_width(4 * k + 2),
            t2.entry_width(4 * k + 3),
        );
    }
}

/// The first tier can always be emitted: it has no more buckets than the
/// 256 values of its bit window.
pub proof fn lemma_first_tier_fits(widths: Seq<u8>, t0: TableView, t1: TableView, t2: TableView)
    requires
        compiled_from(widths, t0, t1, t2),
    ensures
        t0.fits_bytes(),
{
    let groups_1 = choose|groups: Seq<Seq<Entry>>| #[trigger]
        groups_of(t0, groups) && t1 == table_of(groups, 6, 13);
    let groups_2 = choose|groups: Seq<Seq<Entry>>| #[trigger]
        groups_of(t1, groups) && t2 == table_of(groups, 0, 6);
    lemma_compiled_shape(widths, t0, groups_1, t1, groups_2, t2);
    assert forall|i: int| 0 <= i < t0.entries.len() implies (#[trigger] t0.entries[i]) < 256 by {
        assert(t0.entries[i] < t0.buckets.len());
    }
}

/// Round trip: the bytes that are emitted for a compiled table are well
/// formed, the walk through them gives for every codepoint the clamped
/// width of the dense array that the table was compiled from, and together
/// they are no longer than the dense array.
pub proof fn lemma_round_trip(widths: Seq<u8>, t0: TableView, t1: TableView, t2: TableView)
    requires
        widths.len() == NUM_CODEPOINTS,
        compiled_from(widths, t0, t1, t2),
        t0.fits_bytes(),
        t1.fits_bytes(),
        t2.is_flat(),
    ensures
        tiers_wf(t0.index_bytes(), t1.index_bytes(), t2.flat_bytes()),
        forall|cp: u32|
            cp < NUM_CODEPOINTS ==> #[trigger] tier_width(
                t0.index_bytes(),
                t1.index_bytes(),
                t2.flat_bytes(),
                cp,
            ) == clamp_width(widths[cp as int]),
        t0.index_bytes().len() + t1.index_bytes().len() + t2.flat_bytes().len() <= widths.len(),
{
    let groups_1 = choose|groups: Seq<Seq<Entry>>| #[trigger]
        groups_of(t0, groups) && t1 == table_of(groups, 6, 13);
    let groups_2 = choose|groups: Seq<Seq<Entry>>| #[trigger]
        groups_of(t1, groups) && t2 == table_of(groups, 0, 6);
    lemma_compiled_shape(widths, t0, groups_1, t1, groups_2, t2);
    lemma_compiled_wf(widths, t0, groups_1, t1, groups_2, t2);
    assert forall|cp: u32| cp < NUM_CODEPOINTS implies #[trigger] tier_width(
        t0.index_bytes(),
        t1.index_bytes(),
        t2.flat_bytes(),
        cp,
    ) == clamp_width(widths[cp as int]) by {
        lemma_round_trip_at(widths, t0, groups_1, t1, groups_2, t2, cp);
    }
}

} // verus!
