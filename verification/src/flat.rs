//! Why the last tier of a compiled table is always flat, that is, why
//! every bucket of the last tier holds one width class throughout; and why
//! the tiers are determined by the dense array.
//!
//! The groups that a tier is built from are unions of whole aligned blocks
//! of codepoints, in which the width is a function of the low bits. In the
//! sorted members of such a group the place of a codepoint gives its low
//! bits, so slices that agree place by place agree on the width of each low
//! bit pattern, and merging keeps the groups of the next tier of the same
//! kind.

use vstd::prelude::*;
use crate::bucket::{
    bucket_count, in_bucket, low_mask, merged, raw_bucket, valid_window, window, BucketView, Entry,
};
use crate::bucket::{is_prefix, sorted_by_codepoint, uniform_width};
use crate::compile::{
    clamp_width, clamped_entries, compiled_from, groups_of, is_dense_array, is_sorted_group,
    MAX_CODEPOINT_BITS, NUM_CODEPOINTS,
};
use crate::width::MAX_WIDTH;
use crate::roundtrip::{lemma_all_raw_buckets, lemma_first_fit_bounds, lemma_merge_all_keeps};
use crate::table::{
    all_raw_buckets, first_fit, lemma_first_fit, merge_all, place, table_of, TableView,
};

verus! {

/// The low `bits` bits of a codepoint.
pub open spec fn low_bits(cp: u32, bits: u32) -> u32 {
    cp & low_mask(bits)
}

/// The number of the aligned block of `2^bits` codepoints that a codepoint
/// lies in.
pub open spec fn block_of(cp: u32, bits: u32) -> u32 {
    cp >> bits
}

/// Every entry is a codepoint with the width that the array records for it.
pub open spec fn consistent(s: Seq<Entry>, w: Seq<u8>) -> bool {
    forall|i: int| 0 <= i < s.len() ==> (#[trigger] s[i]).0 < w.len() && s[i].1 == w[s[i].0 as int]
}

/// The codepoints stand in strictly ascending order.
pub open spec fn strictly_sorted(s: Seq<Entry>) -> bool {
    forall|i: int, j: int| 0 <= i < j < s.len() ==> (#[trigger] s[i]).0 < (#[trigger] s[j]).0
}

/// Whether a codepoint is among the entries.
pub open spec fn has_codepoint(s: Seq<Entry>, cp: u32) -> bool {
    exists|i: int| 0 <= i < s.len() && (#[trigger] s[i]).0 == cp
}

/// With a codepoint the entries hold its whole aligned block of `2^bits`
/// codepoints, as far as it lies in the codepoint space.
pub open spec fn block_closed(s: Seq<Entry>, bits: u32) -> bool {
    forall|i: int, cp: u32|
        #![trigger s[i], has_codepoint(s, cp)]
        0 <= i < s.len() && cp < NUM_CODEPOINTS && block_of(cp, bits) == block_of(s[i].0, bits)
            ==> has_codepoint(s, cp)
}

/// Entries whose codepoints agree in the low `bits` bits have the same
/// width.
pub open spec fn low_determined(s: Seq<Entry>, bits: u32) -> bool {
    forall|i: int, j: int|
        #![trigger s[i], s[j]]
        0 <= i < s.len() && 0 <= j < s.len() && low_bits(s[i].0, bits) == low_bits(s[j].0, bits)
            ==> s[i].1 == s[j].1
}

/// A group that a tier on bits below `bits` can be built from.
pub open spec fn good_group(s: Seq<Entry>, w: Seq<u8>, bits: u32) -> bool {
    &&& s.len() > 0
    &&& consistent(s, w)
    &&& strictly_sorted(s)
    &&& block_closed(s, bits)
    &&& low_determined(s, bits)
}

/// No codepoint is among both.
pub open spec fn disjoint(s: Seq<Entry>, t: Seq<Entry>) -> bool {
    forall|i: int, j: int|
        0 <= i < s.len() && 0 <= j < t.len() ==> (#[trigger] s[i]).0 != (#[trigger] t[j]).0
}

/// Groups that a tier on bits below `bits` can be built from: each is good,
/// and no codepoint is in two of them.
pub open spec fn good_groups(groups: Seq<Seq<Entry>>, w: Seq<u8>, bits: u32) -> bool {
    &&& forall|g: int| 0 <= g < groups.len() ==> good_group(#[trigger] groups[g], w, bits)
    &&& forall|g: int, h: int|
        0 <= g < groups.len() && 0 <= h < groups.len() && g != h ==> disjoint(
            #[trigger] groups[g],
            #[trigger] groups[h],
        )
}

/// What is picked out of strictly sorted entries is strictly sorted, and
/// was among them.
pub proof fn lemma_filter_sorted(s: Seq<Entry>, pred: spec_fn(Entry) -> bool)
    requires
        strictly_sorted(s),
    ensures
        strictly_sorted(s.filter(pred)),
        forall|k: int| 0 <= k < s.filter(pred).len() ==> s.contains(#[trigger] s.filter(pred)[k]),
        forall|k: int| 0 <= k < s.filter(pred).len() ==> pred(#[trigger] s.filter(pred)[k]),
    decreases s.len(),
{
    reveal(Seq::filter);
    if s.len() > 0 {
        let rest = s.drop_last();
        let last = s.last();
        lemma_filter_sorted(rest, pred);
        let picked = s.filter(pred);
        let before = rest.filter(pred);
        assert forall|k: int| 0 <= k < before.len() implies s.contains(#[trigger] before[k])
            && before[k].0 < last.0 by {
            let at = choose|at: int| 0 <= at < rest.len() && rest[at] == before[k];
            assert(s[at] == before[k]);
        }
        assert(s[s.len() - 1] == last);
        assert forall|i: int, j: int| 0 <= i < j < picked.len() implies (#[trigger] picked[i]).0 < (
        #[trigger] picked[j]).0 by {
            if j < before.len() {
                assert(picked[i] == before[i] && picked[j] == before[j]);
            } else {
                assert(picked[i] == before[i]);
            }
        }
    }
}

/// The low bits of the codepoint that stands at place `p` among sorted
/// entries that are made up of whole blocks: they count up from zero and
/// start again after each block.
pub open spec fn offset(p: int, bits: u32) -> u32
    decreases p,
{
    if p <= 0 {
        0
    } else if offset(p - 1, bits) == low_mask(bits) {
        0
    } else {
        (offset(p - 1, bits) + 1) as u32
    }
}

/// How blocks and low bits go from one codepoint to the next.
pub proof fn lemma_block_steps(c: u32, d: u32, bits: u32)
    requires
        c < NUM_CODEPOINTS,
        bits <= 16,
    ensures
        low_bits(c, bits) <= low_mask(bits),
        low_bits(c, bits) != low_mask(bits) ==> c + 1 < NUM_CODEPOINTS && block_of(
            (c + 1) as u32,
            bits,
        ) == block_of(c, bits) && low_bits((c + 1) as u32, bits) == low_bits(c, bits) + 1,
        low_bits(c, bits) == low_mask(bits) && d > c ==> block_of(d, bits) > block_of(c, bits),
        d <= c ==> block_of(d, bits) <= block_of(c, bits),
        block_of(c & !low_mask(bits), bits) == block_of(c, bits),
        low_bits(c & !low_mask(bits), bits) == 0,
        (c & !low_mask(bits)) <= c,
        low_bits(c, bits) == 0 ==> (c & !low_mask(bits)) == c,
        block_of(d, bits) == block_of(c, bits) ==> d < NUM_CODEPOINTS,
{
    assert(c & !(0xFFFF_FFFFu32 << bits) <= !(0xFFFF_FFFFu32 << bits)) by (bit_vector);
    assert(c & !(0xFFFF_FFFFu32 << bits) != !(0xFFFF_FFFFu32 << bits) ==> c + 1 < 0x110000 && ((c
        + 1) as u32) >> bits == c >> bits && ((c + 1) as u32) & !(0xFFFF_FFFFu32 << bits) == (c & !(
    0xFFFF_FFFFu32 << bits)) + 1) by (bit_vector)
        requires
            c < 0x110000,
            bits <= 16,
    ;
    assert(c & !(0xFFFF_FFFFu32 << bits) == !(0xFFFF_FFFFu32 << bits) && d > c ==> d >> bits > c
        >> bits) by (bit_vector)
        requires
            bits <= 16,
    ;
    assert(d <= c ==> d >> bits <= c >> bits) by (bit_vector)
        requires
            bits <= 16,
    ;
    assert((c & !!(0xFFFF_FFFFu32 << bits)) >> bits == c >> bits && (c & !!(0xFFFF_FFFFu32 << bits))
        & !(0xFFFF_FFFFu32 << bits) == 0 && (c & !!(0xFFFF_FFFFu32 << bits)) <= c && (c & !(
    0xFFFF_FFFFu32 << bits) == 0 ==> (c & !!(0xFFFF_FFFFu32 << bits)) == c)) by (bit_vector)
        requires
            bits <= 16,
    ;
    assert(d >> bits == c >> bits ==> d < 0x110000) by (bit_vector)
        requires
            c < 0x110000,
            bits <= 16,
    ;
}

/// Among strictly sorted entries that are made up of whole blocks, the
/// place of a codepoint gives its low bits.
pub proof fn lemma_position(s: Seq<Entry>, bits: u32, p: int)
    requires
        strictly_sorted(s),
        block_closed(s, bits),
        forall|i: int| 0 <= i < s.len() ==> (#[trigger] s[i]).0 < NUM_CODEPOINTS,
        bits <= 16,
        0 <= p < s.len(),
    ensures
        low_bits(s[p].0, bits) == offset(p, bits),
    decreases p,
{
    let d = s[p].0;
    let start = d & !low_mask(bits);
    lemma_block_steps(d, d, bits);
    if p == 0 {
        assert(has_codepoint(s, start));
        let at = choose|at: int| 0 <= at < s.len() && (#[trigger] s[at]).0 == start;
        assert(at == 0);
    } else {
        lemma_position(s, bits, p - 1);
        let c = s[p - 1].0;
        assert(c < d);
        lemma_block_steps(c, d, bits);
        if low_bits(c, bits) != low_mask(bits) {
            let next = (c + 1) as u32;
            assert(has_codepoint(s, next));
            let at = choose|at: int| 0 <= at < s.len() && (#[trigger] s[at]).0 == next;
            assert(at >= p);
            assert(d <= next);
        } else {
            lemma_block_steps(c, start, bits);
            assert(start > c);
            assert(has_codepoint(s, start));
            let at = choose|at: int| 0 <= at < s.len() && (#[trigger] s[at]).0 == start;
            assert(at >= p);
            assert(d <= start);
        }
    }
}

/// A bit window that a tier of the table is built on: it lies within the
/// bits of a codepoint, and the codepoint space is made up of whole blocks
/// of the size that its low end gives.
pub open spec fn tier_window(low_bit: u32, cap_bit: u32) -> bool {
    low_bit < cap_bit <= 21 && low_bit <= 16
}

/// How the bit window of a tier goes with blocks and low bits.
pub proof fn lemma_window_bits(c: u32, d: u32, low_bit: u32, cap_bit: u32)
    requires
        tier_window(low_bit, cap_bit),
    ensures
        valid_window(low_bit, cap_bit),
        block_of(d, low_bit) == block_of(c, low_bit) ==> block_of(d, cap_bit) == block_of(c, cap_bit)
            && window(d, low_bit, cap_bit) == window(c, low_bit, cap_bit),
        window(d, low_bit, cap_bit) == window(c, low_bit, cap_bit) && low_bits(d, low_bit)
            == low_bits(c, low_bit) ==> low_bits(d, cap_bit) == low_bits(c, cap_bit),
        block_of(c & !low_mask(cap_bit), cap_bit) == block_of(c, cap_bit),
        window(c & !low_mask(cap_bit), low_bit, cap_bit) == 0,
        (c & !low_mask(cap_bit)) <= c,
        window(c, low_bit, cap_bit) < bucket_count(low_bit, cap_bit),
{
    let bits = (cap_bit - low_bit) as u32;
    assert(d >> low_bit == c >> low_bit ==> d >> cap_bit == c >> cap_bit && (d >> low_bit) & !(
    0xFFFF_FFFFu32 << bits) == (c >> low_bit) & !(0xFFFF_FFFFu32 << bits)) by (bit_vector)
        requires
            low_bit < cap_bit <= 21,
            bits == cap_bit - low_bit,
    ;
    assert((d >> low_bit) & !(0xFFFF_FFFFu32 << bits) == (c >> low_bit) & !(0xFFFF_FFFFu32 << bits)
        && d & !(0xFFFF_FFFFu32 << low_bit) == c & !(0xFFFF_FFFFu32 << low_bit) ==> d & !(
    0xFFFF_FFFFu32 << cap_bit) == c & !(0xFFFF_FFFFu32 << cap_bit)) by (bit_vector)
        requires
            low_bit < cap_bit <= 21,
            bits == cap_bit - low_bit,
    ;
    assert((c & !!(0xFFFF_FFFFu32 << cap_bit)) >> cap_bit == c >> cap_bit && ((c & !!(0xFFFF_FFFFu32
        << cap_bit)) >> low_bit) & !(0xFFFF_FFFFu32 << bits) == 0 && (c & !!(0xFFFF_FFFFu32
        << cap_bit)) <= c && ((c >> low_bit) & !(0xFFFF_FFFFu32 << bits)) < (1u32 << bits))
        by (bit_vector)
        requires
            low_bit < cap_bit <= 21,
            bits == cap_bit - low_bit,
    ;
}

/// A bucket of the partition of a good group: its members are consistent
/// and strictly sorted and make up whole blocks of the size of the low end
/// of the window; its slice holds their widths; and the bucket for window
/// value 0 is not empty.
pub proof fn lemma_raw_bucket_good(
    group: Seq<Entry>,
    w: Seq<u8>,
    low_bit: u32,
    cap_bit: u32,
    b: u32,
)
    requires
        good_group(group, w, cap_bit),
        w.len() == NUM_CODEPOINTS,
        tier_window(low_bit, cap_bit),
    ensures
        ({
            let bucket = raw_bucket(group, low_bit, cap_bit, b);
            &&& consistent(bucket.codepoints, w)
            &&& strictly_sorted(bucket.codepoints)
            &&& block_closed(bucket.codepoints, low_bit)
            &&& bucket.widths.len() == bucket.codepoints.len()
            &&& forall|k: int|
                0 <= k < bucket.codepoints.len() ==> #[trigger] bucket.widths[k]
                    == bucket.codepoints[k].1
            &&& forall|k: int|
                0 <= k < bucket.codepoints.len() ==> group.contains(#[trigger] bucket.codepoints[k])
                    && window(bucket.codepoints[k].0, low_bit, cap_bit) == b
            &&& b == 0 ==> bucket.codepoints.len() > 0
        }),
{
    let pred = in_bucket(low_bit, cap_bit, b);
    let members = group.filter(pred);
    lemma_filter_sorted(group, pred);
    assert forall|k: int| 0 <= k < members.len() implies (#[trigger] members[k]).0 < w.len()
        && members[k].1 == w[members[k].0 as int] by {
        let at = choose|at: int| 0 <= at < group.len() && group[at] == members[k];
        assert(group[at].0 < w.len());
    }
    assert forall|k: int, cp: u32|
        #![trigger members[k], has_codepoint(members, cp)]
        0 <= k < members.len() && cp < NUM_CODEPOINTS && block_of(cp, low_bit) == block_of(
            members[k].0,
            low_bit,
        ) implies has_codepoint(members, cp) by {
        let at = choose|at: int| 0 <= at < group.len() && group[at] == members[k];
        lemma_window_bits(members[k].0, cp, low_bit, cap_bit);
        assert(pred(members[k]));
        assert(has_codepoint(group, cp)) by {
            assert(block_of(cp, cap_bit) == block_of(group[at].0, cap_bit));
        }
        let j = choose|j: int| 0 <= j < group.len() && (#[trigger] group[j]).0 == cp;
        assert(pred(group[j]));
        group.lemma_filter_contains(pred, j);
        let k2 = choose|k2: int| 0 <= k2 < members.len() && members[k2] == group[j];
        assert(members[k2].0 == cp);
    }
    if b == 0 {
        let c = group[0].0;
        let start = c & !low_mask(cap_bit);
        lemma_window_bits(c, c, low_bit, cap_bit);
        assert(has_codepoint(group, start));
        let j = choose|j: int| 0 <= j < group.len() && (#[trigger] group[j]).0 == start;
        assert(pred(group[j]));
        group.lemma_filter_contains(pred, j);
    }
}

/// In a bucket of the partition of a good group, two places at which the
/// low bits agree hold the same width.
pub proof fn lemma_raw_bucket_periodic(
    group: Seq<Entry>,
    w: Seq<u8>,
    low_bit: u32,
    cap_bit: u32,
    b: u32,
    p: int,
    q: int,
)
    requires
        good_group(group, w, cap_bit),
        w.len() == NUM_CODEPOINTS,
        tier_window(low_bit, cap_bit),
        0 <= p < raw_bucket(group, low_bit, cap_bit, b).widths.len(),
        0 <= q < raw_bucket(group, low_bit, cap_bit, b).widths.len(),
        offset(p, low_bit) == offset(q, low_bit),
    ensures
        raw_bucket(group, low_bit, cap_bit, b).widths[p] == raw_bucket(
            group,
            low_bit,
            cap_bit,
            b,
        ).widths[q],
{
    let bucket = raw_bucket(group, low_bit, cap_bit, b);
    let members = bucket.codepoints;
    lemma_raw_bucket_good(group, w, low_bit, cap_bit, b);
    lemma_position(members, low_bit, p);
    lemma_position(members, low_bit, q);
    lemma_window_bits(members[p].0, members[q].0, low_bit, cap_bit);
    assert(group.contains(members[p]));
    assert(group.contains(members[q]));
    let i = choose|i: int| 0 <= i < group.len() && group[i] == members[p];
    let j = choose|j: int| 0 <= j < group.len() && group[j] == members[q];
    assert(group[i].1 == group[j].1);
    assert(bucket.widths[p] == members[p].1);
    assert(bucket.widths[q] == members[q].1);
}

/// No codepoint stands at two places.
pub open spec fn distinct_codepoints(s: Seq<Entry>) -> bool {
    forall|i: int, j: int| 0 <= i < j < s.len() ==> (#[trigger] s[i]).0 != (#[trigger] s[j]).0
}

/// The buckets of a partition keep their codepoints apart: none stands
/// twice in a bucket, and none in two buckets.
pub open spec fn separate(raw: Seq<BucketView>) -> bool {
    &&& forall|r: int| 0 <= r < raw.len() ==> distinct_codepoints((#[trigger] raw[r]).codepoints)
    &&& forall|r: int, q: int|
        0 <= r < raw.len() && 0 <= q < raw.len() && r != q ==> disjoint(
            (#[trigger] raw[r]).codepoints,
            (#[trigger] raw[q]).codepoints,
        )
}

/// The entry is a member of a bucket of the partition that was merged into
/// bucket `m`.
pub open spec fn member_from(raw: Seq<BucketView>, t: TableView, m: int, e: Entry) -> bool {
    exists|r: int|
        0 <= r < raw.len() && r < t.entries.len() && t.entries[r] == m && (
        #[trigger] raw[r]).codepoints.contains(e)
}

/// The slice of bucket `m` is the slice of a bucket of the partition that
/// was merged into it.
pub open spec fn slice_from(raw: Seq<BucketView>, t: TableView, m: int) -> bool {
    exists|r: int|
        0 <= r < raw.len() && r < t.entries.len() && t.entries[r] == m && (#[trigger] raw[r]).widths
            == t.buckets[m].widths
}

/// What the merged buckets are made of: the members of the buckets of the
/// partition that were merged into them, each once, and the slice of one of
/// those.
pub open spec fn made_of(raw: Seq<BucketView>, t: TableView) -> bool {
    &&& raw.len() > 0 ==> t.buckets.len() > 0
    &&& forall|m: int|
        0 <= m < t.buckets.len() ==> distinct_codepoints((#[trigger] t.buckets[m]).codepoints)
    &&& forall|m: int, n: int|
        0 <= m < t.buckets.len() && 0 <= n < t.buckets.len() && m != n ==> disjoint(
            (#[trigger] t.buckets[m]).codepoints,
            (#[trigger] t.buckets[n]).codepoints,
        )
    &&& forall|m: int, k: int|
        0 <= m < t.buckets.len() && 0 <= k < t.buckets[m].codepoints.len() ==> member_from(
            raw,
            t,
            m,
            #[trigger] t.buckets[m].codepoints[k],
        )
    &&& forall|m: int| 0 <= m < t.buckets.len() ==> #[trigger] slice_from(raw, t, m)
    &&& raw.len() > 0 && raw[0].widths.len() > 0 ==> forall|m: int|
        0 <= m < t.buckets.len() ==> (#[trigger] t.buckets[m]).widths.len() > 0
}

/// Merging puts nothing into a bucket but the members of the buckets of
/// the partition that are merged into it, and gives it the slice of one of
/// them. A bucket with an empty slice never gets a bucket of its own after
/// the first.
pub proof fn lemma_merge_all_made_of(raw: Seq<BucketView>)
    requires
        raw.len() <= usize::MAX,
        separate(raw),
    ensures
        made_of(raw, merge_all(raw)),
    decreases raw.len(),
{
    if raw.len() > 0 {
        let rest = raw.drop_last();
        let b = raw.last();
        let last = raw.len() - 1;
        let before = merge_all(rest);
        let t = merge_all(raw);
        assert(separate(rest)) by {
            assert forall|r: int| 0 <= r < rest.len() implies distinct_codepoints(
                (#[trigger] rest[r]).codepoints,
            ) by {
                assert(rest[r] == raw[r]);
            }
            assert forall|r: int, q: int|
                0 <= r < rest.len() && 0 <= q < rest.len() && r != q implies disjoint(
                (#[trigger] rest[r]).codepoints,
                (#[trigger] rest[q]).codepoints,
            ) by {
                assert(rest[r] == raw[r] && rest[q] == raw[q]);
            }
        }
        lemma_merge_all_made_of(rest);
        lemma_merge_all_keeps(rest);
        lemma_merge_all_keeps(raw);
        lemma_first_fit_bounds(before.buckets, b, 0);
        let at = first_fit(before.buckets, b, 0);
        assert(t == place(before, b));
        assert(t.entries[last] == at as usize);
        assert(raw[last] == b);
        // What was in a bucket before is apart from the bucket that is placed.
        assert forall|m: int, k: int, j: int|
            0 <= m < before.buckets.len() && 0 <= k < before.buckets[m].codepoints.len() && 0 <= j
                < b.codepoints.len() implies (#[trigger] before.buckets[m].codepoints[k]).0 != (
        #[trigger] b.codepoints[j]).0 by {
            let e = before.buckets[m].codepoints[k];
            assert(member_from(rest, before, m, e));
            let r = choose|r: int|
                0 <= r < rest.len() && r < before.entries.len() && before.entries[r] == m && (
                #[trigger] rest[r]).codepoints.contains(e);
            assert(rest[r] == raw[r]);
            let x = choose|x: int| 0 <= x < raw[r].codepoints.len() && raw[r].codepoints[x] == e;
            assert(disjoint(raw[r].codepoints, raw[last].codepoints));
            assert(raw[r].codepoints[x].0 != raw[last].codepoints[j].0);
        }
        // Members and slices that came from the partition before still do.
        assert forall|m: int, e: Entry|
            0 <= m < before.buckets.len() && member_from(rest, before, m, e) implies member_from(
            raw,
            t,
            m,
            e,
        ) by {
            let r = choose|r: int|
                0 <= r < rest.len() && r < before.entries.len() && before.entries[r] == m && (
                #[trigger] rest[r]).codepoints.contains(e);
            assert(rest[r] == raw[r]);
            assert(t.entries[r] == before.entries[r]);
            assert(raw[r].codepoints.contains(e));
        }
        assert forall|m: int|
            0 <= m < before.buckets.len() && t.buckets[m].widths
                == before.buckets[m].widths implies slice_from(raw, t, m) by {
            assert(slice_from(rest, before, m));
            let r = choose|r: int|
                0 <= r < rest.len() && r < before.entries.len() && before.entries[r] == m && (
                #[trigger] rest[r]).widths == before.buckets[m].widths;
            assert(rest[r] == raw[r]);
            assert(t.entries[r] == before.entries[r]);
            assert(raw[r].widths == t.buckets[m].widths);
        }
        if at < before.buckets.len() {
            let old = before.buckets[at];
            let new = merged(old, b);
            assert(t.buckets[at] == new);
            assert forall|m: int| 0 <= m < t.buckets.len() implies distinct_codepoints(
                (#[trigger] t.buckets[m]).codepoints,
            ) by {
                if m == at {
                    assert(distinct_codepoints(old.codepoints));
                    assert(distinct_codepoints(b.codepoints));
                    assert forall|i: int, j: int| 0 <= i < j < new.codepoints.len() implies (
                    #[trigger] new.codepoints[i]).0 != (#[trigger] new.codepoints[j]).0 by {
                        let n = old.codepoints.len() as int;
                        if j < n {
                            assert(new.codepoints[i] == old.codepoints[i]);
                            assert(new.codepoints[j] == old.codepoints[j]);
                        } else if i >= n {
                            assert(new.codepoints[i] == b.codepoints[i - n]);
                            assert(new.codepoints[j] == b.codepoints[j - n]);
                        } else {
                            assert(new.codepoints[i] == before.buckets[at].codepoints[i]);
                            assert(new.codepoints[j] == b.codepoints[j - n]);
                        }
                    }
                } else {
                    assert(t.buckets[m] == before.buckets[m]);
                }
            }
            assert forall|m: int, n: int|
                0 <= m < t.buckets.len() && 0 <= n < t.buckets.len() && m != n implies disjoint(
                (#[trigger] t.buckets[m]).codepoints,
                (#[trigger] t.buckets[n]).codepoints,
            ) by {
                lemma_disjoint_after_merge(before, b, at, m, n);
            }
            assert forall|m: int, k: int|
                0 <= m < t.buckets.len() && 0 <= k
                    < t.buckets[m].codepoints.len() implies member_from(
                raw,
                t,
                m,
                #[trigger] t.buckets[m].codepoints[k],
            ) by {
                let e = t.buckets[m].codepoints[k];
                if m == at && k >= old.codepoints.len() {
                    assert(e == b.codepoints[k - old.codepoints.len()]);
                    assert(raw[last].codepoints.contains(e));
                } else {
                    assert(e == before.buckets[m].codepoints[k]);
                    assert(member_from(rest, before, m, e));
                }
            }
            assert forall|m: int| 0 <= m < t.buckets.len() implies #[trigger] slice_from(
                raw,
                t,
                m,
            ) by {
                if m == at && new.widths != old.widths {
                    assert(raw[last].widths == t.buckets[m].widths);
                } else {
                    assert(t.buckets[m].widths == before.buckets[m].widths);
                }
            }
            if raw[0].widths.len() > 0 {
                if rest.len() > 0 {
                    assert(rest[0] == raw[0]);
                }
                assert forall|m: int| 0 <= m < t.buckets.len() implies (
                #[trigger] t.buckets[m]).widths.len() > 0 by {
                    if m != at {
                        assert(t.buckets[m] == before.buckets[m]);
                    }
                }
            }
        } else {
            assert(t.buckets == before.buckets.push(b));
            assert forall|m: int| 0 <= m < t.buckets.len() implies distinct_codepoints(
                (#[trigger] t.buckets[m]).codepoints,
            ) by {
                if m < before.buckets.len() {
                    assert(t.buckets[m] == before.buckets[m]);
                }
            }
            assert forall|m: int, n: int|
                0 <= m < t.buckets.len() && 0 <= n < t.buckets.len() && m != n implies disjoint(
                (#[trigger] t.buckets[m]).codepoints,
                (#[trigger] t.buckets[n]).codepoints,
            ) by {
                lemma_disjoint_after_merge(before, b, at, m, n);
            }
            assert forall|m: int, k: int|
                0 <= m < t.buckets.len() && 0 <= k
                    < t.buckets[m].codepoints.len() implies member_from(
                raw,
                t,
                m,
                #[trigger] t.buckets[m].codepoints[k],
            ) by {
                let e = t.buckets[m].codepoints[k];
                if m == at {
                    assert(raw[last].codepoints.contains(e));
                } else {
                    assert(e == before.buckets[m].codepoints[k]);
                    assert(member_from(rest, before, m, e));
                }
            }
            assert forall|m: int| 0 <= m < t.buckets.len() implies #[trigger] slice_from(
                raw,
                t,
                m,
            ) by {
                if m == at {
                    assert(raw[last].widths == t.buckets[m].widths);
                } else {
                    assert(t.buckets[m].widths == before.buckets[m].widths);
                }
            }
            if raw[0].widths.len() > 0 {
                if rest.len() > 0 {
                    assert(rest[0] == raw[0]);
                    // A bucket with an empty slice would have fitted the first bucket.
                    if b.widths.len() == 0 {
                        assert(before.buckets[0].widths.take(0) =~= b.widths);
                        lemma_first_fit(before.buckets, b, 0, 0);
                    }
                }
                assert forall|m: int| 0 <= m < t.buckets.len() implies (
                #[trigger] t.buckets[m]).widths.len() > 0 by {
                    if m != at {
                        assert(t.buckets[m] == before.buckets[m]);
                    }
                }
            }
        }
    }
}

/// After a bucket of the partition was placed, the buckets still keep their
/// codepoints apart, if what was in them before is apart from what was
/// placed.
proof fn lemma_disjoint_after_merge(before: TableView, b: BucketView, at: int, m: int, n: int)
    requires
        0 <= at <= before.buckets.len(),
        forall|x: int, y: int|
            0 <= x < before.buckets.len() && 0 <= y < before.buckets.len() && x != y ==> disjoint(
                (#[trigger] before.buckets[x]).codepoints,
                (#[trigger] before.buckets[y]).codepoints,
            ),
        forall|x: int, k: int, j: int|
            0 <= x < before.buckets.len() && 0 <= k < before.buckets[x].codepoints.len() && 0 <= j
                < b.codepoints.len() ==> (#[trigger] before.buckets[x].codepoints[k]).0 != (
            #[trigger] b.codepoints[j]).0,
        0 <= m < place_at(before, b, at).len(),
        0 <= n < place_at(before, b, at).len(),
        m != n,
    ensures
        disjoint(place_at(before, b, at)[m].codepoints, place_at(before, b, at)[n].codepoints),
{
    let after = place_at(before, b, at);
    let old_len = if at < before.buckets.len() {
        before.buckets[at].codepoints.len() as int
    } else {
        0
    };
    assert forall|i: int, j: int|
        0 <= i < after[m].codepoints.len() && 0 <= j < after[n].codepoints.len() implies (
    #[trigger] after[m].codepoints[i]).0 != (#[trigger] after[n].codepoints[j]).0 by {
        if m == at {
            assert(after[n] == before.buckets[n]);
            if i < old_len {
                assert(after[m].codepoints[i] == before.buckets[m].codepoints[i]);
                assert(disjoint(before.buckets[m].codepoints, before.buckets[n].codepoints));
            } else {
                assert(after[m].codepoints[i] == b.codepoints[i - old_len]);
            }
        } else if n == at {
            assert(after[m] == before.buckets[m]);
            if j < old_len {
                assert(after[n].codepoints[j] == before.buckets[n].codepoints[j]);
                assert(disjoint(before.buckets[m].codepoints, before.buckets[n].codepoints));
            } else {
                assert(after[n].codepoints[j] == b.codepoints[j - old_len]);
            }
        } else {
            assert(after[m] == before.buckets[m]);
            assert(after[n] == before.buckets[n]);
            assert(disjoint(before.buckets[m].codepoints, before.buckets[n].codepoints));
        }
    }
}

/// The buckets after `b` was placed at index `at`.
pub open spec fn place_at(before: TableView, b: BucketView, at: int) -> Seq<BucketView> {
    if at < before.buckets.len() {
        before.buckets.update(at, merged(before.buckets[at], b))
    } else {
        before.buckets.push(b)
    }
}

/// The group and the window value of a bucket of the partitions of all
/// groups.
pub proof fn lemma_raw_at(groups: Seq<Seq<Entry>>, low_bit: u32, cap_bit: u32, r: int) -> (at: (
    int,
    u32,
))
    requires
        tier_window(low_bit, cap_bit),
        0 <= r < all_raw_buckets(groups, low_bit, cap_bit).len(),
    ensures
        0 <= at.0 < groups.len(),
        at.1 < bucket_count(low_bit, cap_bit),
        r == at.0 * bucket_count(low_bit, cap_bit) + at.1,
        all_raw_buckets(groups, low_bit, cap_bit)[r] == raw_bucket(
            groups[at.0],
            low_bit,
            cap_bit,
            at.1,
        ),
{
    let count = bucket_count(low_bit, cap_bit) as int;
    let n = groups.len() as int;
    lemma_all_raw_buckets(groups, low_bit, cap_bit);
    lemma_window_bits(0, 0, low_bit, cap_bit);
    assert(count <= 0x8000_0000) by {
        let bits = (cap_bit - low_bit) as u32;
        assert((1u32 << bits) <= 0x8000_0000u32) by (bit_vector)
            requires
                bits < 32,
        ;
    }
    assert(0 <= r / count < n && 0 <= r % count < count && r == (r / count) * count + r % count)
        by (nonlinear_arith)
        requires
            0 <= r < n * count,
            count > 0,
    ;
    let g = r / count;
    let b = r % count;
    let bucket = raw_bucket(groups[g], low_bit, cap_bit, b as u32);
    assert(all_raw_buckets(groups, low_bit, cap_bit)[g * count + b] == bucket);
    (g, b as u32)
}

/// The buckets of the partitions of good groups keep their codepoints
/// apart, and the first of them is not empty.
pub proof fn lemma_raw_separate(groups: Seq<Seq<Entry>>, w: Seq<u8>, low_bit: u32, cap_bit: u32)
    requires
        good_groups(groups, w, cap_bit),
        w.len() == NUM_CODEPOINTS,
        tier_window(low_bit, cap_bit),
        groups.len() > 0,
    ensures
        separate(all_raw_buckets(groups, low_bit, cap_bit)),
        all_raw_buckets(groups, low_bit, cap_bit).len() > 0,
        all_raw_buckets(groups, low_bit, cap_bit)[0].widths.len() > 0,
{
    let raw = all_raw_buckets(groups, low_bit, cap_bit);
    let count = bucket_count(low_bit, cap_bit) as int;
    lemma_all_raw_buckets(groups, low_bit, cap_bit);
    lemma_window_bits(0, 0, low_bit, cap_bit);
    assert(raw.len() >= count) by (nonlinear_arith)
        requires
            raw.len() == groups.len() * count,
            groups.len() >= 1,
            count >= 0,
    ;
    assert forall|r: int| 0 <= r < raw.len() implies distinct_codepoints(
        (#[trigger] raw[r]).codepoints,
    ) by {
        let (g, b) = lemma_raw_at(groups, low_bit, cap_bit, r);
        lemma_raw_bucket_good(groups[g], w, low_bit, cap_bit, b);
    }
    assert forall|r: int, q: int|
        0 <= r < raw.len() && 0 <= q < raw.len() && r != q implies disjoint(
        (#[trigger] raw[r]).codepoints,
        (#[trigger] raw[q]).codepoints,
    ) by {
        let (g, b) = lemma_raw_at(groups, low_bit, cap_bit, r);
        let (h, c) = lemma_raw_at(groups, low_bit, cap_bit, q);
        lemma_raw_bucket_good(groups[g], w, low_bit, cap_bit, b);
        lemma_raw_bucket_good(groups[h], w, low_bit, cap_bit, c);
        assert forall|i: int, j: int|
            0 <= i < raw[r].codepoints.len() && 0 <= j < raw[q].codepoints.len() implies (
        #[trigger] raw[r].codepoints[i]).0 != (#[trigger] raw[q].codepoints[j]).0 by {
            let e = raw[r].codepoints[i];
            let f = raw[q].codepoints[j];
            if g != h {
                let x = choose|x: int| 0 <= x < groups[g].len() && groups[g][x] == e;
                let y = choose|y: int| 0 <= y < groups[h].len() && groups[h][y] == f;
                assert(disjoint(groups[g], groups[h]));
                assert(groups[g][x].0 != groups[h][y].0);
            }
        }
    }
    let (g, b) = lemma_raw_at(groups, low_bit, cap_bit, 0);
    assert(g == 0 && b == 0) by (nonlinear_arith)
        requires
            0 == g * count + b,
            0 <= g,
            0 <= b,
            count > 0,
    ;
    lemma_raw_bucket_good(groups[0], w, low_bit, cap_bit, 0);
}

/// A sorted group holds what its bucket holds, and each entry once if the
/// bucket holds each codepoint once.
pub proof fn lemma_sorted_group(bucket: BucketView, group: Seq<Entry>)
    requires
        is_sorted_group(bucket, group),
        distinct_codepoints(bucket.codepoints),
    ensures
        group.len() == bucket.codepoints.len(),
        forall|e: Entry| group.contains(e) <==> bucket.codepoints.contains(e),
        group.no_duplicates(),
{
    let codes = bucket.codepoints;
    group.to_multiset_ensures();
    codes.to_multiset_ensures();
    assert forall|e: Entry| group.contains(e) <==> codes.contains(e) by {
        assert(group.contains(e) <==> group.to_multiset().count(e) > 0);
        assert(codes.contains(e) <==> codes.to_multiset().count(e) > 0);
    }
    assert(codes.no_duplicates());
    codes.lemma_multiset_has_no_duplicates();
    group.lemma_multiset_has_no_duplicates_conv();
}

/// The sorted members of a bucket of a tier that was built from good
/// groups make a good group for the tier on the bits below.
pub proof fn lemma_next_group_good(
    groups: Seq<Seq<Entry>>,
    w: Seq<u8>,
    low_bit: u32,
    cap_bit: u32,
    m: int,
    next: Seq<Entry>,
)
    requires
        good_groups(groups, w, cap_bit),
        w.len() == NUM_CODEPOINTS,
        tier_window(low_bit, cap_bit),
        groups.len() > 0,
        groups.len() * bucket_count(low_bit, cap_bit) <= usize::MAX,
        0 <= m < table_of(groups, low_bit, cap_bit).buckets.len(),
        is_sorted_group(table_of(groups, low_bit, cap_bit).buckets[m], next),
    ensures
        good_group(next, w, low_bit),
        forall|e: Entry|
            next.contains(e) <==> table_of(groups, low_bit, cap_bit).buckets[m].codepoints.contains(
                e,
            ),
{
    let raw = all_raw_buckets(groups, low_bit, cap_bit);
    let t = table_of(groups, low_bit, cap_bit);
    let codes = t.buckets[m].codepoints;
    let slice = t.buckets[m].widths;
    lemma_all_raw_buckets(groups, low_bit, cap_bit);
    lemma_raw_separate(groups, w, low_bit, cap_bit);
    lemma_merge_all_keeps(raw);
    lemma_merge_all_made_of(raw);
    lemma_sorted_group(t.buckets[m], next);
    // Each member of the group is a member of a bucket of the partition that
    // was merged into the bucket, and stands somewhere in it.
    assert forall|i: int| 0 <= i < next.len() implies member_from(raw, t, m, #[trigger] next[i]) by {
        assert(next.contains(next[i]));
        let k = choose|k: int| 0 <= k < codes.len() && codes[k] == next[i];
        assert(member_from(raw, t, m, t.buckets[m].codepoints[k]));
    }
    // The group is not empty.
    assert(next.len() > 0) by {
        assert(slice_from(raw, t, m));
        let r = choose|r: int|
            0 <= r < raw.len() && r < t.entries.len() && t.entries[r] == m && (#[trigger] raw[r]).widths
                == t.buckets[m].widths;
        let (g, b) = lemma_raw_at(groups, low_bit, cap_bit, r);
        lemma_raw_bucket_good(groups[g], w, low_bit, cap_bit, b);
        assert(raw[r].codepoints.contains(raw[r].codepoints[0]));
    }
    assert forall|i: int| 0 <= i < next.len() implies (#[trigger] next[i]).0 < w.len() && next[i].1
        == w[next[i].0 as int] by {
        let e = next[i];
        assert(member_from(raw, t, m, e));
        let r = choose|r: int|
            0 <= r < raw.len() && r < t.entries.len() && t.entries[r] == m && (
            #[trigger] raw[r]).codepoints.contains(e);
        let (g, b) = lemma_raw_at(groups, low_bit, cap_bit, r);
        lemma_raw_bucket_good(groups[g], w, low_bit, cap_bit, b);
        let x = choose|x: int| 0 <= x < raw[r].codepoints.len() && raw[r].codepoints[x] == e;
        assert(raw[r].codepoints[x].0 < w.len());
    }
    assert forall|i: int, j: int| 0 <= i < j < next.len() implies (#[trigger] next[i]).0 < (
    #[trigger] next[j]).0 by {
        assert(sorted_by_codepoint(next));
        assert(next[i].0 <= next[j].0);
        assert(next[i] != next[j]);
    }
    assert forall|i: int, cp: u32|
        #![trigger next[i], has_codepoint(next, cp)]
        0 <= i < next.len() && cp < NUM_CODEPOINTS && block_of(cp, low_bit) == block_of(
            next[i].0,
            low_bit,
        ) implies has_codepoint(next, cp) by {
        let e = next[i];
        assert(member_from(raw, t, m, e));
        let r = choose|r: int|
            0 <= r < raw.len() && r < t.entries.len() && t.entries[r] == m && (
            #[trigger] raw[r]).codepoints.contains(e);
        let (g, b) = lemma_raw_at(groups, low_bit, cap_bit, r);
        lemma_raw_bucket_good(groups[g], w, low_bit, cap_bit, b);
        let x = choose|x: int| 0 <= x < raw[r].codepoints.len() && raw[r].codepoints[x] == e;
        assert(has_codepoint(raw[r].codepoints, cp)) by {
            assert(block_of(cp, low_bit) == block_of(raw[r].codepoints[x].0, low_bit));
        }
        let y = choose|y: int|
            0 <= y < raw[r].codepoints.len() && (#[trigger] raw[r].codepoints[y]).0 == cp;
        let f = raw[r].codepoints[y];
        assert(raw[r].codepoints.contains(f));
        assert(codes.contains(f));
        assert(next.contains(f));
        let z = choose|z: int| 0 <= z < next.len() && next[z] == f;
        assert(next[z].0 == cp);
    }
    assert forall|i: int, j: int|
        #![trigger next[i], next[j]]
        0 <= i < next.len() && 0 <= j < next.len() && low_bits(next[i].0, low_bit) == low_bits(
            next[j].0,
            low_bit,
        ) implies next[i].1 == next[j].1 by {
        lemma_same_low_bits(groups, w, low_bit, cap_bit, m, next[i], next[j]);
    }
}

/// Two members of a bucket of a tier that was built from good groups have
/// the same width if their codepoints agree in the bits below the window
/// of the tier.
pub proof fn lemma_same_low_bits(
    groups: Seq<Seq<Entry>>,
    w: Seq<u8>,
    low_bit: u32,
    cap_bit: u32,
    m: int,
    e: Entry,
    f: Entry,
)
    requires
        good_groups(groups, w, cap_bit),
        w.len() == NUM_CODEPOINTS,
        tier_window(low_bit, cap_bit),
        groups.len() > 0,
        groups.len() * bucket_count(low_bit, cap_bit) <= usize::MAX,
        0 <= m < table_of(groups, low_bit, cap_bit).buckets.len(),
        member_from(
            all_raw_buckets(groups, low_bit, cap_bit),
            table_of(groups, low_bit, cap_bit),
            m,
            e,
        ),
        member_from(
            all_raw_buckets(groups, low_bit, cap_bit),
            table_of(groups, low_bit, cap_bit),
            m,
            f,
        ),
        low_bits(e.0, low_bit) == low_bits(f.0, low_bit),
    ensures
        e.1 == f.1,
{
    let raw = all_raw_buckets(groups, low_bit, cap_bit);
    let t = table_of(groups, low_bit, cap_bit);
    let slice = t.buckets[m].widths;
    lemma_all_raw_buckets(groups, low_bit, cap_bit);
    lemma_raw_separate(groups, w, low_bit, cap_bit);
    lemma_merge_all_keeps(raw);
    lemma_merge_all_made_of(raw);
    // The bucket of the partition whose slice the merged bucket has.
    assert(slice_from(raw, t, m));
    let r = choose|r: int|
        0 <= r < raw.len() && r < t.entries.len() && t.entries[r] == m && (#[trigger] raw[r]).widths
            == t.buckets[m].widths;
    let (g, b) = lemma_raw_at(groups, low_bit, cap_bit, r);
    // Where the two entries stand in their buckets of the partition.
    let p = lemma_place_in_slice(groups, w, low_bit, cap_bit, m, e);
    let q = lemma_place_in_slice(groups, w, low_bit, cap_bit, m, f);
    lemma_raw_bucket_periodic(groups[g], w, low_bit, cap_bit, b, p, q);
}

/// A member of a bucket of a tier has a place in the slice of the bucket
/// at which its width stands and which gives its low bits.
pub proof fn lemma_place_in_slice(
    groups: Seq<Seq<Entry>>,
    w: Seq<u8>,
    low_bit: u32,
    cap_bit: u32,
    m: int,
    e: Entry,
) -> (p: int)
    requires
        good_groups(groups, w, cap_bit),
        w.len() == NUM_CODEPOINTS,
        tier_window(low_bit, cap_bit),
        groups.len() > 0,
        groups.len() * bucket_count(low_bit, cap_bit) <= usize::MAX,
        0 <= m < table_of(groups, low_bit, cap_bit).buckets.len(),
        member_from(
            all_raw_buckets(groups, low_bit, cap_bit),
            table_of(groups, low_bit, cap_bit),
            m,
            e,
        ),
    ensures
        0 <= p < table_of(groups, low_bit, cap_bit).buckets[m].widths.len(),
        table_of(groups, low_bit, cap_bit).buckets[m].widths[p] == e.1,
        offset(p, low_bit) == low_bits(e.0, low_bit),
{
    let raw = all_raw_buckets(groups, low_bit, cap_bit);
    let t = table_of(groups, low_bit, cap_bit);
    let slice = t.buckets[m].widths;
    lemma_all_raw_buckets(groups, low_bit, cap_bit);
    lemma_merge_all_keeps(raw);
    let r = choose|r: int|
        0 <= r < raw.len() && r < t.entries.len() && t.entries[r] == m && (
        #[trigger] raw[r]).codepoints.contains(e);
    let (g, b) = lemma_raw_at(groups, low_bit, cap_bit, r);
    lemma_raw_bucket_good(groups[g], w, low_bit, cap_bit, b);
    let p = choose|p: int| 0 <= p < raw[r].codepoints.len() && raw[r].codepoints[p] == e;
    lemma_position(raw[r].codepoints, low_bit, p);
    assert(is_prefix(raw[r].widths, slice));
    assert(slice.take(raw[r].widths.len() as int)[p] == raw[r].widths[p]);
    p
}

/// The sorted members of the buckets of a tier that was built from good
/// groups are good groups for the tier on the bits below.
pub proof fn lemma_next_groups_good(
    groups: Seq<Seq<Entry>>,
    w: Seq<u8>,
    low_bit: u32,
    cap_bit: u32,
    next: Seq<Seq<Entry>>,
)
    requires
        good_groups(groups, w, cap_bit),
        w.len() == NUM_CODEPOINTS,
        tier_window(low_bit, cap_bit),
        groups.len() > 0,
        groups.len() * bucket_count(low_bit, cap_bit) <= usize::MAX,
        groups_of(table_of(groups, low_bit, cap_bit), next),
    ensures
        good_groups(next, w, low_bit),
        0 < next.len() <= groups.len() * bucket_count(low_bit, cap_bit),
{
    let raw = all_raw_buckets(groups, low_bit, cap_bit);
    let t = table_of(groups, low_bit, cap_bit);
    lemma_all_raw_buckets(groups, low_bit, cap_bit);
    lemma_raw_separate(groups, w, low_bit, cap_bit);
    lemma_merge_all_keeps(raw);
    lemma_merge_all_made_of(raw);
    assert forall|m: int| 0 <= m < next.len() implies good_group(#[trigger] next[m], w, low_bit) by {
        lemma_next_group_good(groups, w, low_bit, cap_bit, m, next[m]);
    }
    assert forall|m: int, n: int|
        0 <= m < next.len() && 0 <= n < next.len() && m != n implies disjoint(
        #[trigger] next[m],
        #[trigger] next[n],
    ) by {
        lemma_next_group_good(groups, w, low_bit, cap_bit, m, next[m]);
        lemma_next_group_good(groups, w, low_bit, cap_bit, n, next[n]);
        assert(disjoint(t.buckets[m].codepoints, t.buckets[n].codepoints));
        assert forall|i: int, j: int| 0 <= i < next[m].len() && 0 <= j < next[n].len() implies (
        #[trigger] next[m][i]).0 != (#[trigger] next[n][j]).0 by {
            assert(next[m].contains(next[m][i]));
            assert(next[n].contains(next[n][j]));
            let x = choose|x: int|
                0 <= x < t.buckets[m].codepoints.len() && t.buckets[m].codepoints[x] == next[m][i];
            let y = choose|y: int|
                0 <= y < t.buckets[n].codepoints.len() && t.buckets[n].codepoints[y] == next[n][j];
            assert(t.buckets[m].codepoints[x].0 != t.buckets[n].codepoints[y].0);
        }
    }
}

/// The last tier, built on the lowest six bits from good groups of width
/// classes, is flat.
pub proof fn lemma_last_tier_flat(groups: Seq<Seq<Entry>>, w: Seq<u8>)
    requires
        good_groups(groups, w, 6),
        w.len() == NUM_CODEPOINTS,
        forall|i: int| 0 <= i < w.len() ==> w[i] <= MAX_WIDTH,
        groups.len() > 0,
        groups.len() * 64 <= usize::MAX,
    ensures
        table_of(groups, 0, 6).is_flat(),
{
    let raw = all_raw_buckets(groups, 0, 6);
    let t = table_of(groups, 0, 6);
    assert(bucket_count(0, 6) == 64) by {
        assert((1u32 << 6u32) == 64) by (bit_vector);
    }
    lemma_all_raw_buckets(groups, 0, 6);
    lemma_raw_separate(groups, w, 0, 6);
    lemma_merge_all_keeps(raw);
    lemma_merge_all_made_of(raw);
    assert forall|m: int| 0 <= m < t.buckets.len() implies uniform_width(
        (#[trigger] t.buckets[m]).widths,
    ) is Some && t.buckets[m].widths[0] <= MAX_WIDTH by {
        let slice = t.buckets[m].widths;
        assert(slice_from(raw, t, m));
        let r = choose|r: int|
            0 <= r < raw.len() && r < t.entries.len() && t.entries[r] == m && (#[trigger] raw[r]).widths
                == t.buckets[m].widths;
        let (g, b) = lemma_raw_at(groups, 0, 6, r);
        lemma_raw_bucket_good(groups[g], w, 0, 6, b);
        let members = raw[r].codepoints;
        assert forall|k: int| 0 <= k < slice.len() implies #[trigger] slice[k] == slice[0] by {
            let e = members[k];
            let f = members[0];
            assert(window(e.0, 0, 6) == window(f.0, 0, 6));
            assert(low_bits(e.0, 6) == low_bits(f.0, 6)) by {
                let (c, d) = (e.0, f.0);
                assert((c >> 0u32) & !(0xFFFF_FFFFu32 << 6u32) == c & !(0xFFFF_FFFFu32 << 6u32))
                    by (bit_vector);
                assert((d >> 0u32) & !(0xFFFF_FFFFu32 << 6u32) == d & !(0xFFFF_FFFFu32 << 6u32))
                    by (bit_vector);
            }
            assert(groups[g].contains(e));
            assert(groups[g].contains(f));
            let i = choose|i: int| 0 <= i < groups[g].len() && groups[g][i] == e;
            let j = choose|j: int| 0 <= j < groups[g].len() && groups[g][j] == f;
            assert(groups[g][i].1 == groups[g][j].1);
            assert(raw[r].widths[k] == members[k].1);
            assert(raw[r].widths[0] == members[0].1);
        }
        assert(raw[r].widths[0] == members[0].1);
        assert(members[0].0 < w.len());
    }
    assert(t.entries.len() % 4 == 0) by {
        assert(t.entries.len() == groups.len() * 64);
    }
    assert forall|i: int| 0 <= i < t.entries.len() implies uniform_width(
        t.buckets[(#[trigger] t.entries[i]) as int].widths,
    ) is Some by {
        assert(t.entries[i] < t.buckets.len());
    }
    assert forall|i: int| 0 <= i < t.entries.len() implies #[trigger] t.entry_width(i)
        <= MAX_WIDTH by {
        assert(t.entries[i] < t.buckets.len());
    }
}

/// The dense array with every width clamped.
pub open spec fn clamped_widths(widths: Seq<u8>) -> Seq<u8> {
    Seq::new(widths.len(), |i: int| clamp_width(widths[i]))
}

/// All codepoints with their clamped widths make one good group for the
/// first tier.
pub proof fn lemma_first_group_good(widths: Seq<u8>)
    requires
        widths.len() == NUM_CODEPOINTS,
    ensures
        good_groups(seq![clamped_entries(widths)], clamped_widths(widths), MAX_CODEPOINT_BITS),
{
    let entries = clamped_entries(widths);
    let w = clamped_widths(widths);
    let groups = seq![entries];
    assert forall|i: int, cp: u32|
        #![trigger entries[i], has_codepoint(entries, cp)]
        0 <= i < entries.len() && cp < NUM_CODEPOINTS && block_of(cp, 21) == block_of(
            entries[i].0,
            21,
        ) implies has_codepoint(entries, cp) by {
        assert(entries[cp as int].0 == cp);
    }
    assert forall|i: int, j: int|
        #![trigger entries[i], entries[j]]
        0 <= i < entries.len() && 0 <= j < entries.len() && low_bits(entries[i].0, 21) == low_bits(
            entries[j].0,
            21,
        ) implies entries[i].1 == entries[j].1 by {
        let (c, d) = (entries[i].0, entries[j].0);
        assert(c & !(0xFFFF_FFFFu32 << 21u32) == d & !(0xFFFF_FFFFu32 << 21u32) ==> c == d)
            by (bit_vector)
            requires
                c < 0x110000,
                d < 0x110000,
        ;
    }
    assert(good_group(entries, w, 21));
    assert forall|g: int| 0 <= g < groups.len() implies good_group(#[trigger] groups[g], w, 21) by {
        assert(groups[g] == entries);
    }
}

/// The last tier of a compiled table is flat, whatever the dense array
/// holds, as long as its widths are width classes: the compiler never comes
/// upon a bucket of the last tier with two widths.
pub proof fn lemma_compiled_is_flat(widths: Seq<u8>, t0: TableView, t1: TableView, t2: TableView)
    requires
        is_dense_array(widths),
        compiled_from(widths, t0, t1, t2),
    ensures
        t2.is_flat(),
{
    let w = clamped_widths(widths);
    let groups_0 = seq![clamped_entries(widths)];
    let groups_1 = choose|groups: Seq<Seq<Entry>>| #[trigger]
        groups_of(t0, groups) && t1 == table_of(groups, 6, 13);
    let groups_2 = choose|groups: Seq<Seq<Entry>>| #[trigger]
        groups_of(t1, groups) && t2 == table_of(groups, 0, 6);
    assert(bucket_count(13, 21) == 256 && bucket_count(6, 13) == 128) by {
        assert((1u32 << 8u32) == 256 && (1u32 << 7u32) == 128) by (bit_vector);
    }
    lemma_first_group_good(widths);
    lemma_next_groups_good(groups_0, w, 13, 21, groups_1);
    lemma_next_groups_good(groups_1, w, 6, 13, groups_2);
    lemma_last_tier_flat(groups_2, w);
}

/// Strictly sorted entries are determined by what is among them.
pub proof fn lemma_sorted_unique(s: Seq<Entry>, t: Seq<Entry>, upto: int)
    requires
        strictly_sorted(s),
        strictly_sorted(t),
        s.len() == t.len(),
        forall|e: Entry| s.contains(e) <==> t.contains(e),
        0 <= upto <= s.len(),
    ensures
        forall|k: int| 0 <= k < upto ==> s[k] == t[k],
    decreases upto,
{
    if upto > 0 {
        lemma_sorted_unique(s, t, upto - 1);
        let k = upto - 1;
        assert(s.contains(s[k]));
        assert(t.contains(t[k]));
        let i = choose|i: int| 0 <= i < t.len() && t[i] == s[k];
        let j = choose|j: int| 0 <= j < s.len() && s[j] == t[k];
        if i < k {
            assert(s[i].0 < s[k].0);
        }
        if j < k {
            assert(t[j].0 < t[k].0);
        }
        if i > k {
            assert(t[k].0 < t[i].0);
        }
        if j > k {
            assert(s[k].0 < s[j].0);
        }
    }
}

/// The groups that the next tier is built from are determined by the tier
/// before, if that was built from good groups.
pub proof fn lemma_groups_unique(
    groups: Seq<Seq<Entry>>,
    w: Seq<u8>,
    low_bit: u32,
    cap_bit: u32,
    next: Seq<Seq<Entry>>,
    other: Seq<Seq<Entry>>,
)
    requires
        good_groups(groups, w, cap_bit),
        w.len() == NUM_CODEPOINTS,
        tier_window(low_bit, cap_bit),
        groups.len() > 0,
        groups.len() * bucket_count(low_bit, cap_bit) <= usize::MAX,
        groups_of(table_of(groups, low_bit, cap_bit), next),
        groups_of(table_of(groups, low_bit, cap_bit), other),
    ensures
        next == other,
{
    let t = table_of(groups, low_bit, cap_bit);
    lemma_next_groups_good(groups, w, low_bit, cap_bit, next);
    lemma_next_groups_good(groups, w, low_bit, cap_bit, other);
    lemma_all_raw_buckets(groups, low_bit, cap_bit);
    lemma_raw_separate(groups, w, low_bit, cap_bit);
    lemma_merge_all_made_of(all_raw_buckets(groups, low_bit, cap_bit));
    assert forall|m: int| 0 <= m < next.len() implies #[trigger] next[m] == other[m] by {
        lemma_next_group_good(groups, w, low_bit, cap_bit, m, next[m]);
        lemma_next_group_good(groups, w, low_bit, cap_bit, m, other[m]);
        lemma_sorted_group(t.buckets[m], next[m]);
        lemma_sorted_group(t.buckets[m], other[m]);
        lemma_sorted_unique(next[m], other[m], next[m].len() as int);
        assert(next[m] =~= other[m]);
    }
    assert(next =~= other);
}

/// The tiers that a dense array compiles to are determined by the array.
pub proof fn lemma_compiled_unique(
    widths: Seq<u8>,
    t0: TableView,
    t1: TableView,
    t2: TableView,
    u0: TableView,
    u1: TableView,
    u2: TableView,
)
    requires
        widths.len() == NUM_CODEPOINTS,
        compiled_from(widths, t0, t1, t2),
        compiled_from(widths, u0, u1, u2),
    ensures
        t0 == u0,
        t1 == u1,
        t2 == u2,
{
    let w = clamped_widths(widths);
    let groups_0 = seq![clamped_entries(widths)];
    let t_groups_1 = choose|groups: Seq<Seq<Entry>>| #[trigger]
        groups_of(t0, groups) && t1 == table_of(groups, 6, 13);
    let t_groups_2 = choose|groups: Seq<Seq<Entry>>| #[trigger]
        groups_of(t1, groups) && t2 == table_of(groups, 0, 6);
    let u_groups_1 = choose|groups: Seq<Seq<Entry>>| #[trigger]
        groups_of(u0, groups) && u1 == table_of(groups, 6, 13);
    let u_groups_2 = choose|groups: Seq<Seq<Entry>>| #[trigger]
        groups_of(u1, groups) && u2 == table_of(groups, 0, 6);
    assert(bucket_count(13, 21) == 256 && bucket_count(6, 13) == 128) by {
        assert((1u32 << 8u32) == 256 && (1u32 << 7u32) == 128) by (bit_vector);
    }
    lemma_first_group_good(widths);
    lemma_next_groups_good(groups_0, w, 13, 21, t_groups_1);
    lemma_groups_unique(groups_0, w, 13, 21, t_groups_1, u_groups_1);
    lemma_groups_unique(t_groups_1, w, 6, 13, t_groups_2, u_groups_2);
}

} // verus!
