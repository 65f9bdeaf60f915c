use vstd::prelude::*;
use crate::error::{Error, Result};
use crate::hot::HotStore;
use crate::lifecycle::{is_after, st, state_of, ObjectState, Transition};
use crate::metadata::{oid, MetadataService, ObjectId};
use crate::models::{new_id, ArchiveBundle, ArchiveBundleStatus, ObjectMetadata, StorageClass, TapeStatus};
use crate::notification::{Notification, NotificationService};
use crate::tape::{byte_sum, checksum, checksum_extend, lemma_byte_sum_append, TapeManager};

verus! {

/// Sum of `s[a..b]`.
pub open spec fn range_sum(s: Seq<u64>, a: int, b: int) -> int
    decreases b - a,
{
    if b <= a {
        0
    } else {
        range_sum(s, a, b - 1) + s[b - 1]
    }
}

proof fn lemma_range_sum_single(s: Seq<u64>, a: int)
    ensures
        range_sum(s, a, a + 1) == s[a],
{
    assert(range_sum(s, a, a) == 0);
}

pub proof fn lemma_range_sum_step(s: Seq<u64>, a: int, b: int)
    requires
        a <= b,
    ensures
        range_sum(s, a, b + 1) == range_sum(s, a, b) + s[b],
{
}

/// `g` is the greedy packing of the sizes `s`, in order, into bundles of at
/// most `cap` bytes: each bundle `[g[i].0, g[i].1)` is a non-empty run that
/// follows the one before it, stays within `cap` unless it is a single object
/// larger than `cap`, and is closed only when the next object does not fit.
pub open spec fn greedy_packing(s: Seq<u64>, cap: u64, g: Seq<(usize, usize)>) -> bool {
    &&& (s.len() == 0 <==> g.len() == 0)
    &&& g.len() > 0 ==> g[0].0 == 0 && g.last().1 == s.len()
    &&& forall|i: int| 0 <= i < g.len() ==> (#[trigger] g[i]).0 < g[i].1
    &&& forall|i: int| 0 <= i < g.len() - 1 ==> (#[trigger] g[i]).1 == g[i + 1].0
    &&& forall|i: int| 0 <= i < g.len() ==> range_sum(s, (#[trigger] g[i]).0 as int, g[i].1 as int) <= cap || g[i].1 == g[i].0 + 1
    &&& forall|i: int| 0 <= i < g.len() - 1 ==> range_sum(s, (#[trigger] g[i]).0 as int, g[i].1 as int) + s[g[i].1 as int] > cap
}

/// Packs objects of the given sizes, in order, into bundles of at most `cap`
/// bytes; an object larger than `cap` forms a bundle of its own. Returns the
/// bundles as index ranges.
#[verifier::rlimit(40)]
pub fn pack_bundles(sizes: &Vec<u64>, cap: u64) -> (r: Vec<(usize, usize)>)
    ensures
        greedy_packing(sizes@, cap, r@),
{
    let mut groups: Vec<(usize, usize)> = Vec::new();
    let n = sizes.len();
    if n == 0 {
        return groups;
    }
    let mut start: usize = 0;
    let mut cur: u64 = sizes[0];
    let mut i: usize = 1;
    proof { lemma_range_sum_single(sizes@, 0); }
    while i < n
        invariant
            n == sizes@.len(),
            start < i <= n,
            cur == range_sum(sizes@, start as int, i as int),
            cur <= cap || i == start + 1,
            groups@.len() == 0 ==> start == 0,
            groups@.len() > 0 ==> groups@[0].0 == 0 && groups@.last().1 == start,
            forall|k: int| 0 <= k < groups@.len() ==> (#[trigger] groups@[k]).0 < groups@[k].1,
            forall|k: int| 0 <= k < groups@.len() - 1 ==> (#[trigger] groups@[k]).1 == groups@[k + 1].0,
            forall|k: int| 0 <= k < groups@.len() ==> range_sum(sizes@, (#[trigger] groups@[k]).0 as int, groups@[k].1 as int) <= cap
                || groups@[k].1 == groups@[k].0 + 1,
            forall|k: int| 0 <= k < groups@.len() ==> range_sum(sizes@, (#[trigger] groups@[k]).0 as int, groups@[k].1 as int)
                + sizes@[groups@[k].1 as int] > cap,
        decreases n - i,
    {
        let ghost before = groups@;
        if cur > cap || sizes[i] > cap - cur {
            groups.push((start, i));
            proof {
                assert forall|k: int| 0 <= k < groups@.len() - 1 implies (#[trigger] groups@[k]).1 == groups@[k + 1].0 by {
                    if k < before.len() - 1 {
                        assert(groups@[k] == before[k] && groups@[k + 1] == before[k + 1]);
                    } else {
                        assert(groups@[k] == before.last());
                    }
                }
                assert forall|k: int| 0 <= k < groups@.len() implies range_sum(sizes@, (#[trigger] groups@[k]).0 as int, groups@[k].1 as int)
                    + sizes@[groups@[k].1 as int] > cap by {
                    if k < before.len() {
                        assert(groups@[k] == before[k]);
                    }
                }
            }
            start = i;
            cur = sizes[i];
            proof { lemma_range_sum_single(sizes@, i as int); }
        } else {
            proof { lemma_range_sum_step(sizes@, start as int, i as int); }
            cur = cur + sizes[i];
        }
        i = i + 1;
    }
    let ghost before = groups@;
    groups.push((start, n));
    proof {
        assert forall|k: int| 0 <= k < groups@.len() - 1 implies (#[trigger] groups@[k]).1 == groups@[k + 1].0 by {
            if k < before.len() - 1 {
                assert(groups@[k] == before[k] && groups@[k + 1] == before[k + 1]);
            } else {
                assert(groups@[k] == before.last());
            }
        }
        assert forall|k: int| 0 <= k < groups@.len() - 1 implies range_sum(sizes@, (#[trigger] groups@[k]).0 as int, groups@[k].1 as int)
            + sizes@[groups@[k].1 as int] > cap by {
            assert(groups@[k] == before[k]);
        }
    }
    groups
}

/// `id` is the identity of one of `members[start..end]`.
pub open spec fn is_member(members: Seq<ObjectMetadata>, start: int, end: int, id: ObjectId) -> bool {
    exists|k: int| start <= k < end && oid(members[k]) == id
}

/// The archive step of an object: ColdPending before, and after it the
/// commit of bundle `a` on tape `tape_id` at `now`.
pub open spec fn committed(before: ObjectMetadata, after: ObjectMetadata, a: u128, tape_id: String, now: u64) -> bool {
    &&& state_of(before) == st(StorageClass::ColdPending, None)
    &&& is_after(before, Transition::ArchiveCommit { archive_id: a, tape_id }, now, after)
}

/// Each object of `new` is as in `old`, or was ColdPending and is now Cold in
/// a bundle that is Completed; no object comes or goes.
pub open spec fn archived_or_unchanged(
    old: Map<ObjectId, ObjectMetadata>,
    new: Map<ObjectId, ObjectMetadata>,
    bundles: Map<u128, ArchiveBundle>,
    tape_id: String,
    now: u64,
) -> bool {
    &&& forall|id: ObjectId| #[trigger] new.contains_key(id) <==> old.contains_key(id)
    &&& forall|id: ObjectId| #[trigger] old.contains_key(id) ==> new[id] == old[id] || exists|a: u128|
        committed(old[id], new[id], a, tape_id, now) && bundles.contains_key(a)
            && bundles[a].status == ArchiveBundleStatus::Completed
}

/// The bytes of the blobs, one after the other.
pub open spec fn concat_blobs(bs: Seq<Vec<u8>>) -> Seq<u8>
    decreases bs.len(),
{
    if bs.len() == 0 {
        Seq::empty()
    } else {
        concat_blobs(bs.drop_last()) + bs.last()@
    }
}

proof fn lemma_group_bounds(s: Seq<u64>, cap: u64, g: Seq<(usize, usize)>, i: int)
    requires
        greedy_packing(s, cap, g),
        0 <= i < g.len(),
    ensures
        g[i].0 == (if i == 0 { 0 } else { g[i - 1].1 as int }),
        g[i].1 <= s.len(),
    decreases g.len() - i,
{
    if i > 0 {
        assert(g[i - 1].1 == g[i].0);
    }
    if i < g.len() - 1 {
        lemma_group_bounds(s, cap, g, i + 1);
        assert(g[i].1 == g[i + 1].0);
    }
}

/// The records are in ascending order of `updated_at`.
pub open spec fn sorted_by_age(s: Seq<ObjectMetadata>) -> bool {
    forall|a: int, b: int| 0 <= a < b < s.len() ==> (#[trigger] s[a]).updated_at <= (#[trigger] s[b]).updated_at
}

/// No two records have the same identity.
pub open spec fn distinct_ids(s: Seq<ObjectMetadata>) -> bool {
    forall|a: int, b: int| 0 <= a < s.len() && 0 <= b < s.len() && a != b ==> oid(#[trigger] s[a]) != oid(#[trigger] s[b])
}

/// Every record of `s` is one of `orig`.
pub open spec fn drawn_from(s: Seq<ObjectMetadata>, orig: Seq<ObjectMetadata>) -> bool {
    forall|k: int| 0 <= k < s.len() ==> #[trigger] orig.contains(s[k])
}

/// The records of `v`, oldest update first.
#[verifier::loop_isolation(false)]
pub fn sort_by_age(v: Vec<ObjectMetadata>) -> (r: Vec<ObjectMetadata>)
    requires
        distinct_ids(v@),
    ensures
        r@.len() == v@.len(),
        sorted_by_age(r@),
        drawn_from(r@, v@),
        drawn_from(v@, r@),
        distinct_ids(r@),
{
    let ghost orig = v@;
    let mut rest = v;
    let mut out: Vec<ObjectMetadata> = Vec::new();
    assert forall|k: int| 0 <= k < rest@.len() implies #[trigger] orig.contains(rest@[k]) by {
        assert(rest@[k] == orig[k]);
    }
    assert forall|j: int| 0 <= j < orig.len() implies out@.contains(#[trigger] orig[j]) || rest@.contains(orig[j]) by {
        assert(rest@[j] == orig[j]);
    }
    while rest.len() > 0
        invariant
            out@.len() + rest@.len() == orig.len(),
            sorted_by_age(out@),
            forall|a: int, b: int| 0 <= a < out@.len() && 0 <= b < rest@.len() ==> (#[trigger] out@[a]).updated_at <= (#[trigger] rest@[b]).updated_at,
            drawn_from(out@, orig),
            drawn_from(rest@, orig),
            distinct_ids(out@),
            distinct_ids(rest@),
            forall|a: int, b: int| 0 <= a < out@.len() && 0 <= b < rest@.len() ==> oid(#[trigger] out@[a]) != oid(#[trigger] rest@[b]),
            forall|j: int| 0 <= j < orig.len() ==> out@.contains(#[trigger] orig[j]) || rest@.contains(orig[j]),
        decreases rest@.len(),
    {
        let mut m: usize = 0;
        let mut i: usize = 1;
        while i < rest.len()
            invariant
                m < i <= rest@.len(),
                forall|q: int| 0 <= q < i ==> rest@[m as int].updated_at <= (#[trigger] rest@[q]).updated_at,
            decreases rest@.len() - i,
        {
            if rest[i].updated_at < rest[m].updated_at {
                m = i;
            }
            i = i + 1;
        }
        let ghost r0 = rest@;
        let ghost o0 = out@;
        let x = rest.remove(m);
        out.push(x);
        proof {
            assert(rest@ == r0.remove(m as int));
            assert(out@ == o0.push(x));
            assert forall|k: int| 0 <= k < rest@.len() implies #[trigger] orig.contains(rest@[k]) by {
                let pk = if k < m { k } else { k + 1 };
                assert(rest@[k] == r0[pk]);
                assert(orig.contains(r0[pk]));
            }
            assert forall|k: int| 0 <= k < out@.len() implies #[trigger] orig.contains(out@[k]) by {
                if k < o0.len() { assert(out@[k] == o0[k]); assert(orig.contains(o0[k])); } else { assert(out@[k] == r0[m as int]); assert(orig.contains(r0[m as int])); }
            }
            assert forall|a: int, b: int| 0 <= a < b < out@.len() implies (#[trigger] out@[a]).updated_at <= (#[trigger] out@[b]).updated_at by {
                if b < o0.len() { assert(out@[a] == o0[a] && out@[b] == o0[b]); } else { assert(out@[a] == o0[a]); assert(out@[b] == r0[m as int]); }
            }
            assert forall|a: int, b: int| 0 <= a < out@.len() && 0 <= b < rest@.len() implies (#[trigger] out@[a]).updated_at <= (#[trigger] rest@[b]).updated_at by {
                let pb = if b < m { b } else { b + 1 };
                assert(rest@[b] == r0[pb]);
                if a < o0.len() { assert(out@[a] == o0[a]); } else { assert(out@[a] == r0[m as int]); }
            }
            assert forall|a: int, b: int| 0 <= a < out@.len() && 0 <= b < out@.len() && a != b implies oid(#[trigger] out@[a]) != oid(#[trigger] out@[b]) by {
                if a < o0.len() && b < o0.len() { assert(out@[a] == o0[a] && out@[b] == o0[b]); }
                else if a < o0.len() { assert(out@[a] == o0[a] && out@[b] == r0[m as int]); }
                else { assert(out@[b] == o0[b] && out@[a] == r0[m as int]); }
            }
            assert forall|a: int, b: int| 0 <= a < rest@.len() && 0 <= b < rest@.len() && a != b implies oid(#[trigger] rest@[a]) != oid(#[trigger] rest@[b]) by {
                let pa = if a < m { a } else { a + 1 };
                let pb = if b < m { b } else { b + 1 };
                assert(rest@[a] == r0[pa] && rest@[b] == r0[pb]);
            }
            assert forall|a: int, b: int| 0 <= a < out@.len() && 0 <= b < rest@.len() implies oid(#[trigger] out@[a]) != oid(#[trigger] rest@[b]) by {
                let pb = if b < m { b } else { b + 1 };
                assert(rest@[b] == r0[pb]);
                if a < o0.len() { assert(out@[a] == o0[a]); } else { assert(out@[a] == r0[m as int]); }
            }
            assert forall|j: int| 0 <= j < orig.len() implies out@.contains(#[trigger] orig[j]) || rest@.contains(orig[j]) by {
                if o0.contains(orig[j]) {
                    let w = choose|w: int| 0 <= w < o0.len() && o0[w] == orig[j];
                    assert(out@[w] == orig[j]);
                } else {
                    let w = choose|w: int| 0 <= w < r0.len() && r0[w] == orig[j];
                    if w == m {
                        assert(out@[o0.len() as int] == orig[j]);
                    } else {
                        let sw = if w < m { w } else { w - 1 };
                        assert(rest@[sw] == orig[j]);
                    }
                }
            }
        }
    }
    proof {
        assert forall|k: int| 0 <= k < orig.len() implies #[trigger] out@.contains(orig[k]) by {
            assert(out@.contains(orig[k]) || rest@.contains(orig[k]));
        }
    }
    out
}

/// Every one of `members[start..end]` has a hot copy.
pub open spec fn bundle_ready(hot: Map<ObjectId, Seq<u8>>, members: Seq<ObjectMetadata>, start: int, end: int) -> bool {
    forall|k: int| start <= k < end ==> hot.contains_key(oid(#[trigger] members[k]))
}

/// The total size of the hot copies of `members[start..end]`.
pub open spec fn hot_total(hot: Map<ObjectId, Seq<u8>>, members: Seq<ObjectMetadata>, start: int, end: int) -> int
    decreases end - start,
{
    if end <= start {
        0
    } else {
        hot_total(hot, members, start, end - 1) + hot[oid(members[end - 1])].len()
    }
}

proof fn lemma_hot_total_mono(hot: Map<ObjectId, Seq<u8>>, members: Seq<ObjectMetadata>, start: int, m: int, end: int)
    requires
        start <= m <= end,
    ensures
        hot_total(hot, members, start, m) <= hot_total(hot, members, start, end),
    decreases end - m,
{
    if m < end {
        lemma_hot_total_mono(hot, members, start, m, end - 1);
    }
}

proof fn lemma_concat_prefix(bs: Seq<Vec<u8>>, j: int)
    requires
        0 <= j <= bs.len(),
    ensures
        concat_blobs(bs.subrange(0, j)).len() <= concat_blobs(bs).len(),
    decreases bs.len(),
{
    if j < bs.len() {
        lemma_concat_prefix(bs.drop_last(), j);
        assert(bs.drop_last().subrange(0, j) =~= bs.subrange(0, j));
    } else {
        assert(bs.subrange(0, j) =~= bs);
    }
}

/// Bytes per MiB.
pub const MIB: u64 = 1048576;

/// The bundle size cap used when the minimum bundle size does not exceed it.
pub const DEFAULT_BUNDLE_CAP: u64 = 1073741824;

/// Batches ColdPending objects into bundles, writes them to tape and commits
/// their members to Cold, one bundle at a time and all-or-nothing per bundle.
pub struct ArchiveScheduler {
    pub scan_interval_secs: u64,
    pub batch_size: usize,
    pub min_archive_size_mb: u64,
    pub target_throughput_mbps: u64,
    pub bundle_cap: u64,
}

impl ArchiveScheduler {
    /// A scheduler whose bundle cap is the larger of the minimum bundle size
    /// and `DEFAULT_BUNDLE_CAP`.
    pub fn new(scan_interval_secs: u64, batch_size: usize, min_archive_size_mb: u64, target_throughput_mbps: u64) -> (r: Self)
        ensures
            r.scan_interval_secs == scan_interval_secs,
            r.batch_size == batch_size,
            r.min_archive_size_mb == min_archive_size_mb,
            r.target_throughput_mbps == target_throughput_mbps,
            r.bundle_cap == if min_bytes(min_archive_size_mb) > DEFAULT_BUNDLE_CAP { min_bytes(min_archive_size_mb) } else { DEFAULT_BUNDLE_CAP },
    {
        let min = Self::min_bytes_of(min_archive_size_mb);
        let cap = if min > DEFAULT_BUNDLE_CAP { min } else { DEFAULT_BUNDLE_CAP };
        ArchiveScheduler { scan_interval_secs, batch_size, min_archive_size_mb, target_throughput_mbps, bundle_cap: cap }

    }

/// The minimum bundle size in bytes, saturated at `u64::MAX`.
    pub fn min_bytes_of(mb: u64) -> (r: u64)
        ensures
            r == min_bytes(mb),
    {
        if mb > u64::MAX / MIB { u64::MAX } else { mb * MIB }
    }

    /// Writes `members[start..end]` to tape `tape_id` as one bundle under a
    /// fresh random id and commits them to Cold (see `archive_bundle_with_id`).
    pub fn archive_bundle(
        &self,
        store: &mut MetadataService,
        hot: &mut HotStore,
        tapes: &mut TapeManager,
        notifier: &mut NotificationService,
        tape_id: &String,
        members: &Vec<ObjectMetadata>,
        start: usize,
        end: usize,
        now: u64,
    ) -> (r: Result<u128>)
        requires
            old(store).wf(),
            old(hot).wf(),
            old(tapes).wf(),
            start < end <= members@.len(),
            forall|a: int, b: int| start <= a < end && start <= b < end && a != b ==> oid(#[trigger] members@[a]) != oid(#[trigger] members@[b]),
            forall|k: int| start <= k < end ==> old(store)@.contains_key(oid(#[trigger] members@[k]))
                && state_of(old(store)@[oid(members@[k])]) == st(StorageClass::ColdPending, None),
        ensures
            final(store).wf(),
            final(hot).wf(),
            final(tapes).wf(),
            forall|id: ObjectId| #[trigger] final(store)@.contains_key(id) <==> old(store)@.contains_key(id),
            forall|id: ObjectId| old(store)@.contains_key(id) && !is_member(members@, start as int, end as int, id)
                ==> #[trigger] final(store)@[id] == old(store)@[id],
            old(store).cold_backed() ==> final(store).cold_backed(),
            r is Err ==> final(store)@ == old(store)@ && final(hot)@ == old(hot)@,
            r matches Ok(a) ==> {
                &&& !old(store).bundle_view().contains_key(a)
                &&& final(store).bundle_view().contains_key(a)
                &&& final(store).bundle_view()[a].status == ArchiveBundleStatus::Completed
                &&& forall|x: u128| x != a ==> (#[trigger] final(store).bundle_view().contains_key(x) <==> old(store).bundle_view().contains_key(x))
                &&& forall|x: u128| x != a && old(store).bundle_view().contains_key(x) ==> #[trigger] final(store).bundle_view()[x] == old(store).bundle_view()[x]
                &&& forall|k: int| start <= k < end ==> committed(old(store)@[oid(#[trigger] members@[k])], final(store)@[oid(members@[k])], a, *tape_id, now)
                &&& final(hot)@ == old(hot)@.remove_keys(Set::new(|id: ObjectId| is_member(members@, start as int, end as int, id)))
            },
            r is Err ==> forall|x: u128| #[trigger] old(store).bundle_view().contains_key(x) ==> final(store).bundle_view().contains_key(x)
                && final(store).bundle_view()[x] == old(store).bundle_view()[x],
            r matches Ok(a) ==> {
                let b = final(store).bundle_view()[a];
                &&& final(tapes).has_tape(tape_id@)
                &&& b.offset + b.total_size <= final(tapes).written(tape_id@).len()
                &&& checksum(final(tapes).written(tape_id@).subrange(b.offset as int, b.offset + b.total_size)) == b.checksum
            },
    {
        let id = new_id();
        self.archive_bundle_with_id(store, hot, tapes, notifier, tape_id, members, start, end, id, now)
    }

    /// Writes `members[start..end]` to tape `tape_id` as bundle `id` and
    /// commits them to Cold. The members must be distinct and ColdPending in
    /// `store`. It succeeds exactly when every member has a hot copy, their
    /// total size fits in `u64`, `id` is unused, and the tape is Online with
    /// room for the whole bundle. On success the bundle is Completed, every
    /// member is committed to it, and their hot copies are reclaimed. On any
    /// failure no object record and no hot copy changes; a bundle that got as
    /// far as the tape is marked Failed and reported with a BundleFailed
    /// alert.
    #[verifier::loop_isolation(false)]
    #[verifier::rlimit(100)]
    pub fn archive_bundle_with_id(
        &self,
        store: &mut MetadataService,
        hot: &mut HotStore,
        tapes: &mut TapeManager,
        notifier: &mut NotificationService,
        tape_id: &String,
        members: &Vec<ObjectMetadata>,
        start: usize,
        end: usize,
        id: u128,
        now: u64,
    ) -> (r: Result<u128>)
        requires
            old(store).wf(),
            old(hot).wf(),
            old(tapes).wf(),
            start < end <= members@.len(),
            forall|a: int, b: int| start <= a < end && start <= b < end && a != b ==> oid(#[trigger] members@[a]) != oid(#[trigger] members@[b]),
            forall|k: int| start <= k < end ==> old(store)@.contains_key(oid(#[trigger] members@[k]))
                && state_of(old(store)@[oid(members@[k])]) == st(StorageClass::ColdPending, None),
        ensures
            final(store).wf(),
            final(hot).wf(),
            final(tapes).wf(),
            forall|id: ObjectId| #[trigger] final(store)@.contains_key(id) <==> old(store)@.contains_key(id),
            forall|id: ObjectId| old(store)@.contains_key(id) && !is_member(members@, start as int, end as int, id)
                ==> #[trigger] final(store)@[id] == old(store)@[id],
            old(store).cold_backed() ==> final(store).cold_backed(),
            r is Err ==> final(store)@ == old(store)@ && final(hot)@ == old(hot)@,
            r matches Ok(a) ==> {
                &&& !old(store).bundle_view().contains_key(a)
                &&& final(store).bundle_view().contains_key(a)
                &&& final(store).bundle_view()[a].status == ArchiveBundleStatus::Completed
                &&& forall|x: u128| x != a ==> (#[trigger] final(store).bundle_view().contains_key(x) <==> old(store).bundle_view().contains_key(x))
                &&& forall|x: u128| x != a && old(store).bundle_view().contains_key(x) ==> #[trigger] final(store).bundle_view()[x] == old(store).bundle_view()[x]
                &&& forall|k: int| start <= k < end ==> committed(old(store)@[oid(#[trigger] members@[k])], final(store)@[oid(members@[k])], a, *tape_id, now)
                &&& final(hot)@ == old(hot)@.remove_keys(Set::new(|id: ObjectId| is_member(members@, start as int, end as int, id)))
            },
            r is Err ==> forall|x: u128| #[trigger] old(store).bundle_view().contains_key(x) ==> final(store).bundle_view().contains_key(x)
                && final(store).bundle_view()[x] == old(store).bundle_view()[x],
            r matches Ok(a) ==> {
                let b = final(store).bundle_view()[a];
                &&& final(tapes).has_tape(tape_id@)
                &&& b.offset + b.total_size <= final(tapes).written(tape_id@).len()
                &&& checksum(final(tapes).written(tape_id@).subrange(b.offset as int, b.offset + b.total_size)) == b.checksum
            },
            (r is Ok) <==> (bundle_ready(old(hot)@, members@, start as int, end as int)
                && hot_total(old(hot)@, members@, start as int, end as int) <= u64::MAX
                && !old(store).bundle_view().contains_key(id)
                && old(tapes).has_tape(tape_id@)
                && old(tapes).status(tape_id@) == TapeStatus::Online
                && old(tapes).written(tape_id@).len() + hot_total(old(hot)@, members@, start as int, end as int)
                    <= old(tapes).slot(tape_id@).medium.capacity()),
            r matches Ok(a) ==> a == id,
            (r is Err && bundle_ready(old(hot)@, members@, start as int, end as int)
                && hot_total(old(hot)@, members@, start as int, end as int) <= u64::MAX
                && !old(store).bundle_view().contains_key(id)) ==> final(store).bundle_view().contains_key(id)
                && final(store).bundle_view()[id].status == ArchiveBundleStatus::Failed
                && final(notifier).queued() == old(notifier).queued().push(Notification::BundleFailed { bundle_id: id }),
            !(r is Err && bundle_ready(old(hot)@, members@, start as int, end as int)
                && hot_total(old(hot)@, members@, start as int, end as int) <= u64::MAX
                && !old(store).bundle_view().contains_key(id)) ==> final(notifier).queued() == old(notifier).queued(),
    {
        // read the members' hot copies
        let mut blobs: Vec<Vec<u8>> = Vec::new();
        let mut sizes: Vec<u64> = Vec::new();
        let mut buckets: Vec<String> = Vec::new();
        let mut keys: Vec<String> = Vec::new();
        let mut total: u64 = 0;
        let mut sum: u64 = 0;
        let ghost mut acc: Seq<u8> = Seq::empty();
        let mut k: usize = start;
        while k < end
            invariant
                start <= k <= end,
                end <= members@.len(),
                hot.wf(),
                blobs@.len() == k - start,
                concat_blobs(blobs@) == acc,
                hot@ == old(hot)@,
                forall|q: int| start <= q < k ==> hot@.contains_key(oid(#[trigger] members@[q])),
                total == hot_total(hot@, members@, start as int, k as int),
                total == acc.len(),
                sum == checksum(acc),
            decreases end - k,
        {
            let m = &members[k];
            match hot.get(&m.bucket, &m.object_key) {
                None => {
                    assert(!bundle_ready(old(hot)@, members@, start as int, end as int)) by {
                        assert(!hot@.contains_key(oid(members@[k as int])));
                    }
                    return Err(Error::Internal("hot copy missing".to_owned()));
                },
                Some(b) => {
                    let len = b.len() as u64;
                    assert(hot_total(hot@, members@, start as int, k + 1) == total + len);
                    if len > u64::MAX - total {
                        proof { lemma_hot_total_mono(hot@, members@, start as int, k + 1, end as int); }
                        return Err(Error::Internal("bundle too large".to_owned()));
                    }
                    total = total + len;
                    sum = checksum_extend(sum, &b);
                    proof {
                        lemma_byte_sum_append(acc, b@);
                        vstd::arithmetic::div_mod::lemma_add_mod_noop(byte_sum(acc) as int, byte_sum(b@) as int, 0x1_0000_0000_0000_0000);
                        vstd::arithmetic::div_mod::lemma_mod_twice(byte_sum(b@) as int, 0x1_0000_0000_0000_0000);
                        vstd::arithmetic::div_mod::lemma_add_mod_noop(sum as int, byte_sum(b@) as int, 0x1_0000_0000_0000_0000);
                    }
                    sizes.push(len);
                    buckets.push(m.bucket.clone());
                    keys.push(m.object_key.clone());
                    let ghost before_blobs = blobs@;
                    blobs.push(b);
                    proof {
                        assert(blobs@.drop_last() =~= before_blobs);
                        acc = acc + b@;
                    }
                },
            }
            k = k + 1;
        }
        // allocate the bundle
        if store.get_bundle(id).is_some() {
            return Err(Error::Internal("bundle id taken".to_owned()));
        }
        let bundle = ArchiveBundle {
            id,
            tape_id: tape_id.clone(),
            buckets,
            object_keys: keys,
            sizes,
            offset: 0,
            total_size: total,
            checksum: sum,
            created_at: now,
            status: ArchiveBundleStatus::Writing,
        };
        let ghost objs0 = store@;
        let ghost bv0 = store.bundle_view();
        let ghost b0 = bundle;
        store.put_bundle(bundle);
        // stream the members in order
        let mut offset: u64 = 0;
        let mut j: usize = 0;
        let ghost w0 = old(tapes).written(tape_id@);
        let ghost mut wr: Seq<u8> = Seq::empty();
        assert(blobs@.subrange(0, 0) =~= Seq::<Vec<u8>>::empty());
        while j < blobs.len()
            invariant
                store.wf(),
                tapes.wf(),
                store@ == objs0,
                j <= blobs@.len(),
                wr == concat_blobs(blobs@.subrange(0, j as int)),
                forall|t: Seq<char>| #[trigger] tapes.has_tape(t) <==> old(tapes).has_tape(t),
                old(tapes).has_tape(tape_id@) ==> tapes.written(tape_id@) == w0 + wr,
                j > 0 ==> old(tapes).has_tape(tape_id@) && offset == w0.len(),
                notifier.queued() == old(notifier).queued(),
                j > 0 ==> old(tapes).status(tape_id@) == TapeStatus::Online,
                old(tapes).has_tape(tape_id@) ==> tapes.status(tape_id@) == old(tapes).status(tape_id@)
                    && tapes.slot(tape_id@).medium.capacity() == old(tapes).slot(tape_id@).medium.capacity(),
                store.bundle_view() == bv0.insert(id, b0),
                !bv0.contains_key(id),
            decreases blobs.len() - j,
        {
            match tapes.write(tape_id, &blobs[j]) {
                Err(e) => {
                    proof {
                        if old(tapes).has_tape(tape_id@) && old(tapes).status(tape_id@) == TapeStatus::Online {
                            lemma_concat_prefix(blobs@, j + 1);
                            assert(blobs@.subrange(0, j + 1).drop_last() =~= blobs@.subrange(0, j as int));
                            assert(concat_blobs(blobs@.subrange(0, j + 1)) == wr + blobs@[j as int]@);
                        }
                    }
                    store.set_bundle_status(id, ArchiveBundleStatus::Failed, offset);
                    notifier.notify_bundle_failed(id);
                    proof {
                        if old(store).cold_backed() {
                            assert forall|x: ObjectId| #[trigger] store@.contains_key(x) && store@[x].storage_class == StorageClass::Cold
                                implies (store@[x].archive_id matches Some(a) && store.bundle_view().contains_key(a)
                                && store.bundle_view()[a].status == ArchiveBundleStatus::Completed) by {
                                assert(old(store)@.contains_key(x));
                                assert(old(store)@[x] == store@[x]);
                                let a = store@[x].archive_id.unwrap();
                                assert(bv0.contains_key(a));
                                assert(a != id);
                            }
                        }
                    }
                    return Err(e);
                },
                Ok(off) => {
                    if j == 0 {
                        offset = off;
                    }
                    proof {
                        assert(blobs@.subrange(0, j + 1).drop_last() =~= blobs@.subrange(0, j as int));
                        assert(w0 + wr + blobs@[j as int]@ =~= w0 + (wr + blobs@[j as int]@));
                        wr = wr + blobs@[j as int]@;
                    }
                },
            }
            j = j + 1;
        }
        proof {
            assert(blobs@.subrange(0, blobs@.len() as int) =~= blobs@);
            tapes.lemma_written_within_capacity(tape_id@);
            assert((w0 + wr).subrange(w0.len() as int, (w0.len() + wr.len()) as int) =~= wr);
        }
        store.set_bundle_status(id, ArchiveBundleStatus::Completed, offset);
        let ghost bv1 = store.bundle_view();
        assert(bv1[id].total_size == total && bv1[id].checksum == sum && bv1[id].offset == offset);
        assert(total == wr.len() && sum == checksum(wr));
        let ghost written = tapes.written(tape_id@);
        assert(tapes.has_tape(tape_id@));
        assert(written.subrange(offset as int, offset + total) == wr);
        // commit every member
        let mut k: usize = start;
        while k < end
            invariant
                start <= k <= end,
                end <= members@.len(),
                store.wf(),
                store.bundle_view() == bv1,
                bv1.contains_key(id),
                bv1[id].status == ArchiveBundleStatus::Completed,
                bv1 == bv0.insert(id, bv1[id]),
                !bv0.contains_key(id),
                objs0 == old(store)@,
                bv0 == old(store).bundle_view(),
                forall|a: int, b: int| start <= a < end && start <= b < end && a != b ==> oid(#[trigger] members@[a]) != oid(#[trigger] members@[b]),
                forall|q: int| start <= q < end ==> objs0.contains_key(oid(#[trigger] members@[q]))
                    && state_of(objs0[oid(members@[q])]) == st(StorageClass::ColdPending, None),
                forall|x: ObjectId| #[trigger] store@.contains_key(x) <==> objs0.contains_key(x),
                forall|x: ObjectId| objs0.contains_key(x) && !is_member(members@, start as int, k as int, x)
                    ==> #[trigger] store@[x] == objs0[x],
                forall|q: int| start <= q < k ==> committed(objs0[oid(#[trigger] members@[q])], store@[oid(members@[q])], id, *tape_id, now),
                old(store).cold_backed() ==> store.cold_backed(),
            decreases end - k,
        {
            let m = &members[k];
            let ghost mid = oid(members@[k as int]);
            assert(!is_member(members@, start as int, k as int, mid));
            let ghost prev = store@;
            let t = Transition::ArchiveCommit { archive_id: id, tape_id: tape_id.clone() };
            let res = store.update_storage_class(&m.bucket, &m.object_key, t, now);
            proof {
                assert(res is Ok);
                assert forall|x: ObjectId| objs0.contains_key(x) && !is_member(members@, start as int, k + 1, x)
                    implies #[trigger] store@[x] == objs0[x] by {
                    assert(!is_member(members@, start as int, k as int, x));
                    assert(x != mid);
                }
                assert forall|q: int| start <= q < k + 1 implies committed(objs0[oid(#[trigger] members@[q])], store@[oid(members@[q])], id, *tape_id, now) by {
                    if q < k {
                        assert(oid(members@[q]) != mid);
                    }
                }
                if old(store).cold_backed() {
                    assert forall|x: ObjectId| #[trigger] store@.contains_key(x) && store@[x].storage_class == StorageClass::Cold
                        implies (store@[x].archive_id matches Some(a) && store.bundle_view().contains_key(a)
                        && store.bundle_view()[a].status == ArchiveBundleStatus::Completed) by {
                        if x != mid {
                            assert(prev.contains_key(x));
                        }
                    }
                }
            }
            k = k + 1;
        }
        // the members are Cold: reclaim their hot copies
        let ghost hot0 = hot@;
        let mut k: usize = start;
        while k < end
            invariant
                start <= k <= end,
                end <= members@.len(),
                hot.wf(),
                hot0 == old(hot)@,
                hot@ == hot0.remove_keys(Set::new(|x: ObjectId| is_member(members@, start as int, k as int, x))),
            decreases end - k,
        {
            let m = &members[k];
            hot.reclaim(&m.bucket, &m.object_key);
            proof {
                let s1 = Set::new(|x: ObjectId| is_member(members@, start as int, k as int, x));
                let s2 = Set::new(|x: ObjectId| is_member(members@, start as int, k + 1, x));
                assert(s2 =~= s1.insert(oid(members@[k as int]))) by {
                    assert forall|x: ObjectId| s2.contains(x) implies #[trigger] s1.insert(oid(members@[k as int])).contains(x) by {
                        let q = choose|q: int| start <= q < k + 1 && oid(members@[q]) == x;
                        if q < k { assert(s1.contains(x)); }
                    }
                    assert forall|x: ObjectId| s1.insert(oid(members@[k as int])).contains(x) implies #[trigger] s2.contains(x) by {
                        if x == oid(members@[k as int]) {
                            assert(is_member(members@, start as int, k + 1, x));
                        } else {
                            let q = choose|q: int| start <= q < k && oid(members@[q]) == x;
                            assert(is_member(members@, start as int, k + 1, x));
                        }
                    }
                }
                assert(hot@ =~= hot0.remove_keys(s2));
            }
            k = k + 1;
        }
        assert forall|x: u128| x != id && old(store).bundle_view().contains_key(x) implies #[trigger] store.bundle_view()[x] == old(store).bundle_view()[x] by {}
        assert(tapes.written(tape_id@) == written);
        Ok(id)
    }

    /// The sum of `sizes[a..b]`, saturated at `u64::MAX`.
    fn bundle_total(sizes: &Vec<u64>, a: usize, b: usize) -> (r: u64)
        requires
            a <= b <= sizes@.len(),
        ensures
            range_sum(sizes@, a as int, b as int) <= u64::MAX ==> r == range_sum(sizes@, a as int, b as int),
            range_sum(sizes@, a as int, b as int) > u64::MAX ==> r == u64::MAX,
    {
        let mut t: u64 = 0;
        let mut i: usize = a;
        while i < b
            invariant
                a <= i <= b <= sizes@.len(),
                t == range_sum(sizes@, a as int, i as int),
            decreases b - i,
        {
            proof { lemma_range_sum_step(sizes@, a as int, i as int); }
            if sizes[i] > u64::MAX - t {
                proof { lemma_range_sum_grows(sizes@, a as int, i + 1, b as int); }
                return u64::MAX;
            }
            t = t + sizes[i];
            i = i + 1;
        }
        t
    }

    /// One archive tick: snapshots up to `batch_size` ColdPending objects,
    /// orders them by `updated_at`, oldest first, packs them in that order into bundles of at most `bundle_cap` bytes, and
    /// archives each bundle of at least the minimum size to tape `tape_id`.
    /// Smaller bundles wait for a later tick. Stops at the first bundle that
    /// fails, which leaves its members ColdPending. Returns the ids of the
    /// bundles completed.
    #[verifier::loop_isolation(false)]
    #[verifier::rlimit(80)]
    pub fn scan_and_archive(
        &self,
        store: &mut MetadataService,
        hot: &mut HotStore,
        tapes: &mut TapeManager,
        notifier: &mut NotificationService,
        tape_id: &String,
        now: u64,
    ) -> (r: Result<Vec<u128>>)
        requires
            old(store).wf(),
            old(hot).wf(),
            old(tapes).wf(),
        ensures
            final(store).wf(),
            final(hot).wf(),
            final(tapes).wf(),
            archived_or_unchanged(old(store)@, final(store)@, final(store).bundle_view(), *tape_id, now),
            old(store).cold_backed() ==> final(store).cold_backed(),
            r matches Ok(ids) ==> forall|k: int| 0 <= k < ids@.len() ==> final(store).bundle_view().contains_key(#[trigger] ids@[k])
                && final(store).bundle_view()[ids@[k]].status == ArchiveBundleStatus::Completed,
            (forall|id: ObjectId| #[trigger] old(store)@.contains_key(id) ==> state_of(old(store)@[id]) != st(StorageClass::ColdPending, None))
                ==> (r matches Ok(ids) && ids@.len() == 0 && final(store)@ == old(store)@
                    && final(store).bundle_view() == old(store).bundle_view()),
            r is Ok && self.min_archive_size_mb == 0 && old(store).size() <= self.batch_size ==> forall|id: ObjectId|
                old(store)@.contains_key(id) && state_of(old(store)@[id]) == st(StorageClass::ColdPending, None)
                ==> #[trigger] final(store)@[id].storage_class == StorageClass::Cold,
    {
        let pending = ObjectState { class: StorageClass::ColdPending, restore: None };
        let listed = store.list_in_state(pending, self.batch_size);
        let ghost listed_view = listed@;
        let snapshot = sort_by_age(listed);
        proof {
            assert forall|k: int| 0 <= k < snapshot@.len() implies store@.contains_key(oid(#[trigger] snapshot@[k]))
                && state_of(store@[oid(snapshot@[k])]) == st(StorageClass::ColdPending, None) by {
                assert(listed_view.contains(snapshot@[k]));
                let j = choose|j: int| 0 <= j < listed_view.len() && listed_view[j] == snapshot@[k];
                assert(store@.contains_key(oid(listed_view[j])));
            }
        }
        proof {
            if forall|id: ObjectId| #[trigger] old(store)@.contains_key(id) ==> state_of(old(store)@[id]) != st(StorageClass::ColdPending, None) {
                if listed_view.len() > 0 {
                    assert(store@.contains_key(oid(listed_view[0])));
                }
                if snapshot@.len() > 0 {
                    assert(listed_view.contains(snapshot@[0]));
                }
            }
        }
        let n = snapshot.len();
        let mut sizes: Vec<u64> = Vec::new();
        let mut i: usize = 0;
        while i < n
            invariant
                i <= n,
                n == snapshot@.len(),
                sizes@.len() == i,
            decreases n - i,
        {
            sizes.push(snapshot[i].size);
            i = i + 1;
        }
        let groups = pack_bundles(&sizes, self.bundle_cap);
        let min = Self::min_bytes_of(self.min_archive_size_mb);
        let mut done: Vec<u128> = Vec::new();
        let mut next: usize = 0;
        let mut g: usize = 0;
        let ghost objs0 = store@;
        assert forall|id: ObjectId| #[trigger] objs0.contains_key(id) implies store@[id] == objs0[id] || exists|a: u128|
            committed(objs0[id], store@[id], a, *tape_id, now) && store.bundle_view().contains_key(a)
                && store.bundle_view()[a].status == ArchiveBundleStatus::Completed by {}
        while g < groups.len()
            invariant
                store.wf(),
                hot.wf(),
                tapes.wf(),
                next <= n,
                n == snapshot@.len(),
                objs0 == old(store)@,
                archived_or_unchanged(objs0, store@, store.bundle_view(), *tape_id, now),
                old(store).cold_backed() ==> store.cold_backed(),
                forall|q: int| next <= q < n ==> store@[oid(#[trigger] snapshot@[q])] == objs0[oid(snapshot@[q])],
                forall|k: int| 0 <= k < done@.len() ==> store.bundle_view().contains_key(#[trigger] done@[k])
                    && store.bundle_view()[done@[k]].status == ArchiveBundleStatus::Completed,
                g <= groups@.len(),
                groups@.len() == 0 ==> store@ == objs0 && store.bundle_view() == old(store).bundle_view() && done@.len() == 0,
                self.min_archive_size_mb == 0 ==> next == (if g == 0 { 0 } else { groups@[g - 1].1 as int }),
                self.min_archive_size_mb == 0 ==> forall|q: int| 0 <= q < next
                    ==> (#[trigger] store@[oid(snapshot@[q])]).storage_class == StorageClass::Cold,
            decreases groups.len() - g,
        {
            let (a, b) = groups[g];
            proof {
                if self.min_archive_size_mb == 0 {
                    lemma_group_bounds(sizes@, self.bundle_cap, groups@, g as int);
                }
            }
            g = g + 1;
            if a < next || a >= b || b > n {
                continue;
            }
            if Self::bundle_total(&sizes, a, b) < min {
                continue;
            }
            let ghost before = store@;
            let ghost bv_before = store.bundle_view();
            proof {
                assert forall|k: int| a <= k < b implies store@.contains_key(oid(#[trigger] snapshot@[k]))
                    && state_of(store@[oid(snapshot@[k])]) == st(StorageClass::ColdPending, None) by {
                    assert(old(store)@.contains_key(oid(snapshot@[k])));
                }
            }
            match self.archive_bundle(store, hot, tapes, notifier, tape_id, &snapshot, a, b, now) {
                Err(e) => {
                    proof {
                        assert forall|id: ObjectId| #[trigger] objs0.contains_key(id) implies store@[id] == objs0[id] || exists|x: u128|
                            committed(objs0[id], store@[id], x, *tape_id, now) && store.bundle_view().contains_key(x)
                                && store.bundle_view()[x].status == ArchiveBundleStatus::Completed by {
                            if store@[id] != objs0[id] {
                                let x = choose|x: u128| committed(objs0[id], before[id], x, *tape_id, now) && bv_before.contains_key(x)
                                    && bv_before[x].status == ArchiveBundleStatus::Completed;
                                assert(bv_before.contains_key(x));
                            }
                        }
                    }
                    return Err(e);
                },
                Ok(id) => {
                    proof {
                        assert forall|q: int| b <= q < n implies store@[oid(#[trigger] snapshot@[q])] == objs0[oid(snapshot@[q])] by {
                            assert(!is_member(snapshot@, a as int, b as int, oid(snapshot@[q])));
                        }
                        if self.min_archive_size_mb == 0 {
                            assert forall|q: int| 0 <= q < b implies (#[trigger] store@[oid(snapshot@[q])]).storage_class == StorageClass::Cold by {
                                if q < a {
                                    assert(!is_member(snapshot@, a as int, b as int, oid(snapshot@[q])));
                                    assert(before.contains_key(oid(snapshot@[q])));
                                } else {
                                    assert(committed(before[oid(snapshot@[q])], store@[oid(snapshot@[q])], id, *tape_id, now));
                                }
                            }
                        }
                        assert forall|id2: ObjectId| #[trigger] objs0.contains_key(id2) implies store@[id2] == objs0[id2] || exists|x: u128|
                            committed(objs0[id2], store@[id2], x, *tape_id, now) && store.bundle_view().contains_key(x)
                                && store.bundle_view()[x].status == ArchiveBundleStatus::Completed by {
                            if is_member(snapshot@, a as int, b as int, id2) {
                                let k = choose|k: int| a <= k < b && oid(snapshot@[k]) == id2;
                                assert(before[id2] == objs0[id2]);
                                assert(committed(before[oid(snapshot@[k])], store@[oid(snapshot@[k])], id, *tape_id, now));
                                assert(committed(objs0[id2], store@[id2], id, *tape_id, now));
                                assert(store.bundle_view().contains_key(id));
                            } else {
                                assert(before.contains_key(id2));
                                assert(store@[id2] == before[id2]);
                                if store@[id2] != objs0[id2] {
                                    let x = choose|x: u128| committed(objs0[id2], before[id2], x, *tape_id, now) && bv_before.contains_key(x)
                                        && bv_before[x].status == ArchiveBundleStatus::Completed;
                                    assert(x != id);
                                    assert(store.bundle_view().contains_key(x));
                                    assert(store.bundle_view()[x] == bv_before[x]);
                                    assert(committed(objs0[id2], store@[id2], x, *tape_id, now));
                                }
                            }
                        }
                        assert forall|k: int| 0 <= k < done@.len() implies store.bundle_view().contains_key(#[trigger] done@[k])
                            && store.bundle_view()[done@[k]].status == ArchiveBundleStatus::Completed by {
                            assert(bv_before.contains_key(done@[k]));
                            assert(done@[k] != id);
                        }
                    }
                    done.push(id);
                    next = b;
                },
            }
        }
        proof {
            if self.min_archive_size_mb == 0 && old(store).size() <= self.batch_size {
                assert(next == n) by {
                    if groups@.len() > 0 {
                        assert(groups@[groups@.len() - 1] == groups@.last());
                    }
                }
                assert forall|id: ObjectId| old(store)@.contains_key(id) && state_of(old(store)@[id]) == st(StorageClass::ColdPending, None)
                    implies #[trigger] store@[id].storage_class == StorageClass::Cold by {
                    let k = choose|k: int| 0 <= k < listed_view.len() && oid(listed_view[k]) == id;
                    assert(snapshot@.contains(listed_view[k]));
                    let q = choose|q: int| 0 <= q < snapshot@.len() && snapshot@[q] == listed_view[k];
                    assert(store@[oid(snapshot@[q])].storage_class == StorageClass::Cold);
                }
            }
        }
        Ok(done)
    }
}

pub proof fn lemma_range_sum_nonneg(s: Seq<u64>, a: int, b: int)
    ensures
        range_sum(s, a, b) >= 0,
    decreases b - a,
{
    if b > a {
        lemma_range_sum_nonneg(s, a, b - 1);
    }
}

pub proof fn lemma_range_sum_grows(s: Seq<u64>, a: int, m: int, b: int)
    requires
        a <= m <= b <= s.len(),
    ensures
        range_sum(s, a, m) <= range_sum(s, a, b),
    decreases b - m,
{
    if m < b {
        lemma_range_sum_grows(s, a, m, b - 1);
    }
}

/// The minimum bundle size in bytes, saturated at `u64::MAX`.
pub open spec fn min_bytes(mb: u64) -> u64 {
    if mb > u64::MAX / MIB { u64::MAX } else { (mb * MIB) as u64 }
}


/// An archive tick over a store with no ColdPending object changes no object:
/// running a tick again after all its work is done is a no-op.
pub proof fn lemma_tick_without_pending_is_noop(
    old: Map<ObjectId, ObjectMetadata>,
    new: Map<ObjectId, ObjectMetadata>,
    bundles: Map<u128, ArchiveBundle>,
    tape_id: String,
    now: u64,
)
    requires
        archived_or_unchanged(old, new, bundles, tape_id, now),
        forall|id: ObjectId| #[trigger] old.contains_key(id) ==> old[id].storage_class != StorageClass::ColdPending,
    ensures
        new == old,
{
    assert forall|id: ObjectId| #[trigger] old.contains_key(id) implies new[id] == old[id] by {
        if new[id] != old[id] {
            let a = choose|a: u128| committed(old[id], new[id], a, tape_id, now) && bundles.contains_key(a)
                && bundles[a].status == ArchiveBundleStatus::Completed;
        }
    }
    assert(new =~= old);
}

} // verus!
