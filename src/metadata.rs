use vstd::prelude::*;
use vstd::string::StrSliceExecFns;
use crate::error::{Error, Result};
use crate::lifecycle::{ObjectState, duplicate_record, is_after, next_state, same_record, state_of, transition_record, Transition};
use crate::models::{ArchiveBundle, ArchiveBundleStatus, ObjectMetadata, StorageClass};

verus! {

/// The identity of an object: its bucket and key.
pub type ObjectId = (Seq<char>, Seq<char>);

pub open spec fn oid(m: ObjectMetadata) -> ObjectId {
    (m.bucket@, m.object_key@)
}

pub open spec fn holds_at(s: Seq<ObjectMetadata>, id: ObjectId, i: int) -> bool {
    0 <= i < s.len() && oid(s[i]) == id
}

/// The keyed view of a list of records.
pub open spec fn keyed(s: Seq<ObjectMetadata>) -> Map<ObjectId, ObjectMetadata> {
    Map::new(
        |id: ObjectId| exists|i: int| holds_at(s, id, i),
        |id: ObjectId| s[choose|i: int| holds_at(s, id, i)],
    )
}

pub open spec fn unique_ids(s: Seq<ObjectMetadata>) -> bool {
    forall|i: int, j: int| 0 <= i < s.len() && 0 <= j < s.len() && i != j ==> oid(#[trigger] s[i]) != oid(#[trigger] s[j])
}

proof fn lemma_keyed_at(s: Seq<ObjectMetadata>, i: int)
    requires
        unique_ids(s),
        0 <= i < s.len(),
    ensures
        keyed(s).contains_key(oid(s[i])),
        keyed(s)[oid(s[i])] == s[i],
{
    assert(holds_at(s, oid(s[i]), i));
    let j = choose|j: int| holds_at(s, oid(s[i]), j);
    assert(j == i);
}

/// The bundles of a list, keyed by id.
pub open spec fn bview(s: Seq<ArchiveBundle>) -> Map<u128, ArchiveBundle> {
    Map::new(
        |id: u128| exists|i: int| 0 <= i < s.len() && s[i].id == id,
        |id: u128| s[choose|i: int| 0 <= i < s.len() && s[i].id == id],
    )
}

pub open spec fn unique_bundles(s: Seq<ArchiveBundle>) -> bool {
    forall|i: int, j: int| 0 <= i < s.len() && 0 <= j < s.len() && i != j ==> (#[trigger] s[i]).id != (#[trigger] s[j]).id
}

/// Every cold object of `objs` names a bundle of `bundles` that is Completed.
pub open spec fn cold_backed(objs: Map<ObjectId, ObjectMetadata>, bundles: Map<u128, ArchiveBundle>) -> bool {
    forall|id: ObjectId| #[trigger] objs.contains_key(id) && objs[id].storage_class == StorageClass::Cold
        ==> (objs[id].archive_id matches Some(a) && bundles.contains_key(a) && bundles[a].status == ArchiveBundleStatus::Completed)
}

proof fn lemma_bundle_update(prev: Seq<ArchiveBundle>, i: int, nb: ArchiveBundle)
    requires
        unique_bundles(prev),
        0 <= i < prev.len(),
        prev[i].id == nb.id,
    ensures
        unique_bundles(prev.update(i, nb)),
        bview(prev.update(i, nb)) == bview(prev).insert(nb.id, nb),
{
    let s = prev.update(i, nb);
    let id = nb.id;
    assert forall|a: int, b: int| 0 <= a < s.len() && 0 <= b < s.len() && a != b implies (#[trigger] s[a]).id != (#[trigger] s[b]).id by {
        assert(s[a].id == prev[a].id && s[b].id == prev[b].id);
    }
    assert forall|x: u128| #[trigger] bview(s).contains_key(x) <==> bview(prev).insert(id, nb).contains_key(x) by {
        if bview(s).contains_key(x) {
            let j = choose|j: int| 0 <= j < s.len() && s[j].id == x;
            assert(prev[j].id == x);
        }
        if bview(prev).contains_key(x) {
            let j = choose|j: int| 0 <= j < prev.len() && prev[j].id == x;
            assert(s[j].id == x);
        }
        if x == id { assert(s[i].id == id); }
    }
    assert forall|x: u128| #[trigger] bview(s).contains_key(x) implies bview(s)[x] == bview(prev).insert(id, nb)[x] by {
        let j = choose|j: int| 0 <= j < s.len() && s[j].id == x;
        if x == id {
            assert(j == i);
        } else {
            assert(j != i && s[j] == prev[j]);
            let k = choose|k: int| 0 <= k < prev.len() && prev[k].id == x;
            assert(k == j);
        }
    }
    assert(bview(s) =~= bview(prev).insert(id, nb));
}

/// The prefix a listing asks for, if any.
pub open spec fn prefix_view(prefix: Option<&str>) -> Option<Seq<char>> {
    match prefix {
        None => None,
        Some(p) => Some(p@),
    }
}

/// The bound a listing asks for: `max_keys`, or none.
pub open spec fn bound(max_keys: Option<usize>) -> int {
    match max_keys {
        None => usize::MAX as int,
        Some(m) => m as int,
    }
}

/// A record of bucket `bucket` whose key starts with `prefix`, if any.
pub open spec fn listed(m: ObjectMetadata, bucket: Seq<char>, prefix: Option<Seq<char>>) -> bool {
    &&& m.bucket@ == bucket
    &&& match prefix {
        None => true,
        Some(p) => p.is_prefix_of(m.object_key@),
    }
}

/// Whether `s` starts with `p`.
pub fn has_prefix(s: &str, p: &str) -> (r: bool)
    ensures
        r == p@.is_prefix_of(s@),
{
    let n = p.unicode_len();
    let m = s.unicode_len();
    if n > m {
        return false;
    }
    let mut i: usize = 0;
    while i < n
        invariant
            i <= n,
            n == p@.len(),
            n <= m,
            m == s@.len(),
            forall|j: int| 0 <= j < i ==> p@[j] == s@[j],
        decreases n - i,
    {
        if p.get_char(i) != s.get_char(i) {
            return false;
        }
        i = i + 1;
    }
    assert(p@ =~= s@.subrange(0, p@.len() as int));
    true
}

/// The metadata store: object records keyed by bucket and key, and archive
/// bundles keyed by id. Every state change of an object goes through
/// `update_storage_class`, which compares the observed state first.
pub struct MetadataService {
    objects: Vec<ObjectMetadata>,
    bundles: Vec<ArchiveBundle>,
}

impl View for MetadataService {
    type V = Map<ObjectId, ObjectMetadata>;

    closed spec fn view(&self) -> Map<ObjectId, ObjectMetadata> {
        keyed(self.objects@)
    }
}

/// A copy of `s` as a `String`.
pub(crate) fn owned(s: &str) -> (r: String)
    ensures
        r@ == s@,
{
    s.to_owned()
}

impl MetadataService {
    pub closed spec fn wf(&self) -> bool {
        &&& unique_ids(self.objects@)
        &&& forall|i: int, j: int| 0 <= i < self.bundles@.len() && 0 <= j < self.bundles@.len() && i != j
            ==> (#[trigger] self.bundles@[i]).id != (#[trigger] self.bundles@[j]).id
    }

    /// The number of object records.
    pub closed spec fn size(&self) -> nat {
        self.objects@.len()
    }

    /// The bundles, keyed by id.
    pub closed spec fn bundle_view(&self) -> Map<u128, ArchiveBundle> {
        bview(self.bundles@)
    }

    /// Every cold object names a bundle that is Completed.
    pub open spec fn cold_backed(&self) -> bool {
        cold_backed(self@, self.bundle_view())
    }

    pub fn new() -> (r: Self)
        ensures
            r.wf(),
            r@ == Map::<ObjectId, ObjectMetadata>::empty(),
            r.bundle_view() == Map::<u128, ArchiveBundle>::empty(),
    {
        let r = MetadataService { objects: Vec::new(), bundles: Vec::new() };
        assert(r@ =~= Map::<ObjectId, ObjectMetadata>::empty());
        assert(r.bundle_view() =~= Map::<u128, ArchiveBundle>::empty());
        r
    }

    fn position(&self, bucket: &String, key: &String) -> (r: Option<usize>)
        requires
            self.wf(),
        ensures
            match r {
                Some(i) => i < self.objects@.len() && oid(self.objects@[i as int]) == (bucket@, key@),
                None => !self@.contains_key((bucket@, key@)),
            },
    {
        let mut i: usize = 0;
        while i < self.objects.len()
            invariant
                i <= self.objects@.len(),
                forall|j: int| 0 <= j < i ==> oid(#[trigger] self.objects@[j]) != (bucket@, key@),
            decreases self.objects.len() - i,
        {
            if self.objects[i].bucket == *bucket && self.objects[i].object_key == *key {
                return Some(i);
            }
            i = i + 1;
        }
        None
    }

    /// The record of `bucket`/`key`, or `ObjectNotFound`.
    pub fn get_object(&self, bucket: &str, key: &str) -> (r: Result<ObjectMetadata>)
        requires
            self.wf(),
        ensures
            self@.contains_key((bucket@, key@)) <==> r is Ok,
            r matches Ok(m) ==> same_record(m, self@[(bucket@, key@)]),
            r matches Err(e) ==> e is ObjectNotFound,
    {
        let b = owned(bucket);
        let k = owned(key);
        match self.position(&b, &k) {
            Some(i) => {
                proof { lemma_keyed_at(self.objects@, i as int); }
                Ok(duplicate_record(&self.objects[i]))
            },
            None => Err(Error::ObjectNotFound),
        }
    }

    /// Creates or replaces the record with the identity of `metadata`.
    pub fn put_object(&mut self, metadata: ObjectMetadata)
        requires
            old(self).wf(),
        ensures
            final(self).wf(),
            final(self)@ == old(self)@.insert(oid(metadata), metadata),
            final(self).bundle_view() == old(self).bundle_view(),
    {
        let ghost id = oid(metadata);
        let ghost prev = self.objects@;
        match self.position(&metadata.bucket, &metadata.object_key) {
            Some(i) => {
                self.objects.set(i, metadata);
                proof {
                    let s = self.objects@;
                    assert(s == prev.update(i as int, metadata));
                    assert forall|a: int, b: int| 0 <= a < s.len() && 0 <= b < s.len() && a != b implies oid(#[trigger] s[a]) != oid(#[trigger] s[b]) by {
                        if a == i { assert(oid(prev[a]) == id); } else if b == i { assert(oid(prev[b]) == id); }
                    }
                    assert forall|x: ObjectId| #[trigger] keyed(s).contains_key(x) <==> old(self)@.insert(id, metadata).contains_key(x) by {
                        if x != id {
                            if keyed(s).contains_key(x) {
                                let j = choose|j: int| holds_at(s, x, j);
                                assert(holds_at(prev, x, j));
                            }
                            if keyed(prev).contains_key(x) {
                                let j = choose|j: int| holds_at(prev, x, j);
                                assert(holds_at(s, x, j));
                            }
                        } else {
                            assert(holds_at(s, x, i as int));
                        }
                    }
                    assert forall|x: ObjectId| #[trigger] keyed(s).contains_key(x) implies keyed(s)[x] == old(self)@.insert(id, metadata)[x] by {
                        let j = choose|j: int| holds_at(s, x, j);
                        lemma_keyed_at(s, j);
                        if x != id {
                            lemma_keyed_at(prev, j);
                        }
                    }
                    assert(keyed(s) =~= old(self)@.insert(id, metadata));
                }
            },
            None => {
                self.objects.push(metadata);
                proof {
                    let s = self.objects@;
                    assert(s == prev.push(metadata));
                    assert forall|a: int, b: int| 0 <= a < s.len() && 0 <= b < s.len() && a != b implies oid(#[trigger] s[a]) != oid(#[trigger] s[b]) by {
                        if a == prev.len() { assert(!holds_at(prev, id, b)); } else if b == prev.len() { assert(!holds_at(prev, id, a)); }
                    }
                    assert forall|x: ObjectId| #[trigger] keyed(s).contains_key(x) <==> old(self)@.insert(id, metadata).contains_key(x) by {
                        if keyed(s).contains_key(x) && x != id {
                            let j = choose|j: int| holds_at(s, x, j);
                            assert(holds_at(prev, x, j));
                        }
                        if keyed(prev).contains_key(x) {
                            let j = choose|j: int| holds_at(prev, x, j);
                            assert(holds_at(s, x, j));
                        }
                        if x == id {
                            assert(holds_at(s, x, prev.len() as int));
                        }
                    }
                    assert forall|x: ObjectId| #[trigger] keyed(s).contains_key(x) implies keyed(s)[x] == old(self)@.insert(id, metadata)[x] by {
                        let j = choose|j: int| holds_at(s, x, j);
                        lemma_keyed_at(s, j);
                        if x != id {
                            lemma_keyed_at(prev, j);
                        }
                    }
                    assert(keyed(s) =~= old(self)@.insert(id, metadata));
                }
            },
        }
    }

    /// The conditional update: applies the lifecycle transition `t` to the
    /// record of `bucket`/`key` if it is legal from the state observed now.
    /// An absent record gives `ObjectNotFound`, an illegal transition
    /// `ConflictingState`, and both leave the store unchanged.
    pub fn update_storage_class(&mut self, bucket: &str, key: &str, t: Transition, now: u64) -> (r: Result<ObjectMetadata>)
        requires
            old(self).wf(),
        ensures
            final(self).wf(),
            final(self).bundle_view() == old(self).bundle_view(),
            !old(self)@.contains_key((bucket@, key@)) ==> r matches Err(Error::ObjectNotFound),
            old(self)@.contains_key((bucket@, key@)) && next_state(state_of(old(self)@[(bucket@, key@)]), t) is None
                ==> r matches Err(Error::ConflictingState),
            r is Err ==> final(self)@ == old(self)@,
            old(self)@.contains_key((bucket@, key@)) && next_state(state_of(old(self)@[(bucket@, key@)]), t) is Some
                ==> r is Ok,
            r matches Ok(m) ==> {
                &&& old(self)@.contains_key((bucket@, key@))
                &&& is_after(old(self)@[(bucket@, key@)], t, now, final(self)@[(bucket@, key@)])
                &&& final(self)@ == old(self)@.insert((bucket@, key@), final(self)@[(bucket@, key@)])
                &&& same_record(m, final(self)@[(bucket@, key@)])
            },
    {
        let b = owned(bucket);
        let k = owned(key);
        match self.position(&b, &k) {
            None => Err(Error::ObjectNotFound),
            Some(i) => {
                proof { lemma_keyed_at(self.objects@, i as int); }
                match transition_record(&self.objects[i], &t, now) {
                    None => Err(Error::ConflictingState),
                    Some(n) => {
                        let out = duplicate_record(&n);
                        self.put_object(n);
                        Ok(out)
                    },
                }
            },
        }
    }

    /// Removes and returns the record at index `i`.
    fn take_at(&mut self, i: usize) -> (r: ObjectMetadata)
        requires
            old(self).wf(),
            i < old(self).objects@.len(),
        ensures
            final(self).wf(),
            final(self).bundle_view() == old(self).bundle_view(),
            old(self)@.contains_key(oid(r)),
            r == old(self)@[oid(r)],
            r == old(self).objects@[i as int],
            final(self)@ == old(self)@.remove(oid(r)),
    {
        let ghost prev = self.objects@;
        proof { lemma_keyed_at(prev, i as int); }
        let ghost id = oid(prev[i as int]);
        let r = self.objects.remove(i);
        proof {
            let s = self.objects@;
            assert(s == prev.remove(i as int));
            assert forall|a: int, b: int| 0 <= a < s.len() && 0 <= b < s.len() && a != b implies oid(#[trigger] s[a]) != oid(#[trigger] s[b]) by {
                let pa = if a < i { a } else { a + 1 };
                let pb = if b < i { b } else { b + 1 };
                assert(s[a] == prev[pa] && s[b] == prev[pb]);
            }
            assert forall|x: ObjectId| #[trigger] keyed(s).contains_key(x) <==> old(self)@.remove(id).contains_key(x) by {
                if keyed(s).contains_key(x) {
                    let j = choose|j: int| holds_at(s, x, j);
                    let pj = if j < i { j } else { j + 1 };
                    assert(holds_at(prev, x, pj));
                    assert(x != id);
                }
                if keyed(prev).contains_key(x) && x != id {
                    let j = choose|j: int| holds_at(prev, x, j);
                    assert(j != i);
                    let sj = if j < i { j } else { j - 1 };
                    assert(holds_at(s, x, sj));
                }
            }
            assert forall|x: ObjectId| #[trigger] keyed(s).contains_key(x) implies keyed(s)[x] == old(self)@.remove(id)[x] by {
                let j = choose|j: int| holds_at(s, x, j);
                lemma_keyed_at(s, j);
                let pj = if j < i { j } else { j + 1 };
                assert(s[j] == prev[pj]);
                lemma_keyed_at(prev, pj);
            }
            assert(keyed(s) =~= old(self)@.remove(id));
        }
        r
    }

    /// Removes the record of `bucket`/`key`; `ObjectNotFound` if there is none.
    pub fn delete_object(&mut self, bucket: &str, key: &str) -> (r: Result<()>)
        requires
            old(self).wf(),
        ensures
            final(self).wf(),
            final(self).bundle_view() == old(self).bundle_view(),
            r is Ok <==> old(self)@.contains_key((bucket@, key@)),
            r matches Err(e) ==> e is ObjectNotFound,
            final(self)@ == old(self)@.remove((bucket@, key@)),
    {
        let b = owned(bucket);
        let k = owned(key);
        match self.position(&b, &k) {
            None => {
                assert(old(self)@.remove((bucket@, key@)) =~= old(self)@);
                Err(Error::ObjectNotFound)
            },
            Some(i) => {
                let _ = self.take_at(i);
                Ok(())
            },
        }
    }

    /// Sets the end of the restore window of `bucket`/`key`, changing no
    /// other field; `ObjectNotFound` if there is no such record.
    pub fn set_restore_expiry(&mut self, bucket: &str, key: &str, expire_at: u64) -> (r: Result<()>)
        requires
            old(self).wf(),
        ensures
            final(self).wf(),
            final(self).bundle_view() == old(self).bundle_view(),
            r is Ok <==> old(self)@.contains_key((bucket@, key@)),
            r is Ok ==> final(self)@ == old(self)@.insert(
                (bucket@, key@),
                ObjectMetadata { restore_expire_at: Some(expire_at), ..old(self)@[(bucket@, key@)] },
            ),
            r is Err ==> final(self)@ == old(self)@,
    {
        let b = owned(bucket);
        let k = owned(key);
        match self.position(&b, &k) {
            None => Err(Error::ObjectNotFound),
            Some(i) => {
                let mut rec = self.take_at(i);
                rec.restore_expire_at = Some(expire_at);
                self.put_object(rec);
                assert(old(self)@.remove((bucket@, key@)).insert((bucket@, key@), rec) =~= old(self)@.insert((bucket@, key@), rec));
                Ok(())
            },
        }
    }

    /// The bundle with id `id`, if any.
    pub fn get_bundle(&self, id: u128) -> (r: Option<&ArchiveBundle>)
        requires
            self.wf(),
        ensures
            r is Some <==> self.bundle_view().contains_key(id),
            r matches Some(b) ==> *b == self.bundle_view()[id],
    {
        let mut i: usize = 0;
        while i < self.bundles.len()
            invariant
                self.wf(),
                i <= self.bundles@.len(),
                forall|j: int| 0 <= j < i ==> (#[trigger] self.bundles@[j]).id != id,
            decreases self.bundles.len() - i,
        {
            if self.bundles[i].id == id {
                proof {
                    let j = choose|j: int| 0 <= j < self.bundles@.len() && self.bundles@[j].id == id;
                    assert(j == i);
                }
                return Some(&self.bundles[i]);
            }
            i = i + 1;
        }
        None
    }

    /// Creates or replaces the bundle with the id of `bundle`.
    pub fn put_bundle(&mut self, bundle: ArchiveBundle)
        requires
            old(self).wf(),
        ensures
            final(self).wf(),
            final(self)@ == old(self)@,
            final(self).bundle_view() == old(self).bundle_view().insert(bundle.id, bundle),
    {
        let ghost prev = self.bundles@;
        let id = bundle.id;
        let mut i: usize = 0;
        while i < self.bundles.len() && self.bundles[i].id != id
            invariant
                old(self).wf(),
                prev == old(self).bundles@,
                self.bundles@ == prev,
                i <= self.bundles@.len(),
                forall|j: int| 0 <= j < i ==> (#[trigger] self.bundles@[j]).id != id,
            decreases self.bundles.len() - i,
        {
            i = i + 1;
        }
        let ghost old_view = old(self).bundle_view();
        if i < self.bundles.len() {
            self.bundles.set(i, bundle);
        } else {
            self.bundles.push(bundle);
        }
        proof {
            let s = self.bundles@;
            assert forall|a: int, b: int| 0 <= a < s.len() && 0 <= b < s.len() && a != b implies (#[trigger] s[a]).id != (#[trigger] s[b]).id by {
                if a != i && b != i {
                    assert(s[a] == prev[a] && s[b] == prev[b]);
                } else if a == i {
                    assert(s[b] == prev[b]);
                } else {
                    assert(s[a] == prev[a]);
                }
            }
            assert forall|x: u128| #[trigger] self.bundle_view().contains_key(x) <==> old_view.insert(id, bundle).contains_key(x) by {
                if self.bundle_view().contains_key(x) && x != id {
                    let j = choose|j: int| 0 <= j < s.len() && s[j].id == x;
                    assert(j != i && s[j] == prev[j]);
                }
                if old_view.contains_key(x) {
                    let j = choose|j: int| 0 <= j < prev.len() && prev[j].id == x;
                    if x != id { assert(j != i && s[j] == prev[j]); }
                }
                if x == id { assert(s[i as int].id == id); }
            }
            assert forall|x: u128| #[trigger] self.bundle_view().contains_key(x) implies self.bundle_view()[x] == old_view.insert(id, bundle)[x] by {
                let j = choose|j: int| 0 <= j < s.len() && s[j].id == x;
                if x == id {
                    assert(j == i);
                } else {
                    assert(j != i && s[j] == prev[j]);
                    let k = choose|k: int| 0 <= k < prev.len() && prev[k].id == x;
                    assert(k == j);
                }
            }
            assert(self.bundle_view() =~= old_view.insert(id, bundle));
        }
    }

    /// Up to `max` records in lifecycle state `state`, each once.
    pub fn list_in_state(&self, state: ObjectState, max: usize) -> (r: Vec<ObjectMetadata>)
        requires
            self.wf(),
        ensures
            r@.len() <= max,
            r@.len() <= self.size(),
            forall|k: int| 0 <= k < r@.len() ==> self@.contains_key(oid(#[trigger] r@[k]))
                && same_record(r@[k], self@[oid(r@[k])]) && state_of(r@[k]) == state,
            forall|a: int, b: int| 0 <= a < r@.len() && 0 <= b < r@.len() && a != b ==> oid(#[trigger] r@[a]) != oid(#[trigger] r@[b]),
            (r@.len() < max || self.size() <= max) ==> forall|id: ObjectId| #[trigger] self@.contains_key(id) && state_of(self@[id]) == state
                ==> exists|k: int| 0 <= k < r@.len() && oid(r@[k]) == id,
    {
        let mut out: Vec<ObjectMetadata> = Vec::new();
        let ghost mut idx: Seq<int> = Seq::empty();
        let mut i: usize = 0;
        while i < self.objects.len() && out.len() < max
            invariant
                out@.len() <= i,
                self.wf(),
                i <= self.objects@.len(),
                out@.len() <= max,
                idx.len() == out@.len(),
                forall|k: int| 0 <= k < idx.len() ==> 0 <= #[trigger] idx[k] < i,
                forall|a: int, b: int| 0 <= a < b < idx.len() ==> idx[a] < idx[b],
                forall|k: int| 0 <= k < idx.len() ==> same_record(#[trigger] out@[k], self.objects@[idx[k]]),
                forall|k: int| 0 <= k < idx.len() ==> state_of(#[trigger] self.objects@[idx[k]]) == state,
                forall|j: int| 0 <= j < i && state_of(#[trigger] self.objects@[j]) == state
                    ==> exists|k: int| 0 <= k < idx.len() && idx[k] == j,
            decreases self.objects.len() - i,
        {
            let ghost old_idx = idx;
            let ghost old_out = out@;
            let matches_class = ObjectState { class: self.objects[i].storage_class, restore: self.objects[i].restore_status } == state;
            if matches_class {
                assert(state_of(self.objects@[i as int]) == state);
                out.push(duplicate_record(&self.objects[i]));
                proof {
                    idx = idx.push(i as int);
                    assert(idx[idx.len() - 1] == i);
                    assert forall|k: int| 0 <= k < idx.len() implies same_record(#[trigger] out@[k], self.objects@[idx[k]])
                        && state_of(self.objects@[idx[k]]) == state by {
                        if k < old_idx.len() {
                            assert(out@[k] == old_out[k] && idx[k] == old_idx[k]);
                        } else {
                            assert(idx[k] == i);
                            assert(state_of(self.objects@[i as int]) == state);
                        }
                    }
                }
            }
            proof {
                assert forall|j: int| 0 <= j < i + 1 && state_of(#[trigger] self.objects@[j]) == state
                    implies exists|k: int| 0 <= k < idx.len() && idx[k] == j by {
                    if j < i {
                        let k = choose|k: int| 0 <= k < old_idx.len() && old_idx[k] == j;
                        assert(idx[k] == j);
                    } else {
                        assert(idx[idx.len() - 1] == j);
                    }
                }
                assert forall|k: int| 0 <= k < idx.len() implies same_record(#[trigger] out@[k], self.objects@[idx[k]])
                    && state_of(self.objects@[idx[k]]) == state by {
                    if !matches_class {
                        assert(idx == old_idx);
                        assert(out@ == old_out);
                        assert(same_record(old_out[k], self.objects@[old_idx[k]]));
                    } else if k < old_idx.len() {
                        assert(out@[k] == old_out[k] && idx[k] == old_idx[k]);
                    } else {
                        assert(idx[k] == i);
                        assert(same_record(out@[k], self.objects@[i as int]));
                    }
                }
            }
            i = i + 1;
        }
        proof {
            assert forall|k: int| 0 <= k < out@.len() implies self@.contains_key(oid(#[trigger] out@[k]))
                && same_record(out@[k], self@[oid(out@[k])]) && state_of(out@[k]) == state by {
                lemma_keyed_at(self.objects@, idx[k]);
            }
            assert forall|a: int, b: int| 0 <= a < out@.len() && 0 <= b < out@.len() && a != b implies oid(#[trigger] out@[a]) != oid(#[trigger] out@[b]) by {
                assert(idx[a] != idx[b]) by {
                    if a < b { assert(idx[a] < idx[b]); } else { assert(idx[b] < idx[a]); }
                }
            }
            if out@.len() < max || self.size() <= max {
                assert(i == self.objects@.len());
                assert forall|id: ObjectId| #[trigger] self@.contains_key(id) && state_of(self@[id]) == state
                    implies exists|k: int| 0 <= k < out@.len() && oid(out@[k]) == id by {
                    let j = choose|j: int| holds_at(self.objects@, id, j);
                    lemma_keyed_at(self.objects@, j);
                    let k = choose|k: int| 0 <= k < idx.len() && idx[k] == j;
                    assert(oid(out@[k]) == id);
                }
            }
        }
        out
    }

    /// LIST: the records of bucket `bucket` whose key starts with `prefix`
    /// (every key when there is none), each once, at most `max_keys` of them
    /// (no bound when there is none).
    pub fn list_objects(&self, bucket: &str, prefix: Option<&str>, max_keys: Option<usize>) -> (r: Vec<ObjectMetadata>)
        requires
            self.wf(),
        ensures
            r@.len() <= bound(max_keys),
            forall|k: int| 0 <= k < r@.len() ==> self@.contains_key(oid(#[trigger] r@[k]))
                && same_record(r@[k], self@[oid(r@[k])]) && listed(r@[k], bucket@, prefix_view(prefix)),
            forall|a: int, b: int| 0 <= a < r@.len() && 0 <= b < r@.len() && a != b ==> oid(#[trigger] r@[a]) != oid(#[trigger] r@[b]),
            r@.len() < bound(max_keys) ==> forall|id: ObjectId| #[trigger] self@.contains_key(id) && listed(self@[id], bucket@, prefix_view(prefix))
                ==> exists|k: int| 0 <= k < r@.len() && oid(r@[k]) == id,
    {
        let b = owned(bucket);
        let max: usize = match max_keys { Some(m) => m, None => usize::MAX };
        let mut out: Vec<ObjectMetadata> = Vec::new();
        let ghost mut idx: Seq<int> = Seq::empty();
        let mut i: usize = 0;
        while i < self.objects.len() && out.len() < max
            invariant
                b@ == bucket@,
                self.wf(),
                i <= self.objects@.len(),
                out@.len() <= max,
                idx.len() == out@.len(),
                forall|k: int| 0 <= k < idx.len() ==> 0 <= #[trigger] idx[k] < i,
                forall|a: int, b: int| 0 <= a < b < idx.len() ==> idx[a] < idx[b],
                forall|k: int| 0 <= k < idx.len() ==> same_record(#[trigger] out@[k], self.objects@[idx[k]]),
                forall|k: int| 0 <= k < idx.len() ==> listed(#[trigger] self.objects@[idx[k]], bucket@, prefix_view(prefix)),
                forall|j: int| 0 <= j < i && listed(#[trigger] self.objects@[j], bucket@, prefix_view(prefix))
                    ==> exists|k: int| 0 <= k < idx.len() && idx[k] == j,
            decreases self.objects.len() - i,
        {
            let ghost old_idx = idx;
            let ghost old_out = out@;
            let in_bucket = self.objects[i].bucket == b;
            let with_prefix = match prefix {
                None => true,
                Some(p) => has_prefix(self.objects[i].object_key.as_str(), p),
            };
            let matches_class = in_bucket && with_prefix;
            assert(matches_class == listed(self.objects@[i as int], bucket@, prefix_view(prefix)));
            if matches_class {
                assert(listed(self.objects@[i as int], bucket@, prefix_view(prefix)));
                out.push(duplicate_record(&self.objects[i]));
                proof {
                    idx = idx.push(i as int);
                    assert(idx[idx.len() - 1] == i);
                    assert forall|k: int| 0 <= k < idx.len() implies same_record(#[trigger] out@[k], self.objects@[idx[k]])
                        && listed(self.objects@[idx[k]], bucket@, prefix_view(prefix)) by {
                        if k < old_idx.len() {
                            assert(out@[k] == old_out[k] && idx[k] == old_idx[k]);
                        } else {
                            assert(idx[k] == i);
                            assert(listed(self.objects@[i as int], bucket@, prefix_view(prefix)));
                        }
                    }
                }
            }
            proof {
                assert forall|j: int| 0 <= j < i + 1 && listed(#[trigger] self.objects@[j], bucket@, prefix_view(prefix))
                    implies exists|k: int| 0 <= k < idx.len() && idx[k] == j by {
                    if j < i {
                        let k = choose|k: int| 0 <= k < old_idx.len() && old_idx[k] == j;
                        assert(idx[k] == j);
                    } else {
                        assert(idx[idx.len() - 1] == j);
                    }
                }
                assert forall|k: int| 0 <= k < idx.len() implies same_record(#[trigger] out@[k], self.objects@[idx[k]])
                    && listed(self.objects@[idx[k]], bucket@, prefix_view(prefix)) by {
                    if !matches_class {
                        assert(idx == old_idx);
                        assert(out@ == old_out);
                        assert(same_record(old_out[k], self.objects@[old_idx[k]]));
                    } else if k < old_idx.len() {
                        assert(out@[k] == old_out[k] && idx[k] == old_idx[k]);
                    } else {
                        assert(idx[k] == i);
                        assert(same_record(out@[k], self.objects@[i as int]));
                    }
                }
            }
            i = i + 1;
        }
        proof {
            assert forall|k: int| 0 <= k < out@.len() implies self@.contains_key(oid(#[trigger] out@[k]))
                && same_record(out@[k], self@[oid(out@[k])]) && listed(out@[k], bucket@, prefix_view(prefix)) by {
                lemma_keyed_at(self.objects@, idx[k]);
            }
            assert forall|a: int, b: int| 0 <= a < out@.len() && 0 <= b < out@.len() && a != b implies oid(#[trigger] out@[a]) != oid(#[trigger] out@[b]) by {
                assert(idx[a] != idx[b]) by {
                    if a < b { assert(idx[a] < idx[b]); } else { assert(idx[b] < idx[a]); }
                }
            }
            if out@.len() < max {
                assert forall|id: ObjectId| #[trigger] self@.contains_key(id) && listed(self@[id], bucket@, prefix_view(prefix))
                    implies exists|k: int| 0 <= k < out@.len() && oid(out@[k]) == id by {
                    let j = choose|j: int| holds_at(self.objects@, id, j);
                    lemma_keyed_at(self.objects@, j);
                    let k = choose|k: int| 0 <= k < idx.len() && idx[k] == j;
                    assert(oid(out@[k]) == id);
                }
            }
        }
        out
    }

    /// The ids of all bundles.
    pub fn bundle_ids(&self) -> (r: Vec<u128>)
        requires
            self.wf(),
        ensures
            forall|k: int| 0 <= k < r@.len() ==> self.bundle_view().contains_key(#[trigger] r@[k]),
            forall|id: u128| #[trigger] self.bundle_view().contains_key(id) ==> r@.contains(id),
    {
        let mut out: Vec<u128> = Vec::new();
        let mut i: usize = 0;
        while i < self.bundles.len()
            invariant
                i <= self.bundles@.len(),
                out@.len() == i,
                forall|k: int| 0 <= k < i ==> #[trigger] out@[k] == self.bundles@[k].id,
            decreases self.bundles.len() - i,
        {
            out.push(self.bundles[i].id);
            i = i + 1;
        }
        proof {
            assert forall|k: int| 0 <= k < out@.len() implies self.bundle_view().contains_key(#[trigger] out@[k]) by {
                assert(0 <= k < self.bundles@.len() && self.bundles@[k].id == out@[k]);
            }
            assert forall|id: u128| #[trigger] self.bundle_view().contains_key(id) implies out@.contains(id) by {
                let j = choose|j: int| 0 <= j < self.bundles@.len() && self.bundles@[j].id == id;
                assert(out@[j] == id);
            }
        }
        out
    }

    /// Sets the status and tape offset of bundle `id`; false, with nothing
    /// changed, if there is no such bundle.
    pub fn set_bundle_status(&mut self, id: u128, status: ArchiveBundleStatus, offset: u64) -> (r: bool)
        requires
            old(self).wf(),
        ensures
            final(self).wf(),
            final(self)@ == old(self)@,
            r == old(self).bundle_view().contains_key(id),
            r ==> final(self).bundle_view() == old(self).bundle_view().insert(
                id,
                ArchiveBundle { status, offset, ..old(self).bundle_view()[id] },
            ),
            !r ==> final(self).bundle_view() == old(self).bundle_view(),
    {
        let ghost prev = self.bundles@;
        let mut i: usize = 0;
        while i < self.bundles.len() && self.bundles[i].id != id
            invariant
                old(self).wf(),
                prev == old(self).bundles@,
                self.bundles@ == prev,
                i <= self.bundles@.len(),
                forall|j: int| 0 <= j < i ==> (#[trigger] self.bundles@[j]).id != id,
            decreases self.bundles.len() - i,
        {
            i = i + 1;
        }
        if i == self.bundles.len() {
            return false;
        }
        proof {
            let j = choose|j: int| 0 <= j < prev.len() && prev[j].id == id;
            assert(j == i);
        }
        let b = self.bundles.remove(i);
        let ArchiveBundle { id: bid, tape_id, buckets, object_keys, sizes, offset: _, total_size, checksum, created_at, status: _ } = b;
        let nb = ArchiveBundle { id: bid, tape_id, buckets, object_keys, sizes, offset, total_size, checksum, created_at, status };
        self.bundles.insert(i, nb);
        proof {
            assert(self.bundles@ =~= prev.update(i as int, nb));
            lemma_bundle_update(prev, i as int, nb);
        }
        true
    }
}


/// An object observed Cold names a bundle, and that bundle is Completed, in
/// any store whose cold objects are backed (a property every operation of the
/// service preserves).
pub proof fn lemma_cold_has_completed_bundle(store: &MetadataService, id: ObjectId)
    requires
        store.cold_backed(),
        store@.contains_key(id),
        store@[id].storage_class == StorageClass::Cold,
    ensures
        store@[id].archive_id is Some,
        store.bundle_view().contains_key(store@[id].archive_id.unwrap()),
        store.bundle_view()[store@[id].archive_id.unwrap()].status == ArchiveBundleStatus::Completed,
{
}

} // verus!
