use vstd::prelude::*;
use crate::metadata::{owned, ObjectId};

verus! {

/// The bytes of a list of stored blobs, keyed by bucket and key.
pub open spec fn blob_map(s: Seq<(String, String, Vec<u8>)>) -> Map<ObjectId, Seq<u8>> {
    Map::new(
        |id: ObjectId| exists|i: int| blob_at(s, id, i),
        |id: ObjectId| s[choose|i: int| blob_at(s, id, i)].2@,
    )
}

pub open spec fn blob_at(s: Seq<(String, String, Vec<u8>)>, id: ObjectId, i: int) -> bool {
    0 <= i < s.len() && (s[i].0@, s[i].1@) == id
}

pub open spec fn unique_blobs(s: Seq<(String, String, Vec<u8>)>) -> bool {
    forall|i: int, j: int| 0 <= i < s.len() && 0 <= j < s.len() && i != j
        ==> ((#[trigger] s[i]).0@, s[i].1@) != ((#[trigger] s[j]).0@, s[j].1@)
}

proof fn lemma_blob_at(s: Seq<(String, String, Vec<u8>)>, i: int)
    requires
        unique_blobs(s),
        0 <= i < s.len(),
    ensures
        blob_map(s).contains_key((s[i].0@, s[i].1@)),
        blob_map(s)[(s[i].0@, s[i].1@)] == s[i].2@,
{
    let id = (s[i].0@, s[i].1@);
    assert(blob_at(s, id, i));
    let j = choose|j: int| blob_at(s, id, j);
    assert(j == i);
}

/// A copy of a byte buffer.
pub fn copy_bytes(v: &Vec<u8>) -> (r: Vec<u8>)
    ensures
        r@ == v@,
{
    let mut r: Vec<u8> = Vec::with_capacity(v.len());
    let mut i: usize = 0;
    while i < v.len()
        invariant
            i <= v.len(),
            r@ == v@.subrange(0, i as int),
        decreases v.len() - i,
    {
        r.push(v[i]);
        i = i + 1;
    }
    assert(r@ =~= v@);
    r
}

/// The hot tier: primary copies of object bytes on random-access storage.
pub struct HotStore {
    blobs: Vec<(String, String, Vec<u8>)>,
}

impl View for HotStore {
    type V = Map<ObjectId, Seq<u8>>;

    closed spec fn view(&self) -> Map<ObjectId, Seq<u8>> {
        blob_map(self.blobs@)
    }
}

impl HotStore {
    pub closed spec fn wf(&self) -> bool {
        unique_blobs(self.blobs@)
    }

    pub fn new() -> (r: Self)
        ensures
            r.wf(),
            r@ == Map::<ObjectId, Seq<u8>>::empty(),
    {
        let r = HotStore { blobs: Vec::new() };
        assert(r@ =~= Map::<ObjectId, Seq<u8>>::empty());
        r
    }

    fn position(&self, bucket: &String, key: &String) -> (r: Option<usize>)
        requires
            self.wf(),
        ensures
            match r {
                Some(i) => i < self.blobs@.len() && (self.blobs@[i as int].0@, self.blobs@[i as int].1@) == (bucket@, key@),
                None => !self@.contains_key((bucket@, key@)),
            },
    {
        let mut i: usize = 0;
        while i < self.blobs.len()
            invariant
                i <= self.blobs@.len(),
                forall|j: int| 0 <= j < i ==> !blob_at(self.blobs@, (bucket@, key@), j),
            decreases self.blobs.len() - i,
        {
            if self.blobs[i].0 == *bucket && self.blobs[i].1 == *key {
                return Some(i);
            }
            i = i + 1;
        }
        None
    }

    /// The bytes of `bucket`/`key`, if held.
    pub fn get(&self, bucket: &str, key: &str) -> (r: Option<Vec<u8>>)
        requires
            self.wf(),
        ensures
            self@.contains_key((bucket@, key@)) <==> r is Some,
            r matches Some(b) ==> b@ == self@[(bucket@, key@)],
    {
        let b = owned(bucket);
        let k = owned(key);
        match self.position(&b, &k) {
            Some(i) => {
                proof { lemma_blob_at(self.blobs@, i as int); }
                Some(copy_bytes(&self.blobs[i].2))
            },
            None => None,
        }
    }

    /// Stores `data` as the bytes of `bucket`/`key`.
    pub fn put(&mut self, bucket: &str, key: &str, data: Vec<u8>)
        requires
            old(self).wf(),
        ensures
            final(self).wf(),
            final(self)@ == old(self)@.insert((bucket@, key@), data@),
    {
        let b = owned(bucket);
        let k = owned(key);
        let ghost id = (bucket@, key@);
        let ghost prev = self.blobs@;
        let ghost item = (b, k, data);
        match self.position(&b, &k) {
            Some(i) => {
                self.blobs.set(i, (b, k, data));
                proof {
                    let s = self.blobs@;
                    assert(s == prev.update(i as int, item));
                    assert forall|x: int, y: int| 0 <= x < s.len() && 0 <= y < s.len() && x != y implies
                        ((#[trigger] s[x]).0@, s[x].1@) != ((#[trigger] s[y]).0@, s[y].1@) by {
                        if x == i { assert(blob_at(prev, id, x)); } else if y == i { assert(blob_at(prev, id, y)); }
                    }
                    assert forall|z: ObjectId| #[trigger] blob_map(s).contains_key(z) <==> old(self)@.insert(id, data@).contains_key(z) by {
                        if z != id {
                            if blob_map(s).contains_key(z) {
                                let j = choose|j: int| blob_at(s, z, j);
                                assert(blob_at(prev, z, j));
                            }
                            if blob_map(prev).contains_key(z) {
                                let j = choose|j: int| blob_at(prev, z, j);
                                assert(blob_at(s, z, j));
                            }
                        } else {
                            assert(blob_at(s, z, i as int));
                        }
                    }
                    assert forall|z: ObjectId| #[trigger] blob_map(s).contains_key(z) implies blob_map(s)[z] == old(self)@.insert(id, data@)[z] by {
                        let j = choose|j: int| blob_at(s, z, j);
                        lemma_blob_at(s, j);
                        if z != id {
                            lemma_blob_at(prev, j);
                        }
                    }
                    assert(blob_map(s) =~= old(self)@.insert(id, data@));
                }
            },
            None => {
                self.blobs.push((b, k, data));
                proof {
                    let s = self.blobs@;
                    assert(s == prev.push(item));
                    assert forall|x: int, y: int| 0 <= x < s.len() && 0 <= y < s.len() && x != y implies
                        ((#[trigger] s[x]).0@, s[x].1@) != ((#[trigger] s[y]).0@, s[y].1@) by {
                        if x == prev.len() { assert(!blob_at(prev, id, y)); } else if y == prev.len() { assert(!blob_at(prev, id, x)); }
                    }
                    assert forall|z: ObjectId| #[trigger] blob_map(s).contains_key(z) <==> old(self)@.insert(id, data@).contains_key(z) by {
                        if blob_map(s).contains_key(z) && z != id {
                            let j = choose|j: int| blob_at(s, z, j);
                            assert(blob_at(prev, z, j));
                        }
                        if blob_map(prev).contains_key(z) {
                            let j = choose|j: int| blob_at(prev, z, j);
                            assert(blob_at(s, z, j));
                        }
                        if z == id {
                            assert(blob_at(s, z, prev.len() as int));
                        }
                    }
                    assert forall|z: ObjectId| #[trigger] blob_map(s).contains_key(z) implies blob_map(s)[z] == old(self)@.insert(id, data@)[z] by {
                        let j = choose|j: int| blob_at(s, z, j);
                        lemma_blob_at(s, j);
                        if z != id {
                            lemma_blob_at(prev, j);
                        }
                    }
                    assert(blob_map(s) =~= old(self)@.insert(id, data@));
                }
            },
        }
    }

    /// Drops the bytes of `bucket`/`key`; reclaiming an absent object changes
    /// nothing.
    pub fn reclaim(&mut self, bucket: &str, key: &str)
        requires
            old(self).wf(),
        ensures
            final(self).wf(),
            final(self)@ == old(self)@.remove((bucket@, key@)),
    {
        let b = owned(bucket);
        let k = owned(key);
        let ghost id = (bucket@, key@);
        let ghost prev = self.blobs@;
        match self.position(&b, &k) {
            None => {
                assert(old(self)@.remove(id) =~= old(self)@);
            },
            Some(i) => {
                assert(blob_at(prev, id, i as int));
                self.blobs.remove(i);
                proof {
                    let s = self.blobs@;
                    assert(s == prev.remove(i as int));
                    assert forall|x: int, y: int| 0 <= x < s.len() && 0 <= y < s.len() && x != y implies
                        ((#[trigger] s[x]).0@, s[x].1@) != ((#[trigger] s[y]).0@, s[y].1@) by {
                        let px = if x < i { x } else { x + 1 };
                        let py = if y < i { y } else { y + 1 };
                        assert(s[x] == prev[px] && s[y] == prev[py]);
                    }
                    assert forall|z: ObjectId| #[trigger] blob_map(s).contains_key(z) <==> old(self)@.remove(id).contains_key(z) by {
                        if blob_map(s).contains_key(z) {
                            let j = choose|j: int| blob_at(s, z, j);
                            let pj = if j < i { j } else { j + 1 };
                            assert(blob_at(prev, z, pj));
                            assert(z != id);
                        }
                        if blob_map(prev).contains_key(z) && z != id {
                            let j = choose|j: int| blob_at(prev, z, j);
                            assert(j != i);
                            let sj = if j < i { j } else { j - 1 };
                            assert(blob_at(s, z, sj));
                        }
                    }
                    assert forall|z: ObjectId| #[trigger] blob_map(s).contains_key(z) implies blob_map(s)[z] == old(self)@.remove(id)[z] by {
                        let j = choose|j: int| blob_at(s, z, j);
                        lemma_blob_at(s, j);
                        let pj = if j < i { j } else { j + 1 };
                        assert(s[j] == prev[pj]);
                        lemma_blob_at(prev, pj);
                    }
                    assert(blob_map(s) =~= old(self)@.remove(id));
                }
            },
        }
    }
}

} // verus!
