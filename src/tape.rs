use vstd::prelude::*;
use crate::error::{Error, Result};
use crate::metadata::owned;
use crate::models::{TapeInfo, TapeStatus};

verus! {

/// Sum of the bytes.
pub open spec fn byte_sum(s: Seq<u8>) -> nat
    decreases s.len(),
{
    if s.len() == 0 {
        0
    } else {
        byte_sum(s.drop_last()) + s.last() as nat
    }
}

/// The bundle checksum of a byte sequence: the sum of its bytes modulo 2^64.
pub open spec fn checksum(s: Seq<u8>) -> u64 {
    (byte_sum(s) % 0x1_0000_0000_0000_0000) as u64
}

pub proof fn lemma_byte_sum_append(a: Seq<u8>, b: Seq<u8>)
    ensures
        byte_sum(a + b) == byte_sum(a) + byte_sum(b),
    decreases b.len(),
{
    if b.len() > 0 {
        lemma_byte_sum_append(a, b.drop_last());
        assert((a + b).drop_last() =~= a + b.drop_last());
    } else {
        assert(a + b =~= a);
    }
}

/// Extends the running checksum `c` of some bytes by `data`.
pub fn checksum_extend(c: u64, data: &Vec<u8>) -> (r: u64)
    ensures
        r == (c + byte_sum(data@)) % 0x1_0000_0000_0000_0000,
{
    let mut acc: u64 = c;
    let mut i: usize = 0;
    while i < data.len()
        invariant
            i <= data@.len(),
            acc == (c + byte_sum(data@.subrange(0, i as int))) % 0x1_0000_0000_0000_0000,
        decreases data.len() - i,
    {
        let ghost pre = data@.subrange(0, i as int);
        let ghost a0 = acc;
        assert(data@.subrange(0, i + 1).drop_last() =~= pre);
        assert(byte_sum(data@.subrange(0, i + 1)) == byte_sum(pre) + data@[i as int]);
        let wide: u128 = acc as u128 + data[i] as u128;
        acc = (wide % 0x1_0000_0000_0000_0000u128) as u64;
        proof {
            let m: int = 0x1_0000_0000_0000_0000;
            let x: int = data@[i as int] as int;
            vstd::arithmetic::div_mod::lemma_add_mod_noop(c + byte_sum(pre), x, m);
            vstd::arithmetic::div_mod::lemma_small_mod(x as nat, m as nat);
            vstd::arithmetic::div_mod::lemma_mod_twice(c + byte_sum(pre), m);
            vstd::arithmetic::div_mod::lemma_add_mod_noop(a0 as int, x, m);
        }
        i = i + 1;
    }
    assert(data@.subrange(0, data@.len() as int) =~= data@);
    acc
}

/// One tape medium in a drive: an append-only byte extent with a capacity.
pub struct TapeDriver {
    drive_id: String,
    data: Vec<u8>,
    capacity: u64,
    position: u64,
}

impl TapeDriver {
    /// The bytes written so far.
    pub closed spec fn written(&self) -> Seq<u8> {
        self.data@
    }

    pub closed spec fn capacity(&self) -> u64 {
        self.capacity
    }

    /// The drive the tape is mounted in.
    pub closed spec fn drive(&self) -> Seq<char> {
        self.drive_id@
    }

    pub closed spec fn position(&self) -> u64 {
        self.position
    }

    pub closed spec fn wf(&self) -> bool {
        self.data@.len() <= self.capacity && self.position <= self.data@.len()
    }

    /// An empty tape in drive `drive_id`, bounded only by the address range.
    pub fn new(drive_id: String) -> (r: Self)
        ensures
            r.wf(),
            r.drive() == drive_id@,
            r.written() == Seq::<u8>::empty(),
            r.capacity() == u64::MAX,
    {
        Self::with_capacity(drive_id, u64::MAX)
    }

    /// An empty tape that holds at most `capacity` bytes.
    pub fn with_capacity(drive_id: String, capacity: u64) -> (r: Self)
        ensures
            r.wf(),
            r.drive() == drive_id@,
            r.written() == Seq::<u8>::empty(),
            r.capacity() == capacity,
            r.position() == 0,
    {
        TapeDriver { drive_id, data: Vec::new(), capacity, position: 0 }
    }

    /// The number of bytes written so far.
    pub fn len(&self) -> (r: u64)
        requires
            self.wf(),
        ensures
            r == self.written().len(),
    {
        self.data.len() as u64
    }

    /// Appends `data` and returns the offset at which it starts; `TapeIo`,
    /// with nothing written, when it does not fit.
    pub fn write(&mut self, data: &Vec<u8>) -> (r: Result<u64>)
        requires
            old(self).wf(),
        ensures
            final(self).wf(),
            final(self).capacity() == old(self).capacity(),
            old(self).written().len() + data@.len() <= old(self).capacity() <==> r is Ok,
            r matches Ok(off) ==> off == old(self).written().len() && final(self).written() == old(self).written() + data@
                && final(self).position() == final(self).written().len(),
            r matches Err(e) ==> e is TapeIo && final(self).written() == old(self).written()
                && final(self).position() == old(self).position(),
    {
        let start = self.data.len() as u64;
        if data.len() as u64 > self.capacity - start {
            return Err(Error::TapeIo);
        }
        let mut i: usize = 0;
        while i < data.len()
            invariant
                i <= data@.len(),
                self.data@ == old(self).data@ + data@.subrange(0, i as int),
                self.capacity == old(self).capacity,
                old(self).data@.len() + data@.len() <= self.capacity,
                start == old(self).data@.len(),
            decreases data.len() - i,
        {
            self.data.push(data[i]);
            i = i + 1;
        }
        assert(data@.subrange(0, data@.len() as int) =~= data@);
        self.position = self.data.len() as u64;
        Ok(start)
    }

    /// The `length` bytes at `offset`; `TapeIo` past the written extent.
    pub fn read(&self, offset: u64, length: u64) -> (r: Result<Vec<u8>>)
        requires
            self.wf(),
        ensures
            offset + length <= self.written().len() <==> r is Ok,
            r matches Ok(b) ==> b@ == self.written().subrange(offset as int, offset + length),
            r matches Err(e) ==> e is TapeIo,
    {
        let end = self.data.len() as u64;
        if offset > end || length > end - offset {
            return Err(Error::TapeIo);
        }
        let mut out: Vec<u8> = Vec::new();
        let start = offset as usize;
        let stop = (offset + length) as usize;
        let mut i: usize = start;
        while i < stop
            invariant
                start <= i <= stop,
                start == offset,
                stop == offset + length,
                stop <= self.data@.len(),
                out@ == self.data@.subrange(start as int, i as int),
            decreases stop - i,
        {
            out.push(self.data[i]);
            assert(self.data@.subrange(start as int, i + 1) =~= self.data@.subrange(start as int, i as int).push(self.data@[i as int]));
            i = i + 1;
        }
        Ok(out)
    }

    /// Positions the head at `position`; `TapeIo` past the written extent.
    pub fn seek(&mut self, position: u64) -> (r: Result<()>)
        requires
            old(self).wf(),
        ensures
            final(self).wf(),
            final(self).written() == old(self).written(),
            final(self).capacity() == old(self).capacity(),
            position <= old(self).written().len() <==> r is Ok,
            r is Ok ==> final(self).position() == position,
            r is Err ==> final(self).position() == old(self).position(),
    {
        if position > self.data.len() as u64 {
            return Err(Error::TapeIo);
        }
        self.position = position;
        Ok(())
    }
}

/// What the tape library knows of one cartridge.
pub struct TapeSlot {
    pub id: String,
    pub status: TapeStatus,
    pub medium: TapeDriver,
    pub reads: u64,
}

pub open spec fn slot_at(s: Seq<TapeSlot>, id: Seq<char>, i: int) -> bool {
    0 <= i < s.len() && s[i].id@ == id
}

/// The tape library: cartridges by id, with their status and media. Counts
/// the positioned reads issued to each cartridge.
pub struct TapeManager {
    tapes: Vec<TapeSlot>,
}

impl TapeManager {
    pub closed spec fn wf(&self) -> bool {
        &&& forall|i: int, j: int| 0 <= i < self.tapes@.len() && 0 <= j < self.tapes@.len() && i != j
            ==> (#[trigger] self.tapes@[i]).id@ != (#[trigger] self.tapes@[j]).id@
        &&& forall|i: int| 0 <= i < self.tapes@.len() ==> (#[trigger] self.tapes@[i]).medium.wf()
    }

    /// Nothing changed.
    pub closed spec fn same_tapes(&self, other: &TapeManager) -> bool {
        self.tapes@ == other.tapes@
    }

    pub closed spec fn has_tape(&self, id: Seq<char>) -> bool {
        exists|i: int| slot_at(self.tapes@, id, i)
    }

    pub closed spec fn slot(&self, id: Seq<char>) -> TapeSlot {
        self.tapes@[choose|i: int| slot_at(self.tapes@, id, i)]
    }

    pub open spec fn status(&self, id: Seq<char>) -> TapeStatus {
        self.slot(id).status
    }

    pub open spec fn written(&self, id: Seq<char>) -> Seq<u8> {
        self.slot(id).medium.written()
    }

    pub open spec fn reads(&self, id: Seq<char>) -> u64 {
        self.slot(id).reads
    }

    /// The tapes other than `id` are as in `other`.
    pub open spec fn others_same(&self, other: &TapeManager, id: Seq<char>) -> bool {
        forall|t: Seq<char>| t != id ==> (#[trigger] self.has_tape(t) <==> other.has_tape(t)) && (self.has_tape(t)
            ==> self.slot(t) == other.slot(t))
    }

    proof fn lemma_slot(&self, i: int)
        requires
            self.wf(),
            0 <= i < self.tapes@.len(),
        ensures
            self.has_tape(self.tapes@[i].id@),
            self.slot(self.tapes@[i].id@) == self.tapes@[i],
    {
        let id = self.tapes@[i].id@;
        assert(slot_at(self.tapes@, id, i));
        let j = choose|j: int| slot_at(self.tapes@, id, j);
        assert(j == i);
    }

    /// Two libraries whose slots agree but at `i`, where the id agrees.
    proof fn lemma_same_ids(a: &TapeManager, b: &TapeManager, i: int)
        requires
            a.wf(),
            b.wf(),
            a.tapes@.len() == b.tapes@.len(),
            0 <= i < a.tapes@.len(),
            a.tapes@[i].id@ == b.tapes@[i].id@,
            forall|j: int| 0 <= j < a.tapes@.len() && j != i ==> a.tapes@[j] == b.tapes@[j],
        ensures
            forall|t: Seq<char>| #[trigger] a.has_tape(t) <==> b.has_tape(t),
            a.others_same(b, a.tapes@[i].id@),
            a.has_tape(a.tapes@[i].id@),
            a.slot(a.tapes@[i].id@) == a.tapes@[i],
            b.slot(a.tapes@[i].id@) == b.tapes@[i],
    {
        a.lemma_slot(i);
        b.lemma_slot(i);
        assert forall|t: Seq<char>| #[trigger] a.has_tape(t) <==> b.has_tape(t) by {
            if a.has_tape(t) {
                let j = choose|j: int| slot_at(a.tapes@, t, j);
                assert(slot_at(b.tapes@, t, j));
            }
            if b.has_tape(t) {
                let j = choose|j: int| slot_at(b.tapes@, t, j);
                assert(slot_at(a.tapes@, t, j));
            }
        }
        assert forall|t: Seq<char>| t != a.tapes@[i].id@ implies (#[trigger] a.has_tape(t) <==> b.has_tape(t)) && (a.has_tape(t)
            ==> a.slot(t) == b.slot(t)) by {
            if a.has_tape(t) {
                let j = choose|j: int| slot_at(a.tapes@, t, j);
                assert(j != i);
                a.lemma_slot(j);
                b.lemma_slot(j);
            }
        }
    }

    /// A cartridge never holds more than its capacity.
    pub proof fn lemma_written_within_capacity(&self, t: Seq<char>)
        requires
            self.wf(),
            self.has_tape(t),
        ensures
            self.written(t).len() <= self.slot(t).medium.capacity(),
    {
        let i = choose|i: int| slot_at(self.tapes@, t, i);
        self.lemma_slot(i);
    }

    pub fn new() -> (r: Self)
        ensures
            r.wf(),
            forall|t: Seq<char>| !r.has_tape(t),
    {
        TapeManager { tapes: Vec::new() }
    }

    fn position(&self, id: &String) -> (r: Option<usize>)
        requires
            self.wf(),
        ensures
            match r {
                Some(i) => i < self.tapes@.len() && self.tapes@[i as int].id@ == id@ && self.has_tape(id@)
                    && self.slot(id@) == self.tapes@[i as int],
                None => !self.has_tape(id@),
            },
    {
        let mut i: usize = 0;
        while i < self.tapes.len()
            invariant
                self.wf(),
                i <= self.tapes@.len(),
                forall|j: int| 0 <= j < i ==> !slot_at(self.tapes@, id@, j),
            decreases self.tapes.len() - i,
        {
            if self.tapes[i].id == *id {
                proof { self.lemma_slot(i as int); }
                return Some(i);
            }
            i = i + 1;
        }
        None
    }

    /// Registers an empty Online cartridge `id` of `capacity` bytes;
    /// `Internal` if the id is taken.
    pub fn add_tape(&mut self, id: &str, capacity: u64) -> (r: Result<()>)
        requires
            old(self).wf(),
        ensures
            final(self).wf(),
            r is Ok <==> !old(self).has_tape(id@),
            r is Err ==> final(self).same_tapes(old(self)),
            r is Ok ==> final(self).has_tape(id@) && final(self).status(id@) == TapeStatus::Online
                && final(self).written(id@) == Seq::<u8>::empty() && final(self).reads(id@) == 0
                && final(self).slot(id@).medium.capacity() == capacity,
            final(self).others_same(old(self), id@),
    {
        let key = owned(id);
        match self.position(&key) {
            Some(_) => Err(Error::Internal("tape already registered".to_owned())),
            None => {
                let ghost prev = self.tapes@;
                let medium = TapeDriver::with_capacity(owned(id), capacity);
                self.tapes.push(TapeSlot { id: key, status: TapeStatus::Online, medium, reads: 0 });
                proof {
                    let s = self.tapes@;
                    assert forall|a: int, b: int| 0 <= a < s.len() && 0 <= b < s.len() && a != b implies (#[trigger] s[a]).id@ != (#[trigger] s[b]).id@ by {
                        if a == prev.len() { assert(!slot_at(prev, id@, b)); } else if b == prev.len() { assert(!slot_at(prev, id@, a)); }
                    }
                    assert forall|i: int| 0 <= i < s.len() implies (#[trigger] s[i]).medium.wf() by {
                        if i < prev.len() { assert(s[i] == prev[i]); }
                    }
                    self.lemma_slot(prev.len() as int);
                    assert forall|t: Seq<char>| t != id@ implies (#[trigger] self.has_tape(t) <==> old(self).has_tape(t)) && (self.has_tape(t)
                        ==> self.slot(t) == old(self).slot(t)) by {
                        if self.has_tape(t) {
                            let j = choose|j: int| slot_at(s, t, j);
                            assert(j < prev.len());
                            assert(slot_at(prev, t, j));
                            self.lemma_slot(j);
                            old(self).lemma_slot(j);
                        }
                        if old(self).has_tape(t) {
                            let j = choose|j: int| slot_at(prev, t, j);
                            assert(slot_at(s, t, j));
                        }
                    }
                }
                Ok(())
            },
        }
    }

    /// Replaces the slot at `i` by `slot`, which keeps the id.
    fn replace_slot(&mut self, i: usize, slot: TapeSlot)
        requires
            old(self).wf(),
            i < old(self).tapes@.len(),
            slot.id@ == old(self).tapes@[i as int].id@,
            slot.medium.wf(),
        ensures
            final(self).wf(),
            final(self).has_tape(slot.id@),
            final(self).slot(slot.id@) == slot,
            final(self).others_same(old(self), slot.id@),
            forall|t: Seq<char>| #[trigger] final(self).has_tape(t) <==> old(self).has_tape(t),
    {
        let ghost prev = self.tapes@;
        let ghost id = slot.id@;
        self.tapes.set(i, slot);
        proof {
            let s = self.tapes@;
            assert forall|a: int, b: int| 0 <= a < s.len() && 0 <= b < s.len() && a != b implies (#[trigger] s[a]).id@ != (#[trigger] s[b]).id@ by {
                assert(s[a].id@ == prev[a].id@ && s[b].id@ == prev[b].id@);
            }
            assert forall|j: int| 0 <= j < s.len() implies (#[trigger] s[j]).medium.wf() by {
                if j != i { assert(s[j] == prev[j]); }
            }
            Self::lemma_same_ids(self, old(self), i as int);
        }
    }

    /// The status of cartridge `tape_id`; `ObjectNotFound` for an unknown id.
    pub fn tape_status(&self, tape_id: &str) -> (r: Result<TapeStatus>)
        requires
            self.wf(),
        ensures
            r is Ok <==> self.has_tape(tape_id@),
            r matches Ok(s) ==> s == self.status(tape_id@),
            r matches Err(e) ==> e is ObjectNotFound,
    {
        match self.position(&owned(tape_id)) {
            Some(i) => Ok(self.tapes[i].status),
            None => Err(Error::ObjectNotFound),
        }
    }

    /// Whether cartridge `tape_id` is Online.
    pub fn is_tape_online(&self, tape_id: &str) -> (r: Result<bool>)
        requires
            self.wf(),
        ensures
            r is Ok <==> self.has_tape(tape_id@),
            r matches Ok(b) ==> b == (self.status(tape_id@) == TapeStatus::Online),
            r matches Err(e) ==> e is ObjectNotFound,
    {
        let s = self.tape_status(tape_id)?;
        Ok(s == TapeStatus::Online)
    }

    /// Records the status observed for cartridge `tape_id`.
    pub fn update_tape_status(&mut self, tape_id: &str, status: TapeStatus) -> (r: Result<()>)
        requires
            old(self).wf(),
        ensures
            final(self).wf(),
            r is Ok <==> old(self).has_tape(tape_id@),
            forall|t: Seq<char>| #[trigger] final(self).has_tape(t) <==> old(self).has_tape(t),
            final(self).others_same(old(self), tape_id@),
            r is Ok ==> final(self).status(tape_id@) == status && final(self).written(tape_id@) == old(self).written(tape_id@)
                && final(self).reads(tape_id@) == old(self).reads(tape_id@),
            r is Err ==> final(self).same_tapes(old(self)),
    {
        let key = owned(tape_id);
        match self.position(&key) {
            None => Err(Error::ObjectNotFound),
            Some(i) => {
                let medium = self.take_medium(i);
                let reads = self.tapes[i].reads;
                self.replace_slot(i, TapeSlot { id: key, status, medium, reads });
                Ok(())
            },
        }
    }

    /// Moves the medium out of slot `i`, leaving an empty one in its place.
    fn take_medium(&mut self, i: usize) -> (m: TapeDriver)
        requires
            old(self).wf(),
            i < old(self).tapes@.len(),
        ensures
            m == old(self).tapes@[i as int].medium,
            final(self).tapes@.len() == old(self).tapes@.len(),
            forall|j: int| 0 <= j < final(self).tapes@.len() && j != i ==> final(self).tapes@[j] == old(self).tapes@[j],
            final(self).tapes@[i as int].id == old(self).tapes@[i as int].id,
            final(self).tapes@[i as int].status == old(self).tapes@[i as int].status,
            final(self).tapes@[i as int].reads == old(self).tapes@[i as int].reads,
            final(self).wf(),
            forall|t: Seq<char>| #[trigger] final(self).has_tape(t) <==> old(self).has_tape(t),
            final(self).others_same(old(self), old(self).tapes@[i as int].id@),
    {
        let placeholder = TapeDriver::with_capacity(String::new(), 0);
        let slot = self.tapes.remove(i);
        let TapeSlot { id, status, medium, reads } = slot;
        self.tapes.insert(i, TapeSlot { id, status, medium: placeholder, reads });
        let m = medium;
        proof {
            let s = self.tapes@;
            let prev = old(self).tapes@;
            assert forall|j: int| 0 <= j < s.len() && j != i implies s[j] == prev[j] by {}
            assert forall|a: int, b: int| 0 <= a < s.len() && 0 <= b < s.len() && a != b implies (#[trigger] s[a]).id@ != (#[trigger] s[b]).id@ by {
                assert(s[a].id@ == prev[a].id@ && s[b].id@ == prev[b].id@);
            }
            assert forall|j: int| 0 <= j < s.len() implies (#[trigger] s[j]).medium.wf() by {
                if j != i { assert(s[j] == prev[j]); }
            }
            Self::lemma_same_ids(self, old(self), i as int);
        }
        m
    }

    /// Appends `data` to cartridge `tape_id` and returns its offset. An
    /// unknown id gives `ObjectNotFound`, a cartridge that is not Online
    /// `TapeOffline`, a full one `TapeIo`; on error nothing is written.
    pub fn write(&mut self, tape_id: &str, data: &Vec<u8>) -> (r: Result<u64>)
        requires
            old(self).wf(),
        ensures
            final(self).wf(),
            forall|t: Seq<char>| #[trigger] final(self).has_tape(t) <==> old(self).has_tape(t),
            final(self).others_same(old(self), tape_id@),
            !old(self).has_tape(tape_id@) ==> r matches Err(Error::ObjectNotFound),
            old(self).has_tape(tape_id@) ==> {
                let t = old(self).slot(tape_id@);
                &&& final(self).status(tape_id@) == t.status
                &&& final(self).reads(tape_id@) == t.reads
                &&& final(self).slot(tape_id@).medium.capacity() == t.medium.capacity()
                &&& t.status != TapeStatus::Online ==> (r matches Err(Error::TapeOffline(_)))
                &&& (t.status == TapeStatus::Online && t.medium.written().len() + data@.len() > t.medium.capacity())
                    ==> (r matches Err(Error::TapeIo))
                &&& (t.status == TapeStatus::Online && t.medium.written().len() + data@.len() <= t.medium.capacity())
                    ==> r is Ok
                &&& r is Err ==> final(self).written(tape_id@) == t.medium.written()
                &&& (r matches Ok(off) ==> off == t.medium.written().len()
                    && final(self).written(tape_id@) == t.medium.written() + data@)
            },
    {
        let key = owned(tape_id);
        match self.position(&key) {
            None => Err(Error::ObjectNotFound),
            Some(i) => {
                if self.tapes[i].status != TapeStatus::Online {
                    return Err(Error::TapeOffline(key));
                }
                let status = self.tapes[i].status;
                let reads = self.tapes[i].reads;
                let mut medium = self.take_medium(i);
                let r = medium.write(data);
                self.replace_slot(i, TapeSlot { id: key, status, medium, reads });
                r
            },
        }
    }

    /// The `length` bytes at `offset` of cartridge `tape_id`, as one
    /// positioned read, which is counted. An unknown id gives
    /// `ObjectNotFound`, a cartridge that is not Online `TapeOffline` (no read
    /// is issued), a range past the written extent `TapeIo`.
    pub fn read(&mut self, tape_id: &str, offset: u64, length: u64) -> (r: Result<Vec<u8>>)
        requires
            old(self).wf(),
        ensures
            final(self).wf(),
            forall|t: Seq<char>| #[trigger] final(self).has_tape(t) <==> old(self).has_tape(t),
            final(self).others_same(old(self), tape_id@),
            !old(self).has_tape(tape_id@) ==> r matches Err(Error::ObjectNotFound),
            old(self).has_tape(tape_id@) ==> {
                let t = old(self).slot(tape_id@);
                &&& final(self).status(tape_id@) == t.status
                &&& final(self).written(tape_id@) == t.medium.written()
                &&& t.status != TapeStatus::Online ==> (r matches Err(Error::TapeOffline(_)) && final(self).reads(tape_id@) == t.reads)
                &&& t.status == TapeStatus::Online && t.reads < u64::MAX ==> final(self).reads(tape_id@) == t.reads + 1
                &&& t.status == TapeStatus::Online ==> (r is Ok <==> offset + length <= t.medium.written().len())
                &&& (r matches Ok(b) ==> b@ == t.medium.written().subrange(offset as int, offset + length))
                &&& (t.status == TapeStatus::Online ==> (r matches Err(e) ==> e is TapeIo))
            },
    {
        let key = owned(tape_id);
        match self.position(&key) {
            None => Err(Error::ObjectNotFound),
            Some(i) => {
                if self.tapes[i].status != TapeStatus::Online {
                    return Err(Error::TapeOffline(key));
                }
                let status = self.tapes[i].status;
                let reads = if self.tapes[i].reads < u64::MAX { self.tapes[i].reads + 1 } else { u64::MAX };
                let medium = self.take_medium(i);
                let r = medium.read(offset, length);
                self.replace_slot(i, TapeSlot { id: key, status, medium, reads });
                r
            },
        }
    }

    /// The number of positioned reads issued to cartridge `tape_id`.
    pub fn read_count(&self, tape_id: &str) -> (r: Result<u64>)
        requires
            self.wf(),
        ensures
            r is Ok <==> self.has_tape(tape_id@),
            r matches Ok(n) ==> n == self.reads(tape_id@),
    {
        match self.position(&owned(tape_id)) {
            Some(i) => Ok(self.tapes[i].reads),
            None => Err(Error::ObjectNotFound),
        }
    }

    /// What is known of cartridge `tape_id`: its status, capacity and the
    /// bytes written so far. `ObjectNotFound` for an unknown id.
    pub fn get_tape(&self, tape_id: &str) -> (r: Result<TapeInfo>)
        requires
            self.wf(),
        ensures
            r is Ok <==> self.has_tape(tape_id@),
            r matches Ok(t) ==> t.id@ == tape_id@ && t.status == self.status(tape_id@)
                && t.capacity_bytes == Some(self.slot(tape_id@).medium.capacity())
                && t.used_bytes == Some(self.written(tape_id@).len() as u64),
    {
        match self.position(&owned(tape_id)) {
            Some(i) => {
                let slot = &self.tapes[i];
                Ok(TapeInfo {
                    id: slot.id.clone(),
                    format: String::new(),
                    status: slot.status,
                    location: None,
                    capacity_bytes: Some(slot.medium.capacity),
                    used_bytes: Some(slot.medium.len()),
                    archive_bundles: Vec::new(),
                    last_verified_at: None,
                })
            },
            None => Err(Error::ObjectNotFound),
        }
    }

    /// An Online cartridge, the first registered, if any is Online.
    pub fn get_available_drive(&self) -> (r: Option<String>)
        requires
            self.wf(),
        ensures
            r matches Some(t) ==> self.has_tape(t@) && self.status(t@) == TapeStatus::Online,
            r is None ==> forall|t: Seq<char>| self.has_tape(t) ==> self.status(t) != TapeStatus::Online,
    {
        let mut i: usize = 0;
        while i < self.tapes.len()
            invariant
                self.wf(),
                i <= self.tapes@.len(),
                forall|j: int| 0 <= j < i ==> (#[trigger] self.tapes@[j]).status != TapeStatus::Online,
            decreases self.tapes.len() - i,
        {
            if self.tapes[i].status == TapeStatus::Online {
                proof { self.lemma_slot(i as int); }
                return Some(self.tapes[i].id.clone());
            }
            i = i + 1;
        }
        proof {
            assert forall|t: Seq<char>| self.has_tape(t) implies self.status(t) != TapeStatus::Online by {
                let j = choose|j: int| slot_at(self.tapes@, t, j);
                self.lemma_slot(j);
            }
        }
        None
    }
}

} // verus!
