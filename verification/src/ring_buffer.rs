//! A bounded byte ring with one writer half and one reader half.
//!
//! The ring keeps one slot free in front of the oldest byte, so that a full
//! ring and an empty ring are told apart by their two positions alone: the
//! free slots run from `end` round to `start - 1`.
use std::sync::Arc;
use vstd::prelude::*;
use vstd::rwlock::{RwLock, RwLockPredicate};

verus! {

/// What a ring holds: how many bytes fit in it and the bytes in it, oldest first.
pub struct RingView {
    pub capacity: nat,
    pub contents: Seq<u8>,
}

impl RingView {
    /// Number of bytes that still fit.
    pub open spec fn free(self) -> nat {
        if self.contents.len() <= self.capacity {
            (self.capacity - self.contents.len()) as nat
        } else {
            0
        }
    }

    /// Number of bytes taken by a write that offers `offered` bytes.
    pub open spec fn accepted(self, offered: nat) -> nat {
        if offered <= self.free() {
            offered
        } else {
            self.free()
        }
    }

    /// The ring after a write of `data`: as much of `data` as fits is appended.
    pub open spec fn after_write(self, data: Seq<u8>) -> RingView {
        RingView {
            capacity: self.capacity,
            contents: self.contents + data.take(self.accepted(data.len()) as int),
        }
    }

    /// Number of bytes handed out by a read into room for `room` bytes.
    pub open spec fn delivered(self, room: nat) -> nat {
        if room <= self.contents.len() {
            room
        } else {
            self.contents.len()
        }
    }

    /// The bytes handed out by a read into room for `room` bytes: the oldest ones.
    pub open spec fn read_out(self, room: nat) -> Seq<u8> {
        self.contents.take(self.delivered(room) as int)
    }

    /// The ring after a read into room for `room` bytes.
    pub open spec fn after_read(self, room: nat) -> RingView {
        RingView {
            capacity: self.capacity,
            contents: self.contents.skip(self.delivered(room) as int),
        }
    }
}

/// Nothing is lost or reordered by a read: what it hands out, followed by
/// what stays, is what the ring held.
pub proof fn lemma_read_conserves(v: RingView, room: nat)
    ensures
        v.read_out(room) + v.after_read(room).contents == v.contents,
        v.after_read(room).capacity == v.capacity,
{
    assert(v.read_out(room) + v.after_read(room).contents =~= v.contents);
}

/// A write keeps what the ring held in front and never fills it past its
/// capacity.
pub proof fn lemma_write_appends(v: RingView, data: Seq<u8>)
    requires
        v.contents.len() <= v.capacity,
    ensures
        v.after_write(data).contents.take(v.contents.len() as int) == v.contents,
        v.after_write(data).contents.len() <= v.capacity,
        v.after_write(data).capacity == v.capacity,
{
    assert(v.after_write(data).contents.take(v.contents.len() as int) =~= v.contents);
}

/// Bytes come out in the order they went in: into a ring that holds
/// nothing, a write that fits followed by a read with enough room hands back
/// exactly what was written and leaves the ring empty.
pub proof fn lemma_write_then_read(v: RingView, data: Seq<u8>, room: nat)
    requires
        v.contents.len() == 0,
        data.len() <= v.capacity,
        data.len() <= room,
    ensures
        v.accepted(data.len()) == data.len(),
        v.after_write(data).read_out(room) == data,
        v.after_write(data).after_read(room).contents.len() == 0,
{
    assert(v.after_write(data).contents =~= data);
    assert(v.after_write(data).read_out(room) =~= data);
}

/// Two writes into a ring with room for both are read back as one stream,
/// the first write's bytes ahead of the second's.
pub proof fn lemma_writes_keep_order(v: RingView, d1: Seq<u8>, d2: Seq<u8>, room: nat)
    requires
        v.contents.len() == 0,
        d1.len() + d2.len() <= v.capacity,
        d1.len() + d2.len() <= room,
    ensures
        v.after_write(d1).after_write(d2).read_out(room) == d1 + d2,
{
    assert(v.after_write(d1).contents =~= d1);
    assert(v.after_write(d1).after_write(d2).contents =~= d1 + d2);
    assert(v.after_write(d1).after_write(d2).read_out(room) =~= d1 + d2);
}

/// The slot `k` places after slot `pos` of a ring of `slots` slots, wrapping
/// round once past the last slot.
pub open spec fn ring_advance(pos: nat, k: nat, slots: nat) -> nat {
    if pos + k < slots {
        pos + k
    } else {
        (pos + k - slots) as nat
    }
}

/// The storage of a ring: `capacity + 1` slots, the position of the oldest
/// byte and the position where the next byte goes.
pub struct RingBuffer {
    buffer: Vec<u8>,
    capacity: usize,
    start: usize,
    end: usize,
}

impl RingBuffer {
    /// Number of slots.
    pub closed spec fn slots(&self) -> nat {
        self.buffer@.len()
    }

    /// Position of the oldest byte.
    pub closed spec fn start_index(&self) -> nat {
        self.start as nat
    }

    /// Position where the next byte goes.
    pub closed spec fn end_index(&self) -> nat {
        self.end as nat
    }

    /// Physical slot of the byte that is `i`-th oldest.
    spec fn slot(&self, i: int) -> int {
        if self.start + i < self.buffer@.len() {
            self.start + i
        } else {
            self.start + i - self.buffer@.len()
        }
    }

    /// Number of bytes held, from the two positions.
    spec fn used(&self) -> nat {
        if self.start <= self.end {
            (self.end - self.start) as nat
        } else {
            (self.buffer@.len() - self.start + self.end) as nat
        }
    }

    pub closed spec fn wf(&self) -> bool {
        &&& self.buffer@.len() == self.capacity + 1
        &&& self.start < self.buffer@.len()
        &&& self.end < self.buffer@.len()
    }

    /// A well-formed ring never holds more than its capacity, and the number of
    /// bytes it holds is the distance from its start position to its end position.
    pub proof fn lemma_within_capacity(&self)
        requires
            self.wf(),
        ensures
            self@.contents.len() <= self@.capacity,
            self.slots() == self@.capacity + 1,
            self.start_index() < self.slots(),
            self.end_index() < self.slots(),
            self@.contents.len() == (if self.start_index() <= self.end_index() {
                self.end_index() - self.start_index()
            } else {
                self.slots() - self.start_index() + self.end_index()
            }),
    {
    }

    /// An empty ring that holds up to `capacity` bytes.
    pub fn new(capacity: usize) -> (r: RingBuffer)
        requires
            capacity < usize::MAX,
        ensures
            r.wf(),
            r@ == (RingView { capacity: capacity as nat, contents: Seq::empty() }),
    {
        let buffer = vec![0u8; capacity + 1];
        let r = RingBuffer { buffer, capacity, start: 0, end: 0 };
        assert(r@.contents =~= Seq::<u8>::empty());
        r
    }

    /// How many more bytes fit.
    pub fn free_cap(&self) -> (n: usize)
        requires
            self.wf(),
        ensures
            n == self@.free(),
    {
        if self.start <= self.end {
            self.capacity - (self.end - self.start)
        } else {
            self.start - self.end - 1
        }
    }

    /// The start and end positions.
    pub fn get_bound(&self) -> (r: (usize, usize))
        requires
            self.wf(),
        ensures
            r.0 == self.start_index(),
            r.1 == self.end_index(),
    {
        (self.start, self.end)
    }

    /// Appends as much of `data` as fits and returns how many bytes were taken.
    pub fn write(&mut self, data: &[u8]) -> (n: usize)
        requires
            old(self).wf(),
        ensures
            final(self).wf(),
            n == old(self)@.accepted(data@.len()),
            final(self)@ == old(self)@.after_write(data@),
            final(self).slots() == old(self).slots(),
            final(self).start_index() == old(self).start_index(),
            final(self).end_index() == ring_advance(old(self).end_index(), n as nat, old(self).slots()),
    {
        let free = self.free_cap();
        let n = if data.len() <= free {
            data.len()
        } else {
            free
        };
        let ghost old_contents = self@.contents;
        let mut i: usize = 0;
        while i < n
            invariant
                self.wf(),
                self.capacity == old(self).capacity,
                self.start == old(self).start,
                self.buffer@.len() == old(self).buffer@.len(),
                self.end == ring_advance(old(self).end as nat, i as nat, old(self).buffer@.len()),
                i <= n,
                n <= data@.len(),
                n == old(self)@.accepted(data@.len()),
                old_contents == old(self)@.contents,
                old_contents.len() + n <= self.capacity,
                self@.contents == old_contents + data@.take(i as int),
            decreases n - i,
        {
            let e = self.end;
            let ghost before = *self;
            assert(self@.contents.len() == self.used());
            assert(data@.take(i as int).len() == i);
            assert(self.used() < self.buffer@.len() - 1);
            self.buffer[e] = data[i];
            if e == self.capacity {
                self.end = 0;
            } else {
                self.end = e + 1;
            }
            assert(before.slot(before.used() as int) == e);
            assert forall|j: int| 0 <= j < before.used() implies self.slot(j) == before.slot(j)
                && self.slot(j) != e by {
            }
            assert(self@.contents =~= before@.contents.push(data@[i as int])) by {
                assert(self.used() == before.used() + 1);
                assert forall|j: int| 0 <= j < before.used() implies #[trigger] self@.contents[j]
                    == before@.contents[j] by {
                }
                assert(self@.contents[before.used() as int] == data@[i as int]);
            }
            assert(self@.contents =~= old_contents + data@.take(i + 1)) by {
                assert(data@.take(i + 1) =~= data@.take(i as int).push(data@[i as int]));
            }
            i = i + 1;
        }
        proof {
            assert(data@.take(n as int) == data@.take(i as int));
        }
        n
    }

    /// Moves the oldest bytes into the front of `out`, as many as fit in it
    /// and as the ring holds, and returns how many were moved.
    pub fn read(&mut self, out: &mut [u8]) -> (m: usize)
        requires
            old(self).wf(),
        ensures
            final(self).wf(),
            m == old(self)@.delivered(old(out)@.len()),
            final(self)@ == old(self)@.after_read(old(out)@.len()),
            final(out)@.len() == old(out)@.len(),
            final(out)@.take(m as int) == old(self)@.read_out(old(out)@.len()),
            final(out)@.skip(m as int) == old(out)@.skip(m as int),
            final(self).slots() == old(self).slots(),
            final(self).end_index() == old(self).end_index(),
            final(self).start_index() == ring_advance(old(self).start_index(), m as nat, old(self).slots()),
    {
        let used = if self.start <= self.end {
            self.end - self.start
        } else {
            self.buffer.len() - self.start + self.end
        };
        let m = if out.len() <= used {
            out.len()
        } else {
            used
        };
        let ghost contents = self@.contents;
        let len = self.buffer.len();
        let mut i: usize = 0;
        while i < m
            invariant
                self.wf(),
                self == old(self),
                contents == old(self)@.contents,
                len == self.buffer@.len(),
                m <= used,
                used == self.used(),
                m <= old(out)@.len(),
                i <= m,
                out@.len() == old(out)@.len(),
                out@.take(i as int) == contents.take(i as int),
                out@.skip(i as int) == old(out)@.skip(i as int),
            decreases m - i,
        {
            let k = if self.start < len - i {
                self.start + i
            } else {
                i - (len - self.start)
            };
            assert(k == self.slot(i as int));
            let b = self.buffer[k];
            let ghost prev = out@;
            out[i] = b;
            assert(out@.take(i + 1) =~= contents.take(i + 1)) by {
                assert(prev.take(i as int) == contents.take(i as int));
                assert forall|j: int| 0 <= j < i implies out@[j] == prev[j] by {
                    assert(prev.take(i as int)[j] == prev[j]);
                }
                assert forall|j: int| 0 <= j < i implies contents[j] == contents.take(i as int)[j] by {
                }
            }
            assert(out@.skip(i + 1) =~= old(out)@.skip(i + 1)) by {
                assert forall|j: int| 0 <= j < out@.len() - (i + 1) implies #[trigger] out@.skip(i + 1)[j]
                    == old(out)@.skip(i + 1)[j] by {
                    assert(prev.skip(i as int)[j + 1] == old(out)@.skip(i as int)[j + 1]);
                }
            }
            i = i + 1;
        }
        let ghost before = *self;
        if self.start < len - m {
            self.start = self.start + m;
        } else {
            self.start = m - (len - self.start);
        }
        assert(self@.contents =~= contents.skip(m as int)) by {
            assert forall|j: int| 0 <= j < self.used() implies self.slot(j) == before.slot(m + j) by {
            }
        }
        m
    }
}

impl View for RingBuffer {
    type V = RingView;

    closed spec fn view(&self) -> RingView {
        RingView {
            capacity: self.capacity as nat,
            contents: Seq::new(self.used(), |i: int| self.buffer@[self.slot(i)]),
        }
    }
}


/// The lock predicate of a shared ring: what is stored is a well-formed ring
/// of the capacity that the ring was made with.
pub struct RingInv {
    pub capacity: nat,
}

impl RwLockPredicate<RingBuffer> for RingInv {
    open spec fn inv(self, v: RingBuffer) -> bool {
        v.wf() && v@.capacity == self.capacity
    }
}

/// Why a write into a ring was refused.
#[derive(Clone, Copy, Debug, PartialEq, Eq)]
pub enum RingError {
    /// The reader half is gone: nobody will ever read what is written.
    BrokenPipe,
}

/// The writing half of a ring made by [`create`].
pub struct Writer {
    shared: Arc<RwLock<RingBuffer, RingInv>>,
}

/// The reading half of a ring made by [`create`].
pub struct Reader {
    shared: Arc<RwLock<RingBuffer, RingInv>>,
}

/// Wraps `Arc::clone`: a second handle on the same ring.
#[verifier::external_body]
fn share(a: &Arc<RwLock<RingBuffer, RingInv>>) -> (r: Arc<RwLock<RingBuffer, RingInv>>)
    ensures
        r == *a,
{
    Arc::clone(a)
}

/// Wraps `Arc::strong_count`: how many handles on the ring exist right now.
/// Nothing is stated of the count: the other half may be dropped at any moment.
#[verifier::external_body]
fn handles(a: &Arc<RwLock<RingBuffer, RingInv>>) -> usize {
    Arc::strong_count(a)
}

/// Makes a ring that holds up to `size` bytes and returns its two halves.
pub fn create(size: usize) -> (halves: (Writer, Reader))
    requires
        size != usize::MAX,
    ensures
        halves.0.ring() == halves.1.ring(),
        halves.0.capacity() == size,
        halves.1.capacity() == size,
{
    let ring = RingBuffer::new(size);
    let lock = RwLock::new(ring, Ghost(RingInv { capacity: size as nat }));
    let reader_side = Arc::new(lock);
    let writer_side = share(&reader_side);
    (Writer { shared: writer_side }, Reader { shared: reader_side })
}

impl Writer {
    /// The lock that guards the ring.
    pub closed spec fn ring(&self) -> RwLock<RingBuffer, RingInv> {
        *self.shared
    }

    /// How many bytes the ring holds at most.
    pub closed spec fn capacity(&self) -> nat {
        self.shared.pred().capacity
    }

    /// Appends as much of `data` as fits in the ring and returns how many
    /// bytes were taken; refuses when the reader half is gone. Whether it is
    /// gone is read from `Arc::strong_count`, of which nothing is known; what
    /// follows from each count is stated by `write_with_handles`.
    pub fn write(&mut self, data: &[u8]) -> (r: Result<usize, RingError>)
        ensures
            r matches Ok(n) ==> n <= data@.len() && n <= old(self).capacity(),
            r matches Err(e) ==> e == RingError::BrokenPipe,
            final(self).ring() == old(self).ring(),
    {
        let live = handles(&self.shared);
        self.write_with_handles(live, data)
    }

    /// The write, given that `live` handles on the ring exist: with fewer
    /// than two the reader half is gone and the write is refused; otherwise
    /// as much of `data` as fits is appended and the count of bytes taken is
    /// returned. What the ring holds is shared with the reader half, which
    /// may change it at any time, so which bytes are taken is stated by
    /// `RingBuffer::write`, which this runs under the lock.
    pub fn write_with_handles(&mut self, live: usize, data: &[u8]) -> (r: Result<usize, RingError>)
        ensures
            live < 2 ==> r == Err::<usize, RingError>(RingError::BrokenPipe),
            live >= 2 ==> (r matches Ok(n) && n <= data@.len() && n <= old(self).capacity()),
            final(self).ring() == old(self).ring(),
    {
        if live < 2 {
            return Err(RingError::BrokenPipe);
        }
        let (mut ring, handle) = self.shared.acquire_write();
        let n = ring.write(data);
        proof {
            ring.lemma_within_capacity();
        }
        handle.release_write(ring);
        Ok(n)
    }

    /// Nothing is held back in the writer, so there is nothing to flush.
    pub fn flush(&mut self) -> (r: Result<(), RingError>)
        ensures
            r is Ok,
            final(self).ring() == old(self).ring(),
    {
        Ok(())
    }
}

impl Reader {
    /// The lock that guards the ring.
    pub closed spec fn ring(&self) -> RwLock<RingBuffer, RingInv> {
        *self.shared
    }

    /// How many bytes the ring holds at most.
    pub closed spec fn capacity(&self) -> nat {
        self.shared.pred().capacity
    }

    /// Moves the oldest bytes of the ring into the front of `out` and returns
    /// how many were moved; the rest of `out` is left as it was. Which bytes
    /// they are is stated by `RingBuffer::read`, which this runs under the
    /// lock: what the ring holds is shared with the writer half.
    pub fn read(&mut self, out: &mut [u8]) -> (m: usize)
        ensures
            m <= old(out)@.len(),
            m <= old(self).capacity(),
            final(self).ring() == old(self).ring(),
            final(out)@.len() == old(out)@.len(),
            final(out)@.skip(m as int) == old(out)@.skip(m as int),
    {
        let (mut ring, handle) = self.shared.acquire_write();
        proof {
            ring.lemma_within_capacity();
        }
        let m = ring.read(out);
        handle.release_write(ring);
        m
    }
}

} // verus!
