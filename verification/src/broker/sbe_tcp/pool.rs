//! A pool of buffers that are used again and again.
use bytes::BytesMut;
use crossbeam_queue::ArrayQueue;
use vstd::prelude::*;

use crate::broker::sbe_tcp::buffer::{buffered, clear, empty_buffer};

verus! {

/// How many buffers a pool keeps.
pub const POOL_SIZE: usize = 256;

/// The room that a new buffer has.
pub const INITIAL_BUF_CAP: usize = 4096;

/// A bounded queue.
#[verifier::external_type_specification]
#[verifier::external_body]
#[verifier::reject_recursive_types(T)]
pub struct ExArrayQueue<T>(ArrayQueue<T>);

/// What the buffers in a queue hold, from the front of the queue to its back.
pub uninterp spec fn queued(q: ArrayQueue<BytesMut>) -> Seq<Seq<u8>>;

/// How many buffers a queue takes.
pub uninterp spec fn queue_limit(q: ArrayQueue<BytesMut>) -> nat;

/// `ArrayQueue::new` makes an empty queue; it panics where the limit is zero.
#[verifier::external_body]
fn new_queue(limit: usize) -> (r: ArrayQueue<BytesMut>)
    requires
        0 < limit <= 0x1_0000,
    ensures
        queued(r) == Seq::<Seq<u8>>::empty(),
        queue_limit(r) == limit,
{
    ArrayQueue::new(limit)
}

/// `ArrayQueue::push` appends a buffer; a full queue hands it back.
#[verifier::external_body]
fn push(q: &mut ArrayQueue<BytesMut>, buf: BytesMut) -> (r: Result<(), BytesMut>)
    ensures
        queue_limit(*final(q)) == queue_limit(*old(q)),
        r is Ok <==> queued(*old(q)).len() < queue_limit(*old(q)),
        r is Ok ==> queued(*final(q)) == queued(*old(q)).push(buffered(buf)),
        r matches Err(b) ==> buffered(b) == buffered(buf) && queued(*final(q)) == queued(*old(q)),
    no_unwind
{
    q.push(buf)
}

/// `ArrayQueue::pop` takes the buffer at the front; an empty queue has none.
#[verifier::external_body]
fn pop(q: &mut ArrayQueue<BytesMut>) -> (r: Option<BytesMut>)
    ensures
        queue_limit(*final(q)) == queue_limit(*old(q)),
        r is Some <==> queued(*old(q)).len() > 0,
        r matches Some(b) ==> buffered(b) == queued(*old(q))[0] && queued(*final(q)) == queued(*old(q)).skip(1),
        r is None ==> queued(*final(q)) == queued(*old(q)),
    no_unwind
{
    q.pop()
}

/// A buffer from a pool.
pub struct PooledBuf {
    pub buf: BytesMut,
}

/// A pool of empty buffers.
pub struct BufferPool {
    queue: ArrayQueue<BytesMut>,
}

impl BufferPool {
    /// How many buffers lie ready.
    pub closed spec fn ready(&self) -> nat {
        queued(self.queue).len()
    }

    /// The buffers that lie ready are empty, and no more than the pool keeps.
    #[verifier::type_invariant]
    pub closed spec fn all_empty(&self) -> bool {
        &&& queue_limit(self.queue) == POOL_SIZE
        &&& queued(self.queue).len() <= POOL_SIZE
        &&& forall|i: int| 0 <= i < queued(self.queue).len() ==> (#[trigger] queued(self.queue)[i]).len() == 0
    }

    /// A pool whose buffers all lie ready.
    pub fn new() -> (r: Self)
        ensures
            r.ready() == POOL_SIZE,
    {
        let mut queue = new_queue(POOL_SIZE);
        let mut i: usize = 0;
        while i < POOL_SIZE
            invariant
                i <= POOL_SIZE,
                queue_limit(queue) == POOL_SIZE,
                queued(queue).len() == i,
                forall|j: int| 0 <= j < queued(queue).len() ==> (#[trigger] queued(queue)[j]).len() == 0,
            decreases POOL_SIZE - i,
        {
            let _ = push(&mut queue, empty_buffer(INITIAL_BUF_CAP));
            i += 1;
        }
        BufferPool { queue }
    }

    /// An empty buffer: one that lies ready, or a new one where none does.
    pub fn acquire(&mut self) -> (r: PooledBuf)
        ensures
            buffered(r.buf) == Seq::<u8>::empty(),
            final(self).ready() == if old(self).ready() > 0 { old(self).ready() - 1 } else { 0 },
    {
        proof {
            use_type_invariant(&*self);
        }
        let buf = match pop(&mut self.queue) {
            Some(b) => b,
            None => empty_buffer(INITIAL_BUF_CAP),
        };
        assert(buffered(buf) =~= Seq::empty());
        PooledBuf { buf }
    }

    /// Takes a buffer back, emptied; a full pool drops it.
    pub fn release(&mut self, pooled: PooledBuf)
        ensures
            final(self).ready() == if old(self).ready() < POOL_SIZE {
                old(self).ready() + 1
            } else {
                POOL_SIZE as nat
            },
    {
        let mut buf = pooled.buf;
        clear(&mut buf);
        proof {
            use_type_invariant(&*self);
        }
        let _ = push(&mut self.queue, buf);
    }
}

impl Default for BufferPool {
    fn default() -> (r: Self)
        ensures
            r.ready() == POOL_SIZE,
    {
        BufferPool::new()
    }
}

} // verus!
