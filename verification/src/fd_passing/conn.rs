//! Connections and their buffers.

use vstd::prelude::*;

use crate::http::parser::BUF_SIZE;
use crate::settings;

verus! {

/// The first descriptor that is not served.
pub const MAX_CLIENT_FD: usize = 65_536;

/// The most responses that a batch holds.
pub const MAX_PIPELINED_RESPONSES: usize = 64;

/// How many buffers are kept where nothing else is said.
pub const DEFAULT_BUF_POOL: usize = 512;

/// How many buffers are kept.
pub fn buf_pool_size(value: Option<&str>) -> (r: usize)
    ensures
        r == settings::unsigned_or(
            settings::said(value),
            usize::MAX as nat,
            DEFAULT_BUF_POOL as nat,
        ),
{
    settings::number_or(value, usize::MAX as u64, DEFAULT_BUF_POOL as u64) as usize
}

/// A connection's buffer.
pub type Buffer = Box<[u8; BUF_SIZE]>;

/// What a connection is doing.
pub enum ConnState {
    /// Waiting for the rest of a request; the buffer's first `used` bytes have come.
    Reading { buf: Buffer, used: usize },
    /// Sending responses, of which `written` bytes are out. The buffer holds `leftover_len` bytes of
    /// later requests at `leftover_off`.
    Writing {
        buf: Buffer,
        responses: Vec<&'static [u8]>,
        written: usize,
        leftover_off: usize,
        leftover_len: usize,
        keep_alive: bool,
    },
}

impl ConnState {
    /// What is used of the buffer lies in it.
    pub open spec fn wf(self) -> bool {
        match self {
            ConnState::Reading { buf, used } => used <= BUF_SIZE,
            ConnState::Writing { leftover_off, leftover_len, .. } => leftover_off + leftover_len
                <= BUF_SIZE,
        }
    }

    /// The connection's buffer.
    pub open spec fn buffer(self) -> Buffer {
        match self {
            ConnState::Reading { buf, used } => buf,
            ConnState::Writing { buf, .. } => buf,
        }
    }
}

/// The connections by descriptor, what is watched of each, and buffers for the next ones.
pub struct ConnTable {
    pub slots: Vec<Option<ConnState>>,
    /// What was last registered for each descriptor; nothing where it is not watched.
    pub epoll_interest: Vec<Option<i32>>,
    pub buf_pool: Vec<Buffer>,
    pub buf_pool_cap: usize,
}

/// The place of a descriptor in a table, if it has one.
pub open spec fn slot_of(fd: int) -> Option<int> {
    if 0 <= fd < MAX_CLIENT_FD {
        Some(fd)
    } else {
        None
    }
}

impl ConnTable {
    /// Every descriptor that is served has a place, every state is sound, and no more buffers are
    /// kept than wanted.
    pub open spec fn wf(self) -> bool {
        &&& self.slots@.len() == MAX_CLIENT_FD
        &&& self.epoll_interest@.len() == MAX_CLIENT_FD
        &&& self.buf_pool@.len() <= self.buf_pool_cap
        &&& forall|i: int|
            0 <= i < self.slots@.len() ==> ((#[trigger] self.slots@[i]) matches Some(state)
                ==> state.wf())
    }

    /// What the connection with the given descriptor is doing.
    pub open spec fn state_at(self, fd: int) -> Option<ConnState> {
        if 0 <= fd < self.slots@.len() {
            self.slots@[fd]
        } else {
            None
        }
    }

    /// What is watched of the given descriptor.
    pub open spec fn interest_at(self, fd: int) -> Option<i32> {
        if 0 <= fd < self.epoll_interest@.len() {
            self.epoll_interest@[fd]
        } else {
            None
        }
    }

    /// An empty table that keeps up to `buf_pool_cap` buffers.
    pub fn new(buf_pool_cap: usize) -> (r: Self)
        ensures
            r.wf(),
            r.buf_pool_cap == buf_pool_cap,
            r.buf_pool@.len() == buf_pool_cap,
            forall|i: int|
                0 <= i < buf_pool_cap ==> (#[trigger] r.buf_pool@[i])@ == Seq::new(
                    BUF_SIZE as nat,
                    |j: int| 0u8,
                ),
            forall|fd: int| r.state_at(fd) is None,
            forall|fd: int| r.interest_at(fd) is None,
    {
        let mut slots: Vec<Option<ConnState>> = Vec::new();
        let mut epoll_interest: Vec<Option<i32>> = Vec::new();
        let mut i: usize = 0;
        while i < MAX_CLIENT_FD
            invariant
                i <= MAX_CLIENT_FD,
                slots@.len() == i,
                epoll_interest@.len() == i,
                forall|j: int| 0 <= j < i ==> slots@[j] is None,
                forall|j: int| 0 <= j < i ==> epoll_interest@[j] is None,
            decreases MAX_CLIENT_FD - i,
        {
            slots.push(None);
            epoll_interest.push(None);
            i = i + 1;
        }
        let mut buf_pool: Vec<Buffer> = Vec::new();
        let mut k: usize = 0;
        while k < buf_pool_cap
            invariant
                k <= buf_pool_cap,
                buf_pool@.len() == k,
                forall|i: int|
                    0 <= i < k ==> (#[trigger] buf_pool@[i])@ == Seq::new(
                        BUF_SIZE as nat,
                        |j: int| 0u8,
                    ),
            decreases buf_pool_cap - k,
        {
            let buf: Buffer = Box::new([0u8; BUF_SIZE]);
            assert(buf@ =~= Seq::new(BUF_SIZE as nat, |j: int| 0u8));
            buf_pool.push(buf);
            k = k + 1;
        }
        ConnTable { slots, epoll_interest, buf_pool, buf_pool_cap }
    }

    /// What is watched of `fd`.
    pub fn epoll_interest(&self, fd: i32) -> (r: Option<i32>)
        ensures
            r == self.interest_at(fd as int),
    {
        if fd >= 0 && (fd as usize) < self.epoll_interest.len() {
            self.epoll_interest[fd as usize]
        } else {
            None
        }
    }

    /// Notes what is watched of `fd`.
    pub fn set_epoll_interest(&mut self, fd: i32, interest: Option<i32>)
        requires
            old(self).wf(),
        ensures
            final(self).wf(),
            final(self).slots == old(self).slots,
            final(self).buf_pool == old(self).buf_pool,
            final(self).buf_pool_cap == old(self).buf_pool_cap,
            final(self).epoll_interest@ == (if slot_of(fd as int) is Some {
                old(self).epoll_interest@.update(fd as int, interest)
            } else {
                old(self).epoll_interest@
            }),
    {
        if fd >= 0 && (fd as usize) < self.epoll_interest.len() {
            self.epoll_interest[fd as usize] = interest;
        }
    }

    /// A buffer: one that was kept, or a new one.
    pub fn alloc_buf(&mut self) -> (r: Buffer)
        requires
            old(self).wf(),
        ensures
            final(self).wf(),
            final(self).slots == old(self).slots,
            final(self).epoll_interest == old(self).epoll_interest,
            final(self).buf_pool_cap == old(self).buf_pool_cap,
            old(self).buf_pool@.len() > 0 ==> r == old(self).buf_pool@.last()
                && final(self).buf_pool@ == old(self).buf_pool@.drop_last(),
            old(self).buf_pool@.len() == 0 ==> r@ == Seq::new(BUF_SIZE as nat, |i: int| 0u8)
                && final(self).buf_pool@ == old(self).buf_pool@,
    {
        match self.buf_pool.pop() {
            Some(buf) => buf,
            None => {
                let buf: Buffer = Box::new([0u8; BUF_SIZE]);
                assert(buf@ =~= Seq::new(BUF_SIZE as nat, |i: int| 0u8));
                buf
            },
        }
    }

    /// Keeps a buffer, if there is room for it.
    pub fn recycle_buf(&mut self, buf: Buffer)
        requires
            old(self).wf(),
        ensures
            final(self).wf(),
            final(self).slots == old(self).slots,
            final(self).epoll_interest == old(self).epoll_interest,
            final(self).buf_pool_cap == old(self).buf_pool_cap,
            final(self).buf_pool@ == (if old(self).buf_pool@.len() < old(self).buf_pool_cap {
                old(self).buf_pool@.push(buf)
            } else {
                old(self).buf_pool@
            }),
    {
        if self.buf_pool_cap > 0 && self.buf_pool.len() < self.buf_pool_cap {
            self.buf_pool.push(buf);
        }
    }

    /// Keeps the buffer of a connection that is over, if there is room for it.
    pub fn recycle_conn_state_buf(&mut self, state: ConnState)
        requires
            old(self).wf(),
        ensures
            final(self).wf(),
            final(self).slots == old(self).slots,
            final(self).epoll_interest == old(self).epoll_interest,
            final(self).buf_pool_cap == old(self).buf_pool_cap,
            final(self).buf_pool@ == (if old(self).buf_pool@.len() < old(self).buf_pool_cap {
                old(self).buf_pool@.push(state.buffer())
            } else {
                old(self).buf_pool@
            }),
    {
        match state {
            ConnState::Reading { buf, .. } => self.recycle_buf(buf),
            ConnState::Writing { buf, .. } => self.recycle_buf(buf),
        }
    }

    /// Notes what the connection with descriptor `fd` is doing, if it is served.
    pub fn insert(&mut self, fd: i32, state: ConnState)
        requires
            old(self).wf(),
            state.wf(),
        ensures
            final(self).wf(),
            final(self).epoll_interest == old(self).epoll_interest,
            final(self).buf_pool == old(self).buf_pool,
            final(self).buf_pool_cap == old(self).buf_pool_cap,
            final(self).slots@ == (if slot_of(fd as int) is Some {
                old(self).slots@.update(fd as int, Some(state))
            } else {
                old(self).slots@
            }),
    {
        if fd < 0 || fd as usize >= MAX_CLIENT_FD {
            return;
        }
        self.slots[fd as usize] = Some(state);
    }

    /// Takes out what the connection with descriptor `fd` is doing.
    pub fn remove(&mut self, fd: i32) -> (r: Option<ConnState>)
        requires
            old(self).wf(),
        ensures
            final(self).wf(),
            final(self).epoll_interest == old(self).epoll_interest,
            final(self).buf_pool == old(self).buf_pool,
            final(self).buf_pool_cap == old(self).buf_pool_cap,
            r == old(self).state_at(fd as int),
            r matches Some(state) ==> state.wf(),
            final(self).slots@ == (if slot_of(fd as int) is Some {
                old(self).slots@.update(fd as int, None)
            } else {
                old(self).slots@
            }),
    {
        if fd < 0 || fd as usize >= self.slots.len() {
            return None;
        }
        let mut taken: Option<ConnState> = None;
        self.slots.set_and_swap(fd as usize, &mut taken);
        taken
    }
}

/// How many bytes the responses have together.
pub open spec fn total_length(responses: Seq<&'static [u8]>) -> nat
    decreases responses.len(),
{
    if responses.len() == 0 {
        0
    } else {
        total_length(responses.drop_last()) + responses.last()@.len()
    }
}

/// Up to 64 responses that go out together.
pub struct ResponseBatch {
    pub items: [&'static [u8]; MAX_PIPELINED_RESPONSES],
    pub len: usize,
}

impl View for ResponseBatch {
    type V = Seq<&'static [u8]>;

    open spec fn view(&self) -> Seq<&'static [u8]> {
        self.items@.take(self.len as int)
    }
}

impl ResponseBatch {
    pub open spec fn wf(self) -> bool {
        self.len <= MAX_PIPELINED_RESPONSES
    }

    /// No responses.
    pub fn new() -> (r: Self)
        ensures
            r.wf(),
            r@ == Seq::<&'static [u8]>::empty(),
    {
        let none: &'static [u8] = "".as_bytes();
        let r = ResponseBatch { items: [none; MAX_PIPELINED_RESPONSES], len: 0 };
        assert(r@ =~= Seq::<&'static [u8]>::empty());
        r
    }

    /// One response.
    pub fn single(response: &'static [u8]) -> (r: Self)
        ensures
            r.wf(),
            r@ == seq![response],
    {
        let mut batch = Self::new();
        let _ = batch.push(response);
        assert(batch@ =~= seq![response]);
        batch
    }

    /// Adds a response; tells whether there was room for it.
    pub fn push(&mut self, response: &'static [u8]) -> (r: bool)
        requires
            old(self).wf(),
        ensures
            final(self).wf(),
            r == (old(self)@.len() < MAX_PIPELINED_RESPONSES),
            final(self)@ == (if r {
                old(self)@.push(response)
            } else {
                old(self)@
            }),
    {
        if self.len == MAX_PIPELINED_RESPONSES {
            return false;
        }
        self.items[self.len] = response;
        self.len = self.len + 1;
        assert(self@ =~= old(self)@.push(response));
        true
    }

    /// Tells whether there are no responses.
    pub fn is_empty(&self) -> (r: bool)
        requires
            self.wf(),
        ensures
            r == (self@.len() == 0),
    {
        self.len == 0
    }

    /// The responses.
    pub fn as_slice(&self) -> (r: &[&'static [u8]])
        requires
            self.wf(),
        ensures
            r@ == self@,
    {
        let r = &self.items[0..self.len];
        assert(r@ =~= self@);
        r
    }

    /// How many bytes the responses have together.
    pub fn total_len(&self) -> (r: usize)
        requires
            self.wf(),
            total_length(self@) <= usize::MAX,
        ensures
            r == total_length(self@),
    {
        total_len(self.as_slice())
    }
}

proof fn lemma_total_length_take(responses: Seq<&'static [u8]>, n: int)
    requires
        0 <= n <= responses.len(),
    ensures
        total_length(responses.take(n)) <= total_length(responses),
    decreases responses.len(),
{
    if n < responses.len() {
        assert(responses.take(n) =~= responses.drop_last().take(n));
        lemma_total_length_take(responses.drop_last(), n);
    } else {
        assert(responses.take(n) =~= responses);
    }
}

/// How many bytes the responses have together.
pub fn total_len(responses: &[&'static [u8]]) -> (r: usize)
    requires
        total_length(responses@) <= usize::MAX,
    ensures
        r == total_length(responses@),
{
    let mut total: usize = 0;
    let mut i: usize = 0;
    while i < responses.len()
        invariant
            i <= responses@.len(),
            total == total_length(responses@.take(i as int)),
            total_length(responses@) <= usize::MAX,
        decreases responses@.len() - i,
    {
        proof {
            assert(responses@.take(i + 1).drop_last() =~= responses@.take(i as int));
            lemma_total_length_take(responses@, i + 1);
        }
        total = total + responses[i].len();
        i = i + 1;
    }
    assert(responses@.take(responses@.len() as int) =~= responses@);
    total
}

} // verus!
