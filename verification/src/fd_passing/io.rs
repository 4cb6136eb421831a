//! Reading from a client until there is nothing more to read.

use vstd::prelude::*;

use crate::http::parser::BUF_SIZE;

verus! {

/// What reading from a client has come to.
#[derive(Clone, Copy, Debug, PartialEq, Eq, Structural)]
pub enum ReadOutcome {
    /// The buffer's first so many bytes have come.
    Data(usize),
    /// Nothing has come, and nothing can be read now.
    WouldBlock,
    /// The connection is closed or broken.
    Closed,
}

/// What came of an attempt to read.
#[derive(Clone, Copy, Debug, PartialEq, Eq, Structural)]
pub enum ReadEvent {
    /// So many bytes, at least one.
    Got(usize),
    /// The peer sends no more, or the buffer is full.
    End,
    /// Nothing can be read now.
    WouldBlock,
    /// The connection is broken.
    Failed,
}

/// What to do after an attempt to read.
#[derive(Clone, Copy, Debug, PartialEq, Eq, Structural)]
pub enum ReadStep {
    /// Read on, behind the first so many bytes.
    More(usize),
    Done(ReadOutcome),
}

/// Decides what to do after an attempt to read behind the first `used` bytes of a buffer: read on
/// until the buffer is full or there is nothing more, and keep what has come.
pub fn greedy_read(used: usize, event: ReadEvent) -> (r: ReadStep)
    requires
        used <= BUF_SIZE,
        event matches ReadEvent::Got(count) ==> count <= BUF_SIZE - used,
    ensures
        r == (match event {
            ReadEvent::Got(count) => if used + count >= BUF_SIZE {
                ReadStep::Done(ReadOutcome::Data((used + count) as usize))
            } else {
                ReadStep::More((used + count) as usize)
            },
            ReadEvent::End => if used > 0 {
                ReadStep::Done(ReadOutcome::Data(used))
            } else {
                ReadStep::Done(ReadOutcome::Closed)
            },
            ReadEvent::WouldBlock => if used > 0 {
                ReadStep::Done(ReadOutcome::Data(used))
            } else {
                ReadStep::Done(ReadOutcome::WouldBlock)
            },
            ReadEvent::Failed => ReadStep::Done(ReadOutcome::Closed),
        }),
        r matches ReadStep::More(next) ==> next < BUF_SIZE,
        r matches ReadStep::Done(ReadOutcome::Data(next)) ==> 0 < next <= BUF_SIZE || used == 0,
{
    match event {
        ReadEvent::Got(count) => {
            let next: usize = used + count;
            if next >= BUF_SIZE {
                ReadStep::Done(ReadOutcome::Data(next))
            } else {
                ReadStep::More(next)
            }
        },
        ReadEvent::End => {
            if used > 0 {
                ReadStep::Done(ReadOutcome::Data(used))
            } else {
                ReadStep::Done(ReadOutcome::Closed)
            }
        },
        ReadEvent::WouldBlock => {
            if used > 0 {
                ReadStep::Done(ReadOutcome::Data(used))
            } else {
                ReadStep::Done(ReadOutcome::WouldBlock)
            }
        },
        ReadEvent::Failed => ReadStep::Done(ReadOutcome::Closed),
    }
}

/// The longest path of a socket, with its closing zero.
pub const SOCKET_PATH_SIZE: usize = 108;

/// Tells whether `path` can be the path of a socket.
pub fn socket_path_fits(path: &[u8]) -> (r: bool)
    ensures
        r == (0 < path@.len() < SOCKET_PATH_SIZE),
{
    path.len() > 0 && path.len() < SOCKET_PATH_SIZE
}

} // verus!
