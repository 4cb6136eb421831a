//! The state of the service, and the sockets of its workers.

use vstd::prelude::*;
use vstd::string::StringExecFns;

use crate::settings;
use crate::text;

verus! {

/// Whether the service is ready, and whether it already takes the requests that warm it up.
#[derive(Clone, Copy, Debug, PartialEq, Eq, Structural)]
pub struct Readiness {
    pub ready: bool,
    pub accepts_warmup: bool,
}

impl Readiness {
    /// Transactions are scored.
    pub open spec fn serves_fraud(self) -> bool {
        self.ready || self.accepts_warmup
    }

    /// Not ready.
    pub fn new() -> (r: Self)
        ensures
            !r.ready,
            !r.accepts_warmup,
    {
        Readiness { ready: false, accepts_warmup: false }
    }

    /// Whether the service is ready.
    pub fn is_ready(&self) -> (r: bool)
        ensures
            r == self.ready,
    {
        self.ready
    }

    /// Whether transactions are scored.
    pub fn can_serve_fraud(&self) -> (r: bool)
        ensures
            r == self.serves_fraud(),
    {
        self.is_ready() || self.accept_warmup()
    }

    /// Sets whether requests that warm the service up are taken.
    pub fn set_accept_warmup(&mut self, value: bool)
        ensures
            final(self).accepts_warmup == value,
            final(self).ready == old(self).ready,
    {
        self.accepts_warmup = value;
    }

    /// Whether requests that warm the service up are taken.
    pub fn accept_warmup(&self) -> (r: bool)
        ensures
            r == self.accepts_warmup,
    {
        self.accepts_warmup
    }

    /// The state in which the service starts to listen: ready, or warming itself up.
    pub fn start(&mut self, self_warmup: bool)
        ensures
            final(self).ready == (old(self).ready || !self_warmup),
            final(self).accepts_warmup == (old(self).accepts_warmup || self_warmup),
    {
        if self_warmup {
            self.set_accept_warmup(true);
        } else {
            self.ready = true;
        }
    }

    /// The service has warmed itself up.
    pub fn finish_warmup(&mut self)
        ensures
            final(self).ready,
            !final(self).accepts_warmup,
    {
        self.set_accept_warmup(false);
        self.ready = true;
    }
}

/// How many workers there are: the number in `API_WORKERS` where it is positive, else one.
pub fn worker_count(value: Option<&str>) -> (r: usize)
    ensures
        r == (match settings::unsigned_value(settings::said(value), usize::MAX as nat) {
            Some(n) => if n > 0 {
                n
            } else {
                1
            },
            None => 1,
        }),
        r > 0,
{
    match settings::unsigned_number(value, usize::MAX as u64) {
        Some(n) => {
            if n > 0 {
                n as usize
            } else {
                1
            }
        },
        None => 1,
    }
}

/// The name of a worker's socket: one worker's has no number.
pub open spec fn socket_name(prefix: Seq<char>, workers: int, worker: nat) -> Seq<char> {
    if workers == 1 {
        prefix + ".sock"@
    } else {
        prefix + "-w"@ + text::decimal(worker) + ".sock"@
    }
}

/// The name of a worker's socket.
pub fn worker_socket_path(prefix: &str, workers: usize, worker: usize) -> (r: String)
    ensures
        r@ == socket_name(prefix@, workers as int, worker as nat),
{
    let mut path = String::from_str(prefix);
    if workers != 1 {
        path.append("-w");
        text::push_decimal(&mut path, worker as u64);
    }
    path.append(".sock");
    path
}

/// What the names of the workers' sockets begin with: `API_SOCKET_PREFIX`, or, where there is a
/// directory for sockets, this host's name in it.
pub open spec fn chosen_prefix(
    prefix: Option<Seq<char>>,
    sockets_dir: bool,
    hostname: Option<Seq<char>>,
) -> Option<Seq<char>> {
    match prefix {
        Some(p) => Some(p),
        None => if !sockets_dir {
            None
        } else {
            match hostname {
                Some(name) => if name.len() > 0 {
                    Some("/sockets/"@ + name)
                } else {
                    Some("/sockets/api1"@)
                },
                None => Some("/sockets/api1"@),
            }
        },
    }
}

/// What the names of the workers' sockets begin with, if they are to be used.
pub fn api_socket_prefix(
    prefix: Option<&str>,
    sockets_dir: bool,
    hostname: Option<&str>,
) -> (r: Option<String>)
    ensures
        match r {
            Some(s) => chosen_prefix(
                settings::said(prefix),
                sockets_dir,
                settings::said(hostname),
            ) == Some(s@),
            None => chosen_prefix(
                settings::said(prefix),
                sockets_dir,
                settings::said(hostname),
            ) is None,
        },
{
    match prefix {
        Some(p) => Some(String::from_str(p)),
        None => {
            if !sockets_dir {
                return None;
            }
            match hostname {
                Some(name) => {
                    if name.unicode_len() > 0 {
                        let mut s = String::from_str("/sockets/");
                        s.append(name);
                        Some(s)
                    } else {
                        Some(String::from_str("/sockets/api1"))
                    }
                },
                None => Some(String::from_str("/sockets/api1")),
            }
        },
    }
}

} // verus!
