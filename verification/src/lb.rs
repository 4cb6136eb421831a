//! The load balancer: its settings, and which worker gets a connection.

use vstd::prelude::*;
use vstd::string::StringExecFns;

use crate::settings;
use crate::text;

verus! {

/// The port that is listened on unless another one is set.
pub const STANDARD_PORT: u16 = 9999;

/// How many connections may wait unless another number is set.
pub const DEFAULT_QUEUE_DEPTH: i32 = 65_535;

/// How many connections are taken at a time unless another number is set.
pub const DEFAULT_BATCH_LIMIT: usize = 128;

/// The workers' sockets unless others are set.
pub const DEFAULT_UPSTREAM_PATHS: &'static str = "/sockets/api1.sock,/sockets/api2.sock";

/// The most workers that are used.
pub const MAX_UPSTREAM_NODES: usize = 32;

/// A worker with a processor of its own.
#[derive(Clone, Debug, PartialEq, Eq)]
pub struct WorkerSpec {
    pub cpu: usize,
    pub socket_path: String,
}

/// A worker's processor and socket as an entry says them, or why it does not.
pub open spec fn entry_of(entry: Seq<char>) -> Result<(nat, Seq<char>), Seq<char>> {
    let e = text::trimmed(entry);
    let colon = text::position(e, ':') as int;
    let path = e.skip(colon + 1);
    if colon >= e.len() {
        Err("entry '"@ + e + "' must be cpu:/socket"@)
    } else {
        match text::unsigned(e.take(colon), usize::MAX as nat) {
            None => Err("entry '"@ + e + "' has invalid CPU"@),
            Some(cpu) => if path.len() == 0 || path[0] != '/' {
                Err("entry '"@ + e + "' must use an absolute socket path"@)
            } else {
                Ok((cpu, path))
            },
        }
    }
}

/// The first `n` entries as far as they are right; the first one that is not, decides.
pub open spec fn entries_of(entries: Seq<Seq<char>>, n: nat) -> Result<
    Seq<(nat, Seq<char>)>,
    Seq<char>,
>
    decreases n,
{
    if n == 0 {
        Ok(Seq::empty())
    } else {
        match entries_of(entries, (n - 1) as nat) {
            Err(e) => Err(e),
            Ok(specs) => match entry_of(entries[n - 1]) {
                Err(e) => Err(e),
                Ok(spec) => Ok(specs.push(spec)),
            },
        }
    }
}

/// The workers that a text lists, or why it does not.
pub open spec fn worker_map_of(value: Seq<char>) -> Result<Seq<(nat, Seq<char>)>, Seq<char>> {
    let t = text::trimmed(value);
    if t.len() == 0 {
        Ok(Seq::empty())
    } else {
        let entries = text::parts(t, ',');
        entries_of(entries, entries.len())
    }
}

/// What workers are.
pub open spec fn specs_view(specs: Seq<WorkerSpec>) -> Seq<(nat, Seq<char>)> {
    specs.map_values(|s: WorkerSpec| (s.cpu as nat, s.socket_path@))
}

/// Once an entry is wrong, the whole is.
proof fn lemma_wrong_entry(entries: Seq<Seq<char>>, n: nat, m: nat)
    requires
        n <= m,
        entries_of(entries, n) is Err,
    ensures
        entries_of(entries, m) == entries_of(entries, n),
    decreases m,
{
    if n < m {
        lemma_wrong_entry(entries, n, (m - 1) as nat);
    }
}

/// The complaint about an entry.
fn complaint(entry: &str, text: &str) -> (r: String)
    ensures
        r@ == "entry '"@ + entry@ + text@,
{
    let mut s = String::from_str("entry '");
    s.append(entry);
    s.append(text);
    s
}

/// A worker's processor and socket as an entry says them.
fn parse_entry(entry: &str) -> (r: Result<WorkerSpec, String>)
    ensures
        match r {
            Ok(spec) => entry_of(entry@) == Ok::<(nat, Seq<char>), Seq<char>>(
                (spec.cpu as nat, spec.socket_path@),
            ),
            Err(e) => entry_of(entry@) == Err::<(nat, Seq<char>), Seq<char>>(e@),
        },
{
    let ghost whole = entry@;
    let entry = text::trim(entry);
    let ghost colon = text::position(entry@, ':') as int;
    match text::split_once(entry, ':') {
        None => Err(complaint(entry, "' must be cpu:/socket")),
        Some((cpu, socket_path)) => {
            assert(cpu@ == entry@.take(colon) && socket_path@ == entry@.skip(colon + 1));
            match text::parse_unsigned(cpu, usize::MAX as u64) {
                None => Err(complaint(entry, "' has invalid CPU")),
                Some(n) => {
                    if socket_path.unicode_len() == 0 || socket_path.get_char(0) != '/' {
                        Err(complaint(entry, "' must use an absolute socket path"))
                    } else {
                        let spec = WorkerSpec {
                            cpu: n as usize,
                            socket_path: String::from_str(socket_path),
                        };
                        assert(text::unsigned(cpu@, usize::MAX as nat) == Some(spec.cpu as nat));
                        assert(entry_of(whole) == Ok::<(nat, Seq<char>), Seq<char>>(
                            (spec.cpu as nat, spec.socket_path@),
                        ));
                        Ok(spec)
                    }
                },
            }
        },
    }
}

/// The workers that a text lists: entries of the form `cpu:/socket`, with commas between them.
pub fn parse_worker_map(value: &str) -> (r: Result<Vec<WorkerSpec>, String>)
    ensures
        match r {
            Ok(specs) => worker_map_of(value@) == Ok::<Seq<(nat, Seq<char>)>, Seq<char>>(
                specs_view(specs@),
            ),
            Err(e) => worker_map_of(value@) == Err::<Seq<(nat, Seq<char>)>, Seq<char>>(e@),
        },
{
    let list = text::trim(value);
    let mut specs: Vec<WorkerSpec> = Vec::new();
    if list.unicode_len() == 0 {
        assert(specs_view(specs@) =~= Seq::<(nat, Seq<char>)>::empty());
        return Ok(specs);
    }
    let ghost entries = text::parts(list@, ',');
    let listed = text::split(list, ',');
    let mut i: usize = 0;
    assert(specs_view(specs@) =~= Seq::<(nat, Seq<char>)>::empty());
    while i < listed.len()
        invariant
            i <= listed@.len(),
            listed@.len() == entries.len(),
            forall|k: int| 0 <= k < listed@.len() ==> (#[trigger] listed@[k])@ == entries[k],
            entries_of(entries, i as nat) == Ok::<Seq<(nat, Seq<char>)>, Seq<char>>(
                specs_view(specs@),
            ),
            worker_map_of(value@) == entries_of(entries, entries.len()),
        decreases listed@.len() - i,
    {
        match parse_entry(listed[i]) {
            Ok(spec) => {
                let ghost before = specs@;
                specs.push(spec);
                assert(specs_view(specs@) =~= specs_view(before).push(
                    (spec.cpu as nat, spec.socket_path@),
                ));
            },
            Err(e) => {
                proof {
                    assert(entries_of(entries, (i + 1) as nat) == Err::<
                        Seq<(nat, Seq<char>)>,
                        Seq<char>,
                    >(e@));
                    lemma_wrong_entry(entries, (i + 1) as nat, entries.len());
                }
                return Err(e);
            },
        }
        i = i + 1;
    }
    Ok(specs)
}

/// The first `n` parts of a list of sockets, trimmed, without the empty ones, as far as they are
/// used.
pub open spec fn upstreams_of(parts: Seq<Seq<char>>, n: nat) -> Seq<Seq<char>>
    decreases n,
{
    if n == 0 {
        Seq::empty()
    } else {
        let kept = upstreams_of(parts, (n - 1) as nat);
        let path = text::trimmed(parts[n - 1]);
        if path.len() > 0 && kept.len() < MAX_UPSTREAM_NODES {
            kept.push(path)
        } else {
            kept
        }
    }
}

/// The sockets that a list names.
pub open spec fn upstream_list(value: Seq<char>) -> Seq<Seq<char>> {
    let parts = text::parts(value, ',');
    upstreams_of(parts, parts.len())
}

/// What texts say.
pub open spec fn texts_view(texts: Seq<String>) -> Seq<Seq<char>> {
    texts.map_values(|s: String| s@)
}

/// The sockets that a list names.
pub fn parse_upstreams(value: &str) -> (r: Vec<String>)
    ensures
        texts_view(r@) == upstream_list(value@),
        r@.len() <= MAX_UPSTREAM_NODES,
{
    let ghost parts = text::parts(value@, ',');
    let listed = text::split(value, ',');
    let mut r: Vec<String> = Vec::new();
    let mut i: usize = 0;
    assert(texts_view(r@) =~= Seq::<Seq<char>>::empty());
    while i < listed.len()
        invariant
            i <= listed@.len(),
            listed@.len() == parts.len(),
            forall|k: int| 0 <= k < listed@.len() ==> (#[trigger] listed@[k])@ == parts[k],
            texts_view(r@) == upstreams_of(parts, i as nat),
            r@.len() <= MAX_UPSTREAM_NODES,
        decreases listed@.len() - i,
    {
        let path = text::trim(listed[i]);
        assert(texts_view(r@).len() == r@.len());
        if path.unicode_len() > 0 && r.len() < MAX_UPSTREAM_NODES {
            let ghost before = r@;
            r.push(String::from_str(path));
            assert(texts_view(r@) =~= texts_view(before).push(path@));
        }
        i = i + 1;
    }
    r
}

/// The settings of the load balancer.
#[derive(Clone, Debug)]
pub struct ProxySettings {
    pub listen_port: u16,
    pub queue_depth: i32,
    pub batch_limit: usize,
    pub upstream_paths: Vec<String>,
    pub worker_map: Vec<WorkerSpec>,
}

impl ProxySettings {
    /// The settings from the texts of `API_SOCKETS`, `LB_PORT`, `LB_BACKLOG`, `LB_ACCEPT_BATCH` and
    /// `LB_WORKER_MAP`; an error where the last one is wrong.
    pub fn from_values(
        api_sockets: Option<&str>,
        port: Option<&str>,
        backlog: Option<&str>,
        accept_batch: Option<&str>,
        worker_map: Option<&str>,
    ) -> (r: Result<Self, String>)
        ensures
            ({
                let map = match settings::said(worker_map) {
                    Some(s) => worker_map_of(s),
                    None => Ok(Seq::empty()),
                };
                match r {
                    Ok(s) => {
                        &&& s.listen_port == settings::unsigned_or(
                            settings::said(port),
                            0xffff,
                            STANDARD_PORT as nat,
                        )
                        &&& s.queue_depth == (match settings::signed_value(
                            settings::said(backlog),
                            i32::MAX as int,
                        ) {
                            Some(n) => n,
                            None => DEFAULT_QUEUE_DEPTH as int,
                        })
                        &&& s.batch_limit == settings::unsigned_or(
                            settings::said(accept_batch),
                            usize::MAX as nat,
                            DEFAULT_BATCH_LIMIT as nat,
                        )
                        &&& texts_view(s.upstream_paths@) == upstream_list(
                            match settings::said(api_sockets) {
                                Some(list) => list,
                                None => DEFAULT_UPSTREAM_PATHS@,
                            },
                        )
                        &&& map == Ok::<Seq<(nat, Seq<char>)>, Seq<char>>(
                            specs_view(s.worker_map@),
                        )
                    },
                    Err(e) => map == Err::<Seq<(nat, Seq<char>)>, Seq<char>>(e@),
                }
            }),
    {
        let worker_map = match worker_map {
            Some(s) => {
                match parse_worker_map(s) {
                    Ok(specs) => specs,
                    Err(e) => {
                        return Err(e);
                    },
                }
            },
            None => {
                let none: Vec<WorkerSpec> = Vec::new();
                assert(specs_view(none@) =~= Seq::<(nat, Seq<char>)>::empty());
                none
            },
        };
        let upstream_paths = match api_sockets {
            Some(list) => parse_upstreams(list),
            None => parse_upstreams(DEFAULT_UPSTREAM_PATHS),
        };
        let queue_depth: i32 = match settings::signed_number(backlog, i32::MAX as i64) {
            Some(n) => n as i32,
            None => DEFAULT_QUEUE_DEPTH,
        };
        Ok(
            ProxySettings {
                listen_port: settings::number_or(port, 0xffff, STANDARD_PORT as u64) as u16,
                queue_depth,
                batch_limit: settings::number_or(
                    accept_batch,
                    usize::MAX as u64,
                    DEFAULT_BATCH_LIMIT as u64,
                ) as usize,
                upstream_paths,
                worker_map,
            },
        )
    }
}

/// Whose turn it is among the workers.
#[derive(Clone, Copy, Debug, PartialEq, Eq, Structural)]
pub struct Rotation {
    pub cursor: usize,
    pub count: usize,
}

impl Rotation {
    pub open spec fn wf(self) -> bool {
        self.cursor < self.count
    }

    /// The first of `count` workers is next.
    pub fn new(count: usize) -> (r: Self)
        requires
            count > 0,
        ensures
            r.wf(),
            r.cursor == 0,
            r.count == count,
    {
        Rotation { cursor: 0, count }
    }

    /// Whose turn it is; the next one is next.
    pub fn advance(&mut self) -> (r: usize)
        requires
            old(self).wf(),
        ensures
            final(self).wf(),
            r == old(self).cursor,
            final(self).count == old(self).count,
            final(self).cursor == (old(self).cursor + 1) % old(self).count as int,
    {
        let start: usize = self.cursor;
        proof {
            if start + 1 == self.count {
                vstd::arithmetic::div_mod::lemma_mod_self_0(self.count as int);
            } else {
                vstd::arithmetic::div_mod::lemma_small_mod((start + 1) as nat, self.count as nat);
            }
        }
        self.cursor = if start + 1 == self.count {
            0
        } else {
            start + 1
        };
        start
    }
}

/// An attempt to hand a connection to a worker.
#[derive(Clone, Copy, Debug, PartialEq, Eq, Structural)]
pub enum Attempt {
    /// Without waiting.
    Try { position: usize },
    /// Waiting for as long as it takes; the last attempt.
    Insist { position: usize },
}

/// What is done next with connections that come in.
#[derive(Clone, Copy, Debug, PartialEq, Eq, Structural)]
pub enum AcceptNext {
    /// The next one is taken in.
    Accept,
    /// The batch is over, and the next one begins.
    NextBatch,
    /// There was none to take in: the next one is waited for.
    Wait,
}

/// What is done next after `processed` connections of a batch, where the last attempt to take one in
/// succeeded or not: the batch goes on as long as it does and the limit is not reached.
pub fn after_accept(processed: usize, limit: usize, accepted: bool) -> (r: AcceptNext)
    ensures
        r == AcceptNext::Accept <==> accepted && processed < limit,
        r == AcceptNext::NextBatch <==> !(accepted && processed < limit) && processed > 0,
        r == AcceptNext::Wait <==> !(accepted && processed < limit) && processed == 0,
{
    if accepted && processed < limit {
        AcceptNext::Accept
    } else if processed > 0 {
        AcceptNext::NextBatch
    } else {
        AcceptNext::Wait
    }
}

/// The worker that is tried after `tried` others, from `start` on.
pub open spec fn turn(start: int, tried: int, count: int) -> int {
    (start + tried) % count
}

/// Which worker is tried next: each in turn from `start` on, and in the end `start` again.
pub fn next_attempt(start: usize, tried: usize, count: usize) -> (r: Attempt)
    requires
        start < count,
        tried <= count,
    ensures
        tried < count ==> (r matches Attempt::Try { position } && position == turn(
            start as int,
            tried as int,
            count as int,
        ) && position < count),
        tried == count ==> r == (Attempt::Insist { position: start }),
{
    if tried == count {
        return Attempt::Insist { position: start };
    }
    let left: usize = count - start;
    let position: usize = if tried < left {
        start + tried
    } else {
        tried - left
    };
    proof {
        if tried < left {
            vstd::arithmetic::div_mod::lemma_small_mod((start + tried) as nat, count as nat);
        } else {
            vstd::arithmetic::div_mod::lemma_mod_add_multiples_vanish(
                tried - left,
                count as int,
            );
            assert(start + tried == count + (tried - left));
            vstd::arithmetic::div_mod::lemma_small_mod((tried - left) as nat, count as nat);
        }
    }
    Attempt::Try { position }
}

/// Every worker gets its turn, and no worker gets two before the others had theirs.
pub proof fn law_every_worker_is_tried_once(start: int, count: int, worker: int)
    requires
        0 <= start < count,
        0 <= worker < count,
    ensures
        exists|tried: int| 0 <= tried < count && #[trigger] turn(start, tried, count) == worker,
        forall|a: int, b: int|
            0 <= a < count && 0 <= b < count && #[trigger] turn(start, a, count) == worker
                && #[trigger] turn(start, b, count) == worker ==> a == b,
{
    let tried = if worker >= start {
        worker - start
    } else {
        worker - start + count
    };
    assert(turn(start, tried, count) == worker) by (nonlinear_arith)
        requires
            0 <= worker < count,
            start + tried == worker || start + tried == worker + count,
            turn(start, tried, count) == (start + tried) % count,
    ;
    assert forall|a: int, b: int|
        0 <= a < count && 0 <= b < count && #[trigger] turn(start, a, count) == worker
            && #[trigger] turn(start, b, count) == worker implies a == b by {
        let x = start + a;
        let y = start + b;
        assert(a == b) by (nonlinear_arith)
            requires
                0 <= a < count,
                0 <= b < count,
                x == start + a,
                y == start + b,
                x % count == worker,
                y % count == worker,
        ;
    }
}

/// What became of handing over a connection.
#[derive(Clone, Copy, Debug, PartialEq, Eq, Structural)]
pub enum Transfer {
    Sent,
    /// The worker's queue is full.
    WouldBlock,
    Failed,
}

/// What to do after an attempt.
#[derive(Clone, Copy, Debug, PartialEq, Eq, Structural)]
pub enum Route {
    Done,
    GiveUp,
    /// Connect to the worker again, and try once more.
    Reconnect,
}

/// What to do after an attempt: a full queue is no reason to connect again where one does not wait,
/// and one connects again only once.
pub fn after_transfer(result: Transfer, async_mode: bool, reconnected: bool) -> (r: Route)
    ensures
        r == (if result == Transfer::Sent {
            Route::Done
        } else if reconnected || (async_mode && result == Transfer::WouldBlock) {
            Route::GiveUp
        } else {
            Route::Reconnect
        }),
{
    match result {
        Transfer::Sent => Route::Done,
        Transfer::WouldBlock => {
            if reconnected || async_mode {
                Route::GiveUp
            } else {
                Route::Reconnect
            }
        },
        Transfer::Failed => {
            if reconnected {
                Route::GiveUp
            } else {
                Route::Reconnect
            }
        },
    }
}

} // verus!
