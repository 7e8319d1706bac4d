//! The UDP tracker client: URL parsing, the connect/announce wire messages,
//! and the handshake modeled as an explicit state machine.
//!
//! The state machine is pure: the caller owns the socket and the clock. It
//! feeds received packets and expired deadlines in, and performs the
//! actions (send a datagram, keep waiting, give up) that come back. A
//! response whose transaction id does not match is discarded — the machine
//! keeps waiting — while a response of the wrong size or action fails the
//! attempt. The retry backoff for attempt `n` is `15 * 2^n` seconds,
//! retried through attempt 8 before failing.

use crate::peers::{parse_peers, Peer};
use crate::wire::{
    be32, be64, push_slice, push_u16_be, push_u32_be, push_u64_be, read_u32_be, read_u64_be,
    u16_to_be, u32_to_be, u64_to_be,
};
use vstd::arithmetic::power2::{lemma2_to64, pow2};
use vstd::prelude::*;
use vstd::string::StrSliceExecFns;

verus! {

/// Failures of the tracker client.
#[derive(Debug, Clone, Copy, PartialEq, Eq, Structural)]
pub enum TrackerError {
    UrlMalformed,
    DnsResolutionFailed,
    ConnectTimeout,
    AnnounceTimeout,
    MalformedResponse,
    PeerListMalformed,
}

/// Relies on `rand::random`: transaction ids and the per-session key are
/// drawn from 32 bits of randomness; nothing is assumed of the value.
pub assume_specification<T>[ rand::random::<T> ]() -> (r: T)
    where
        rand::distr::StandardUniform: rand::distr::Distribution<T>,
;

/// Does the URL start with `http://`?
pub open spec fn has_http_prefix(u: Seq<char>) -> bool {
    u.len() >= 7 && u[0] == 'h' && u[1] == 't' && u[2] == 't' && u[3] == 'p' && u[4] == ':'
        && u[5] == '/' && u[6] == '/'
}

/// The first position at or after `from` holding `c`, or the length of `u`
/// when none does.
pub open spec fn find_from(u: Seq<char>, from: int, c: char) -> int
    decreases u.len() - from,
{
    if from < 0 || from >= u.len() {
        u.len() as int
    } else if u[from] == c {
        from
    } else {
        find_from(u, from + 1, c)
    }
}

/// Is every character in `[from, to)` a decimal digit?
pub open spec fn all_digits(u: Seq<char>, from: int, to: int) -> bool {
    forall|i: int| from <= i < to ==> '0' <= #[trigger] u[i] && u[i] <= '9'
}

/// The value of the decimal digits `u[from..to]`.
pub open spec fn digits_val(u: Seq<char>, from: int, to: int) -> int
    decreases to - from,
{
    if from >= to {
        0
    } else {
        digits_val(u, from, to - 1) * 10 + ((u[to - 1] as u32) - 48)
    }
}

proof fn lemma_digits_val_nonneg(u: Seq<char>, from: int, to: int)
    requires
        all_digits(u, from, to),
    ensures
        digits_val(u, from, to) >= 0,
    decreases to - from,
{
    if from < to {
        lemma_digits_val_nonneg(u, from, to - 1);
    }
}

proof fn lemma_digits_val_monotone(u: Seq<char>, from: int, t1: int, t2: int)
    requires
        from <= t1 <= t2,
        all_digits(u, from, t2),
    ensures
        digits_val(u, from, t1) <= digits_val(u, from, t2),
    decreases t2 - t1,
{
    if t1 < t2 {
        lemma_digits_val_monotone(u, from, t1, t2 - 1);
        lemma_digits_val_nonneg(u, from, t2 - 1);
    }
}

/// The first position at or after `from` holding `c`, scanning forward.
fn find_char(url: &str, from: usize, c: char) -> (r: usize)
    requires
        from <= url@.len(),
    ensures
        r as int == find_from(url@, from as int, c),
        from <= r <= url@.len(),
{
    let ghost u = url@;
    let n = url.unicode_len();
    let mut i = from;
    while i < n
        invariant
            from <= i <= n,
            n == u.len(),
            u == url@,
            find_from(u, from as int, c) == find_from(u, i as int, c),
        decreases n - i,
    {
        if url.get_char(i) == c {
            return i;
        }
        i = i + 1;
    }
    n
}

/// Splits a tracker URL of the form `http://host[:port]/path` into host,
/// port (6969 when absent) and path. The port must be one to five decimal
/// digits and at most 65535; anything else is `UrlMalformed`.
#[verifier::loop_isolation(false)]
pub fn parse_url(url: &str) -> (r: Result<(String, u16, String), TrackerError>)
    ensures
        ({
            let u = url@;
            let slash = find_from(u, 7, '/');
            let colon = find_from(u, 7, ':');
            &&& (r is Ok <==> has_http_prefix(u) && (colon < slash ==> (colon + 1 < slash
                && all_digits(u, colon + 1, slash) && digits_val(u, colon + 1, slash) <= 65535)))
            &&& (r matches Err(e) ==> e == TrackerError::UrlMalformed)
            &&& (r matches Ok(hp) ==> {
                &&& hp.0@ == u.subrange(
                    7,
                    if colon < slash {
                        colon
                    } else {
                        slash
                    },
                )
                &&& hp.1 as int == (if colon < slash {
                    digits_val(u, colon + 1, slash)
                } else {
                    6969int
                })
                &&& hp.2@ == (if slash < u.len() {
                    u.subrange(slash + 1, u.len() as int)
                } else {
                    Seq::<char>::empty()
                })
            })
        }),
{
    let ghost u = url@;
    let n = url.unicode_len();
    if n < 7 {
        return Err(TrackerError::UrlMalformed);
    }
    if url.get_char(0) != 'h' || url.get_char(1) != 't' || url.get_char(2) != 't' || url.get_char(3)
        != 'p' || url.get_char(4) != ':' || url.get_char(5) != '/' || url.get_char(6) != '/' {
        return Err(TrackerError::UrlMalformed);
    }
    let slash = find_char(url, 7, '/');
    let colon = find_char(url, 7, ':');
    let mut port: u16 = 6969;
    if colon < slash {
        if colon + 1 >= slash {
            return Err(TrackerError::UrlMalformed);
        }
        let mut acc: u32 = 0;
        let mut k = colon + 1;
        while k < slash
            invariant
                colon + 1 <= k <= slash,
                slash <= u.len(),
                u == url@,
                all_digits(u, colon + 1, k as int),
                acc as int == digits_val(u, colon + 1, k as int),
                acc <= 65535,
            decreases slash - k,
        {
            let c = url.get_char(k);
            if c < '0' || c > '9' {
                return Err(TrackerError::UrlMalformed);
            }
            let d = (c as u32) - 48;
            if acc > 6553 || (acc == 6553 && d > 5) {
                proof {
                    if all_digits(u, colon + 1, slash as int) {
                        lemma_digits_val_monotone(u, colon + 1, k + 1, slash as int);
                    }
                }
                return Err(TrackerError::UrlMalformed);
            }
            acc = acc * 10 + d;
            k = k + 1;
        }
        port = acc as u16;
    }
    let host_end = if colon < slash {
        colon
    } else {
        slash
    };
    let host = url.substring_char(7, host_end).to_owned();
    let path = if slash < n {
        url.substring_char(slash + 1, n).to_owned()
    } else {
        String::new()
    };
    Ok((host, port, path))
}

/// The 16-byte connect request: the protocol magic, action 0, and the
/// transaction id, all big-endian.
pub open spec fn connect_request_bytes(transaction_id: u32) -> Seq<u8> {
    u64_to_be(0x41727101980u64) + u32_to_be(0u32) + u32_to_be(transaction_id)
}

/// Builds the 16-byte connect request.
pub fn build_connect_request(transaction_id: u32) -> (r: Vec<u8>)
    ensures
        r@ == connect_request_bytes(transaction_id),
        r@.len() == 16,
{
    let mut out: Vec<u8> = Vec::new();
    push_u64_be(&mut out, 0x41727101980);
    push_u32_be(&mut out, 0);
    push_u32_be(&mut out, transaction_id);
    proof {
        assert(out@ =~= connect_request_bytes(transaction_id));
    }
    out
}

/// The outcome of examining one datagram while connecting.
#[derive(Debug, Clone, Copy, PartialEq, Eq, Structural)]
pub enum ConnectReply {
    /// A well-formed connect response bearing our transaction id.
    Accepted { connection_id: u64 },
    /// A packet bearing someone else's transaction id: discarded, never
    /// fatal.
    Stale,
    /// A packet of the wrong size or action: the attempt fails.
    Malformed,
}

/// How a datagram is classified while connecting: 16 bytes exactly, the
/// transaction id checked before the action so that stale packets are
/// discarded rather than failing the attempt.
pub open spec fn sconnect_reply(b: Seq<u8>, transaction_id: u32) -> ConnectReply {
    if b.len() != 16 {
        ConnectReply::Malformed
    } else if be32(b.subrange(4, 8)) != transaction_id {
        ConnectReply::Stale
    } else if be32(b.subrange(0, 4)) != 0 {
        ConnectReply::Malformed
    } else {
        ConnectReply::Accepted { connection_id: be64(b.subrange(8, 16)) as u64 }
    }
}

/// Classifies a datagram received while connecting.
pub fn parse_connect_response(buf: &[u8], transaction_id: u32) -> (r: ConnectReply)
    ensures
        r == sconnect_reply(buf@, transaction_id),
{
    if buf.len() != 16 {
        return ConnectReply::Malformed;
    }
    let txid = read_u32_be(buf, 4);
    if txid != transaction_id {
        return ConnectReply::Stale;
    }
    let action = read_u32_be(buf, 0);
    if action != 0 {
        return ConnectReply::Malformed;
    }
    let connection_id = read_u64_be(buf, 8);
    ConnectReply::Accepted { connection_id }
}

/// The 98-byte announce request layout: connection id, action 1,
/// transaction id, info hash, peer id, progress counters, event, ip, key,
/// num_want and port, all big-endian.
pub open spec fn announce_request_bytes(
    connection_id: u64,
    transaction_id: u32,
    info_hash: Seq<u8>,
    peer_id: Seq<u8>,
    downloaded: u64,
    left: u64,
    uploaded: u64,
    event: u32,
    ip: u32,
    key: u32,
    num_want: i32,
    port: u16,
) -> Seq<u8> {
    u64_to_be(connection_id) + u32_to_be(1u32) + u32_to_be(transaction_id) + info_hash + peer_id
        + u64_to_be(downloaded) + u64_to_be(left) + u64_to_be(uploaded) + u32_to_be(event)
        + u32_to_be(ip) + u32_to_be(key) + u32_to_be(num_want as u32) + u16_to_be(port)
}

/// Builds the 98-byte announce request.
pub fn build_announce_request(
    connection_id: u64,
    transaction_id: u32,
    info_hash: &[u8; 20],
    peer_id: &[u8; 20],
    downloaded: u64,
    left: u64,
    uploaded: u64,
    event: u32,
    ip: u32,
    key: u32,
    num_want: i32,
    port: u16,
) -> (r: Vec<u8>)
    ensures
        r@ == announce_request_bytes(
            connection_id,
            transaction_id,
            info_hash@,
            peer_id@,
            downloaded,
            left,
            uploaded,
            event,
            ip,
            key,
            num_want,
            port,
        ),
        r@.len() == 98,
{
    let mut out: Vec<u8> = Vec::new();
    push_u64_be(&mut out, connection_id);
    push_u32_be(&mut out, 1);
    push_u32_be(&mut out, transaction_id);
    push_slice(&mut out, info_hash.as_slice());
    push_slice(&mut out, peer_id.as_slice());
    push_u64_be(&mut out, downloaded);
    push_u64_be(&mut out, left);
    push_u64_be(&mut out, uploaded);
    push_u32_be(&mut out, event);
    push_u32_be(&mut out, ip);
    push_u32_be(&mut out, key);
    push_u32_be(&mut out, num_want as u32);
    push_u16_be(&mut out, port);
    proof {
        assert(out@ =~= announce_request_bytes(
            connection_id,
            transaction_id,
            info_hash@,
            peer_id@,
            downloaded,
            left,
            uploaded,
            event,
            ip,
            key,
            num_want,
            port,
        ));
    }
    out
}

/// Is the datagram a stale announce packet (mismatched transaction id)?
pub open spec fn announce_stale(b: Seq<u8>, transaction_id: u32) -> bool {
    b.len() >= 20 && be32(b.subrange(4, 8)) != transaction_id
}

/// The error a non-stale announce datagram is rejected with, if any: too
/// short or wrong action is a malformed response; a trailing length that is
/// not a multiple of 6 is a malformed peer list.
pub open spec fn sannounce_error(b: Seq<u8>, transaction_id: u32) -> Option<TrackerError> {
    if b.len() < 20 {
        Some(TrackerError::MalformedResponse)
    } else if be32(b.subrange(4, 8)) != transaction_id {
        None
    } else if be32(b.subrange(0, 4)) != 1 {
        Some(TrackerError::MalformedResponse)
    } else if (b.len() - 20) % 6 != 0 {
        Some(TrackerError::PeerListMalformed)
    } else {
        None
    }
}

/// Is the datagram a complete, well-formed announce response for us?
pub open spec fn announce_accepted(b: Seq<u8>, transaction_id: u32) -> bool {
    b.len() >= 20 && be32(b.subrange(4, 8)) == transaction_id && be32(b.subrange(0, 4)) == 1 && (
    b.len() - 20) % 6 == 0
}

/// The outcome of examining one datagram while announcing.
#[derive(Debug, PartialEq)]
pub enum AnnounceReply {
    /// A well-formed announce response: interval, swarm counts and peers.
    Accepted { interval: u32, leechers: u32, seeders: u32, peers: Vec<Peer> },
    /// A packet bearing someone else's transaction id: discarded, never
    /// fatal.
    Stale,
    /// A response of the wrong size, action, or peer-list length.
    Failed { error: TrackerError },
}

/// Classifies a datagram received while announcing and decodes its compact
/// peer list.
pub fn parse_announce_response(buf: &[u8], transaction_id: u32) -> (r: AnnounceReply)
    ensures
        announce_stale(buf@, transaction_id) ==> r == AnnounceReply::Stale,
        sannounce_error(buf@, transaction_id) matches Some(e) ==> r == (AnnounceReply::Failed {
            error: e,
        }),
        announce_accepted(buf@, transaction_id) ==> {
            &&& r matches AnnounceReply::Accepted { interval, leechers, seeders, peers }
            &&& interval as int == be32(buf@.subrange(8, 12))
            &&& leechers as int == be32(buf@.subrange(12, 16))
            &&& seeders as int == be32(buf@.subrange(16, 20))
            &&& peers@.len() == (buf@.len() - 20) / 6
            &&& forall|i: int|
                0 <= i < peers@.len() ==> ((#[trigger] peers@[i]).ip@ == buf@.subrange(
                    20 + 6 * i,
                    20 + 6 * i + 4,
                ) && peers@[i].port as int == 0x100 * buf@[20 + 6 * i + 4] + buf@[20 + 6 * i
                    + 5])
        },
{
    if buf.len() < 20 {
        return AnnounceReply::Failed { error: TrackerError::MalformedResponse };
    }
    let txid = read_u32_be(buf, 4);
    if txid != transaction_id {
        return AnnounceReply::Stale;
    }
    let action = read_u32_be(buf, 0);
    if action != 1 {
        return AnnounceReply::Failed { error: TrackerError::MalformedResponse };
    }
    let tail = vstd::slice::slice_subrange(buf, 20, buf.len());
    match parse_peers(tail) {
        Err(_) => AnnounceReply::Failed { error: TrackerError::PeerListMalformed },
        Ok(peers) => {
            let interval = read_u32_be(buf, 8);
            let leechers = read_u32_be(buf, 12);
            let seeders = read_u32_be(buf, 16);
            proof {
                assert forall|i: int|
                    0 <= i < peers@.len() implies (#[trigger] peers@[i]).ip@ == buf@.subrange(
                    20 + 6 * i,
                    20 + 6 * i + 4,
                ) && peers@[i].port as int == 0x100 * buf@[20 + 6 * i + 4] + buf@[20 + 6 * i
                    + 5] by {
                    assert(peers@[i].ip@ == tail@.subrange(6 * i, 6 * i + 4));
                    assert(tail@.subrange(6 * i, 6 * i + 4) =~= buf@.subrange(
                        20 + 6 * i,
                        20 + 6 * i + 4,
                    ));
                    assert(tail@[6 * i + 4] == buf@[20 + 6 * i + 4]);
                    assert(tail@[6 * i + 5] == buf@[20 + 6 * i + 5]);
                }
            }
            AnnounceReply::Accepted { interval, leechers, seeders, peers }
        },
    }
}

/// The canonical backoff: attempt `n` (0-indexed) waits `15 * 2^n` seconds.
pub fn retry_timeout_secs(attempt: u8) -> (r: u64)
    requires
        attempt <= 8,
    ensures
        r as nat == 15 * pow2(attempt as nat),
{
    proof {
        lemma2_to64();
    }
    match attempt {
        0 => 15,
        1 => 30,
        2 => 60,
        3 => 120,
        4 => 240,
        5 => 480,
        6 => 960,
        7 => 1920,
        _ => 3840,
    }
}

/// The per-session handshake states. `Failed` is terminal and reachable
/// from every non-terminal state.
#[derive(Debug)]
pub enum SessionState {
    Idle,
    Connecting { transaction_id: u32, attempt: u8 },
    Connected { connection_id: u64 },
    Announcing { connection_id: u64, transaction_id: u32, attempt: u8 },
    Completed { interval: u32, leechers: u32, seeders: u32, peers: Vec<Peer> },
    Failed { error: TrackerError },
}

/// What the caller must do after feeding the session an event.
#[derive(Debug)]
pub enum TrackerAction {
    /// Send this datagram and wait up to `timeout_secs` for a reply.
    Send { packet: Vec<u8>, timeout_secs: u64 },
    /// A stale packet was discarded: keep waiting for the current
    /// attempt's deadline.
    KeepWaiting,
    /// The connect phase succeeded: call `announce_now`.
    Proceed,
    /// The peer list is available in the `Completed` state.
    Finished,
    /// The session failed; the error is also recorded in the state.
    Abandoned { error: TrackerError },
}

/// One UDP tracker announce session: an explicit state machine, one
/// instance per announce attempt, owning no socket and no clock.
pub struct TrackerSession {
    pub state: SessionState,
    pub info_hash: [u8; 20],
    pub peer_id: [u8; 20],
    pub port: u16,
    pub key: u32,
}

impl TrackerSession {
    /// The session parameters that never change after construction.
    pub open spec fn same_config(self, other: TrackerSession) -> bool {
        self.info_hash == other.info_hash && self.peer_id == other.peer_id && self.port
            == other.port && self.key == other.key
    }

    /// A fresh idle session for one info hash. The announce key is drawn
    /// once per session from 32 bits of randomness.
    pub fn new(info_hash: [u8; 20], peer_id: [u8; 20], port: u16) -> (r: TrackerSession)
        ensures
            r.state matches SessionState::Idle,
            r.info_hash == info_hash,
            r.peer_id == peer_id,
            r.port == port,
    {
        let key = rand::random::<u32>();
        TrackerSession { state: SessionState::Idle, info_hash, peer_id, port, key }
    }

    /// Enters the connect phase with a fresh 32-bit transaction id; the
    /// first attempt waits 15 seconds.
    pub fn start(&mut self) -> (r: TrackerAction)
        requires
            old(self).state matches SessionState::Idle,
        ensures
            final(self).same_config(*old(self)),
            final(self).state matches SessionState::Connecting { transaction_id, attempt }
                && attempt == 0 && (r matches TrackerAction::Send { packet, timeout_secs }
                && packet@ == connect_request_bytes(transaction_id) && timeout_secs as nat == 15
                * pow2(0)),
    {
        let transaction_id = rand::random::<u32>();
        self.state = SessionState::Connecting { transaction_id, attempt: 0 };
        let packet = build_connect_request(transaction_id);
        let timeout_secs = retry_timeout_secs(0);
        TrackerAction::Send { packet, timeout_secs }
    }

    /// Feeds one received datagram to the session. A stale packet leaves
    /// the state unchanged and the caller keeps waiting; a malformed one
    /// fails the session; a matching response advances the handshake.
    pub fn on_packet(&mut self, buf: &[u8]) -> (r: TrackerAction)
        requires
            old(self).state matches SessionState::Connecting { .. } || old(
                self,
            ).state matches SessionState::Announcing { .. },
        ensures
            final(self).same_config(*old(self)),
            old(self).state matches SessionState::Connecting { transaction_id, attempt }
                ==> match sconnect_reply(buf@, transaction_id) {
                ConnectReply::Stale => final(self).state == old(self).state
                    && r matches TrackerAction::KeepWaiting,
                ConnectReply::Malformed => final(self).state == (SessionState::Failed {
                    error: TrackerError::MalformedResponse,
                }) && (r matches TrackerAction::Abandoned { error } && error
                    == TrackerError::MalformedResponse),
                ConnectReply::Accepted { connection_id } => final(self).state
                    == (SessionState::Connected { connection_id })
                    && r matches TrackerAction::Proceed,
            },
            old(self).state matches SessionState::Announcing {
                connection_id,
                transaction_id,
                attempt,
            } ==> {
                &&& (announce_stale(buf@, transaction_id) ==> final(self).state == old(self).state
                    && r matches TrackerAction::KeepWaiting)
                &&& (sannounce_error(buf@, transaction_id) matches Some(e) ==> final(self).state
                    == (SessionState::Failed { error: e }) && (r
                    matches TrackerAction::Abandoned { error } && error == e))
                &&& announce_accepted(buf@, transaction_id) ==> {
                    &&& final(self).state matches SessionState::Completed {
                        interval,
                        leechers,
                        seeders,
                        peers,
                    }
                    &&& interval as int == be32(buf@.subrange(8, 12))
                    &&& leechers as int == be32(buf@.subrange(12, 16))
                    &&& seeders as int == be32(buf@.subrange(16, 20))
                    &&& peers@.len() == (buf@.len() - 20) / 6
                    &&& forall|i: int|
                        0 <= i < peers@.len() ==> ((#[trigger] peers@[i]).ip@ == buf@.subrange(
                            20 + 6 * i,
                            20 + 6 * i + 4,
                        ) && peers@[i].port as int == 0x100 * buf@[20 + 6 * i + 4] + buf@[20 + 6 * i
                            + 5])
                    &&& r matches TrackerAction::Finished
                }
            },
    {
        let mut connecting = false;
        let mut tx: u32 = 0;
        match &self.state {
            SessionState::Connecting { transaction_id, .. } => {
                connecting = true;
                tx = *transaction_id;
            },
            SessionState::Announcing { transaction_id, .. } => {
                tx = *transaction_id;
            },
            _ => {},
        }
        if connecting {
            match parse_connect_response(buf, tx) {
                ConnectReply::Stale => TrackerAction::KeepWaiting,
                ConnectReply::Malformed => {
                    self.state = SessionState::Failed { error: TrackerError::MalformedResponse };
                    TrackerAction::Abandoned { error: TrackerError::MalformedResponse }
                },
                ConnectReply::Accepted { connection_id } => {
                    self.state = SessionState::Connected { connection_id };
                    TrackerAction::Proceed
                },
            }
        } else {
            match parse_announce_response(buf, tx) {
                AnnounceReply::Stale => TrackerAction::KeepWaiting,
                AnnounceReply::Failed { error } => {
                    self.state = SessionState::Failed { error };
                    TrackerAction::Abandoned { error }
                },
                AnnounceReply::Accepted { interval, leechers, seeders, peers } => {
                    self.state = SessionState::Completed { interval, leechers, seeders, peers };
                    TrackerAction::Finished
                },
            }
        }
    }

    /// Moves a connected session into the announce phase with a fresh
    /// transaction id. The connection id is only valid for a minute from
    /// receipt: when `conn_age_secs` exceeds 60 the session re-enters the
    /// connect phase instead.
    pub fn announce_now(&mut self, conn_age_secs: u64) -> (r: TrackerAction)
        requires
            old(self).state matches SessionState::Connected { .. },
        ensures
            final(self).same_config(*old(self)),
            old(self).state matches SessionState::Connected { connection_id } ==> if conn_age_secs
                > 60 {
                final(self).state matches SessionState::Connecting { transaction_id, attempt }
                    && attempt == 0 && (r matches TrackerAction::Send { packet, timeout_secs }
                    && packet@ == connect_request_bytes(transaction_id) && timeout_secs as nat == 15
                    * pow2(0))
            } else {
                final(self).state matches SessionState::Announcing {
                    connection_id: cid,
                    transaction_id,
                    attempt,
                } && cid == connection_id && attempt == 0 && (r matches TrackerAction::Send {
                    packet,
                    timeout_secs,
                } && packet@ == announce_request_bytes(
                    connection_id,
                    transaction_id,
                    old(self).info_hash@,
                    old(self).peer_id@,
                    0,
                    0,
                    0,
                    0,
                    0,
                    old(self).key,
                    -1i32,
                    old(self).port,
                ) && timeout_secs as nat == 15 * pow2(0))
            },
    {
        let mut connection_id: u64 = 0;
        match &self.state {
            SessionState::Connected { connection_id: cid } => {
                connection_id = *cid;
            },
            _ => {},
        }
        let transaction_id = rand::random::<u32>();
        if conn_age_secs > 60 {
            self.state = SessionState::Connecting { transaction_id, attempt: 0 };
            let packet = build_connect_request(transaction_id);
            TrackerAction::Send { packet, timeout_secs: retry_timeout_secs(0) }
        } else {
            let packet = build_announce_request(
                connection_id,
                transaction_id,
                &self.info_hash,
                &self.peer_id,
                0,
                0,
                0,
                0,
                0,
                self.key,
                -1,
                self.port,
            );
            self.state = SessionState::Announcing { connection_id, transaction_id, attempt: 0 };
            TrackerAction::Send { packet, timeout_secs: retry_timeout_secs(0) }
        }
    }

    /// Handles the expiry of the current attempt's deadline: the attempt
    /// counter advances and the wait doubles (`15 * 2^n` seconds for
    /// attempt `n`) until attempt 8 has also timed out, which fails the
    /// session. An announce retry whose connection id is older than a
    /// minute re-enters the connect phase instead.
    pub fn on_timeout(&mut self, conn_age_secs: u64) -> (r: TrackerAction)
        requires
            old(self).state matches SessionState::Connecting { .. } || old(
                self,
            ).state matches SessionState::Announcing { .. },
        ensures
            final(self).same_config(*old(self)),
            old(self).state matches SessionState::Connecting { transaction_id, attempt }
                ==> if attempt >= 8 {
                final(self).state == (SessionState::Failed {
                    error: TrackerError::ConnectTimeout,
                }) && (r matches TrackerAction::Abandoned { error } && error
                    == TrackerError::ConnectTimeout)
            } else {
                final(self).state == (SessionState::Connecting {
                    transaction_id,
                    attempt: (attempt + 1) as u8,
                }) && (r matches TrackerAction::Send { packet, timeout_secs } && packet@
                    == connect_request_bytes(transaction_id) && timeout_secs as nat == 15 * pow2(
                    (attempt + 1) as nat,
                ))
            },
            old(self).state matches SessionState::Announcing {
                connection_id,
                transaction_id,
                attempt,
            } ==> if attempt >= 8 {
                final(self).state == (SessionState::Failed {
                    error: TrackerError::AnnounceTimeout,
                }) && (r matches TrackerAction::Abandoned { error } && error
                    == TrackerError::AnnounceTimeout)
            } else if conn_age_secs > 60 {
                final(self).state matches SessionState::Connecting { transaction_id: tx2, attempt: a2 }
                    && a2 == 0 && (r matches TrackerAction::Send { packet, timeout_secs } && packet@
                    == connect_request_bytes(tx2) && timeout_secs as nat == 15 * pow2(0))
            } else {
                final(self).state == (SessionState::Announcing {
                    connection_id,
                    transaction_id,
                    attempt: (attempt + 1) as u8,
                }) && (r matches TrackerAction::Send { packet, timeout_secs } && packet@
                    == announce_request_bytes(
                    connection_id,
                    transaction_id,
                    old(self).info_hash@,
                    old(self).peer_id@,
                    0,
                    0,
                    0,
                    0,
                    0,
                    old(self).key,
                    -1i32,
                    old(self).port,
                ) && timeout_secs as nat == 15 * pow2((attempt + 1) as nat))
            },
    {
        let mut connecting = false;
        let mut tx: u32 = 0;
        let mut att: u8 = 0;
        let mut cid: u64 = 0;
        match &self.state {
            SessionState::Connecting { transaction_id, attempt } => {
                connecting = true;
                tx = *transaction_id;
                att = *attempt;
            },
            SessionState::Announcing { connection_id, transaction_id, attempt } => {
                tx = *transaction_id;
                att = *attempt;
                cid = *connection_id;
            },
            _ => {},
        }
        if connecting {
            if att >= 8 {
                self.state = SessionState::Failed { error: TrackerError::ConnectTimeout };
                TrackerAction::Abandoned { error: TrackerError::ConnectTimeout }
            } else {
                self.state = SessionState::Connecting { transaction_id: tx, attempt: att + 1 };
                let packet = build_connect_request(tx);
                TrackerAction::Send { packet, timeout_secs: retry_timeout_secs(att + 1) }
            }
        } else {
            if att >= 8 {
                self.state = SessionState::Failed { error: TrackerError::AnnounceTimeout };
                TrackerAction::Abandoned { error: TrackerError::AnnounceTimeout }
            } else if conn_age_secs > 60 {
                let transaction_id = rand::random::<u32>();
                self.state = SessionState::Connecting { transaction_id, attempt: 0 };
                let packet = build_connect_request(transaction_id);
                TrackerAction::Send { packet, timeout_secs: retry_timeout_secs(0) }
            } else {
                self.state = SessionState::Announcing {
                    connection_id: cid,
                    transaction_id: tx,
                    attempt: att + 1,
                };
                let packet = build_announce_request(
                    cid,
                    tx,
                    &self.info_hash,
                    &self.peer_id,
                    0,
                    0,
                    0,
                    0,
                    0,
                    self.key,
                    -1,
                    self.port,
                );
                TrackerAction::Send { packet, timeout_secs: retry_timeout_secs(att + 1) }
            }
        }
    }
}

} // verus!
