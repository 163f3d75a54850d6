//! Connection registry and mixing engine for the relay.
//!
//! The registry tracks one record per peer address: when the peer was last
//! heard, the outgoing sequence counter, and the peer's jitter buffer. Each
//! tick the relay purges stale peers, drains every buffer, and mixes for
//! each peer the sum of all other peers' drained streams, zero-extended to
//! the longest stream. Time enters as a caller-supplied millisecond count;
//! the caller sends the datagrams this module builds.

use crate::audio_buffer::{AudioBuffer, SEQ_REF_LIMIT};
use crate::datagram::{next_seq, spec_encode, Datagram, DatagramModel, DatagramType, PayloadModel};
use vstd::arithmetic::div_mod::{
    lemma_add_mod_noop, lemma_mod_bound, lemma_mod_multiples_vanish, lemma_small_mod,
};
use vstd::prelude::*;

verus! {

/// A transport endpoint identity: an opaque comparable key.
#[derive(Debug, Clone, Copy, PartialEq, Eq, Structural)]
pub struct PeerAddr {
    pub ip: u128,
    pub port: u16,
}

/// One connected peer: its address, when it was last heard, its inbound
/// jitter buffer, and the outgoing sequence counter.
#[derive(Debug)]
pub struct Client {
    pub addr: PeerAddr,
    pub last_message: u64,
    pub audio_buffer: AudioBuffer,
    pub seq: u16,
}

/// A record as `connect` creates it: heard `now`, counter at zero, buffer
/// empty with the sequence reference at its initial value.
pub open spec fn fresh_client(c: Client, addr: PeerAddr, now: u64) -> bool {
    &&& c.addr == addr
    &&& c.last_message == now
    &&& c.seq == 0
    &&& c.audio_buffer.wf()
    &&& c.audio_buffer.seq_ref() == 0
    &&& c.audio_buffer.pending_entries() == Seq::<(int, Seq<u32>)>::empty()
    &&& c.audio_buffer.samples() == Seq::<u32>::empty()
}

/// Some record in `s` has address `addr`.
pub open spec fn has_addr(s: Seq<Client>, addr: PeerAddr) -> bool {
    exists|i: int| 0 <= i < s.len() && (#[trigger] s[i]).addr == addr
}

/// No two records share an address.
pub open spec fn addrs_distinct(s: Seq<Client>) -> bool {
    forall|i: int, j: int| 0 <= i < j < s.len() ==> s[i].addr != s[j].addr
}

/// A record survives a purge at `now` when its last message is within the
/// timeout.
pub open spec fn live(c: Client, now: u64, timeout: u64) -> bool {
    c.last_message + timeout >= now
}

/// What refreshing liveness for `addr` at `now` does to the records: the
/// matching record's `last_message` becomes `now`, everything else stays.
pub open spec fn spec_heartbeat(s: Seq<Client>, addr: PeerAddr, now: u64) -> Seq<Client> {
    s.map_values(
        |c: Client|
            if c.addr == addr {
                Client { addr: c.addr, last_message: now, audio_buffer: c.audio_buffer, seq: c.seq }
            } else {
                c
            },
    )
}

/// What a purge at `now` does to the records: every record whose last
/// message is older than the timeout is dropped, the rest keep their order.
pub open spec fn spec_purge(s: Seq<Client>, now: u64, timeout: u64) -> Seq<Client>
    decreases s.len(),
{
    if s.len() == 0 {
        Seq::empty()
    } else if live(s[0], now, timeout) {
        seq![s[0]] + spec_purge(s.drop_first(), now, timeout)
    } else {
        spec_purge(s.drop_first(), now, timeout)
    }
}

impl Client {
    /// A fresh record for `addr`, heard `now`.
    fn new(addr: PeerAddr, now: u64) -> (r: Client)
        ensures
            fresh_client(r, addr, now),
    {
        Client { addr, last_message: now, audio_buffer: AudioBuffer::new(), seq: 0 }
    }
}

/// The registry of connected peers. The relay owns exactly one.
pub struct ConnectionManager {
    pub connections: Vec<Client>,
}

impl ConnectionManager {
    /// The records, in registration order.
    pub open spec fn clients(&self) -> Seq<Client> {
        self.connections@
    }

    /// Well-formed: addresses are unique and every buffer is well-formed.
    pub open spec fn wf(&self) -> bool {
        &&& addrs_distinct(self.connections@)
        &&& forall|i: int|
            0 <= i < self.connections@.len() ==> (
            #[trigger] self.connections@[i]).audio_buffer.wf()
    }

    /// An empty registry.
    pub fn new() -> (r: ConnectionManager)
        ensures
            r.wf(),
            r.clients() == Seq::<Client>::empty(),
    {
        let r = ConnectionManager { connections: Vec::new() };
        proof {
            assert(r.clients() =~= Seq::<Client>::empty());
        }
        r
    }

    /// The position of the record for `addr`, if one exists.
    pub fn client_index(&self, addr: PeerAddr) -> (r: Option<usize>)
        ensures
            match r {
                Some(i) => i < self.clients().len() && self.clients()[i as int].addr == addr,
                None => !has_addr(self.clients(), addr),
            },
    {
        let mut i: usize = 0;
        while i < self.connections.len()
            invariant
                i <= self.connections@.len(),
                forall|j: int| 0 <= j < i ==> (#[trigger] self.connections@[j]).addr != addr,
            decreases self.connections@.len() - i,
        {
            if self.connections[i].addr == addr {
                return Some(i);
            }
            i = i + 1;
        }
        None
    }

    /// Registers `addr`: a new record if the address is absent, a fresh
    /// record in place of the old one if it is already present — a repeated
    /// `Connect` resets the peer rather than failing.
    pub fn connect(&mut self, addr: PeerAddr, now: u64)
        requires
            old(self).wf(),
        ensures
            final(self).wf(),
            !has_addr(old(self).clients(), addr) ==> {
                &&& final(self).clients().len() == old(self).clients().len() + 1
                &&& final(self).clients().take(old(self).clients().len() as int) == old(
                    self,
                ).clients()
                &&& fresh_client(final(self).clients().last(), addr, now)
            },
            has_addr(old(self).clients(), addr) ==> exists|i: int|
                {
                    &&& 0 <= i < old(self).clients().len()
                    &&& old(self).clients()[i].addr == addr
                    &&& fresh_client(#[trigger] final(self).clients()[i], addr, now)
                    &&& final(self).clients() == old(self).clients().update(
                        i,
                        final(self).clients()[i],
                    )
                },
    {
        let ghost pre = self.connections@;
        match self.client_index(addr) {
            Some(i) => {
                self.connections.remove(i);
                self.connections.insert(i, Client::new(addr, now));
                proof {
                    assert(self.connections@ =~= pre.update(i as int, self.connections@[i as int]));
                    assert(0 <= (i as int) && (i as int) < pre.len() && pre[i as int].addr == addr
                        && fresh_client(self.connections@[i as int], addr, now)
                        && self.connections@ == pre.update(
                        i as int,
                        self.connections@[i as int],
                    ));
                    assert(exists|j: int|
                        {
                            &&& 0 <= j < pre.len()
                            &&& pre[j].addr == addr
                            &&& fresh_client(#[trigger] self.clients()[j], addr, now)
                            &&& self.clients() == pre.update(j, self.clients()[j])
                        }) by {
                        assert(self.clients()[i as int] == self.connections@[i as int]);
                    }
                }
            },
            None => {
                self.connections.push(Client::new(addr, now));
                proof {
                    assert(self.connections@.take(pre.len() as int) =~= pre);
                }
            },
        }
    }

    /// Refreshes liveness for `addr`; a no-op when the address is unknown.
    pub fn heartbeat(&mut self, src: PeerAddr, now: u64)
        requires
            old(self).wf(),
        ensures
            final(self).wf(),
            final(self).clients() == spec_heartbeat(old(self).clients(), src, now),
    {
        let ghost pre = self.connections@;
        match self.client_index(src) {
            Some(i) => {
                let mut c = self.connections.remove(i);
                c.last_message = now;
                self.connections.insert(i, c);
                proof {
                    assert forall|j: int| 0 <= j < pre.len() implies self.connections@[j]
                        == spec_heartbeat(pre, src, now)[j] by {
                        if j != i {
                            assert(pre[j].addr != src);
                        }
                    }
                    assert(self.connections@ =~= spec_heartbeat(pre, src, now));
                }
            },
            None => {
                proof {
                    assert forall|j: int| 0 <= j < pre.len() implies self.connections@[j]
                        == spec_heartbeat(pre, src, now)[j] by {
                        assert(pre[j].addr != src);
                    }
                    assert(self.connections@ =~= spec_heartbeat(pre, src, now));
                }
            },
        }
    }

    /// Routes an audio chunk to the matching peer's jitter buffer; dropped
    /// silently when the address is unknown — audio alone never creates a
    /// peer.
    pub fn update_audio_buffer(&mut self, src: PeerAddr, seq: u16, data: Vec<u32>)
        requires
            old(self).wf(),
            forall|i: int|
                0 <= i < old(self).clients().len() && (#[trigger] old(self).clients()[i]).addr
                    == src ==> old(self).clients()[i].audio_buffer.seq_ref() <= SEQ_REF_LIMIT,
        ensures
            final(self).wf(),
            !has_addr(old(self).clients(), src) ==> final(self).clients() == old(self).clients(),
            has_addr(old(self).clients(), src) ==> exists|i: int|
                {
                    &&& 0 <= i < old(self).clients().len()
                    &&& old(self).clients()[i].addr == src
                    &&& (#[trigger] final(self).clients()[i]).addr == src
                    &&& final(self).clients()[i].last_message == old(
                        self,
                    ).clients()[i].last_message
                    &&& final(self).clients()[i].seq == old(self).clients()[i].seq
                    &&& AudioBuffer::submitted(
                        old(self).clients()[i].audio_buffer,
                        final(self).clients()[i].audio_buffer,
                        seq,
                        data@,
                    )
                    &&& final(self).clients() == old(self).clients().update(
                        i,
                        final(self).clients()[i],
                    )
                },
    {
        let ghost pre = self.connections@;
        match self.client_index(src) {
            Some(i) => {
                let mut c = self.connections.remove(i);
                c.audio_buffer.submit(seq, data);
                self.connections.insert(i, c);
                proof {
                    assert(self.connections@ =~= pre.update(i as int, self.connections@[i as int]));
                    assert(0 <= (i as int) && (i as int) < pre.len() && pre[i as int].addr == src
                        && self.connections@[i as int].addr == src
                        && self.connections@[i as int].last_message == pre[i as int].last_message
                        && self.connections@[i as int].seq == pre[i as int].seq
                        && AudioBuffer::submitted(
                        pre[i as int].audio_buffer,
                        self.connections@[i as int].audio_buffer,
                        seq,
                        data@,
                    ) && self.connections@ == pre.update(i as int, self.connections@[i as int]));
                    assert(exists|j: int|
                        {
                            &&& 0 <= j < pre.len()
                            &&& pre[j].addr == src
                            &&& (#[trigger] self.clients()[j]).addr == src
                            &&& self.clients()[j].last_message == pre[j].last_message
                            &&& self.clients()[j].seq == pre[j].seq
                            &&& AudioBuffer::submitted(
                                pre[j].audio_buffer,
                                self.clients()[j].audio_buffer,
                                seq,
                                data@,
                            )
                            &&& self.clients() == pre.update(j, self.clients()[j])
                        }) by {
                        assert(self.clients()[i as int] == self.connections@[i as int]);
                    }
                }
            },
            None => {},
        }
    }

    /// Drops every record whose last message is older than `timeout`
    /// relative to `now`, discarding its buffered audio.
    pub fn purge_connections(&mut self, now: u64, timeout: u64)
        requires
            old(self).wf(),
        ensures
            final(self).wf(),
            final(self).clients() == spec_purge(old(self).clients(), now, timeout),
    {
        let ghost pre = self.connections@;
        let mut kept: Vec<Client> = Vec::new();
        proof {
            assert(pre.skip(0) =~= pre);
            assert(kept@ + spec_purge(pre, now, timeout) =~= spec_purge(pre, now, timeout));
        }
        let ghost k: int = 0;
        while self.connections.len() > 0
            invariant
                0 <= k <= pre.len(),
                self.connections@ == pre.skip(k),
                kept@ + spec_purge(pre.skip(k), now, timeout) == spec_purge(pre, now, timeout),
            decreases self.connections@.len(),
        {
            let ghost rest = pre.skip(k);
            let c = self.connections.remove(0);
            proof {
                assert(rest[0] == c);
                assert(rest.drop_first() =~= pre.skip(k + 1));
            }
            let keep = (c.last_message as u128) + (timeout as u128) >= (now as u128);
            if keep {
                let ghost kept_pre = kept@;
                kept.push(c);
                proof {
                    assert(live(c, now, timeout));
                    assert(spec_purge(rest, now, timeout) == seq![c] + spec_purge(
                        pre.skip(k + 1),
                        now,
                        timeout,
                    ));
                    assert(kept_pre + (seq![c] + spec_purge(pre.skip(k + 1), now, timeout)) =~= (
                    kept_pre + seq![c]) + spec_purge(pre.skip(k + 1), now, timeout));
                    assert(kept@ =~= kept_pre + seq![c]);
                }
            } else {
                proof {
                    assert(!live(c, now, timeout));
                }
            }
            proof {
                k = k + 1;
            }
        }
        proof {
            assert(pre.skip(k) =~= Seq::<Client>::empty());
            assert(kept@ + spec_purge(pre.skip(k), now, timeout) =~= kept@);
        }
        self.connections = kept;
        proof {
            lemma_purge_shape(pre, now, timeout);
        }
    }
}

/// A purge keeps only records it was given: addresses stay distinct,
/// every surviving record already existed, and its buffer is untouched.
proof fn lemma_purge_shape(s: Seq<Client>, now: u64, timeout: u64)
    ensures
        addrs_distinct(s) ==> addrs_distinct(spec_purge(s, now, timeout)),
        forall|a: PeerAddr| has_addr(spec_purge(s, now, timeout), a) ==> has_addr(s, a),
        forall|i: int|
            0 <= i < spec_purge(s, now, timeout).len() ==> s.contains(
                #[trigger] spec_purge(s, now, timeout)[i],
            ),
    decreases s.len(),
{
    if s.len() == 0 {
    } else {
        let rest = s.drop_first();
        lemma_purge_shape(rest, now, timeout);
        assert forall|i: int| 0 <= i < rest.len() implies s.contains(rest[i]) by {
            assert(s[i + 1] == rest[i]);
        }
        let p = spec_purge(s, now, timeout);
        let pr = spec_purge(rest, now, timeout);
        assert forall|a: PeerAddr| has_addr(rest, a) implies has_addr(s, a) by {
            let i = choose|i: int| 0 <= i < rest.len() && rest[i].addr == a;
            assert(s[i + 1].addr == a);
        }
        if live(s[0], now, timeout) {
            assert(p == seq![s[0]] + pr);
            if addrs_distinct(s) {
                assert forall|i: int, j: int| 0 <= i < j < p.len() implies p[i].addr != p[j].addr by {
                    if i == 0 {
                        assert(has_addr(pr, p[j].addr)) by {
                            assert(pr[j - 1].addr == p[j].addr);
                        }
                        assert(has_addr(rest, p[j].addr));
                        let w = choose|w: int| 0 <= w < rest.len() && rest[w].addr == p[j].addr;
                        assert(s[w + 1].addr == p[j].addr);
                        assert(s[0].addr != s[w + 1].addr);
                    } else {
                        assert(addrs_distinct(rest)) by {
                            assert forall|x: int, y: int|
                                0 <= x < y < rest.len() implies rest[x].addr != rest[y].addr by {
                                assert(s[x + 1].addr != s[y + 1].addr);
                            }
                        }
                        assert(pr[i - 1].addr != pr[j - 1].addr);
                    }
                }
            }
        } else {
            if addrs_distinct(s) {
                assert(addrs_distinct(rest)) by {
                    assert forall|x: int, y: int|
                        0 <= x < y < rest.len() implies rest[x].addr != rest[y].addr by {
                        assert(s[x + 1].addr != s[y + 1].addr);
                    }
                }
            }
        }
    }
}

/// Purge removes stale peers: when every record for `addr` is past the
/// timeout, no record for `addr` survives the purge.
pub proof fn lemma_purge_removes_stale(s: Seq<Client>, now: u64, timeout: u64, addr: PeerAddr)
    requires
        forall|i: int|
            0 <= i < s.len() && (#[trigger] s[i]).addr == addr ==> !live(s[i], now, timeout),
    ensures
        !has_addr(spec_purge(s, now, timeout), addr),
    decreases s.len(),
{
    if s.len() > 0 {
        let rest = s.drop_first();
        assert forall|i: int| 0 <= i < rest.len() && (#[trigger] rest[i]).addr == addr implies !live(
            rest[i],
            now,
            timeout,
        ) by {
            assert(s[i + 1] == rest[i]);
        }
        lemma_purge_removes_stale(rest, now, timeout, addr);
        if live(s[0], now, timeout) {
            assert(s[0].addr != addr);
            let p = spec_purge(s, now, timeout);
            let pr = spec_purge(rest, now, timeout);
            assert(p == seq![s[0]] + pr);
            assert forall|i: int| 0 <= i < p.len() implies (#[trigger] p[i]).addr != addr by {
                if i > 0 {
                    assert(p[i] == pr[i - 1]);
                    assert(!has_addr(pr, addr));
                }
            }
        }
    }
}

/// Heartbeats prevent purge: a peer heard at `t` survives any purge at a
/// `now` within `t` plus the timeout, so a peer that keeps heartbeating
/// before each purge is never dropped.
pub proof fn lemma_heartbeat_prevents_purge(
    s: Seq<Client>,
    addr: PeerAddr,
    t: u64,
    now: u64,
    timeout: u64,
)
    requires
        has_addr(s, addr),
        now <= t + timeout,
    ensures
        has_addr(spec_purge(spec_heartbeat(s, addr, t), now, timeout), addr),
    decreases s.len(),
{
    let h = spec_heartbeat(s, addr, t);
    assert(h.len() == s.len());
    if s[0].addr == addr {
        assert(h[0].last_message == t);
        assert(live(h[0], now, timeout));
        let p = spec_purge(h, now, timeout);
        assert(h[0] == (spec_purge(h, now, timeout))[0]) by {
            assert(p == seq![h[0]] + spec_purge(h.drop_first(), now, timeout));
        }
        assert(p[0].addr == addr);
    } else {
        let rest = s.drop_first();
        assert(has_addr(rest, addr)) by {
            let i = choose|i: int| 0 <= i < s.len() && s[i].addr == addr;
            assert(i > 0);
            assert(rest[i - 1].addr == addr);
        }
        lemma_heartbeat_prevents_purge(rest, addr, t, now, timeout);
        assert(h.drop_first() =~= spec_heartbeat(rest, addr, t));
        let p = spec_purge(h, now, timeout);
        let pr = spec_purge(spec_heartbeat(rest, addr, t), now, timeout);
        let w = choose|w: int| 0 <= w < pr.len() && pr[w].addr == addr;
        if live(h[0], now, timeout) {
            assert(p == seq![h[0]] + pr);
            assert(p[w + 1].addr == addr);
        } else {
            assert(p == pr);
        }
    }
}

/// The sample a stream contributes at position `i`: its own word there, or
/// silence where the stream has already ended.
pub open spec fn sample_at(s: Seq<u32>, i: int) -> int {
    if 0 <= i < s.len() {
        s[i] as int
    } else {
        0
    }
}

/// Sum of the contributions at position `i` from the streams before `q`,
/// skipping stream `p` — the recipient's own voice is never mixed into its
/// own output.
pub open spec fn other_sum(streams: Seq<Seq<u32>>, p: int, i: int, q: int) -> int
    decreases q,
{
    if q <= 0 {
        0
    } else {
        other_sum(streams, p, i, q - 1) + if q - 1 == p {
            0
        } else {
            sample_at(streams[q - 1], i)
        }
    }
}

/// Length of the longest stream; every output is zero-extended to it.
pub open spec fn max_len(streams: Seq<Seq<u32>>) -> int
    decreases streams.len(),
{
    if streams.len() == 0 {
        0
    } else {
        let rest = max_len(streams.drop_first());
        if streams[0].len() > rest {
            streams[0].len() as int
        } else {
            rest
        }
    }
}

/// The output word for recipient `p` at position `i`: the sum of every
/// other stream's contribution there, reduced to a 32-bit word.
pub open spec fn mix_at(streams: Seq<Seq<u32>>, p: int, i: int) -> u32 {
    (other_sum(streams, p, i, streams.len() as int) % 0x1_0000_0000) as u32
}

/// The whole output stream for recipient `p`.
pub open spec fn mix_stream(streams: Seq<Seq<u32>>, p: int) -> Seq<u32> {
    Seq::new(max_len(streams) as nat, |i: int| mix_at(streams, p, i))
}

/// The contents of a run of sample vectors.
pub open spec fn views_of(s: Seq<Vec<u32>>) -> Seq<Seq<u32>> {
    s.map_values(|v: Vec<u32>| v@)
}

/// The streams a tick drains: every record's owed samples, in registry
/// order.
pub open spec fn drained(s: Seq<Client>) -> Seq<Seq<u32>> {
    s.map_values(|c: Client| c.audio_buffer.samples())
}

/// `max_len` bounds every stream and is reached by one of them (or is zero).
proof fn lemma_max_len_bounds(streams: Seq<Seq<u32>>)
    ensures
        0 <= max_len(streams),
        forall|j: int| 0 <= j < streams.len() ==> (#[trigger] streams[j]).len() <= max_len(streams),
        max_len(streams) == 0 || exists|j: int|
            0 <= j < streams.len() && (#[trigger] streams[j]).len() == max_len(streams),
    decreases streams.len(),
{
    if streams.len() > 0 {
        let rest = streams.drop_first();
        lemma_max_len_bounds(rest);
        assert forall|j: int| 0 <= j < streams.len() implies (#[trigger] streams[j]).len()
            <= max_len(streams) by {
            if j > 0 {
                assert(streams[j] == rest[j - 1]);
            }
        }
        if max_len(streams) != 0 {
            if streams[0].len() > max_len(rest) {
                assert(streams[0].len() == max_len(streams));
            } else {
                let w = choose|w: int| 0 <= w < rest.len() && rest[w].len() == max_len(rest);
                assert(streams[w + 1].len() == max_len(streams));
            }
        }
    }
}

/// Partial other-sums are non-negative.
proof fn lemma_other_sum_nonneg(streams: Seq<Seq<u32>>, p: int, i: int, q: int)
    ensures
        0 <= other_sum(streams, p, i, q),
    decreases q,
{
    if q > 0 {
        lemma_other_sum_nonneg(streams, p, i, q - 1);
    }
}

/// One step of 32-bit wrapping accumulation agrees with the mathematical
/// sum reduced modulo the word size.
proof fn lemma_wrap_sum(a: int, c: int)
    requires
        0 <= a,
        0 <= c < 0x1_0000_0000,
    ensures
        (a % 0x1_0000_0000) + c <= u32::MAX ==> (a + c) % 0x1_0000_0000 == (a % 0x1_0000_0000) + c,
        (a % 0x1_0000_0000) + c > u32::MAX ==> (a + c) % 0x1_0000_0000 == (a % 0x1_0000_0000) + c
            - 0x1_0000_0000,
{
    let m = 0x1_0000_0000int;
    lemma_add_mod_noop(a, c, m);
    lemma_small_mod(c as nat, m as nat);
    lemma_mod_bound(a, m);
    let r = a % m;
    if r + c <= u32::MAX {
        lemma_small_mod((r + c) as nat, m as nat);
    } else {
        lemma_mod_multiples_vanish(1, r + c - m, m);
        lemma_small_mod((r + c - m) as nat, m as nat);
    }
}

/// Replacing recipient `p`'s own stream never changes what `p` hears:
/// its own voice is excluded from its own mix.
pub proof fn lemma_mix_excludes_self(streams: Seq<Seq<u32>>, other: Seq<u32>, p: int, i: int)
    requires
        0 <= p < streams.len(),
    ensures
        mix_at(streams.update(p, other), p, i) == mix_at(streams, p, i),
{
    lemma_other_sum_update(streams, other, p, i, streams.len() as int);
}

/// Partial other-sums ignore the recipient's own stream.
proof fn lemma_other_sum_update(streams: Seq<Seq<u32>>, other: Seq<u32>, p: int, i: int, q: int)
    requires
        0 <= p < streams.len(),
        q <= streams.len(),
    ensures
        other_sum(streams.update(p, other), p, i, q) == other_sum(streams, p, i, q),
    decreases q,
{
    if q > 0 {
        lemma_other_sum_update(streams, other, p, i, q - 1);
        if q - 1 != p {
            assert(streams.update(p, other)[q - 1] == streams[q - 1]);
        }
    }
}

/// Drains every sample a buffer holds, in play-out order.
fn drain_buffer(buf: &mut AudioBuffer) -> (r: Vec<u32>)
    requires
        old(buf).wf(),
    ensures
        final(buf).wf(),
        final(buf).seq_ref() == old(buf).seq_ref(),
        r@ == old(buf).samples(),
        final(buf).samples() == Seq::<u32>::empty(),
{
    let mut out: Vec<u32> = Vec::new();
    proof {
        assert(out@ + buf.samples() =~= buf.samples());
    }
    loop
        invariant
            buf.wf(),
            buf.seq_ref() == old(buf).seq_ref(),
            out@ + buf.samples() == old(buf).samples(),
        ensures
            buf.wf(),
            buf.seq_ref() == old(buf).seq_ref(),
            out@ == old(buf).samples(),
            buf.samples() == Seq::<u32>::empty(),
        decreases buf.samples().len(),
    {
        let ghost pre_samples = buf.samples();
        let ghost pre_out = out@;
        match buf.next_sample() {
            Some(s) => {
                out.push(s);
                proof {
                    assert(out@ + buf.samples() =~= pre_out + pre_samples);
                }
            },
            None => {
                proof {
                    assert(out@ + buf.samples() =~= out@);
                }
                break ;
            },
        }
    }
    out
}

impl ConnectionManager {
    /// Empties every peer's jitter buffer and returns the drained streams,
    /// one per record, in registry order.
    pub fn gather_samples(&mut self) -> (r: Vec<Vec<u32>>)
        requires
            old(self).wf(),
        ensures
            final(self).wf(),
            r@.len() == old(self).clients().len(),
            final(self).clients().len() == old(self).clients().len(),
            views_of(r@) == drained(old(self).clients()),
            forall|j: int|
                0 <= j < final(self).clients().len() ==> {
                    let c = #[trigger] final(self).clients()[j];
                    let o = old(self).clients()[j];
                    &&& c.addr == o.addr
                    &&& c.last_message == o.last_message
                    &&& c.seq == o.seq
                    &&& c.audio_buffer.wf()
                    &&& c.audio_buffer.seq_ref() == o.audio_buffer.seq_ref()
                    &&& c.audio_buffer.samples() == Seq::<u32>::empty()
                },
    {
        let ghost pre = self.connections@;
        let mut out: Vec<Vec<u32>> = Vec::new();
        let n = self.connections.len();
        let mut i: usize = 0;
        while i < n
            invariant
                i <= n,
                n == self.connections@.len(),
                n == pre.len(),
                forall|j: int|
                    0 <= j < pre.len() ==> (#[trigger] pre[j]).audio_buffer.wf(),
                out@.len() == i,
                forall|j: int|
                    0 <= j < i ==> (#[trigger] out@[j])@ == pre[j].audio_buffer.samples(),
                forall|j: int| i <= j < pre.len() ==> #[trigger] self.connections@[j] == pre[j],
                forall|j: int|
                    0 <= j < i ==> {
                        let c = #[trigger] self.connections@[j];
                        let o = pre[j];
                        &&& c.addr == o.addr
                        &&& c.last_message == o.last_message
                        &&& c.seq == o.seq
                        &&& c.audio_buffer.wf()
                        &&& c.audio_buffer.seq_ref() == o.audio_buffer.seq_ref()
                        &&& c.audio_buffer.samples() == Seq::<u32>::empty()
                    },
            decreases n - i,
        {
            let ghost mid = self.connections@;
            let mut c = self.connections.remove(i);
            let chunk = drain_buffer(&mut c.audio_buffer);
            self.connections.insert(i, c);
            out.push(chunk);
            proof {
                assert(self.connections@ =~= mid.update(i as int, self.connections@[i as int]));
            }
            i = i + 1;
        }
        proof {
            assert(views_of(out@) =~= drained(pre));
            assert forall|a: int, b: int|
                0 <= a < b < self.connections@.len() implies self.connections@[a].addr
                != self.connections@[b].addr by {
            }
        }
        out
    }

    /// Computes every recipient's output stream from the drained streams:
    /// all outputs share the longest stream's length, and position `i` of
    /// recipient `p`'s output is the sum of every other stream's word there
    /// (zero where a stream has ended), reduced to a 32-bit word.
    pub fn mix_samples(&self, samples: Vec<Vec<u32>>) -> (r: Vec<Vec<u32>>)
        ensures
            r@.len() == samples@.len(),
            forall|p: int|
                0 <= p < r@.len() ==> (#[trigger] r@[p])@ == mix_stream(views_of(samples@), p),
    {
        let ghost streams = views_of(samples@);
        let n = samples.len();
        let mut m: usize = 0;
        let mut i: usize = 0;
        while i < n
            invariant
                i <= n,
                n == samples@.len(),
                streams == views_of(samples@),
                forall|j: int| 0 <= j < i ==> (#[trigger] streams[j]).len() <= m,
                m == 0 || exists|j: int|
                    0 <= j < i && (#[trigger] streams[j]).len() == m,
            decreases n - i,
        {
            if samples[i].len() > m {
                m = samples[i].len();
                proof {
                    assert(streams[i as int].len() == m);
                }
            }
            i = i + 1;
        }
        proof {
            lemma_max_len_bounds(streams);
            assert(m as int == max_len(streams)) by {
                if m != 0 {
                    let w = choose|w: int| 0 <= w < n && (#[trigger] streams[w]).len() == m;
                    assert(streams[w].len() <= max_len(streams));
                }
                if max_len(streams) != 0 {
                    let w = choose|w: int|
                        0 <= w < streams.len() && (#[trigger] streams[w]).len() == max_len(streams);
                    assert(streams[w].len() <= m);
                }
            }
        }
        let mut out: Vec<Vec<u32>> = Vec::new();
        let mut p: usize = 0;
        while p < n
            invariant
                p <= n,
                n == samples@.len(),
                streams == views_of(samples@),
                m as int == max_len(streams),
                out@.len() == p,
                forall|t: int| 0 <= t < p ==> (#[trigger] out@[t])@ == mix_stream(streams, t),
            decreases n - p,
        {
            let mut row: Vec<u32> = Vec::new();
            let mut k: usize = 0;
            while k < m
                invariant
                    k <= m,
                    p < n,
                    n == samples@.len(),
                    streams == views_of(samples@),
                    m as int == max_len(streams),
                    row@.len() == k,
                    forall|t: int| 0 <= t < k ==> row@[t] == mix_at(streams, p as int, t),
                decreases m - k,
            {
                let mut acc: u32 = 0;
                let mut q: usize = 0;
                while q < n
                    invariant
                        q <= n,
                        p < n,
                        n == samples@.len(),
                        streams == views_of(samples@),
                        acc as int == other_sum(streams, p as int, k as int, q as int)
                            % 0x1_0000_0000,
                    decreases n - q,
                {
                    let ghost sum_q = other_sum(streams, p as int, k as int, q as int);
                    if q != p {
                        let s = if k < samples[q].len() {
                            samples[q][k]
                        } else {
                            0
                        };
                        proof {
                            assert(streams[q as int] == samples@[q as int]@);
                            assert(s as int == sample_at(streams[q as int], k as int));
                            assert(other_sum(streams, p as int, k as int, q as int + 1) == sum_q
                                + s);
                            lemma_other_sum_nonneg(streams, p as int, k as int, q as int);
                            lemma_wrap_sum(sum_q, s as int);
                        }
                        acc = acc.wrapping_add(s);
                    } else {
                        proof {
                            assert(other_sum(streams, p as int, k as int, q as int + 1) == sum_q);
                        }
                    }
                    q = q + 1;
                }
                row.push(acc);
                k = k + 1;
            }
            proof {
                assert(row@ =~= mix_stream(streams, p as int));
            }
            out.push(row);
            p = p + 1;
        }
        out
    }

    /// One outgoing tick: drains every buffer, mixes each recipient's
    /// output, stamps it with the recipient's outgoing sequence number,
    /// advances that counter, and returns the encoded datagram for each
    /// peer's address. The caller puts each buffer on the wire; a send
    /// failure for one peer never touches the others' datagrams.
    pub fn send_audio(&mut self) -> (r: Vec<(PeerAddr, Vec<u8>)>)
        requires
            old(self).wf(),
        ensures
            final(self).wf(),
            r@.len() == old(self).clients().len(),
            final(self).clients().len() == old(self).clients().len(),
            forall|j: int|
                0 <= j < r@.len() ==> (#[trigger] r@[j]).0 == old(self).clients()[j].addr,
            forall|j: int|
                0 <= j < r@.len() ==> (#[trigger] r@[j]).1@ == spec_encode(
                    (DatagramModel {
                        seq: old(self).clients()[j].seq,
                        payload: PayloadModel::Audio(
                            mix_stream(drained(old(self).clients()), j),
                        ),
                    }),
                ),
            forall|j: int|
                0 <= j < final(self).clients().len() ==> {
                    let c = #[trigger] final(self).clients()[j];
                    let o = old(self).clients()[j];
                    &&& c.addr == o.addr
                    &&& c.last_message == o.last_message
                    &&& c.seq == next_seq(o.seq)
                    &&& c.audio_buffer.wf()
                    &&& c.audio_buffer.seq_ref() == o.audio_buffer.seq_ref()
                    &&& c.audio_buffer.samples() == Seq::<u32>::empty()
                },
    {
        let ghost pre = self.connections@;
        let streams = self.gather_samples();
        proof {
            assert(views_of(streams@) == drained(pre));
        }
        let mut mixed = self.mix_samples(streams);
        let ghost mix0 = mixed@;
        let ghost mid = self.connections@;
        let mut out: Vec<(PeerAddr, Vec<u8>)> = Vec::new();
        let n = self.connections.len();
        let mut i: usize = 0;
        proof {
            assert(mixed@ =~= mix0.skip(0));
        }
        while i < n
            invariant
                i <= n,
                n == self.connections@.len(),
                n == mid.len(),
                n == mix0.len(),
                mixed@ == mix0.skip(i as int),
                out@.len() == i,
                forall|j: int| 0 <= j < n ==> (#[trigger] mix0[j])@ == mix_stream(
                    drained(pre),
                    j,
                ),
                forall|j: int|
                    0 <= j < i ==> (#[trigger] out@[j]).0 == mid[j].addr,
                forall|j: int|
                    0 <= j < i ==> (#[trigger] out@[j]).1@ == spec_encode(
                        (DatagramModel {
                            seq: mid[j].seq,
                            payload: PayloadModel::Audio(mix_stream(drained(pre), j)),
                        }),
                    ),
                forall|j: int| i <= j < n ==> #[trigger] self.connections@[j] == mid[j],
                forall|j: int|
                    0 <= j < i ==> {
                        let c = #[trigger] self.connections@[j];
                        let o = mid[j];
                        &&& c.addr == o.addr
                        &&& c.last_message == o.last_message
                        &&& c.seq == next_seq(o.seq)
                        &&& c.audio_buffer == o.audio_buffer
                    },
            decreases n - i,
        {
            let ghost step = self.connections@;
            let mut c = self.connections.remove(i);
            let chunk = mixed.remove(0);
            proof {
                assert(chunk@ == mix0[i as int]@);
                assert(mixed@ =~= mix0.skip(i + 1));
            }
            let d = Datagram::new(c.seq, DatagramType::Audio(chunk));
            let bytes = d.to_bytes();
            proof {
                assert(d@ == (DatagramModel {
                    seq: mid[i as int].seq,
                    payload: PayloadModel::Audio(mix_stream(drained(pre), i as int)),
                })) by {
                    assert(d@.payload =~= PayloadModel::Audio(mix_stream(drained(pre), i as int)));
                }
            }
            out.push((c.addr, bytes));
            c.seq = c.seq.wrapping_add(1);
            self.connections.insert(i, c);
            proof {
                assert(self.connections@ =~= step.update(i as int, self.connections@[i as int]));
            }
            i = i + 1;
        }
        proof {
            assert forall|a: int, b: int|
                0 <= a < b < self.connections@.len() implies self.connections@[a].addr
                != self.connections@[b].addr by {
            }
        }
        out
    }
}

} // verus!
