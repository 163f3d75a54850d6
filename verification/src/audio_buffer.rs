//! Per-sender jitter buffer.
//!
//! Chunks of audio sample words arrive tagged with a 16-bit sequence number
//! that wraps. The buffer unwraps that number into a monotone 64-bit key
//! against a sliding reference, stores the chunks in a map ordered by key,
//! and hands the samples back one at a time in key order. The unwrap
//! reference tracks the largest key accepted so far, so the detection window
//! slides forward with the stream.

use vstd::arithmetic::div_mod::{
    lemma_fundamental_div_mod, lemma_mod_multiples_vanish, lemma_small_mod,
};
use vstd::prelude::*;

verus! {

/// Half the 16-bit sequence space: a raw sequence number farther than this
/// from the reference is taken to have wrapped.
pub const WRAP_THRESHOLD: i64 = 16384;

/// Ceiling on the unwrap reference accepted by `submit`. The reference grows
/// by at most one wrap period per submission, so a stream stays far below
/// this bound for any realistic lifetime; the bound only keeps the 64-bit
/// key arithmetic from overflowing.
pub const SEQ_REF_LIMIT: i64 = 0x7fff_ffff_0000_0000;

/// Unwraps a raw 16-bit sequence number against the reference `last`: the
/// raw number is first placed in the reference's wrap period, then moved one
/// period forward or backward when it lies more than half a period behind or
/// ahead of the reference.
pub open spec fn unwrap_seq(last: int, raw: u16) -> int {
    let low = last % 0x1_0000;
    let base = last - low;
    if low - raw > WRAP_THRESHOLD {
        base + raw + 0x1_0000
    } else if low - raw < -(WRAP_THRESHOLD as int) {
        base + raw - 0x1_0000
    } else {
        base + raw
    }
}

/// All samples of a run of keyed chunks, in chunk order.
pub open spec fn concat_chunks(s: Seq<(int, Seq<u32>)>) -> Seq<u32>
    decreases s.len(),
{
    if s.len() == 0 {
        Seq::empty()
    } else {
        s[0].1 + concat_chunks(s.drop_first())
    }
}

/// Total number of samples in a run of keyed chunks.
pub open spec fn pending_total(s: Seq<(int, Seq<u32>)>) -> int
    decreases s.len(),
{
    if s.len() == 0 {
        0
    } else {
        s[0].1.len() + pending_total(s.drop_first())
    }
}

/// Insertion into a run of chunks sorted by key: a chunk with a fresh key
/// takes its place in the order, a chunk with a key already present replaces
/// the chunk stored there (last writer wins).
pub open spec fn spec_insert(s: Seq<(int, Seq<u32>)>, key: int, chunk: Seq<u32>) -> Seq<
    (int, Seq<u32>),
>
    decreases s.len(),
{
    if s.len() == 0 {
        seq![(key, chunk)]
    } else if s[0].0 < key {
        seq![s[0]] + spec_insert(s.drop_first(), key, chunk)
    } else if s[0].0 == key {
        seq![(key, chunk)] + s.drop_first()
    } else {
        seq![(key, chunk)] + s
    }
}

/// Reorders and replays one sender's audio stream.
#[derive(Debug)]
pub struct AudioBuffer {
    /// The largest unwrapped sequence number accepted so far; reference
    /// point for wraparound detection.
    pub last_seq: i64,
    /// The chunk currently being drained.
    pub active: Vec<u32>,
    /// Position of the next unread sample in `active`.
    pub cursor: usize,
    /// Chunks received but not yet opened, keyed by unwrapped sequence
    /// number, keys strictly ascending.
    pub pending: Vec<(i64, Vec<u32>)>,
}

impl AudioBuffer {
    /// The pending map as a run of keyed chunks.
    pub open spec fn pending_entries(&self) -> Seq<(int, Seq<u32>)> {
        self.pending@.map_values(|p: (i64, Vec<u32>)| (p.0 as int, p.1@))
    }

    /// The unwrap reference.
    pub open spec fn seq_ref(&self) -> int {
        self.last_seq as int
    }

    /// The unread part of the open chunk.
    pub open spec fn active_rest(&self) -> Seq<u32> {
        self.active@.skip(self.cursor as int)
    }

    /// Every sample still owed, in play-out order: the rest of the open
    /// chunk, then the pending chunks in key order.
    pub open spec fn samples(&self) -> Seq<u32> {
        self.active_rest() + concat_chunks(self.pending_entries())
    }

    /// Well-formed: the reference is non-negative, the cursor sits inside
    /// the open chunk, and pending keys are strictly ascending.
    pub open spec fn wf(&self) -> bool {
        &&& 0 <= self.last_seq
        &&& self.cursor <= self.active@.len()
        &&& forall|i: int, j: int|
            0 <= i < j < self.pending@.len() ==> self.pending@[i].0 < self.pending@[j].0
    }

    /// What one `submit` call does: the chunk is stored under the unwrapped
    /// key (replacing any chunk already there), the reference advances to
    /// the key if the key is ahead of it, and the open chunk is untouched.
    pub open spec fn submitted(pre: AudioBuffer, post: AudioBuffer, raw: u16, chunk: Seq<u32>) -> bool {
        let key = unwrap_seq(pre.seq_ref(), raw);
        &&& post.pending_entries() == spec_insert(pre.pending_entries(), key, chunk)
        &&& post.seq_ref() == if key > pre.seq_ref() {
            key
        } else {
            pre.seq_ref()
        }
        &&& post.active@ == pre.active@
        &&& post.cursor == pre.cursor
    }

    /// A buffer holding nothing, with the reference at its initial value.
    pub fn new() -> (r: AudioBuffer)
        ensures
            r.wf(),
            r.seq_ref() == 0,
            r.pending_entries() == Seq::<(int, Seq<u32>)>::empty(),
            r.samples() == Seq::<u32>::empty(),
    {
        let r = AudioBuffer { last_seq: 0, active: Vec::new(), cursor: 0, pending: Vec::new() };
        proof {
            assert(r.pending_entries() =~= Seq::<(int, Seq<u32>)>::empty());
            assert(r.samples() =~= Seq::<u32>::empty());
        }
        r
    }

    /// The key that `submit` would store a chunk under, given the current
    /// reference.
    pub fn unwrap_raw(&self, seq: u16) -> (r: i64)
        requires
            self.wf(),
            self.seq_ref() <= SEQ_REF_LIMIT,
        ensures
            r == unwrap_seq(self.seq_ref(), seq),
    {
        let low = self.last_seq % 0x1_0000;
        let base = self.last_seq - low;
        let delta = low - (seq as i64);
        if delta > WRAP_THRESHOLD {
            base + (seq as i64) + 0x1_0000
        } else if delta < -WRAP_THRESHOLD {
            base + (seq as i64) - 0x1_0000
        } else {
            base + (seq as i64)
        }
    }

    /// Stores `audio` under the unwrapped key for `seq` and slides the
    /// reference forward if the key is ahead of it.
    #[verifier::rlimit(50)]
    pub fn submit(&mut self, seq: u16, audio: Vec<u32>)
        requires
            old(self).wf(),
            old(self).seq_ref() <= SEQ_REF_LIMIT,
        ensures
            final(self).wf(),
            AudioBuffer::submitted(*old(self), *final(self), seq, audio@),
    {
        let key = self.unwrap_raw(seq);
        let ghost pre = *self;
        let mut i: usize = self.pending.len();
        while i > 0 && self.pending[i - 1].0 > key
            invariant
                i <= self.pending@.len(),
                forall|j: int| i <= j < self.pending@.len() ==> self.pending@[j].0 > key,
                *self == pre,
            decreases i,
        {
            i = i - 1;
        }
        if i > 0 && self.pending[i - 1].0 == key {
            self.pending.remove(i - 1);
            self.pending.insert(i - 1, (key, audio));
            proof {
                lemma_spec_insert_replaces(pre.pending_entries(), key, audio@, i - 1);
                assert(self.pending_entries() =~= pre.pending_entries().update(
                    i - 1,
                    (key as int, audio@),
                ));
                assert(pre.pending_entries().update(i - 1, (key as int, audio@)) =~= spec_insert(
                    pre.pending_entries(),
                    key as int,
                    audio@,
                ));
            }
        } else {
            self.pending.insert(i, (key, audio));
            proof {
                lemma_spec_insert_at(pre.pending_entries(), key as int, audio@, i as int);
                assert(self.pending_entries() =~= pre.pending_entries().insert(
                    i as int,
                    (key as int, audio@),
                ));
                assert(pre.pending_entries().insert(i as int, (key as int, audio@)) =~= spec_insert(
                    pre.pending_entries(),
                    key as int,
                    audio@,
                ));
            }
        }
        if key > self.last_seq {
            self.last_seq = key;
        }
    }

    /// Forgets all buffered audio and restarts the sequence reference, for a
    /// connection that is dropped and later re-established.
    pub fn clear(&mut self)
        ensures
            final(self).wf(),
            final(self).seq_ref() == 0,
            final(self).pending_entries() == Seq::<(int, Seq<u32>)>::empty(),
            final(self).samples() == Seq::<u32>::empty(),
    {
        self.last_seq = 0;
        self.active = Vec::new();
        self.cursor = 0;
        self.pending = Vec::new();
        proof {
            assert(self.pending_entries() =~= Seq::<(int, Seq<u32>)>::empty());
            assert(self.samples() =~= Seq::<u32>::empty());
        }
    }

    /// Hands out the next sample in key order: the rest of the open chunk
    /// first, then the pending chunks lowest key first. Returns nothing
    /// exactly when the buffer holds no sample at all — the underrun case,
    /// which leaves nothing to return until new audio is submitted.
    pub fn next_sample(&mut self) -> (r: Option<u32>)
        requires
            old(self).wf(),
        ensures
            final(self).wf(),
            final(self).seq_ref() == old(self).seq_ref(),
            old(self).samples().len() > 0 ==> r == Some(old(self).samples()[0])
                && final(self).samples() == old(self).samples().drop_first(),
            old(self).samples().len() == 0 ==> r is None && final(self).samples() == Seq::<
                u32,
            >::empty(),
    {
        loop
            invariant
                self.wf(),
                self.seq_ref() == old(self).seq_ref(),
                self.samples() == old(self).samples(),
            decreases self.pending@.len(),
        {
            if self.cursor < self.active.len() {
                let s = self.active[self.cursor];
                let ghost pre = *self;
                self.cursor = self.cursor + 1;
                proof {
                    assert(pre.active_rest().len() > 0);
                    assert(pre.samples()[0] == pre.active_rest()[0]);
                    assert(pre.active_rest()[0] == s);
                    assert(self.active_rest() =~= pre.active_rest().drop_first());
                    assert(self.samples() =~= pre.samples().drop_first());
                }
                return Some(s);
            }
            if self.pending.len() == 0 {
                proof {
                    assert(self.active_rest() =~= Seq::<u32>::empty());
                    assert(self.samples() =~= Seq::<u32>::empty());
                }
                return None;
            }
            let ghost pre = *self;
            let kv: (i64, Vec<u32>) = self.pending.remove(0);
            self.active = kv.1;
            self.cursor = 0;
            proof {
                assert(pre.active_rest() =~= Seq::<u32>::empty());
                assert(self.pending_entries() =~= pre.pending_entries().drop_first());
                assert(concat_chunks(pre.pending_entries()) == pre.pending_entries()[0].1
                    + concat_chunks(pre.pending_entries().drop_first()));
                assert(self.active_rest() =~= kv.1@);
                assert(kv.1@ == pre.pending_entries()[0].1);
                assert(self.samples() =~= pre.samples());
            }
        }
    }

    /// Total number of samples queued in chunks not yet opened; diagnostics
    /// only, the open chunk's remainder is not counted.
    pub fn available_samples(&self) -> (r: usize)
        requires
            self.wf(),
            pending_total(self.pending_entries()) <= usize::MAX,
        ensures
            r == pending_total(self.pending_entries()),
    {
        let ghost entries = self.pending_entries();
        let mut total: usize = 0;
        let mut i: usize = 0;
        proof {
            assert(entries.skip(0) =~= entries);
            lemma_pending_total_nonneg(entries);
        }
        while i < self.pending.len()
            invariant
                i <= self.pending@.len(),
                entries == self.pending_entries(),
                pending_total(entries) <= usize::MAX,
                total + pending_total(entries.skip(i as int)) == pending_total(entries),
                0 <= total,
            decreases self.pending@.len() - i,
        {
            proof {
                let rest = entries.skip(i as int);
                assert(rest.len() > 0);
                assert(rest[0] == entries[i as int]);
                assert(rest.drop_first() =~= entries.skip(i + 1));
                assert(pending_total(rest) == rest[0].1.len() + pending_total(
                    entries.skip(i + 1),
                ));
                lemma_pending_total_nonneg(entries.skip(i + 1));
            }
            total = total + self.pending[i].1.len();
            i = i + 1;
        }
        proof {
            assert(entries.skip(i as int) =~= Seq::<(int, Seq<u32>)>::empty());
        }
        total
    }
}

impl Default for AudioBuffer {
    /// Same as `AudioBuffer::new`.
    fn default() -> (r: AudioBuffer)
        ensures
            r.wf(),
            r.seq_ref() == 0,
            r.pending_entries() == Seq::<(int, Seq<u32>)>::empty(),
            r.samples() == Seq::<u32>::empty(),
    {
        AudioBuffer::new()
    }
}

/// A run of chunks has a non-negative sample total.
proof fn lemma_pending_total_nonneg(s: Seq<(int, Seq<u32>)>)
    ensures
        0 <= pending_total(s),
    decreases s.len(),
{
    if s.len() > 0 {
        lemma_pending_total_nonneg(s.drop_first());
    }
}

/// Where the keys before position `i` are below `key` and the keys from `i`
/// on are above it, `spec_insert` places the new chunk exactly at `i`.
proof fn lemma_spec_insert_at(s: Seq<(int, Seq<u32>)>, key: int, chunk: Seq<u32>, i: int)
    requires
        0 <= i <= s.len(),
        forall|p: int, q: int| 0 <= p < q < s.len() ==> s[p].0 < s[q].0,
        forall|j: int| i <= j < s.len() ==> s[j].0 > key,
        i > 0 ==> s[i - 1].0 < key,
    ensures
        spec_insert(s, key, chunk) == s.insert(i, (key, chunk)),
    decreases s.len(),
{
    if i == 0 {
        if s.len() == 0 {
            assert(spec_insert(s, key, chunk) =~= s.insert(0, (key, chunk)));
        } else {
            assert(s[0].0 > key);
            assert(seq![(key, chunk)] + s =~= s.insert(0, (key, chunk)));
        }
    } else {
        assert(s[0].0 < key) by {
            if i - 1 > 0 {
                assert(s[0].0 < s[i - 1].0);
            }
        }
        lemma_spec_insert_at(s.drop_first(), key, chunk, i - 1);
        assert(s.drop_first().insert(i - 1, (key, chunk)) =~= s.insert(i, (key, chunk)).drop_first());
        assert(seq![s[0]] + spec_insert(s.drop_first(), key, chunk) =~= s.insert(i, (key, chunk)));
    }
}

/// Where position `i` already holds `key`, `spec_insert` replaces the chunk
/// stored there.
proof fn lemma_spec_insert_replaces(s: Seq<(int, Seq<u32>)>, key: i64, chunk: Seq<u32>, i: int)
    requires
        0 <= i < s.len(),
        forall|p: int, q: int| 0 <= p < q < s.len() ==> s[p].0 < s[q].0,
        s[i as int].0 == key,
    ensures
        spec_insert(s, key as int, chunk) == s.update(i as int, (key as int, chunk)),
    decreases s.len(),
{
    if i == 0 {
        assert(seq![(key as int, chunk)] + s.drop_first() =~= s.update(0, (key as int, chunk)));
    } else {
        assert(s[0].0 < s[i as int].0);
        lemma_spec_insert_replaces(s.drop_first(), key, chunk, i - 1);
        assert(s.drop_first().update(i - 1, (key as int, chunk)) =~= s.update(
            i as int,
            (key as int, chunk),
        ).drop_first());
        assert(seq![s[0]] + spec_insert(s.drop_first(), key as int, chunk) =~= s.update(
            i as int,
            (key as int, chunk),
        ));
    }
}

/// Submitting the raw successor of the reference always unwraps to the
/// reference plus one, also across the 16-bit wrap boundary: a stream whose
/// raw sequence numbers advance one at a time gets strictly increasing keys.
pub proof fn lemma_unwrap_successor(last: int, raw: u16)
    requires
        0 <= last,
        raw == (last + 1) % 0x1_0000,
    ensures
        unwrap_seq(last, raw) == last + 1,
{
    let low = last % 0x1_0000;
    let q = last / 0x1_0000;
    lemma_fundamental_div_mod(last, 0x1_0000);
    assert(last == 0x1_0000 * q + low);
    if low < 0xffff {
        assert((last + 1) % 0x1_0000 == low + 1) by {
            lemma_mod_multiples_vanish(q, low + 1, 0x1_0000);
            lemma_small_mod((low + 1) as nat, 0x1_0000);
        }
        assert(unwrap_seq(last, raw) == last + 1);
    } else {
        assert((last + 1) % 0x1_0000 == 0) by {
            lemma_mod_multiples_vanish(q + 1, 0, 0x1_0000);
            lemma_small_mod(0, 0x1_0000);
        }
        assert(raw == 0);
        assert(low - raw > WRAP_THRESHOLD);
        assert(unwrap_seq(last, raw) == last + 1);
    }
}

/// A raw sequence number within half a wrap period of the reference is
/// placed in the reference's own period, so bursts of reordering up to half
/// the wrap range land on their true keys.
pub proof fn lemma_unwrap_in_window(last: int, raw: u16)
    requires
        0 <= last,
        -(WRAP_THRESHOLD as int) <= last % 0x1_0000 - raw <= WRAP_THRESHOLD as int,
    ensures
        unwrap_seq(last, raw) == last - last % 0x1_0000 + raw,
{
}

} // verus!
