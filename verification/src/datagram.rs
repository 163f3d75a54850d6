//! Wire codec for the relay protocol.
//!
//! A datagram is at least 3 bytes, big-endian throughout: a 16-bit sequence
//! number, one type-tag byte, then the payload. An audio payload is a run of
//! 4-byte sample words (possibly empty); a control payload is exactly one
//! control-kind byte. Sample words are carried bit for bit and never
//! interpreted here.

use vstd::arithmetic::div_mod::lemma_mod_multiples_basic;
use vstd::prelude::*;

verus! {

/// Tag byte marking an audio payload.
pub const AUDIO_DATAGRAM_ID: u8 = 0;

/// Tag byte marking a control payload.
pub const CONTROL_DATAGRAM_ID: u8 = 1;

/// Control-kind byte for `Connect`.
pub const CONNECT_DATAGRAM_ID: u8 = 0;

/// Control-kind byte for `Disconnect`.
pub const DISCONNECT_DATAGRAM_ID: u8 = 1;

/// Control-kind byte for `Heartbeat`.
pub const HEARTBEAT_DATAGRAM_ID: u8 = 2;

/// The three control messages a peer can send.
#[derive(Debug, Clone, Copy, PartialEq, Eq, Structural)]
pub enum ControlType {
    Connect,
    Disconnect,
    Heartbeat,
}

/// A datagram payload: either a chunk of audio sample words or one control
/// message.
#[derive(Debug)]
pub enum DatagramType {
    Audio(Vec<u32>),
    Control(ControlType),
}

/// The unit of wire exchange: a sequence number and a payload.
#[derive(Debug)]
pub struct Datagram {
    pub seq: u16,
    pub datagram_type: DatagramType,
}

/// Mathematical model of a payload.
#[verifier::ext_equal]
pub enum PayloadModel {
    Audio(Seq<u32>),
    Control(ControlType),
}

/// Mathematical model of a datagram.
#[verifier::ext_equal]
pub struct DatagramModel {
    pub seq: u16,
    pub payload: PayloadModel,
}

impl View for DatagramType {
    type V = PayloadModel;

    open spec fn view(&self) -> PayloadModel {
        match self {
            DatagramType::Audio(audio) => PayloadModel::Audio(audio@),
            DatagramType::Control(control) => PayloadModel::Control(*control),
        }
    }
}

impl View for Datagram {
    type V = DatagramModel;

    open spec fn view(&self) -> DatagramModel {
        DatagramModel { seq: self.seq, payload: self.datagram_type@ }
    }
}

/// The control-kind byte that encodes `c`.
pub open spec fn control_byte(c: ControlType) -> u8 {
    match c {
        ControlType::Connect => CONNECT_DATAGRAM_ID,
        ControlType::Disconnect => DISCONNECT_DATAGRAM_ID,
        ControlType::Heartbeat => HEARTBEAT_DATAGRAM_ID,
    }
}

/// The control kind a control-kind byte decodes to, if any.
pub open spec fn spec_control_of(b: u8) -> Option<ControlType> {
    if b == CONNECT_DATAGRAM_ID {
        Some(ControlType::Connect)
    } else if b == DISCONNECT_DATAGRAM_ID {
        Some(ControlType::Disconnect)
    } else if b == HEARTBEAT_DATAGRAM_ID {
        Some(ControlType::Heartbeat)
    } else {
        None
    }
}

/// The four big-endian bytes of one sample word.
pub open spec fn word_bytes(w: u32) -> Seq<u8> {
    seq![(w >> 24) as u8, (w >> 16) as u8, (w >> 8) as u8, w as u8]
}

/// The sample word read from four big-endian bytes.
pub open spec fn word_of(b0: u8, b1: u8, b2: u8, b3: u8) -> u32 {
    ((b0 as u32) << 24) | ((b1 as u32) << 16) | ((b2 as u32) << 8) | (b3 as u32)
}

/// The byte encoding of a run of sample words, in order.
pub open spec fn audio_bytes(s: Seq<u32>) -> Seq<u8>
    decreases s.len(),
{
    if s.len() == 0 {
        Seq::empty()
    } else {
        word_bytes(s[0]) + audio_bytes(s.drop_first())
    }
}

/// The sample words read from a byte run, four bytes at a time; a trailing
/// group shorter than four bytes is dropped.
pub open spec fn audio_words(b: Seq<u8>) -> Seq<u32>
    decreases b.len(),
{
    if b.len() < 4 {
        Seq::empty()
    } else {
        seq![word_of(b[0], b[1], b[2], b[3])] + audio_words(b.skip(4))
    }
}

/// The three header bytes: big-endian sequence number, then the tag.
pub open spec fn header_bytes(sequence: u16, tag: u8) -> Seq<u8> {
    seq![(sequence >> 8) as u8, sequence as u8, tag]
}

/// The 16-bit sequence number read from its two big-endian bytes.
pub open spec fn seq_of_bytes(b0: u8, b1: u8) -> u16 {
    ((b0 as u16) << 8) | (b1 as u16)
}

/// The full wire encoding of a datagram.
pub open spec fn spec_encode(d: DatagramModel) -> Seq<u8> {
    match d.payload {
        PayloadModel::Audio(s) => header_bytes(d.seq, AUDIO_DATAGRAM_ID) + audio_bytes(s),
        PayloadModel::Control(c) => header_bytes(d.seq, CONTROL_DATAGRAM_ID) + seq![
            control_byte(c),
        ],
    }
}

/// What a byte buffer decodes to. `None` is the `Malformed` outcome: a buffer
/// shorter than the 3-byte header, an audio payload whose length is not a
/// multiple of four, a control payload with no kind byte or an unknown kind
/// byte, or an unknown tag byte. Bytes after a control-kind byte are ignored.
pub open spec fn spec_decode(b: Seq<u8>) -> Option<DatagramModel> {
    if b.len() < 3 {
        None
    } else {
        let sequence = seq_of_bytes(b[0], b[1]);
        if b[2] == AUDIO_DATAGRAM_ID {
            if (b.len() - 3) % 4 == 0 {
                Some(
                    DatagramModel {
                        seq: sequence,
                        payload: PayloadModel::Audio(audio_words(b.skip(3))),
                    },
                )
            } else {
                None
            }
        } else if b[2] == CONTROL_DATAGRAM_ID {
            if b.len() < 4 {
                None
            } else {
                match spec_control_of(b[3]) {
                    Some(c) => Some(
                        DatagramModel { seq: sequence, payload: PayloadModel::Control(c) },
                    ),
                    None => None,
                }
            }
        } else {
            None
        }
    }
}

impl ControlType {
    /// The control-kind byte for this control message.
    fn id(&self) -> (r: u8)
        ensures
            r == control_byte(*self),
    {
        match self {
            ControlType::Connect => CONNECT_DATAGRAM_ID,
            ControlType::Disconnect => DISCONNECT_DATAGRAM_ID,
            ControlType::Heartbeat => HEARTBEAT_DATAGRAM_ID,
        }
    }

    /// Reads a control kind from the first byte of `bytes`; every byte other
    /// than the three control-kind bytes is rejected.
    pub fn from_bytes(bytes: &[u8]) -> (r: Option<ControlType>)
        requires
            bytes@.len() >= 1,
        ensures
            r == spec_control_of(bytes@[0]),
    {
        let b = bytes[0];
        if b == CONNECT_DATAGRAM_ID {
            Some(ControlType::Connect)
        } else if b == DISCONNECT_DATAGRAM_ID {
            Some(ControlType::Disconnect)
        } else if b == HEARTBEAT_DATAGRAM_ID {
            Some(ControlType::Heartbeat)
        } else {
            None
        }
    }

    /// Encodes this control message as its single control-kind byte.
    pub fn to_bytes(&self) -> (r: Vec<u8>)
        ensures
            r@ == seq![control_byte(*self)],
    {
        let mut bytes: Vec<u8> = Vec::new();
        bytes.push(self.id());
        proof {
            assert(bytes@ =~= seq![control_byte(*self)]);
        }
        bytes
    }
}

impl Datagram {
    /// Builds a datagram from its parts.
    pub fn new(seq: u16, datagram_type: DatagramType) -> (r: Datagram)
        ensures
            r.seq == seq,
            r.datagram_type == datagram_type,
    {
        Datagram { seq, datagram_type }
    }

    /// The tag byte for this datagram's payload.
    fn id(&self) -> (r: u8)
        ensures
            self.datagram_type is Audio ==> r == AUDIO_DATAGRAM_ID,
            self.datagram_type is Control ==> r == CONTROL_DATAGRAM_ID,
    {
        match &self.datagram_type {
            DatagramType::Audio(_) => AUDIO_DATAGRAM_ID,
            DatagramType::Control(_) => CONTROL_DATAGRAM_ID,
        }
    }

    /// Encodes this datagram for the wire.
    pub fn to_bytes(&self) -> (r: Vec<u8>)
        ensures
            r@ == spec_encode(self@),
    {
        let mut bytes: Vec<u8> = Vec::new();
        bytes.push(#[verifier::truncate] ((self.seq >> 8) as u8));
        bytes.push(#[verifier::truncate] (self.seq as u8));
        bytes.push(self.id());
        match &self.datagram_type {
            DatagramType::Audio(audio) => {
                proof {
                    assert(bytes@ =~= header_bytes(self.seq, AUDIO_DATAGRAM_ID) + audio_bytes(
                        audio@.take(0),
                    ));
                }
                let n = audio.len();
                let mut i: usize = 0;
                while i < n
                    invariant
                        n == audio@.len(),
                        i <= n,
                        bytes@ == header_bytes(self.seq, AUDIO_DATAGRAM_ID) + audio_bytes(
                            audio@.take(i as int),
                        ),
                    decreases n - i,
                {
                    let w = audio[i];
                    bytes.push(#[verifier::truncate] ((w >> 24) as u8));
                    bytes.push(#[verifier::truncate] ((w >> 16) as u8));
                    bytes.push(#[verifier::truncate] ((w >> 8) as u8));
                    bytes.push(#[verifier::truncate] (w as u8));
                    proof {
                        lemma_audio_bytes_take_succ(audio@, i as int);
                        assert(bytes@ =~= header_bytes(self.seq, AUDIO_DATAGRAM_ID) + audio_bytes(
                            audio@.take(i + 1),
                        ));
                    }
                    i = i + 1;
                }
                proof {
                    assert(audio@.take(n as int) =~= audio@);
                }
            },
            DatagramType::Control(control) => {
                bytes.push(control.id());
                proof {
                    assert(bytes@ =~= spec_encode(self@));
                }
            },
        }
        bytes
    }

    /// Decodes a received byte buffer; `None` means the buffer was malformed
    /// and the whole datagram is discarded.
    pub fn from_bytes(bytes: &[u8]) -> (r: Option<Datagram>)
        ensures
            match r {
                Some(d) => spec_decode(bytes@) == Some(d@),
                None => spec_decode(bytes@) is None,
            },
    {
        if bytes.len() < 3 {
            return None;
        }
        let sequence = ((bytes[0] as u16) << 8) | (bytes[1] as u16);
        let tag = bytes[2];
        if tag == AUDIO_DATAGRAM_ID {
            if (bytes.len() - 3) % 4 != 0 {
                return None;
            }
            let mut audio: Vec<u32> = Vec::new();
            let mut i: usize = 3;
            proof {
                assert(bytes@.skip(3) =~= bytes@.skip(3));
            }
            while i < bytes.len() - 3
                invariant
                    3 <= i <= bytes@.len(),
                    (i - 3) % 4 == 0,
                    (bytes@.len() - 3) % 4 == 0,
                    audio@ + audio_words(bytes@.skip(i as int)) == audio_words(bytes@.skip(3)),
                decreases bytes@.len() - i,
            {
                let w = ((bytes[i] as u32) << 24) | ((bytes[i + 1] as u32) << 16) | ((bytes[i
                    + 2] as u32) << 8) | (bytes[i + 3] as u32);
                proof {
                    let rest = bytes@.skip(i as int);
                    assert(rest.len() >= 4);
                    assert(rest[0] == bytes@[i as int] && rest[1] == bytes@[i + 1] && rest[2]
                        == bytes@[i + 2] && rest[3] == bytes@[i + 3]);
                    assert(rest.skip(4) =~= bytes@.skip(i + 4));
                    assert(audio_words(rest) == seq![w] + audio_words(bytes@.skip(i + 4)));
                    assert((audio@ + seq![w]) + audio_words(bytes@.skip(i + 4)) =~= audio@ + (seq![
                        w,
                    ] + audio_words(bytes@.skip(i + 4))));
                }
                audio.push(w);
                i = i + 4;
            }
            proof {
                assert(i == bytes@.len());
                assert(audio_words(bytes@.skip(i as int)) =~= Seq::<u32>::empty());
                assert(audio@ =~= audio@ + audio_words(bytes@.skip(i as int)));
                assert(audio@ == audio_words(bytes@.skip(3)));
            }
            let d = Datagram { seq: sequence, datagram_type: DatagramType::Audio(audio) };
            proof {
                assert(spec_decode(bytes@) == Some(d@)) by {
                    assert(d@.payload =~= PayloadModel::Audio(audio_words(bytes@.skip(3))));
                }
            }
            Some(d)
        } else if tag == CONTROL_DATAGRAM_ID {
            if bytes.len() < 4 {
                return None;
            }
            let kind = bytes[3];
            let control = if kind == CONNECT_DATAGRAM_ID {
                ControlType::Connect
            } else if kind == DISCONNECT_DATAGRAM_ID {
                ControlType::Disconnect
            } else if kind == HEARTBEAT_DATAGRAM_ID {
                ControlType::Heartbeat
            } else {
                return None;
            };
            Some(Datagram { seq: sequence, datagram_type: DatagramType::Control(control) })
        } else {
            None
        }
    }
}

/// The encoding of one more word is the encoding so far plus that word's
/// bytes.
proof fn lemma_audio_bytes_take_succ(s: Seq<u32>, i: int)
    requires
        0 <= i < s.len(),
    ensures
        audio_bytes(s.take(i + 1)) == audio_bytes(s.take(i)) + word_bytes(s[i]),
{
    lemma_audio_bytes_append(s.take(i), seq![s[i]]);
    assert(s.take(i + 1) =~= s.take(i) + seq![s[i]]);
    assert(seq![s[i]].drop_first() =~= Seq::<u32>::empty());
    assert(audio_bytes(seq![s[i]]) == word_bytes(seq![s[i]][0]) + audio_bytes(
        seq![s[i]].drop_first(),
    ));
    assert(word_bytes(s[i]) + Seq::<u8>::empty() =~= word_bytes(s[i]));
}

/// Word-run encoding distributes over concatenation.
proof fn lemma_audio_bytes_append(a: Seq<u32>, b: Seq<u32>)
    ensures
        audio_bytes(a + b) == audio_bytes(a) + audio_bytes(b),
    decreases a.len(),
{
    if a.len() == 0 {
        assert(a + b =~= b);
        assert(audio_bytes(a) + audio_bytes(b) =~= audio_bytes(b));
    } else {
        lemma_audio_bytes_append(a.drop_first(), b);
        assert((a + b).drop_first() =~= a.drop_first() + b);
        assert((a + b)[0] == a[0]);
        assert(word_bytes(a[0]) + (audio_bytes(a.drop_first()) + audio_bytes(b)) =~= (word_bytes(
            a[0],
        ) + audio_bytes(a.drop_first())) + audio_bytes(b));
    }
}

/// A run of `n` words encodes to exactly `4 * n` bytes.
proof fn lemma_audio_bytes_len(s: Seq<u32>)
    ensures
        audio_bytes(s).len() == 4 * s.len(),
    decreases s.len(),
{
    if s.len() > 0 {
        lemma_audio_bytes_len(s.drop_first());
    }
}

/// Splitting a sample word into four big-endian bytes and reassembling them
/// gives the word back.
proof fn lemma_u32_bytes(w: u32)
    by (bit_vector)
    ensures
        ((((w >> 24) as u8) as u32) << 24) | ((((w >> 16) as u8) as u32) << 16) | ((((w
            >> 8) as u8) as u32) << 8) | ((w as u8) as u32) == w,
{
}

/// Splitting a sequence number into two big-endian bytes and reassembling
/// them gives the number back.
proof fn lemma_u16_bytes(x: u16)
    by (bit_vector)
    ensures
        ((((x >> 8) as u8) as u16) << 8) | ((x as u8) as u16) == x,
{
}

/// Decoding the encoding of a word run gives the run back.
proof fn lemma_audio_words_of_bytes(s: Seq<u32>)
    ensures
        audio_words(audio_bytes(s)) == s,
    decreases s.len(),
{
    if s.len() == 0 {
        assert(audio_words(audio_bytes(s)) =~= s);
    } else {
        let bs = audio_bytes(s);
        lemma_audio_bytes_len(s.drop_first());
        assert(bs.len() == 4 + audio_bytes(s.drop_first()).len());
        assert(bs[0] == (s[0] >> 24) as u8 && bs[1] == (s[0] >> 16) as u8 && bs[2] == (s[0]
            >> 8) as u8 && bs[3] == s[0] as u8);
        lemma_u32_bytes(s[0]);
        assert(word_of(bs[0], bs[1], bs[2], bs[3]) == s[0]);
        assert(bs.skip(4) =~= audio_bytes(s.drop_first()));
        lemma_audio_words_of_bytes(s.drop_first());
        assert(audio_words(bs) =~= seq![s[0]] + s.drop_first());
        assert(seq![s[0]] + s.drop_first() =~= s);
    }
}

/// Round trip: decoding the encoding of any datagram gives the datagram back,
/// audio words bit for bit and the control kind exactly.
pub proof fn lemma_round_trip(d: DatagramModel)
    ensures
        spec_decode(spec_encode(d)) == Some(d),
{
    let b = spec_encode(d);
    lemma_u16_bytes(d.seq);
    match d.payload {
        PayloadModel::Audio(s) => {
            lemma_audio_bytes_len(s);
            assert(b.len() == 3 + 4 * s.len());
            assert(b[0] == (d.seq >> 8) as u8 && b[1] == d.seq as u8 && b[2]
                == AUDIO_DATAGRAM_ID);
            assert(seq_of_bytes(b[0], b[1]) == d.seq);
            lemma_mod_multiples_basic(s.len() as int, 4);
            assert((b.len() - 3) % 4 == 0);
            assert(b.skip(3) =~= audio_bytes(s));
            lemma_audio_words_of_bytes(s);
            assert(spec_decode(b) == Some(
                DatagramModel { seq: d.seq, payload: PayloadModel::Audio(s) },
            ));
            assert(DatagramModel { seq: d.seq, payload: PayloadModel::Audio(s) } =~= d);
        },
        PayloadModel::Control(c) => {
            assert(b.len() == 4);
            assert(b[0] == (d.seq >> 8) as u8 && b[1] == d.seq as u8 && b[2]
                == CONTROL_DATAGRAM_ID && b[3] == control_byte(c));
            assert(seq_of_bytes(b[0], b[1]) == d.seq);
            assert(spec_control_of(control_byte(c)) == Some(c));
            assert(DatagramModel { seq: d.seq, payload: PayloadModel::Control(c) } =~= d);
        },
    }
}

/// Malformed rejection: decoding fails for buffers shorter than the 3-byte
/// header, for audio payloads whose length is not a multiple of four, for
/// control payloads with a missing or unknown kind byte, and for unknown tag
/// bytes.
pub proof fn lemma_malformed_rejected(b: Seq<u8>)
    ensures
        b.len() < 3 ==> spec_decode(b) is None,
        b.len() >= 3 && b[2] == AUDIO_DATAGRAM_ID && (b.len() - 3) % 4 != 0 ==> spec_decode(b)
            is None,
        b.len() >= 3 && b[2] == CONTROL_DATAGRAM_ID && b.len() < 4 ==> spec_decode(b) is None,
        b.len() >= 4 && b[2] == CONTROL_DATAGRAM_ID && b[3] > HEARTBEAT_DATAGRAM_ID
            ==> spec_decode(b) is None,
        b.len() >= 3 && b[2] > CONTROL_DATAGRAM_ID ==> spec_decode(b) is None,
{
}

/// The sequence number a sender uses after `sequence`, wrapping at the 16-bit
/// boundary.
pub open spec fn next_seq(sequence: u16) -> u16 {
    ((sequence + 1) % 0x1_0000) as u16
}

/// Drops datagrams that arrive behind a running sequence counter: the counter
/// starts at the first datagram's sequence number, a datagram whose sequence
/// number is below the counter is dropped, and each kept datagram advances
/// the counter by one.
pub open spec fn spec_filter(s: Seq<Datagram>, counter: u16) -> Seq<Datagram>
    decreases s.len(),
{
    if s.len() == 0 {
        Seq::empty()
    } else if s[0].seq >= counter {
        seq![s[0]] + spec_filter(s.drop_first(), next_seq(counter))
    } else {
        spec_filter(s.drop_first(), counter)
    }
}

/// Keeps the datagrams whose sequence numbers keep up with a counter that
/// starts at the first datagram's sequence number and advances by one per
/// kept datagram.
pub fn filter(list: &[Datagram]) -> (r: Vec<&Datagram>)
    requires
        list@.len() >= 1,
    ensures
        r@.map_values(|d: &Datagram| *d) == spec_filter(list@, list@[0].seq),
{
    let mut sequence: u16 = list[0].seq;
    let mut output: Vec<&Datagram> = Vec::new();
    let mut i: usize = 0;
    proof {
        assert(output@.map_values(|d: &Datagram| *d) =~= Seq::<Datagram>::empty());
        assert(list@.skip(0) =~= list@);
        assert(Seq::<Datagram>::empty() + spec_filter(list@, list@[0].seq) =~= spec_filter(
            list@,
            list@[0].seq,
        ));
    }
    while i < list.len()
        invariant
            i <= list@.len(),
            spec_filter(list@, list@[0].seq) == output@.map_values(|d: &Datagram| *d)
                + spec_filter(list@.skip(i as int), sequence),
        decreases list@.len() - i,
    {
        proof {
            assert(list@.skip(i as int)[0] == list@[i as int]);
            assert(list@.skip(i as int).drop_first() =~= list@.skip(i + 1));
        }
        let datagram = &list[i];
        if datagram.seq >= sequence {
            let ghost prev = output@.map_values(|d: &Datagram| *d);
            output.push(datagram);
            proof {
                assert(output@.map_values(|d: &Datagram| *d) =~= prev.push(list@[i as int]));
                assert(prev.push(list@[i as int]) + spec_filter(list@.skip(i + 1), next_seq(sequence))
                    =~= prev + (seq![list@[i as int]] + spec_filter(
                    list@.skip(i + 1),
                    next_seq(sequence),
                )));
            }
            sequence = sequence.wrapping_add(1);
        }
        i = i + 1;
    }
    proof {
        assert(list@.skip(i as int) =~= Seq::<Datagram>::empty());
        assert(output@.map_values(|d: &Datagram| *d) + spec_filter(list@.skip(i as int), sequence)
            =~= output@.map_values(|d: &Datagram| *d));
    }
    output
}

impl PartialEq for DatagramType {
    /// Payloads are equal when they are the same kind and carry the same
    /// words or the same control message.
    fn eq(&self, other: &DatagramType) -> (r: bool) {
        match (self, other) {
            (DatagramType::Audio(a), DatagramType::Audio(b)) => {
                let r = a == b;
                proof {
                    if r {
                        assert(a@ =~= b@);
                    }
                }
                r
            },
            (DatagramType::Control(a), DatagramType::Control(b)) => *a == *b,
            _ => false,
        }
    }
}

impl vstd::std_specs::cmp::PartialEqSpecImpl for DatagramType {
    open spec fn obeys_eq_spec() -> bool {
        true
    }

    open spec fn eq_spec(&self, other: &DatagramType) -> bool {
        self@ == other@
    }
}

impl PartialEq for Datagram {
    /// Datagrams are equal when both the sequence number and the payload
    /// agree.
    fn eq(&self, other: &Datagram) -> (r: bool) {
        self.seq == other.seq && self.datagram_type == other.datagram_type
    }
}

impl vstd::std_specs::cmp::PartialEqSpecImpl for Datagram {
    open spec fn obeys_eq_spec() -> bool {
        true
    }

    open spec fn eq_spec(&self, other: &Datagram) -> bool {
        self@ == other@
    }
}

} // verus!

