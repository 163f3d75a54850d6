//! Verified core of a small voice-relay protocol: a binary datagram codec,
//! a per-sender jitter buffer that reorders 16-bit-wrapped sequence numbers,
//! and a connection registry with an N-way audio mixer.
//!
//! An audio sample travels as its 32-bit wire word. The codec and the
//! buffers carry the words bit for bit and never interpret them; the mixer
//! combines corresponding words by addition modulo the word size, excluding
//! each recipient's own stream and zero-extending to the longest one.

pub mod audio_buffer;
pub mod con_man;
pub mod datagram;
