//! Decoding a stream in chunks.
//!
//! A stream too large to hold is decoded chunk by chunk. A pass over a chunk
//! ends where the chunk does, most often inside a packet; the marker that the
//! pass entered last is the carry point: the bytes from there on are decoded
//! again, with what follows them, in the next pass. This module says what a
//! whole pass yields and proves that passes joined at a carry point yield what
//! one pass over the whole stream does.

use crate::{native_value, next_stop, packet_at, packet_len, sync_at_stop, Decoder, Packet};
use vstd::prelude::*;

verus! {

/// The offsets of the payloads of the timed values that a walk from `pos`
/// passes, in order, until no packet can be decoded.
pub open spec fn payload_offsets(s: Seq<u8>, pos: int) -> Seq<int>
    decreases s.len() - pos,
{
    match packet_at(s, pos) {
        Ok(p) => {
            let rest = payload_offsets(s, pos + packet_len(p));
            if p == Packet::ExtendedTimedValue {
                seq![pos + 2] + rest
            } else {
                rest
            }
        },
        Err(_) => Seq::empty(),
    }
}

/// Where a walk from `pos` ends: the first place where no packet can be
/// decoded.
pub open spec fn walk_end(s: Seq<u8>, pos: int) -> int
    decreases s.len() - pos,
{
    match packet_at(s, pos) {
        Ok(p) => walk_end(s, pos + packet_len(p)),
        Err(_) => pos,
    }
}

/// The marker that a walk from `pos` entered last, or `sync` if it entered
/// none.
pub open spec fn walk_sync(s: Seq<u8>, pos: int, sync: int) -> int
    decreases s.len() - pos,
{
    match packet_at(s, pos) {
        Ok(p) => walk_sync(
            s,
            pos + packet_len(p),
            if p == Packet::ExtendedSync {
                pos
            } else {
                sync
            },
        ),
        Err(_) => sync,
    }
}

/// A walk from `pos` comes by `target` between two packets.
pub open spec fn reaches(s: Seq<u8>, pos: int, target: int) -> bool
    decreases s.len() - pos,
{
    pos == target || (pos < target && match packet_at(s, pos) {
        Ok(p) => reaches(s, pos + packet_len(p), target),
        Err(_) => false,
    })
}

/// The offsets of the payloads of the timed values that a walk from `pos`
/// passes before it comes to `until`.
pub open spec fn payload_offsets_until(s: Seq<u8>, pos: int, until: int) -> Seq<int>
    decreases s.len() - pos,
{
    if pos >= until {
        Seq::empty()
    } else {
        match packet_at(s, pos) {
            Ok(p) => {
                let rest = payload_offsets_until(s, pos + packet_len(p), until);
                if p == Packet::ExtendedTimedValue {
                    seq![pos + 2] + rest
                } else {
                    rest
                }
            },
            Err(_) => Seq::empty(),
        }
    }
}

/// A walk may be cut in two wherever it comes by: the values before the cut
/// and those after it are the values of the whole, and the end is the same.
pub proof fn lemma_walk_split(s: Seq<u8>, from: int, cut: int)
    requires
        reaches(s, from, cut),
    ensures
        payload_offsets(s, from) == payload_offsets_until(s, from, cut) + payload_offsets(s, cut),
        walk_end(s, from) == walk_end(s, cut),
    decreases s.len() - from,
{
    if from == cut {
        assert(payload_offsets(s, from) =~= payload_offsets_until(s, from, cut) + payload_offsets(
            s,
            cut,
        ));
    } else {
        let p = packet_at(s, from)->Ok_0;
        let next = from + packet_len(p);
        lemma_walk_split(s, next, cut);
        assert(payload_offsets(s, from) =~= payload_offsets_until(s, from, cut) + payload_offsets(
            s,
            cut,
        ));
    }
}

/// The marker that a walk entered last is a place that the walk came by.
pub proof fn lemma_sync_is_reached(s: Seq<u8>, pos: int, sync: int)
    ensures
        walk_sync(s, pos, sync) == sync || (pos <= walk_sync(s, pos, sync) < s.len() && reaches(
            s,
            pos,
            walk_sync(s, pos, sync),
        )),
    decreases s.len() - pos,
{
    match packet_at(s, pos) {
        Ok(p) => {
            let entered = if p == Packet::ExtendedSync {
                pos
            } else {
                sync
            };
            lemma_sync_is_reached(s, pos + packet_len(p), entered);
        },
        Err(_) => {},
    }
}

/// A packet that a chunk holds whole is the same packet in the stream that
/// the chunk is the start of.
pub proof fn lemma_packet_in_prefix(s: Seq<u8>, m: int, pos: int)
    requires
        0 <= m <= s.len(),
        packet_at(s.subrange(0, m), pos) is Ok,
    ensures
        packet_at(s, pos) == packet_at(s.subrange(0, m), pos),
{
}

/// What a walk through a chunk comes by, and the values it passes on the way,
/// are the same in the stream that the chunk is the start of.
pub proof fn lemma_walk_in_prefix(s: Seq<u8>, m: int, from: int, cut: int)
    requires
        0 <= m <= s.len(),
        reaches(s.subrange(0, m), from, cut),
    ensures
        reaches(s, from, cut),
        payload_offsets_until(s, from, cut) == payload_offsets_until(s.subrange(0, m), from, cut),
    decreases m - from,
{
    if from != cut {
        let chunk = s.subrange(0, m);
        lemma_packet_in_prefix(s, m, from);
        let p = packet_at(chunk, from)->Ok_0;
        lemma_walk_in_prefix(s, m, from + packet_len(p), cut);
    }
}

/// The packet at `pos` of a stream's tail is the packet of the stream there.
pub proof fn lemma_packet_in_suffix(s: Seq<u8>, c: int, pos: int)
    requires
        0 <= c <= s.len(),
        0 <= pos,
    ensures
        packet_at(s.subrange(c, s.len() as int), pos) == packet_at(s, c + pos),
{
}

/// A walk through a stream's tail is the walk through the stream from where
/// the tail starts: the same values, the same end, each moved by that offset.
pub proof fn lemma_walk_in_suffix(s: Seq<u8>, c: int, pos: int)
    requires
        0 <= c <= s.len(),
        0 <= pos,
    ensures
        payload_offsets(s, c + pos) == payload_offsets(
            s.subrange(c, s.len() as int),
            pos,
        ).map_values(|o: int| o + c),
        walk_end(s, c + pos) == c + walk_end(s.subrange(c, s.len() as int), pos),
    decreases s.len() - c - pos,
{
    let tail = s.subrange(c, s.len() as int);
    lemma_packet_in_suffix(s, c, pos);
    match packet_at(tail, pos) {
        Ok(p) => {
            lemma_walk_in_suffix(s, c, pos + packet_len(p));
        },
        Err(_) => {},
    }
    assert(payload_offsets(s, c + pos) =~= payload_offsets(tail, pos).map_values(|o: int| o + c));
}

/// Decoding in chunks, with the tail carried over, is decoding in one pass.
///
/// Take the first `m` bytes of a stream as a chunk and let `c` be the marker
/// that a pass over the chunk entered last. The values that the pass yields
/// before `c`, followed by the values of a pass over the stream from `c` on,
/// are the values of one pass over the whole stream, in the same order; and
/// `c` bytes plus what the second pass consumes are what the one pass
/// consumes.
pub proof fn lemma_chunk_carry(s: Seq<u8>, m: int)
    requires
        0 <= m <= s.len(),
    ensures
        ({
            let c = walk_sync(s.subrange(0, m), 0, 0);
            let tail = s.subrange(c, s.len() as int);
            &&& 0 <= c <= m
            &&& payload_offsets(s, 0) == payload_offsets_until(s.subrange(0, m), 0, c)
                + payload_offsets(tail, 0).map_values(|o: int| o + c)
            &&& walk_end(s, 0) == c + walk_end(tail, 0)
        }),
{
    let chunk = s.subrange(0, m);
    let c = walk_sync(chunk, 0, 0);
    lemma_sync_is_reached(chunk, 0, 0);
    lemma_walk_in_prefix(s, m, 0, c);
    lemma_walk_split(s, 0, c);
    lemma_walk_in_suffix(s, c, 0);
}

/// A walk is made of the steps from one timed value to the next: up to the
/// first value or failure it yields nothing, a failure ends it there, and
/// behind a value it goes on as a walk of its own.
pub proof fn lemma_walk_by_values(s: Seq<u8>, pos: int, sync: int)
    ensures
        pos <= next_stop(s, pos),
        ({
            let stop = next_stop(s, pos);
            let entered = sync_at_stop(s, pos, sync);
            if packet_at(s, stop) is Err {
                &&& payload_offsets(s, pos) == Seq::<int>::empty()
                &&& walk_end(s, pos) == stop
                &&& walk_sync(s, pos, sync) == entered
            } else {
                &&& payload_offsets(s, pos) == seq![stop + 2] + payload_offsets(s, stop + 10)
                &&& walk_end(s, pos) == walk_end(s, stop + 10)
                &&& walk_sync(s, pos, sync) == walk_sync(s, stop + 10, entered)
            }
        }),
    decreases s.len() - pos,
{
    match packet_at(s, pos) {
        Ok(p) => {
            if p != Packet::ExtendedTimedValue {
                let entered = if p == Packet::ExtendedSync {
                    pos
                } else {
                    sync
                };
                lemma_walk_by_values(s, pos + packet_len(p), entered);
            }
        },
        Err(_) => {},
    }
}

/// A walk that has come to `cur` and decodes the packet there has come to the
/// packet's end, with that packet's value added to those before it.
pub proof fn lemma_walk_extends(s: Seq<u8>, from: int, cur: int)
    requires
        reaches(s, from, cur),
        packet_at(s, cur) is Ok,
    ensures
        ({
            let p = packet_at(s, cur)->Ok_0;
            let next = cur + packet_len(p);
            &&& reaches(s, from, next)
            &&& payload_offsets_until(s, from, next) == payload_offsets_until(s, from, cur) + if p
                == Packet::ExtendedTimedValue {
                seq![cur + 2]
            } else {
                Seq::<int>::empty()
            }
        }),
    decreases s.len() - from,
{
    let p = packet_at(s, cur)->Ok_0;
    let next = cur + packet_len(p);
    let last = if p == Packet::ExtendedTimedValue {
        seq![cur + 2]
    } else {
        Seq::<int>::empty()
    };
    if from == cur {
        assert(reaches(s, next, next));
        assert(payload_offsets_until(s, next, next) =~= Seq::<int>::empty());
        assert(payload_offsets_until(s, from, next) =~= payload_offsets_until(s, from, cur) + last);
    } else {
        let q = packet_at(s, from)->Ok_0;
        lemma_walk_extends(s, from + packet_len(q), cur);
        assert(payload_offsets_until(s, from, next) =~= payload_offsets_until(s, from, cur) + last);
    }
}

/// One pass of chunked decoding: the timed values of `chunk` that lie before
/// its carry point, in order, and the carry point, which is the marker that a
/// walk through the chunk enters last, or zero where it enters none.
///
/// The bytes from the carry point on belong to the next chunk, in front of
/// what comes after them in the stream.
pub fn decode_chunk(chunk: &[u8]) -> (r: (Vec<u64>, usize))
    ensures
        r.1 == walk_sync(chunk@, 0, 0),
        r.0@.len() == payload_offsets_until(chunk@, 0, r.1 as int).len(),
        forall|i: int|
            #![trigger r.0@[i]]
            0 <= i < r.0@.len() ==> native_value(
                chunk@,
                payload_offsets_until(chunk@, 0, r.1 as int)[i],
                r.0@[i],
            ),
{
    let mut decoder = Decoder::new(chunk);
    let mut values: Vec<u64> = Vec::new();
    let mut kept: usize = 0;
    loop
        invariant
            decoder@.data == chunk@,
            reaches(chunk@, 0, decoder@.position as int),
            reaches(chunk@, 0, decoder@.last_sync as int),
            walk_sync(chunk@, decoder@.position as int, decoder@.last_sync as int) == walk_sync(
                chunk@,
                0,
                0,
            ),
            values@.len() == payload_offsets_until(chunk@, 0, decoder@.position as int).len(),
            forall|i: int|
                #![trigger values@[i]]
                0 <= i < values@.len() ==> native_value(
                    chunk@,
                    payload_offsets_until(chunk@, 0, decoder@.position as int)[i],
                    values@[i],
                ),
            kept <= values@.len(),
            payload_offsets_until(chunk@, 0, decoder@.last_sync as int) == payload_offsets_until(
                chunk@,
                0,
                decoder@.position as int,
            ).take(kept as int),
        decreases chunk@.len() - decoder@.position,
    {
        let ghost cur = decoder@.position as int;
        let start = decoder.offset();
        proof {
            if packet_at(chunk@, cur) is Ok {
                lemma_walk_extends(chunk@, 0, cur);
            }
        }
        match decoder.process_next_packet() {
            Ok(Some(v)) => {
                values.push(v);
                proof {
                    let before = payload_offsets_until(chunk@, 0, cur);
                    assert((before + seq![cur + 2]).take(kept as int) =~= before.take(kept as int));
                }
            },
            Ok(None) => {
                if decoder.sync_offset() == start {
                    kept = values.len();
                    proof {
                        let before = payload_offsets_until(chunk@, 0, cur);
                        assert(before.take(kept as int) =~= before);
                    }
                }
                proof {
                    let before = payload_offsets_until(chunk@, 0, cur);
                    assert(before + Seq::<int>::empty() =~= before);
                }
            },
            Err(_) => {
                values.truncate(kept);
                return (values, decoder.sync_offset());
            },
        }
    }
}

} // verus!
