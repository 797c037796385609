//! Decoding of a processor trace stream: finding synchronization markers in a
//! byte region and walking the packets that follow one.

use crate::carry::{lemma_walk_by_values, payload_offsets, walk_end, walk_sync};
use crate::sync::{find_next_sync, is_pair, lemma_scan_start_independent, lemma_scan_tail_empty};
use crate::sync::{marker_at, no_marker_in, pair_at, run_at, sync_result};
use crate::sync::{PT_PL_PSB_SIZE, PT_PSB_REPEAT_COUNT, PT_PSB_REPEAT_SIZE};
use vstd::prelude::*;
use vstd::slice::slice_subrange;

pub mod carry;
pub mod sync;

verus! {

/// The opcode of a padding packet.
pub const OPCODE_PAD: u8 = 0x00;

/// The opcode that opens the second level of opcodes.
pub const OPCODE_EXT: u8 = 0x02;

/// Second level: a synchronization marker.
pub const OPCODE_EXT_PSB: u8 = 0x82;

/// Second level: the end of a synchronization run.
pub const OPCODE_EXT_PSBEND: u8 = 0x23;

/// Second level: a core-to-bus ratio.
pub const OPCODE_EXT_CBR: u8 = 0x03;

/// Second level: a timed data value.
pub const OPCODE_EXT_PTW: u8 = 0x12;

/// The packets that the decoder knows.
#[derive(Debug, Clone, Copy, PartialEq, Eq, Structural)]
pub enum Packet {
    /// One byte that keeps the stream alive.
    Pad,
    /// A whole synchronization marker.
    ExtendedSync,
    /// The end of a synchronization run.
    ExtendedSyncEnd,
    /// A core-to-bus ratio, two bytes after its opcodes.
    ExtendedCycleBaseRatio,
    /// A data value of eight bytes after its opcodes.
    ExtendedTimedValue,
    /// A short branch record: any other opcode whose lowest bit is clear.
    ShortBranchRecord,
}

/// Why no packet could be decoded at the cursor.
#[derive(Debug, Clone, Copy, PartialEq, Eq, Structural)]
pub enum Error {
    /// The opcode is none of the known ones and its lowest bit is set.
    UnknownOpcode,
    /// The second opcode is none of the known ones.
    UnknownExtOpcode,
    /// A marker's opcodes are followed by something else than seven units.
    BadSync,
    /// The region ends before the packet does.
    EndOfStream,
}

/// The size in bytes of a packet of this kind, opcodes included.
pub open spec fn packet_len(p: Packet) -> int {
    match p {
        Packet::Pad => 1,
        Packet::ExtendedSync => 16,
        Packet::ExtendedSyncEnd => 2,
        Packet::ExtendedCycleBaseRatio => 4,
        Packet::ExtendedTimedValue => 10,
        Packet::ShortBranchRecord => 1,
    }
}

/// What stands at `pos` when a second opcode follows the first.
pub open spec fn extended_packet_at(s: Seq<u8>, pos: int) -> Result<Packet, Error> {
    let ext = s[pos + 1];
    if ext == OPCODE_EXT_PSB {
        if pos + 16 > s.len() {
            Err(Error::EndOfStream)
        } else if run_at(s, pos) {
            Ok(Packet::ExtendedSync)
        } else {
            Err(Error::BadSync)
        }
    } else if ext == OPCODE_EXT_PSBEND {
        Ok(Packet::ExtendedSyncEnd)
    } else if ext == OPCODE_EXT_CBR {
        if pos + 4 > s.len() {
            Err(Error::EndOfStream)
        } else {
            Ok(Packet::ExtendedCycleBaseRatio)
        }
    } else if ext == OPCODE_EXT_PTW {
        if pos + 10 > s.len() {
            Err(Error::EndOfStream)
        } else {
            Ok(Packet::ExtendedTimedValue)
        }
    } else {
        Err(Error::UnknownExtOpcode)
    }
}

/// The packet that starts at `pos`, or why there is none.
pub open spec fn packet_at(s: Seq<u8>, pos: int) -> Result<Packet, Error> {
    if pos < 0 || pos >= s.len() {
        Err(Error::EndOfStream)
    } else if s[pos] == OPCODE_PAD {
        Ok(Packet::Pad)
    } else if s[pos] == OPCODE_EXT {
        if pos + 2 > s.len() {
            Err(Error::EndOfStream)
        } else {
            extended_packet_at(s, pos)
        }
    } else if s[pos] % 2 == 0 {
        Ok(Packet::ShortBranchRecord)
    } else {
        Err(Error::UnknownOpcode)
    }
}

/// The eight bytes at `at`, read with the first byte as the lowest.
pub open spec fn value_le(s: Seq<u8>, at: int) -> int {
    s[at] + 0x100 * (s[at + 1] + 0x100 * (s[at + 2] + 0x100 * (s[at + 3] + 0x100 * (s[at + 4]
        + 0x100 * (s[at + 5] + 0x100 * (s[at + 6] + 0x100 * s[at + 7]))))))
}

/// The eight bytes at `at`, read with the first byte as the highest.
pub open spec fn value_be(s: Seq<u8>, at: int) -> int {
    s[at + 7] + 0x100 * (s[at + 6] + 0x100 * (s[at + 5] + 0x100 * (s[at + 4] + 0x100 * (s[at + 3]
        + 0x100 * (s[at + 2] + 0x100 * (s[at + 1] + 0x100 * s[at]))))))
}

/// `v` is the eight bytes at `at` read in the byte order of some machine.
pub open spec fn native_value(s: Seq<u8>, at: int, v: u64) -> bool {
    v == value_le(s, at) || v == value_be(s, at)
}

/// Reads eight bytes of `data` in the machine's byte order.
///
/// Calls `u64::from_ne_bytes`, which is `u64::from_le_bytes` on a little-endian
/// machine and `u64::from_be_bytes` on a big-endian one. Which of the two it is
/// here the contract leaves open.
#[verifier::external_body]
fn read_u64_ne(data: &[u8], at: usize) -> (v: u64)
    requires
        at + 8 <= data.len(),
    ensures
        native_value(data@, at as int, v),
{
    let mut bytes = [0u8; 8];
    bytes.copy_from_slice(&data[at..at + 8]);
    u64::from_ne_bytes(bytes)
}

/// What a decoder is, as plain values.
pub struct DecoderView {
    /// The region that the decoder reads.
    pub data: Seq<u8>,
    /// The cursor: the offset of the next packet.
    pub position: usize,
    /// The offset of the marker that was entered last.
    pub last_sync: usize,
}

/// A cursor over a region of trace bytes.
pub struct Decoder<'data> {
    data: &'data [u8],
    current_pos: usize,
    last_sync_offset: usize,
}

impl<'data> View for Decoder<'data> {
    type V = DecoderView;

    closed spec fn view(&self) -> DecoderView {
        DecoderView {
            data: self.data@,
            position: self.current_pos,
            last_sync: self.last_sync_offset,
        }
    }
}

/// The decoder after one call of `process_next_packet`, and what the call
/// returned: a packet moves the cursor behind it, a marker is remembered, a
/// timed value is handed out, and where no packet can be decoded nothing
/// changes.
pub open spec fn step_result(
    before: DecoderView,
    after: DecoderView,
    r: Result<Option<u64>, Error>,
) -> bool {
    let pos = before.position as int;
    &&& after.data == before.data
    &&& match packet_at(before.data, pos) {
        Err(e) => r == Err::<Option<u64>, Error>(e) && after == before,
        Ok(p) => {
            &&& after.position == pos + packet_len(p)
            &&& after.last_sync == if p == Packet::ExtendedSync {
                before.position
            } else {
                before.last_sync
            }
            &&& match r {
                Ok(Some(v)) => p == Packet::ExtendedTimedValue && native_value(
                    before.data,
                    pos + 2,
                    v,
                ),
                Ok(None) => p != Packet::ExtendedTimedValue,
                Err(_) => false,
            }
        },
    }
}

/// Seven units stand at `q`.
pub open spec fn sync_payload_at(s: Seq<u8>, q: int) -> bool {
    pair_at(s, q) && pair_at(s, q + 2) && pair_at(s, q + 4) && pair_at(s, q + 6) && pair_at(
        s,
        q + 8,
    ) && pair_at(s, q + 10) && pair_at(s, q + 12)
}

/// Where a walk from `pos`, packet by packet, comes to rest: at the first
/// timed value, or at the first place where no packet can be decoded.
pub open spec fn next_stop(s: Seq<u8>, pos: int) -> int
    decreases s.len() - pos,
{
    match packet_at(s, pos) {
        Ok(p) => if p == Packet::ExtendedTimedValue {
            pos
        } else {
            next_stop(s, pos + packet_len(p))
        },
        Err(_) => pos,
    }
}

/// The marker that is remembered when a walk from `pos` comes to rest, where
/// `sync` was remembered at its start.
pub open spec fn sync_at_stop(s: Seq<u8>, pos: int, sync: int) -> int
    decreases s.len() - pos,
{
    match packet_at(s, pos) {
        Ok(p) => if p == Packet::ExtendedTimedValue {
            sync
        } else {
            sync_at_stop(
                s,
                pos + packet_len(p),
                if p == Packet::ExtendedSync {
                    pos
                } else {
                    sync
                },
            )
        },
        Err(_) => sync,
    }
}

impl<'data> Decoder<'data> {
    /// A decoder at the start of `data`.
    pub fn new(data: &'data [u8]) -> (r: Self)
        ensures
            r@ == (DecoderView { data: data@, position: 0, last_sync: 0 }),
    {
        Self { data, current_pos: 0, last_sync_offset: 0 }
    }

    /// The offset of the marker that was entered last, zero before the first.
    pub fn sync_offset(&self) -> (r: usize)
        ensures
            r == self@.last_sync,
    {
        self.last_sync_offset
    }

    /// The cursor.
    pub fn offset(&self) -> (r: usize)
        ensures
            r == self@.position,
    {
        self.current_pos
    }

    /// Moves the cursor to `offset`.
    pub fn set_offset(&mut self, offset: usize)
        ensures
            final(self)@ == (DecoderView { position: offset, ..old(self)@ }),
    {
        self.current_pos = offset;
    }

    /// Checks the seven units that follow a marker's opcodes, and moves the
    /// cursor over them. Where they are not there the cursor stays.
    pub fn psb(&mut self) -> (r: Result<(), Error>)
        ensures
            final(self)@.data == old(self)@.data,
            final(self)@.last_sync == old(self)@.last_sync,
            match r {
                Ok(_) => {
                    &&& sync_payload_at(old(self)@.data, old(self)@.position as int)
                    &&& final(self)@.position == old(self)@.position + 14
                },
                Err(e) => {
                    &&& !sync_payload_at(old(self)@.data, old(self)@.position as int)
                    &&& final(self)@.position == old(self)@.position
                    &&& e == if old(self)@.position + 14 > old(self)@.data.len() {
                        Error::EndOfStream
                    } else {
                        Error::BadSync
                    }
                },
            },
    {
        let start = self.current_pos;
        let len = self.data.len();
        if len < PT_PL_PSB_SIZE || start > len - PT_PL_PSB_SIZE {
            return Err(Error::EndOfStream);
        }
        let mut count: usize = 0;
        while count < PT_PSB_REPEAT_COUNT
            invariant
                *self == *old(self),
                start == self.current_pos,
                start + 14 <= self.data.len(),
                count <= 7,
                forall|p: int|
                    start <= p < start + 2 * count && (p - start) % 2 == 0 ==> #[trigger] pair_at(
                        self.data@,
                        p,
                    ),
            decreases 7 - count,
        {
            if !is_pair(self.data, start + PT_PSB_REPEAT_SIZE * count) {
                assert(count == 0 || count == 1 || count == 2 || count == 3 || count == 4 || count
                    == 5 || count == 6);
                return Err(Error::BadSync);
            }
            count = count + 1;
        }
        proof {
            assert(pair_at(self.data@, start as int));
            assert(pair_at(self.data@, start + 2));
            assert(pair_at(self.data@, start + 4));
            assert(pair_at(self.data@, start + 6));
            assert(pair_at(self.data@, start + 8));
            assert(pair_at(self.data@, start + 10));
            assert(pair_at(self.data@, start + 12));
        }
        self.current_pos = start + PT_PL_PSB_SIZE;
        Ok(())
    }

    /// Decodes the packet at the cursor.
    pub fn process_next_packet(&mut self) -> (r: Result<Option<u64>, Error>)
        ensures
            step_result(old(self)@, final(self)@, r),
            old(self)@.position <= final(self)@.position,
    {
        let pos = self.current_pos;
        let len = self.data.len();
        if pos >= len {
            return Err(Error::EndOfStream);
        }
        let opcode = self.data[pos];
        if opcode == OPCODE_PAD {
            self.current_pos = pos + 1;
            Ok(None)
        } else if opcode == OPCODE_EXT {
            if len - pos < 2 {
                return Err(Error::EndOfStream);
            }
            let ext = self.data[pos + 1];
            if ext == OPCODE_EXT_PSB {
                self.current_pos = pos + 2;
                match self.psb() {
                    Ok(_) => {
                        self.last_sync_offset = pos;
                        Ok(None)
                    },
                    Err(e) => {
                        self.current_pos = pos;
                        Err(e)
                    },
                }
            } else if ext == OPCODE_EXT_PSBEND {
                self.current_pos = pos + 2;
                Ok(None)
            } else if ext == OPCODE_EXT_CBR {
                if len - pos < 4 {
                    return Err(Error::EndOfStream);
                }
                self.current_pos = pos + 4;
                Ok(None)
            } else if ext == OPCODE_EXT_PTW {
                if len - pos < 10 {
                    return Err(Error::EndOfStream);
                }
                let payload = read_u64_ne(self.data, pos + 2);
                self.current_pos = pos + 10;
                Ok(Some(payload))
            } else {
                Err(Error::UnknownExtOpcode)
            }
        } else if opcode & 0x01 == 0 {
            assert(opcode & 0x01 == 0 ==> opcode % 2 == 0) by (bit_vector);
            self.current_pos = pos + 1;
            Ok(None)
        } else {
            assert(opcode & 0x01 != 0 ==> opcode % 2 != 0) by (bit_vector);
            Err(Error::UnknownOpcode)
        }
    }

    /// Moves the cursor to the first marker at or after the one remembered,
    /// and remembers that one. There has to be one.
    pub fn sync_forward(&mut self)
        requires
            exists|k: int| old(self)@.last_sync <= k && marker_at(old(self)@.data, k),
        ensures
            final(self)@.data == old(self)@.data,
            sync_result(old(self)@.data, old(self)@.last_sync as int, Some(final(self)@.position)),
            final(self)@.last_sync == final(self)@.position,
    {
        let from = self.last_sync_offset;
        let len = self.data.len();
        match find_next_sync(slice_subrange(self.data, from, len)) {
            Some(n) => {
                proof {
                    lemma_scan_start_independent(self.data@, from, (from + n) as usize);
                }
                self.current_pos = from + n;
                self.last_sync_offset = from + n;
            },
            None => {
                proof {
                    lemma_scan_tail_empty(self.data@, from as int);
                }
            },
        }
    }

    /// All timed values from the cursor on, in the order of the stream: the
    /// values that `next` would yield one by one until it yields none.
    pub fn collect_values(&mut self) -> (values: Vec<u64>)
        ensures
            final(self)@.data == old(self)@.data,
            old(self)@.position <= final(self)@.position,
            final(self)@.position == walk_end(old(self)@.data, old(self)@.position as int),
            final(self)@.last_sync == walk_sync(
                old(self)@.data,
                old(self)@.position as int,
                old(self)@.last_sync as int,
            ),
            values@.len() == payload_offsets(old(self)@.data, old(self)@.position as int).len(),
            forall|i: int|
                #![trigger values@[i]]
                0 <= i < values@.len() ==> native_value(
                    old(self)@.data,
                    payload_offsets(old(self)@.data, old(self)@.position as int)[i],
                    values@[i],
                ),
    {
        let mut values: Vec<u64> = Vec::new();
        let ghost all = payload_offsets(old(self)@.data, old(self)@.position as int);
        let ghost mut done: Seq<int> = Seq::empty();
        loop
            invariant
                self@.data == old(self)@.data,
                old(self)@.position <= self@.position,
                all == payload_offsets(old(self)@.data, old(self)@.position as int),
                all == done + payload_offsets(self@.data, self@.position as int),
                walk_end(self@.data, self@.position as int) == walk_end(
                    old(self)@.data,
                    old(self)@.position as int,
                ),
                walk_sync(self@.data, self@.position as int, self@.last_sync as int) == walk_sync(
                    old(self)@.data,
                    old(self)@.position as int,
                    old(self)@.last_sync as int,
                ),
                values@.len() == done.len(),
                forall|i: int|
                    #![trigger values@[i]]
                    0 <= i < values@.len() ==> native_value(self@.data, done[i], values@[i]),
            decreases self@.data.len() - self@.position,
        {
            let ghost before = self@;
            proof {
                lemma_walk_by_values(
                    self@.data,
                    self@.position as int,
                    self@.last_sync as int,
                );
            }
            match self.next() {
                Some(v) => {
                    values.push(v);
                    proof {
                        let stop = next_stop(before.data, before.position as int);
                        done = done.push(stop + 2);
                        assert(all =~= done + payload_offsets(self@.data, self@.position as int));
                    }
                },
                None => {
                    assert(all =~= done);
                    return values;
                },
            }
        }
    }

    /// The next timed value of the stream.
    ///
    /// Decodes packet after packet until one carries a value. Where no packet
    /// can be decoded, for whatever reason, the stream counts as ended: the
    /// cursor stays there and the answer is `None`.
    pub fn next(&mut self) -> (r: Option<u64>)
        ensures
            final(self)@.data == old(self)@.data,
            old(self)@.position <= final(self)@.position,
            final(self)@.last_sync == sync_at_stop(
                old(self)@.data,
                old(self)@.position as int,
                old(self)@.last_sync as int,
            ),
            match r {
                Some(v) => {
                    let stop = next_stop(old(self)@.data, old(self)@.position as int);
                    &&& packet_at(old(self)@.data, stop) == Ok::<Packet, Error>(
                        Packet::ExtendedTimedValue,
                    )
                    &&& native_value(old(self)@.data, stop + 2, v)
                    &&& final(self)@.position == stop + 10
                },
                None => {
                    let stop = next_stop(old(self)@.data, old(self)@.position as int);
                    &&& packet_at(old(self)@.data, stop) is Err
                    &&& final(self)@.position == stop
                },
            },
    {
        loop
            invariant
                self@.data == old(self)@.data,
                old(self)@.position <= self@.position,
                next_stop(self@.data, self@.position as int) == next_stop(
                    old(self)@.data,
                    old(self)@.position as int,
                ),
                sync_at_stop(self@.data, self@.position as int, self@.last_sync as int)
                    == sync_at_stop(
                    old(self)@.data,
                    old(self)@.position as int,
                    old(self)@.last_sync as int,
                ),
            decreases self@.data.len() - self@.position,
        {
            match self.process_next_packet() {
                Ok(None) => (),
                Ok(Some(payload)) => {
                    return Some(payload);
                },
                Err(_) => {
                    return None;
                },
            }
        }
    }
}

/// What the scanner finds the decoder accepts: at a marker stands a
/// synchronization packet, and behind it no second one.
pub proof fn lemma_marker_decodes_as_sync(s: Seq<u8>, k: int)
    requires
        marker_at(s, k),
    ensures
        packet_at(s, k) == Ok::<Packet, Error>(Packet::ExtendedSync),
        packet_at(s, k + 16) != Ok::<Packet, Error>(Packet::ExtendedSync),
{
}

/// A region of nothing but padding holds no marker, and a walk through it
/// from anywhere passes every byte, yields no value, enters no marker and
/// ends with the region.
pub proof fn lemma_padding_only(s: Seq<u8>, pos: int, sync: int)
    requires
        forall|i: int| 0 <= i < s.len() ==> s[i] == OPCODE_PAD,
        0 <= pos <= s.len(),
    ensures
        no_marker_in(s, 0, s.len() as int),
        next_stop(s, pos) == s.len(),
        packet_at(s, s.len() as int) == Err::<Packet, Error>(Error::EndOfStream),
        sync_at_stop(s, pos, sync) == sync,
    decreases s.len() - pos,
{
    if pos < s.len() {
        lemma_padding_only(s, pos + 1, sync);
    }
}

} // verus!
