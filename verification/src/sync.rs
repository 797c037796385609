//! The synchronization scanner.
//!
//! A synchronization marker is sixteen bytes long: the two-byte unit
//! `PT_PSB_HI`, `PT_PSB_LO` eight times in a row, after which the unit does not
//! occur a ninth time. The scanners of this module find the first marker of a
//! byte region; they differ in how they walk the region, not in what they
//! return.

use std::ops::Range;
use vstd::prelude::*;
use vstd::slice::slice_subrange;

verus! {

/// The first byte of the repeating unit.
pub const PT_PSB_HI: u8 = 0x02;

/// The second byte of the repeating unit.
pub const PT_PSB_LO: u8 = 0x82;

/// How often the unit repeats after a marker's two opcode bytes.
pub const PT_PSB_REPEAT_COUNT: usize = 7;

/// The size of the unit in bytes.
pub const PT_PSB_REPEAT_SIZE: usize = 2;

/// The size in bytes of what follows a marker's two opcode bytes.
pub const PT_PL_PSB_SIZE: usize = 14;

/// The number of opcode bytes of a marker.
pub const PT_OPCS_PSB: usize = 2;

/// The size of a whole marker in bytes.
pub const PTPS_PSB: usize = 16;

/// Why a region holds no range of markers.
#[derive(Debug, Clone, Copy, PartialEq, Eq, Structural)]
pub enum ParseError {
    /// The region holds no marker.
    NoSync,
    /// The region holds a single marker, at this offset, or a single one was
    /// asked for.
    OneSync(usize),
}

/// The unit stands at `p`, both bytes inside `s`.
pub open spec fn pair_at(s: Seq<u8>, p: int) -> bool {
    0 <= p && p + 2 <= s.len() && s[p] == PT_PSB_HI && s[p + 1] == PT_PSB_LO
}

/// Eight units in a row start at `k`.
pub open spec fn run_at(s: Seq<u8>, k: int) -> bool {
    pair_at(s, k) && pair_at(s, k + 2) && pair_at(s, k + 4) && pair_at(s, k + 6) && pair_at(
        s,
        k + 8,
    ) && pair_at(s, k + 10) && pair_at(s, k + 12) && pair_at(s, k + 14)
}

/// A marker starts at `k`: eight units in a row, and no ninth complete unit
/// behind them.
pub open spec fn marker_at(s: Seq<u8>, k: int) -> bool {
    run_at(s, k) && !pair_at(s, k + 16)
}

/// No marker starts at an offset from `lo` up to, not including, `hi`.
pub open spec fn no_marker_in(s: Seq<u8>, lo: int, hi: int) -> bool {
    forall|j: int| lo <= j < hi ==> !#[trigger] marker_at(s, j)
}

/// `r` is the answer of a scan of `s` that starts at `from`: the offset of the
/// first marker at or after `from`, or nothing where there is none.
pub open spec fn sync_result(s: Seq<u8>, from: int, r: Option<usize>) -> bool {
    match r {
        Some(k) => from <= k && marker_at(s, k as int) && no_marker_in(s, from, k as int),
        None => no_marker_in(s, from, s.len() as int),
    }
}

/// Whether the unit stands at `p`.
pub(crate) fn is_pair(buf: &[u8], p: usize) -> (r: bool)
    ensures
        r == pair_at(buf@, p as int),
{
    p < buf.len() && buf.len() - p >= 2 && buf[p] == PT_PSB_HI && buf[p + 1] == PT_PSB_LO
}

/// Whether a marker starts at `k`, checked unit by unit.
fn is_marker(buf: &[u8], k: usize) -> (r: bool)
    ensures
        r == marker_at(buf@, k as int),
{
    if buf.len() < PTPS_PSB || k > buf.len() - PTPS_PSB {
        return false;
    }
    is_pair(buf, k) && is_pair(buf, k + 2) && is_pair(buf, k + 4) && is_pair(buf, k + 6)
        && is_pair(buf, k + 8) && is_pair(buf, k + 10) && is_pair(buf, k + 12) && is_pair(
        buf,
        k + 14,
    ) && !is_pair(buf, k + PTPS_PSB)
}

/// The plain scan: tries every offset in turn.
pub fn find_next_sync_simple(buf: &[u8]) -> (r: Option<usize>)
    ensures
        sync_result(buf@, 0, r),
{
    let mut i: usize = 0;
    while i < buf.len()
        invariant
            i <= buf.len(),
            no_marker_in(buf@, 0, i as int),
        decreases buf.len() - i,
    {
        if buf[i] == PT_PSB_HI && is_marker(buf, i) {
            return Some(i);
        }
        i = i + 1;
    }
    None
}

/// The eight bytes at `w` hold the unit four times, from the first byte on.
pub open spec fn window_aligned(s: Seq<u8>, w: int) -> bool {
    pair_at(s, w) && pair_at(s, w + 2) && pair_at(s, w + 4) && pair_at(s, w + 6)
}

/// The eight bytes at `w` hold the repeating pattern one byte late: they start
/// with the unit's second byte.
pub open spec fn window_shifted(s: Seq<u8>, w: int) -> bool {
    0 <= w && w + 8 <= s.len() && s[w] == PT_PSB_LO && pair_at(s, w + 1) && pair_at(s, w + 3)
        && pair_at(s, w + 5) && s[w + 7] == PT_PSB_HI
}

/// A marker that covers the eight bytes at `w` makes them one of the two
/// patterns, and which one tells the marker's alignment.
pub proof fn lemma_marker_fixes_window(s: Seq<u8>, j: int, w: int)
    requires
        marker_at(s, j),
        j <= w <= j + 8,
    ensures
        (w - j) % 2 == 0 ==> window_aligned(s, w),
        (w - j) % 2 != 0 ==> window_shifted(s, w),
{
    let d = w - j;
    assert(d == 0 || d == 1 || d == 2 || d == 3 || d == 4 || d == 5 || d == 6 || d == 7 || d == 8);
}

/// Whether the eight bytes at `w` are one of the two patterns.
fn window_matches(buf: &[u8], w: usize) -> (r: bool)
    requires
        w + 8 <= buf.len(),
    ensures
        r == (window_aligned(buf@, w as int) || window_shifted(buf@, w as int)),
{
    if buf[w] == PT_PSB_HI {
        buf[w + 1] == PT_PSB_LO && is_pair(buf, w + 2) && is_pair(buf, w + 4) && is_pair(
            buf,
            w + 6,
        )
    } else {
        buf[w] == PT_PSB_LO && is_pair(buf, w + 1) && is_pair(buf, w + 3) && is_pair(buf, w + 5)
            && buf[w + 7] == PT_PSB_HI
    }
}

/// The offset of the first marker of `buf`, if it has one.
///
/// Walks `buf` in windows of eight bytes and passes over every window that is
/// neither of the two patterns. At a window that is one, it takes the
/// alignment from the window's first byte, follows the units forward to the
/// first place where none stands, and confirms the sixteen bytes before it.
pub fn find_next_sync(buf: &[u8]) -> (r: Option<usize>)
    ensures
        sync_result(buf@, 0, r),
{
    let len = buf.len();
    let mut w: usize = 0;
    while len - w >= 8
        invariant
            len == buf.len(),
            w <= len,
            no_marker_in(buf@, 0, w - 7),
        decreases len - w,
    {
        if window_matches(buf, w) {
            let start: usize = if buf[w] == PT_PSB_HI {
                w
            } else {
                w + 1
            };
            let mut end: usize = start + 6;
            while is_pair(buf, end)
                invariant
                    len == buf.len(),
                    start + 6 <= end <= len,
                    (end - start) % 2 == 0,
                    forall|p: int|
                        start <= p < end && (p - start) % 2 == 0 ==> #[trigger] pair_at(buf@, p),
                decreases len - end,
            {
                end = end + 2;
            }
            if end >= PTPS_PSB && is_marker(buf, end - PTPS_PSB) {
                let k: usize = end - PTPS_PSB;
                proof {
                    assert forall|j: int| w - 7 <= j < k implies !marker_at(buf@, j) by {
                        if marker_at(buf@, j) {
                            if j <= w {
                                lemma_marker_fixes_window(buf@, j, w as int);
                                assert((j - start) % 2 == 0);
                                assert(pair_at(buf@, j + 16));
                            } else if (j - start) % 2 == 0 {
                                assert(pair_at(buf@, j + 16));
                            } else {
                                assert(pair_at(buf@, j - 1));
                            }
                        }
                    }
                }
                return Some(k);
            }
            proof {
                assert forall|j: int| w - 7 <= j < w + 1 implies !marker_at(buf@, j) by {
                    if marker_at(buf@, j) {
                        lemma_marker_fixes_window(buf@, j, w as int);
                        assert((j - start) % 2 == 0);
                        if j + 16 < end {
                            assert(pair_at(buf@, j + 16));
                        }
                        assert(end == j + 16);
                    }
                }
            }
        } else {
            proof {
                assert forall|j: int| w - 7 <= j < w + 1 implies !marker_at(buf@, j) by {
                    if marker_at(buf@, j) {
                        lemma_marker_fixes_window(buf@, j, w as int);
                    }
                }
            }
        }
        w = w + 8;
    }
    None
}

/// The offset of the first marker of `data`, if it has one.
///
/// Steps a cursor through `data`. Where the unit stands under the cursor, it
/// follows the units to the end of their row: a row of eight or more ends in a
/// marker, a shorter one holds none and is passed over whole.
pub fn find_next_sync_unsafe(data: &[u8]) -> (r: Option<usize>)
    ensures
        sync_result(data@, 0, r),
{
    let len = data.len();
    let mut p: usize = 0;
    while p < len
        invariant
            len == data.len(),
            p <= len,
            no_marker_in(data@, 0, p as int),
        decreases len - p,
    {
        if is_pair(data, p) {
            let mut end: usize = p + 2;
            while is_pair(data, end)
                invariant
                    len == data.len(),
                    p + 2 <= end <= len,
                    (end - p) % 2 == 0,
                    forall|q: int|
                        p <= q < end && (q - p) % 2 == 0 ==> #[trigger] pair_at(data@, q),
                decreases len - end,
            {
                end = end + 2;
            }
            if end - p >= PTPS_PSB {
                let k: usize = end - PTPS_PSB;
                proof {
                    assert(pair_at(data@, k as int));
                    assert(pair_at(data@, k + 2));
                    assert(pair_at(data@, k + 4));
                    assert(pair_at(data@, k + 6));
                    assert(pair_at(data@, k + 8));
                    assert(pair_at(data@, k + 10));
                    assert(pair_at(data@, k + 12));
                    assert(pair_at(data@, k + 14));
                    assert forall|j: int| p <= j < k implies !marker_at(data@, j) by {
                        if (j - p) % 2 == 0 {
                            assert(pair_at(data@, j + 16));
                        } else {
                            assert(pair_at(data@, j - 1));
                        }
                    }
                }
                return Some(k);
            }
            proof {
                assert forall|j: int| p <= j < end implies !marker_at(data@, j) by {
                    if (j - p) % 2 != 0 {
                        assert(pair_at(data@, j - 1));
                    }
                }
            }
            p = end;
        } else {
            p = p + 1;
        }
    }
    None
}

/// How many markers start before `upto`.
pub open spec fn marker_count(s: Seq<u8>, upto: int) -> nat
    decreases upto,
{
    if upto <= 0 {
        0
    } else {
        marker_count(s, upto - 1) + if marker_at(s, upto - 1) {
            1nat
        } else {
            0nat
        }
    }
}

/// How many markers a search for at most `max` of them takes from `s`: all of
/// them if `max` is zero or there are fewer, else `max`.
pub open spec fn markers_taken(s: Seq<u8>, max: usize) -> nat {
    let total = marker_count(s, s.len() as int);
    if max == 0 || total < max {
        total
    } else {
        max as nat
    }
}

/// Where no marker starts between `lo` and `hi`, as many start before `hi` as
/// before `lo`.
pub proof fn lemma_count_unchanged(s: Seq<u8>, lo: int, hi: int)
    requires
        lo <= hi,
        no_marker_in(s, lo, hi),
    ensures
        marker_count(s, hi) == marker_count(s, lo),
    decreases hi - lo,
{
    if lo < hi {
        lemma_count_unchanged(s, lo, hi - 1);
        assert(!marker_at(s, hi - 1));
    }
}

/// The count of markers grows with the bound.
pub proof fn lemma_count_monotone(s: Seq<u8>, lo: int, hi: int)
    requires
        lo <= hi,
    ensures
        marker_count(s, lo) <= marker_count(s, hi),
    decreases hi - lo,
{
    if lo < hi {
        lemma_count_monotone(s, lo, hi - 1);
    }
}

/// A marker starts somewhere before `upto`.
pub open spec fn some_marker_before(s: Seq<u8>, upto: int) -> bool {
    exists|a: int| 0 <= a < upto && #[trigger] marker_at(s, a)
}

/// Two markers start at different offsets before `upto`.
pub open spec fn two_markers_before(s: Seq<u8>, upto: int) -> bool {
    exists|a: int, b: int|
        0 <= a < b < upto && #[trigger] marker_at(s, a) && #[trigger] marker_at(s, b)
}

/// The count of markers says how many there are: it is zero exactly where
/// there is none, and two or more exactly where there are two different ones.
pub proof fn lemma_count_tells_markers(s: Seq<u8>, upto: int)
    ensures
        marker_count(s, upto) >= 1 <==> some_marker_before(s, upto),
        marker_count(s, upto) >= 2 <==> two_markers_before(s, upto),
    decreases upto,
{
    if upto > 0 {
        lemma_count_tells_markers(s, upto - 1);
        if some_marker_before(s, upto) {
            let a = choose|a: int| 0 <= a < upto && #[trigger] marker_at(s, a);
            if a < upto - 1 {
                assert(some_marker_before(s, upto - 1));
            }
        }
        if marker_count(s, upto - 1) >= 1 {
            let a = choose|a: int| 0 <= a < upto - 1 && #[trigger] marker_at(s, a);
            assert(some_marker_before(s, upto));
            if marker_at(s, upto - 1) {
                assert(marker_at(s, a) && marker_at(s, upto - 1));
                assert(two_markers_before(s, upto));
            }
        }
        if marker_at(s, upto - 1) {
            assert(some_marker_before(s, upto));
        }
        if marker_count(s, upto - 1) >= 2 {
            let (a, b) = choose|a: int, b: int|
                0 <= a < b < upto - 1 && #[trigger] marker_at(s, a) && #[trigger] marker_at(s, b);
            assert(marker_at(s, a) && marker_at(s, b));
            assert(two_markers_before(s, upto));
        }
        if two_markers_before(s, upto) {
            let (a, b) = choose|a: int, b: int|
                0 <= a < b < upto && #[trigger] marker_at(s, a) && #[trigger] marker_at(s, b);
            if b < upto - 1 {
                assert(marker_at(s, a) && marker_at(s, b));
                assert(two_markers_before(s, upto - 1));
            } else {
                assert(marker_at(s, a));
                assert(some_marker_before(s, upto - 1));
            }
        }
    }
}

/// A marker of a region's tail is a marker of the region, moved by where the
/// tail starts, and the other way round.
pub proof fn lemma_marker_in_suffix(s: Seq<u8>, from: int, k: int)
    requires
        0 <= from <= s.len(),
        0 <= k,
    ensures
        marker_at(s.subrange(from, s.len() as int), k) == marker_at(s, from + k),
{
}

/// A scan does not depend on where the region starts: the first marker at or
/// after `from` lies at `k` exactly if the scan of the tail that starts at
/// `from` finds it at `k - from`.
pub proof fn lemma_scan_start_independent(s: Seq<u8>, from: usize, k: usize)
    requires
        from <= k,
        from <= s.len(),
    ensures
        sync_result(s, from as int, Some(k)) == sync_result(
            s.subrange(from as int, s.len() as int),
            0,
            Some((k - from) as usize),
        ),
{
    let t = s.subrange(from as int, s.len() as int);
    lemma_marker_in_suffix(s, from as int, k - from);
    if sync_result(s, from as int, Some(k)) {
        assert forall|j: int| 0 <= j < k - from implies !marker_at(t, j) by {
            lemma_marker_in_suffix(s, from as int, j);
        }
    }
    if sync_result(t, 0, Some((k - from) as usize)) {
        assert forall|j: int| from <= j < k implies !marker_at(s, j) by {
            lemma_marker_in_suffix(s, from as int, j - from);
        }
    }
}

/// A scan does not depend on where the region ends either, as long as the
/// marker lies inside: the first marker at or after `from` is the first marker
/// of every part of the region that starts at `from` and holds it whole.
pub proof fn lemma_scan_of_part(s: Seq<u8>, from: usize, to: usize, k: usize)
    requires
        from <= k,
        k + 16 <= to <= s.len(),
        sync_result(s, from as int, Some(k)),
    ensures
        sync_result(s.subrange(from as int, to as int), 0, Some((k - from) as usize)),
{
    let t = s.subrange(from as int, to as int);
    assert forall|j: int| 0 <= j < k - from implies !marker_at(t, j) by {
        if marker_at(t, j) {
            assert(run_at(s, from + j));
            assert(!marker_at(s, from + j));
            assert(pair_at(s, from + j + 16));
            assert(from + j == k - 1);
        }
    }
}

/// The scan of a tail without a marker: the region has none from `from` on.
pub proof fn lemma_scan_tail_empty(s: Seq<u8>, from: int)
    requires
        0 <= from <= s.len(),
        no_marker_in(s.subrange(from, s.len() as int), 0, s.len() - from),
    ensures
        no_marker_in(s, from, s.len() as int),
{
    assert forall|j: int| from <= j < s.len() implies !marker_at(s, j) by {
        lemma_marker_in_suffix(s, from, j - from);
    }
}

/// The range from the first marker of `slice` to the last one taken, where
/// the search takes at most `max` markers, and all of them if `max` is zero.
///
/// With no marker there is no range, and `NoSync` says so. With one marker
/// taken there is none either: `OneSync` carries the offset of that marker.
pub fn find_sync_range(slice: &[u8], max: usize) -> (r: Result<Range<usize>, ParseError>)
    ensures
        match r {
            Ok(range) => {
                &&& sync_result(slice@, 0, Some(range.start))
                &&& range.start < range.end
                &&& marker_at(slice@, range.end as int)
                &&& marker_count(slice@, range.end as int) + 1 == markers_taken(slice@, max)
            },
            Err(ParseError::OneSync(only)) => {
                &&& sync_result(slice@, 0, Some(only))
                &&& markers_taken(slice@, max) == 1
            },
            Err(ParseError::NoSync) => marker_count(slice@, slice@.len() as int) == 0,
        },
        max != 1 ==> (r is Ok <==> two_markers_before(slice@, slice@.len() as int)),
        r == Err::<Range<usize>, ParseError>(ParseError::NoSync) <==> !some_marker_before(
            slice@,
            slice@.len() as int,
        ),
{
    let len = slice.len();
    proof {
        lemma_count_tells_markers(slice@, len as int);
    }
    let start: usize = match find_next_sync(slice) {
        Some(start) => start,
        None => {
            proof {
                lemma_count_unchanged(slice@, 0, len as int);
            }
            return Err(ParseError::NoSync);
        },
    };
    proof {
        lemma_count_unchanged(slice@, 0, start as int);
    }
    let mut last_syncpoint: usize = start;
    let mut syncpoint_count: usize = 1;
    let mut more = true;
    while more && syncpoint_count != max
        invariant
            len == slice.len(),
            start <= last_syncpoint,
            marker_at(slice@, last_syncpoint as int),
            marker_count(slice@, last_syncpoint as int) + 1 == syncpoint_count,
            syncpoint_count <= last_syncpoint + 1,
            max == 0 || syncpoint_count <= max,
            syncpoint_count == 1 ==> last_syncpoint == start,
            syncpoint_count != 1 ==> start < last_syncpoint,
            !more ==> no_marker_in(slice@, last_syncpoint + 1, len as int),
        decreases len - last_syncpoint + if more { 1int } else { 0int },
    {
        let from: usize = last_syncpoint + 1;
        match find_next_sync(slice_subrange(slice, from, len)) {
            Some(offset) => {
                proof {
                    lemma_scan_start_independent(slice@, from, (from + offset) as usize);
                    lemma_count_unchanged(slice@, from as int, from + offset);
                }
                syncpoint_count = syncpoint_count + 1;
                last_syncpoint = from + offset;
            },
            None => {
                proof {
                    lemma_scan_tail_empty(slice@, from as int);
                }
                more = false;
            },
        }
    }
    proof {
        if more {
            lemma_count_monotone(slice@, last_syncpoint + 1, len as int);
        } else {
            lemma_count_unchanged(slice@, last_syncpoint + 1, len as int);
        }
    }
    if syncpoint_count == 1 {
        return Err(ParseError::OneSync(start));
    }
    Ok(start..last_syncpoint)
}

/// A scan has one answer: two scanners that both find the first marker agree.
pub proof fn lemma_sync_result_unique(s: Seq<u8>, from: int, a: Option<usize>, b: Option<usize>)
    requires
        sync_result(s, from, a),
        sync_result(s, from, b),
    ensures
        a == b,
{
    match (a, b) {
        (Some(x), Some(y)) => {
            if x < y {
                assert(!marker_at(s, x as int));
            } else if y < x {
                assert(!marker_at(s, y as int));
            }
        },
        (Some(x), None) => {
            assert(!marker_at(s, x as int));
        },
        (None, Some(y)) => {
            assert(!marker_at(s, y as int));
        },
        (None, None) => {},
    }
}

/// A region of fewer than sixteen bytes holds no marker, whatever its bytes
/// are: the start of a marker that the region's end cuts off is none.
pub proof fn lemma_short_region_has_no_marker(s: Seq<u8>)
    requires
        s.len() < 16,
    ensures
        sync_result(s, 0, None),
        marker_count(s, s.len() as int) == 0,
{
    lemma_count_unchanged(s, 0, s.len() as int);
}

/// Eight units at the start of a region, with nothing or one byte more
/// behind them, whatever it is, are the region's one marker: a unit that the
/// region's end cuts off does not move the marker.
pub proof fn lemma_partial_unit_keeps_marker(s: Seq<u8>)
    requires
        16 <= s.len() <= 17,
        run_at(s, 0),
    ensures
        sync_result(s, 0, Some(0)),
        no_marker_in(s, 1, s.len() as int),
{
}

} // verus!
