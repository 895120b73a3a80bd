//! The frame format: records bounded by bytes that name their own position.
//!
//! A marker is a byte whose value is its index. The byte after it is the
//! record's type, unless it is the continuation flag: then the record starts
//! at the flag and ends at a two-byte field that spells the record's length.

use vstd::prelude::*;
use vstd::slice::slice_subrange;

verus! {

/// Bytes in a frame as it arrives.
pub const FRAME_LEN: usize = 257;

/// Positions at which a marker is looked for.
pub const SCAN_LIMIT: usize = 255;

/// The byte after a marker that defers the record's end to a length field.
pub const CONTINUATION: u8 = 0x23;

/// Positions after the flag at which a length field is looked for.
pub const LONG_SPAN: usize = 0xffff;

/// Why a buffer holds no record.
#[derive(Clone, Copy, Debug, PartialEq, Eq)]
pub enum ParseError {
    /// No byte marks a record's end, and no length field follows a flag.
    NoMarkerFound,
}

/// Position `i` is scanned, has a byte after it, and holds its own index.
pub open spec fn marker_at(dat: Seq<u8>, i: int) -> bool {
    0 <= i < SCAN_LIMIT && i + 1 < dat.len() && dat[i] == i
}

/// A marker at `i` that ends a record: the next byte is a type.
pub open spec fn short_at(dat: Seq<u8>, i: int) -> bool {
    marker_at(dat, i) && dat[i + 1] != CONTINUATION
}

/// A marker at `i` that is followed by the continuation flag.
pub open spec fn continued_at(dat: Seq<u8>, i: int) -> bool {
    marker_at(dat, i) && dat[i + 1] == CONTINUATION
}

/// The two bytes at `j` lie in the buffer, within reach of the flag at `p`,
/// and spell, high byte first, their distance from `p`.
pub open spec fn long_at(dat: Seq<u8>, p: int, j: int) -> bool {
    p <= j < p + LONG_SPAN && j + 1 < dat.len() && dat[j] * 256 + dat[j + 1] == j - p
}

/// The first record-ending marker is at `i`.
pub open spec fn first_short(dat: Seq<u8>, i: int) -> bool {
    short_at(dat, i) && forall|k: int| 0 <= k < i ==> !short_at(dat, k)
}

/// The last continued marker is at `i`.
pub open spec fn last_continued(dat: Seq<u8>, i: int) -> bool {
    continued_at(dat, i) && forall|k: int| i < k ==> !continued_at(dat, k)
}

/// The first length field after the flag at `p` is at `j`.
pub open spec fn first_long(dat: Seq<u8>, p: int, j: int) -> bool {
    long_at(dat, p, j) && forall|k: int| p <= k < j ==> !long_at(dat, p, k)
}

/// The record that starts at `start` and is closed at `end`: the type is the
/// byte after `end`, the payload what lies between.
pub open spec fn record(dat: Seq<u8>, start: int, end: int) -> (u8, usize, Seq<u8>) {
    (dat[end + 1], (end - start) as usize, dat.subrange(start, end))
}

/// The record that a buffer holds, if any.
///
/// The first record-ending marker wins. Without one, the record starts at the
/// flag after the last continued marker and ends at the first length field.
pub open spec fn decoded(dat: Seq<u8>) -> Option<(u8, usize, Seq<u8>)> {
    if exists|i: int| short_at(dat, i) {
        let i = choose|i: int| first_short(dat, i);
        Some(record(dat, 0, i))
    } else if exists|i: int| continued_at(dat, i) {
        let p = (choose|i: int| last_continued(dat, i)) + 1;
        if exists|j: int| long_at(dat, p, j) {
            let j = choose|j: int| first_long(dat, p, j);
            Some(record(dat, p, j))
        } else {
            None
        }
    } else {
        None
    }
}

/// A buffer whose first record-ending marker is at `i` holds the record that
/// ends there, whatever else it holds.
pub proof fn lemma_decoded_short(dat: Seq<u8>, i: int)
    requires
        first_short(dat, i),
    ensures
        decoded(dat) == Some(record(dat, 0, i)),
{
    let c = choose|c: int| first_short(dat, c);
    assert(short_at(dat, i));
    assert(first_short(dat, c));
    assert(c == i) by {
        if c < i {
            assert(!short_at(dat, c));
        }
        if i < c {
            assert(!short_at(dat, i));
        }
    }
}

/// A buffer without a record-ending marker, whose last continued marker is at
/// `i` and whose first length field after the flag is at `j`, holds the record
/// from the flag to that field.
pub proof fn lemma_decoded_long(dat: Seq<u8>, i: int, j: int)
    requires
        forall|k: int| !short_at(dat, k),
        last_continued(dat, i),
        first_long(dat, i + 1, j),
    ensures
        decoded(dat) == Some(record(dat, i + 1, j)),
{
    let c = choose|c: int| last_continued(dat, c);
    assert(continued_at(dat, i));
    assert(last_continued(dat, c));
    assert(c == i) by {
        if c < i {
            assert(!continued_at(dat, i));
        }
        if i < c {
            assert(!continued_at(dat, c));
        }
    }
    let p = i + 1;
    let d = choose|d: int| first_long(dat, p, d);
    assert(long_at(dat, p, j));
    assert(first_long(dat, p, d));
    assert(d == j) by {
        if d < j {
            assert(!long_at(dat, p, d));
        }
        if j < d {
            assert(!long_at(dat, p, j));
        }
    }
}

/// A buffer without a record-ending marker and without a length field after
/// its last continued marker holds no record.
pub proof fn lemma_decoded_none(dat: Seq<u8>)
    requires
        forall|k: int| !short_at(dat, k),
        forall|p: int, j: int| #[trigger] long_at(dat, p, j) ==> !last_continued(dat, p - 1),
    ensures
        decoded(dat).is_none(),
{
    if exists|i: int| continued_at(dat, i) {
        let w = choose|i: int| continued_at(dat, i);
        lemma_last_continued_exists(dat, w, SCAN_LIMIT as int);
        let c = choose|c: int| last_continued(dat, c);
        assert(last_continued(dat, c));
        let p = c + 1;
        assert forall|j: int| !long_at(dat, p, j) by {
            if long_at(dat, p, j) {
                assert(!last_continued(dat, p - 1));
            }
        }
    }
}

/// Where some marker at or after `w` is continued, there is a last one.
proof fn lemma_last_continued_exists(dat: Seq<u8>, w: int, top: int)
    requires
        continued_at(dat, w),
        w < top,
        forall|k: int| top <= k ==> !continued_at(dat, k),
    ensures
        exists|c: int| last_continued(dat, c),
    decreases top - w,
{
    if top == w + 1 {
        assert(last_continued(dat, w));
    } else if continued_at(dat, top - 1) {
        assert(last_continued(dat, top - 1));
    } else {
        lemma_last_continued_exists(dat, w, top - 1);
    }
}

/// A short-form frame: the payload, a marker that names the payload's length,
/// the type, and whatever fills the rest of the buffer.
pub open spec fn short_frame(ty: u8, payload: Seq<u8>, fill: Seq<u8>) -> Seq<u8> {
    payload + seq![payload.len() as u8, ty] + fill
}

/// Writing a record in short form and decoding the frame gives the record
/// back: type, length and payload. The payload must be under 255 bytes, the
/// type must not be the continuation flag, and no byte of the payload may
/// itself end a record.
pub proof fn lemma_short_round_trip(ty: u8, payload: Seq<u8>, fill: Seq<u8>)
    requires
        payload.len() < SCAN_LIMIT,
        ty != CONTINUATION,
        forall|k: int| 0 <= k < payload.len() ==> !short_at(short_frame(ty, payload, fill), k),
    ensures
        decoded(short_frame(ty, payload, fill)) == Some((ty, payload.len() as usize, payload)),
{
    let dat = short_frame(ty, payload, fill);
    let n = payload.len() as int;
    assert(dat[n] == n);
    assert(dat[n + 1] == ty);
    assert(first_short(dat, n));
    lemma_decoded_short(dat, n);
    assert(dat.subrange(0, n) =~= payload);
}

/// Finds the record in `dat`.
///
/// Returns its type, its length and its payload, which borrows from `dat`, or
/// `NoMarkerFound` exactly when the buffer holds no record. The length is the
/// payload's, and the payload ends at least two bytes before the buffer does.
/// No byte outside the buffer is read, whatever its length.
pub fn parse_tlv(dat: &[u8]) -> (r: Result<(u8, usize, &[u8]), ParseError>)
    ensures
        match r {
            Ok((t, l, v)) => decoded(dat@) == Some((t, l, v@)) && l == v@.len() && l + 2
                <= dat@.len(),
            Err(e) => decoded(dat@).is_none() && e == ParseError::NoMarkerFound,
        },
{
    let mut p: usize = 0;
    let mut i: usize = 0;
    while i < SCAN_LIMIT && i + 1 < dat.len()
        invariant
            i <= SCAN_LIMIT,
            p <= i,
            forall|k: int| 0 <= k < i ==> !short_at(dat@, k),
            p == 0 ==> forall|k: int| 0 <= k < i ==> !continued_at(dat@, k),
            p != 0 ==> continued_at(dat@, p - 1) && forall|k: int|
                p <= k < i ==> !continued_at(dat@, k),
        decreases SCAN_LIMIT - i,
    {
        if dat[i] == i as u8 {
            if dat[i + 1] != CONTINUATION {
                proof {
                    assert(first_short(dat@, i as int));
                    lemma_decoded_short(dat@, i as int);
                }
                return Ok((dat[i + 1], i, slice_subrange(dat, 0, i)));
            }
            p = i + 1;
        }
        i += 1;
    }
    assert(forall|k: int| !short_at(dat@, k));
    if p != 0 {
        assert(last_continued(dat@, p - 1));
        let mut j: usize = p;
        while j - p < LONG_SPAN && j + 1 < dat.len()
            invariant
                1 <= p <= SCAN_LIMIT,
                p <= j,
                forall|k: int| !short_at(dat@, k),
                last_continued(dat@, p - 1),
                forall|k: int| p <= k < j ==> !long_at(dat@, p as int, k),
            decreases dat.len() - j,
        {
            if (dat[j] as usize) * 0x100 + (dat[j + 1] as usize) == j - p {
                proof {
                    assert(first_long(dat@, p as int, j as int));
                    lemma_decoded_long(dat@, p - 1, j as int);
                }
                return Ok((dat[j + 1], j - p, slice_subrange(dat, p, j)));
            }
            j += 1;
        }
        proof {
            assert(forall|k: int| !long_at(dat@, p as int, k));
            assert forall|q: int, k: int| #[trigger] long_at(dat@, q, k) implies !last_continued(
                dat@,
                q - 1,
            ) by {
                if last_continued(dat@, q - 1) {
                    if q < p {
                        assert(!continued_at(dat@, p - 1));
                    }
                    if p < q {
                        assert(!continued_at(dat@, q - 1));
                    }
                }
            }
            lemma_decoded_none(dat@);
        }
    } else {
        proof {
            assert(forall|k: int| !continued_at(dat@, k));
            lemma_decoded_none(dat@);
        }
    }
    Err(ParseError::NoMarkerFound)
}

} // verus!
