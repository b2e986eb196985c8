//! Byte ranges of a request, resolved against the length of a file.

use vstd::prelude::*;

verus! {

/// A byte-range request, in one of the three HTTP `Range` shapes (RFC 9110 section 14.1.2).
#[derive(Debug, Clone, Copy, PartialEq, Eq, Structural)]
pub enum ByteRange {
    /// `bytes=first-`: from `first` to the end of the file.
    From { first: u64 },
    /// `bytes=first-last`: inclusive on both ends.
    Inclusive { first: u64, last: u64 },
    /// `bytes=-length`: the last `length` bytes of the file.
    Suffix { length: u64 },
}

/// The position `i` of a file of `file_len` bytes lies in the range.
pub open spec fn in_range(file_len: u64, range: ByteRange, i: int) -> bool {
    0 <= i < file_len && match range {
        ByteRange::From { first } => first <= i,
        ByteRange::Inclusive { first, last } => first <= i <= last,
        ByteRange::Suffix { length } => file_len - length <= i,
    }
}

/// The window of a range: from its first position in the file to behind its last. `None` if
/// the range cannot be satisfied. A suffix of an empty file is an empty window.
pub open spec fn window(file_len: u64, range: ByteRange) -> Option<(u64, u64)> {
    let (start, end) = match range {
        ByteRange::From { first } => (first as int, file_len as int),
        ByteRange::Inclusive { first, last } => (
            first as int,
            if last < file_len {
                last + 1
            } else {
                file_len as int
            },
        ),
        ByteRange::Suffix { length } => (
            if length <= file_len {
                file_len - length
            } else {
                0
            },
            file_len as int,
        ),
    };
    let empty_ok = range matches ByteRange::Suffix { length } && length > 0;
    if start < end || empty_ok {
        Some((start as u64, end as u64))
    } else {
        None
    }
}

/// Resolve a [`ByteRange`] against a file of `file_len` bytes.
///
/// Returns `(start, end_exclusive)`, the half-open window to read, or `None` if the range is
/// not satisfiable.
///
/// An `Inclusive` range that reaches past the end of the file is clamped to it rather than
/// rejected, and a `Suffix` longer than the file returns the whole file.
pub fn resolve_range(file_len: u64, range: ByteRange) -> (r: Option<(u64, u64)>)
    ensures
        r == window(file_len, range),
{
    match range {
        ByteRange::From { first } => if first >= file_len {
            None
        } else {
            Some((first, file_len))
        },
        ByteRange::Inclusive { first, last } => {
            if first >= file_len {
                return None;
            }
            let end: u64 = if last < file_len - 1 {
                last
            } else {
                file_len - 1
            };
            if first > end {
                return None;
            }
            Some((first, end + 1))
        },
        ByteRange::Suffix { length } => {
            if length == 0 {
                return None;
            }
            let size: u64 = if length < file_len {
                length
            } else {
                file_len
            };
            Some((file_len - size, file_len))
        },
    }
}

/// A window lies in the file and holds the positions of its range, no others; a range without
/// a window holds no position.
pub proof fn law_window_exact(file_len: u64, range: ByteRange)
    ensures
        window(file_len, range) matches Some((start, end)) ==> start <= end <= file_len
            && forall|i: int| start <= i < end <==> in_range(file_len, range, i),
        window(file_len, range) is None ==> forall|i: int| !in_range(file_len, range, i),
{
    if let Some((start, end)) = window(file_len, range) {
        assert forall|i: int| start <= i < end <==> in_range(file_len, range, i) by {}
    }
}

/// A range from a position on covers the rest of the file, and is refused where there is none.
pub proof fn law_range_from(file_len: u64, first: u64, r: Option<(u64, u64)>)
    requires
        call_ensures(resolve_range, (file_len, ByteRange::From { first }), r),
    ensures
        first < file_len ==> r == Some((first, file_len)),
        first >= file_len ==> r is None,
{
}

/// A range of positions covers those of them that the file has, both ends included, and is
/// refused where there is none.
pub proof fn law_range_inclusive(file_len: u64, first: u64, last: u64, r: Option<(u64, u64)>)
    requires
        call_ensures(resolve_range, (file_len, ByteRange::Inclusive { first, last }), r),
    ensures
        first <= last && last < file_len ==> r == Some((first, (last + 1) as u64)),
        first < file_len && file_len <= last ==> r == Some((first, file_len)),
        first > last || first >= file_len ==> r is None,
{
}

/// A suffix covers the last bytes of the file, or all of it if it is no longer; only a suffix
/// of no bytes is refused.
pub proof fn law_range_suffix(file_len: u64, length: u64, r: Option<(u64, u64)>)
    requires
        call_ensures(resolve_range, (file_len, ByteRange::Suffix { length }), r),
    ensures
        0 < length <= file_len ==> r == Some(((file_len - length) as u64, file_len)),
        length > file_len ==> r == Some((0u64, file_len)),
        length == 0 ==> r is None,
{
}

} // verus!
