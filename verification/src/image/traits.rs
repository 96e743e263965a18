use vstd::prelude::*;

use crate::bytes::Endian;
use crate::error::ScanError;
use crate::search::{byte_regex_compiles, byte_regex_spans, occurrences, spans_well_formed};

verus! {

/// The end (exclusive) of a read that starts at `e` and stops before the
/// first byte of `until`, at `limit`, or at the end of `bytes`, whichever
/// comes first.
pub open spec fn scan_end(bytes: Seq<u8>, until: Seq<u8>, e: int, limit: int) -> int
    decreases limit - e,
{
    if e >= limit || e >= bytes.len() {
        e
    } else if until.contains(bytes[e]) {
        e
    } else {
        scan_end(bytes, until, e + 1, limit)
    }
}

/// The bytes that `read_until` gives: from `offset` up to the first byte of
/// `until`, the end of the image, or `max_length` bytes (1024 when not
/// given), whichever comes first.
pub open spec fn read_until_bytes(
    bytes: Seq<u8>,
    offset: int,
    until: Seq<u8>,
    max_length: Option<usize>,
) -> Seq<u8> {
    let max: int = match max_length {
        Some(m) => m as int,
        None => 1024,
    };
    bytes.subrange(offset, scan_end(bytes, until, offset, offset + max))
}

/// The bytes that `read_bytes` gives: `length` bytes from `offset`, cut at the
/// end of the image.
pub open spec fn read_bytes_range(bytes: Seq<u8>, offset: int, length: int) -> Seq<u8> {
    let end = if offset + length > bytes.len() {
        bytes.len() as int
    } else {
        offset + length
    };
    bytes.subrange(offset, end)
}

/// A memory image that can be searched.
pub trait MemoryImage {
    /// The bytes of the image.
    spec fn image_bytes(&self) -> Seq<u8>;

    /// The bytes of the image.
    fn as_bytes(&self) -> (r: &[u8])
        ensures
            r@ == self.image_bytes(),
    ;

    /// A name for the image.
    fn name(&self) -> String;

    /// The Linux banner stored in the image.
    fn carve_banner(&self) -> Result<String, ScanError>;

    /// The BTF data stored in the image, with its byte order.
    fn carve_btf(&self) -> Result<(Endian, Vec<u8>), ScanError>;

    /// The start offsets of the non-overlapping occurrences of `needle`, in order.
    fn scan_bytes(&self, needle: &[u8]) -> (r: Vec<usize>)
        ensures
            r@.len() == occurrences(self.image_bytes(), needle@).len(),
            forall|i: int|
                0 <= i < r@.len() ==> r@[i] as int == occurrences(self.image_bytes(), needle@)[i],
    ;

    /// The `(start, end)` spans of the successive matches of the byte regex
    /// `pattern`; `None` when the pattern does not compile.
    fn scan_regex(&self, pattern: &str) -> (r: Option<Vec<(usize, usize)>>)
        ensures
            r is Some <==> byte_regex_compiles(pattern@),
            r matches Some(v) ==> v@ == byte_regex_spans(pattern@, self.image_bytes()),
            r matches Some(v) ==> spans_well_formed(v@, self.image_bytes().len()),
    ;
}

/// Bounded reads from a memory image.
pub trait ImageRead: MemoryImage {
    /// The bytes from `offset` up to (not including) the first byte that is in
    /// `until`, stopping after `max_length` bytes (1024 when not given) or at
    /// the end of the image.
    fn read_until(&self, offset: usize, until: Vec<u8>, max_length: Option<usize>) -> (r: Option<
        &[u8],
    >)
        requires
            offset <= self.image_bytes().len(),
        ensures
            r matches Some(b) && b@ == read_until_bytes(
                self.image_bytes(),
                offset as int,
                until@,
                max_length,
            ),
    ;

    /// `length` bytes from `offset`, cut at the end of the image.
    fn read_bytes(&self, offset: usize, length: usize) -> (r: Option<&[u8]>)
        requires
            offset <= self.image_bytes().len(),
            offset + length <= usize::MAX,
        ensures
            r matches Some(b) && b@ == read_bytes_range(
                self.image_bytes(),
                offset as int,
                length as int,
            ),
    ;
}

proof fn lemma_scan_end(bytes: Seq<u8>, until: Seq<u8>, e: int, limit: int)
    requires
        0 <= e <= bytes.len(),
    ensures
        e <= scan_end(bytes, until, e, limit),
        scan_end(bytes, until, e, limit) <= bytes.len(),
        scan_end(bytes, until, e, limit) == e || scan_end(bytes, until, e, limit) <= limit,
        forall|k: int| e <= k < scan_end(bytes, until, e, limit) ==> !until.contains(#[trigger] bytes[k]),
        scan_end(bytes, until, e, limit) == bytes.len() || scan_end(bytes, until, e, limit) >= limit
            || until.contains(bytes[scan_end(bytes, until, e, limit)]),
    decreases limit - e,
{
    if e < limit && e < bytes.len() && !until.contains(bytes[e]) {
        lemma_scan_end(bytes, until, e + 1, limit);
    }
}

/// `read_until` stops at the first terminator: the bytes it gives hold no byte
/// of `until`, are no longer than the limit (`max_length`, or 1024), and end
/// at a terminator, at the limit, or at the end of the image.
pub proof fn lemma_read_until_stops(
    bytes: Seq<u8>,
    offset: int,
    until: Seq<u8>,
    max_length: Option<usize>,
)
    requires
        0 <= offset <= bytes.len(),
    ensures
        ({
            let r = read_until_bytes(bytes, offset, until, max_length);
            let max: int = match max_length {
                Some(m) => m as int,
                None => 1024,
            };
            &&& r.len() <= max
            &&& forall|i: int| 0 <= i < r.len() ==> !until.contains(#[trigger] r[i])
            &&& offset + r.len() == bytes.len() || r.len() == max || until.contains(
                bytes[offset + r.len()],
            )
        }),
{
    let max: int = match max_length {
        Some(m) => m as int,
        None => 1024,
    };
    lemma_scan_end(bytes, until, offset, offset + max);
    let r = read_until_bytes(bytes, offset, until, max_length);
    assert forall|i: int| 0 <= i < r.len() implies !until.contains(#[trigger] r[i]) by {
        assert(r[i] == bytes[offset + i]);
    }
}


proof fn lemma_scan_end_at(bytes: Seq<u8>, until: Seq<u8>, e: int, limit: int, j: int)
    requires
        0 <= e <= j <= bytes.len(),
        j < limit,
        forall|k: int| e <= k < j ==> !until.contains(#[trigger] bytes[k]),
        j == bytes.len() || until.contains(bytes[j]),
    ensures
        scan_end(bytes, until, e, limit) == j,
    decreases j - e,
{
    if e < j {
        lemma_scan_end_at(bytes, until, e + 1, limit, j);
    }
}

/// Without a limit given, `read_until` reads up to the first terminator or the
/// end of the image, whichever comes first, when that is less than 1024 bytes
/// away.
pub proof fn lemma_read_until_to_terminator(bytes: Seq<u8>, offset: int, until: Seq<u8>, j: int)
    requires
        0 <= offset <= j <= bytes.len(),
        j - offset < 1024,
        forall|k: int| offset <= k < j ==> !until.contains(#[trigger] bytes[k]),
        j == bytes.len() || until.contains(bytes[j]),
    ensures
        read_until_bytes(bytes, offset, until, None) == bytes.subrange(offset, j),
{
    lemma_scan_end_at(bytes, until, offset, offset + 1024, j);
}

} // verus!
