use vstd::prelude::*;

use crate::bytes::Endian;
use crate::error::ScanError;
use crate::image::traits::{scan_end, ImageRead, MemoryImage};
use crate::search::{byte_regex_find_all, find_occurrences};

verus! {

/// A memory image held in memory as plain bytes.
pub struct RawImage {
    data: Vec<u8>,
    name: String,
}

impl View for RawImage {
    type V = Seq<u8>;

    open spec fn view(&self) -> Seq<u8> {
        self.spec_data()
    }
}

impl RawImage {
    /// The bytes of the image.
    pub closed spec fn spec_data(&self) -> Seq<u8> {
        self.data@
    }

    /// The name the image was given.
    pub closed spec fn spec_name(&self) -> Seq<char> {
        self.name@
    }

    /// An image named `name` that holds `data`.
    pub fn new(name: String, data: Vec<u8>) -> (r: Self)
        ensures
            r@ == data@,
            r.spec_name() == name@,
    {
        RawImage { data, name }
    }
}

fn contains_byte(v: &Vec<u8>, b: u8) -> (r: bool)
    ensures
        r == v@.contains(b),
{
    let mut i: usize = 0;
    while i < v.len()
        invariant
            i <= v@.len(),
            forall|j: int| 0 <= j < i ==> v@[j] != b,
        decreases v@.len() - i,
    {
        if v[i] == b {
            return true;
        }
        i = i + 1;
    }
    false
}

impl MemoryImage for RawImage {
    open spec fn image_bytes(&self) -> Seq<u8> {
        self@
    }

    fn as_bytes(&self) -> (r: &[u8]) {
        self.data.as_slice()
    }

    fn name(&self) -> (r: String)
        ensures
            r@ == self.spec_name(),
    {
        self.name.clone()
    }

    /// Not supported for raw images: always an error.
    fn carve_banner(&self) -> (r: Result<String, ScanError>)
        ensures
            r == Err::<String, ScanError>(ScanError::Unimplemented),
    {
        Err(ScanError::Unimplemented)
    }

    /// Not supported for raw images: always an error.
    fn carve_btf(&self) -> (r: Result<(Endian, Vec<u8>), ScanError>)
        ensures
            r matches Err(e) && e == ScanError::Unimplemented,
    {
        Err(ScanError::Unimplemented)
    }

    fn scan_bytes(&self, needle: &[u8]) -> (r: Vec<usize>) {
        find_occurrences(self.data.as_slice(), needle)
    }

    fn scan_regex(&self, pattern: &str) -> (r: Option<Vec<(usize, usize)>>) {
        byte_regex_find_all(pattern, self.data.as_slice())
    }
}

impl ImageRead for RawImage {
    fn read_until(&self, offset: usize, until: Vec<u8>, max_length: Option<usize>) -> (r: Option<
        &[u8],
    >) {
        let read_max: usize = match max_length {
            Some(m) => m,
            None => 1024,
        };
        let data_len = self.data.len();
        let max_end = offset.saturating_add(read_max);
        let mut end = offset;
        let mut found = false;
        while !found && end != data_len && end < max_end
            invariant
                offset <= end <= data_len,
                data_len == self.data@.len(),
                max_end as int == if offset + read_max > usize::MAX {
                    usize::MAX as int
                } else {
                    offset + read_max
                },
                end <= max_end,
                found ==> end < data_len && end < offset + read_max && until@.contains(
                    self.data@[end as int],
                ),
                scan_end(self.data@, until@, offset as int, offset + read_max) == scan_end(
                    self.data@,
                    until@,
                    end as int,
                    offset + read_max,
                ),
            decreases data_len - end + if found {
                0int
            } else {
                1int
            },
        {
            if contains_byte(&until, self.data[end]) {
                found = true;
            } else {
                end = end + 1;
            }
        }
        assert(scan_end(self.data@, until@, end as int, offset + read_max) == end);
        Some(vstd::slice::slice_subrange(self.data.as_slice(), offset, end))
    }

    fn read_bytes(&self, offset: usize, length: usize) -> (r: Option<&[u8]>) {
        let data_len = self.data.len();
        let mut end = offset + length;
        if end > data_len {
            end = data_len;
        }
        Some(vstd::slice::slice_subrange(self.data.as_slice(), offset, end))
    }
}

} // verus!
