use vstd::prelude::*;
use vstd::utf8::*;

use crate::bytes::Endian;
use crate::error::ScanError;
use crate::image::raw::RawImage;
use crate::image::traits::{lemma_read_until_to_terminator, read_until_bytes, ImageRead, MemoryImage};
use crate::search::{
    byte_regex_compiles, byte_regex_spans, text_regex_compiles,
    text_regex_is_match, text_regex_matches,
};
use crate::text::{nth_piece, parse_unsigned, parse_unsigned_range, split_on, utf8_to_string};
use crate::utils::{count_of, is_most_common, most_common, string_views};

verus! {

/// The Linux banner: "Linux version" followed by a three-part version number.
pub const BANNER_REGEX: &'static str = r"Linux version [0-9]{1,5}\.[0-9]{1,5}\.[0-9]{1,5}";

/// Names of 64-bit architectures as they appear in a banner.
pub const BITNESS_REGEX: &'static str = r"itanium|(?:amd|aarch|ia|arm|x86_|\D-)64";

/// The bytes that end a banner: NUL and newline.
pub open spec fn banner_terminators() -> Seq<u8> {
    seq![0x00u8, 0x0au8]
}

/// The text read at the start of each span, up to a NUL or newline and at
/// most 1024 bytes, for the spans whose text is valid UTF-8, in order.
pub open spec fn banner_candidates(bytes: Seq<u8>, spans: Seq<(usize, usize)>) -> Seq<Seq<char>>
    decreases spans.len(),
{
    if spans.len() == 0 {
        Seq::empty()
    } else {
        let pre = banner_candidates(bytes, spans.drop_last());
        let raw = read_until_bytes(bytes, spans.last().0 as int, banner_terminators(), None);
        if valid_utf8(raw) {
            pre.push(decode_utf8(raw))
        } else {
            pre
        }
    }
}

/// Entry `i` of `s` occurs at least as often as any entry, and more often than
/// every entry before it.
pub open spec fn first_most_common_at(s: Seq<Seq<char>>, i: int) -> bool {
    &&& 0 <= i < s.len()
    &&& forall|j: int| 0 <= j < s.len() ==> #[trigger] count_of(s, s[j]) <= count_of(s, s[i])
    &&& forall|j: int| 0 <= j < i ==> #[trigger] count_of(s, s[j]) < count_of(s, s[i])
}

/// The entry of `s` that occurs most often; among equally frequent ones, the
/// first.
pub open spec fn first_most_common(s: Seq<Seq<char>>) -> Seq<char> {
    s[choose|i: int| first_most_common_at(s, i)]
}

/// The banner `banner_scan` finds in `bytes`.
pub open spec fn banner_choice(bytes: Seq<u8>) -> Option<Seq<char>> {
    if !byte_regex_compiles(BANNER_REGEX@) {
        None
    } else {
        let cands = banner_candidates(bytes, byte_regex_spans(BANNER_REGEX@, bytes));
        if cands.len() == 0 {
            None
        } else {
            Some(first_most_common(cands))
        }
    }
}

/// At most one entry is the first most common one.
pub proof fn lemma_first_most_common(s: Seq<Seq<char>>, i: int)
    requires
        first_most_common_at(s, i),
    ensures
        first_most_common(s) == s[i],
{
    let k = choose|k: int| first_most_common_at(s, k);
    assert(first_most_common_at(s, k));
    if k < i {
        assert(count_of(s, s[k]) < count_of(s, s[i]));
    }
    if i < k {
        assert(count_of(s, s[i]) < count_of(s, s[k]));
    }
}

/// A lone banner is found whole: when `BANNER_REGEX` matches exactly once,
/// and the bytes from the match up to the first NUL or newline (or the end of
/// the image) are fewer than 1024 and valid UTF-8, the banner found is their
/// text.
pub proof fn lemma_lone_banner(bytes: Seq<u8>, start: usize, end: usize, stop: int)
    requires
        byte_regex_compiles(BANNER_REGEX@),
        byte_regex_spans(BANNER_REGEX@, bytes) == seq![(start, end)],
        start <= stop <= bytes.len(),
        stop - start < 1024,
        forall|k: int| start <= k < stop ==> #[trigger] bytes[k] != 0 && bytes[k] != 0x0a,
        stop == bytes.len() || bytes[stop] == 0 || bytes[stop] == 0x0a,
        valid_utf8(bytes.subrange(start as int, stop)),
    ensures
        banner_choice(bytes) == Some(decode_utf8(bytes.subrange(start as int, stop))),
{
    let until = banner_terminators();
    assert forall|k: int| start <= k < stop implies !until.contains(#[trigger] bytes[k]) by {
        if until.contains(bytes[k]) {
            let w = choose|w: int| 0 <= w < until.len() && until[w] == bytes[k];
        }
    }
    if stop < bytes.len() {
        if bytes[stop] == 0 {
            assert(until[0] == bytes[stop]);
        } else {
            assert(until[1] == bytes[stop]);
        }
    }
    lemma_read_until_to_terminator(bytes, start as int, until, stop);
    let spans = seq![(start, end)];
    assert(spans.drop_last() =~= Seq::<(usize, usize)>::empty());
    let text = decode_utf8(bytes.subrange(start as int, stop));
    let cands = banner_candidates(bytes, spans);
    assert(banner_candidates(bytes, spans.drop_last()) == Seq::<Seq<char>>::empty());
    assert(spans.last().0 == start);
    assert(read_until_bytes(bytes, start as int, banner_terminators(), None) == bytes.subrange(
        start as int,
        stop,
    ));
    assert(cands == Seq::<Seq<char>>::empty().push(text));
    assert(cands =~= seq![text]);
    assert(count_of(cands, cands[0]) == 1) by {
        assert(cands.drop_last() =~= Seq::<Seq<char>>::empty());
        assert(count_of(cands.drop_last(), cands[0]) == 0);
        assert(cands.last() == cands[0]);
    }
    assert(first_most_common_at(cands, 0));
    lemma_first_most_common(cands, 0);
}

/// The texts read at the starts of `spans` (see `banner_candidates`).
pub fn collect_banners<I: MemoryImage + ImageRead>(image: &I, spans: &Vec<(usize, usize)>) -> (r: Vec<
    String,
>)
    requires
        forall|i: int| 0 <= i < spans@.len() ==> spans@[i].0 <= image.image_bytes().len(),
    ensures
        string_views(r@) == banner_candidates(image.image_bytes(), spans@),
{
    let mut banners: Vec<String> = Vec::new();
    let mut i: usize = 0;
    assert(spans@.take(0) =~= Seq::<(usize, usize)>::empty());
    assert(string_views(banners@) =~= Seq::<Seq<char>>::empty());
    while i < spans.len()
        invariant
            i <= spans@.len(),
            forall|j: int| 0 <= j < spans@.len() ==> spans@[j].0 <= image.image_bytes().len(),
            string_views(banners@) == banner_candidates(
                image.image_bytes(),
                spans@.take(i as int),
            ),
        decreases spans@.len() - i,
    {
        let start = spans[i].0;
        assert(spans@.take(i + 1).drop_last() =~= spans@.take(i as int));
        let mut until: Vec<u8> = Vec::new();
        until.push(0x00);
        until.push(0x0a);
        assert(until@ =~= banner_terminators());
        match image.read_until(start, until, None) {
            Some(raw) => {
                match utf8_to_string(raw) {
                    Some(text) => {
                        banners.push(text);
                        assert(string_views(banners@) =~= banner_candidates(
                            image.image_bytes(),
                            spans@.take(i + 1),
                        ));
                    },
                    None => {},
                }
            },
            None => {},
        }
        i = i + 1;
    }
    assert(spans@.take(spans@.len() as int) =~= spans@);
    banners
}

/// Finds the Linux banner in `image`: the most frequent text among those that
/// follow the matches of `BANNER_REGEX` (up to a NUL or newline, at most 1024
/// bytes, valid UTF-8); `None` when there is none.
pub fn banner_scan<I: MemoryImage + ImageRead>(image: &I) -> (r: Option<String>)
    ensures
        !byte_regex_compiles(BANNER_REGEX@) ==> r is None,
        byte_regex_compiles(BANNER_REGEX@) ==> {
            let cands = banner_candidates(
                image.image_bytes(),
                byte_regex_spans(BANNER_REGEX@, image.image_bytes()),
            );
            &&& r is None <==> cands.len() == 0
            &&& r matches Some(b) ==> is_most_common(cands, b@)
            &&& r matches Some(b) ==> exists|i: int|
                0 <= i < cands.len() && cands[i] == b@ && (forall|j: int|
                    0 <= j < i ==> #[trigger] count_of(cands, cands[j]) < count_of(cands, b@))
        },
        r is None <==> banner_choice(image.image_bytes()) is None,
        r matches Some(b) ==> banner_choice(image.image_bytes()) == Some(b@),
{
    let spans = match image.scan_regex(BANNER_REGEX) {
        Some(v) => v,
        None => return None,
    };
    let banners = collect_banners(image, &spans);
    if banners.len() == 0 {
        return None;
    }
    let ghost views = string_views(banners@);
    let r = most_common(banners);
    proof {
        if r is Some {
            let b = r->0;
            let i = choose|i: int|
                0 <= i < banners@.len() && banners@[i]@ == b@ && (forall|j: int|
                    0 <= j < i ==> #[trigger] count_of(views, views[j]) < count_of(views, b@));
            assert(views[i] == b@);
            assert forall|j: int| 0 <= j < views.len() implies #[trigger] count_of(views, views[j]) <= count_of(views, views[i]) by {
                assert(views.contains(b@));
            }
            lemma_first_most_common(views, i);
        }
    }
    r
}

/// Processor architectures.
#[allow(non_camel_case_types)]
#[derive(Debug, Clone, Copy, PartialEq, Eq, Structural)]
pub enum Architectures {
    aarch64,
    arcompact,
    armle,
    armbe,
    mipsle,
    mipsbe,
    mips64be,
    mips64le,
    powerpcbe,
    powerpcle,
    sparc,
    superhbe,
    superhle,
    riscv,
    x86,
    x86_64,
}

/// The architecture a banner describes.
#[derive(Debug, Clone, Copy, PartialEq, Eq, Structural)]
pub struct Architecture {
    pub architecture: Architectures,
    pub is_64_bit: bool,
    pub endian: Endian,
}

impl Architecture {
    /// The architecture of the kernel whose banner is `value`. Only the word
    /// size is read from the banner (by `BITNESS_REGEX`); the architecture is
    /// taken to be x86_64 and the byte order little-endian.
    pub fn try_from(value: &str) -> (r: Result<Architecture, ScanError>)
        ensures
            !text_regex_compiles(BITNESS_REGEX@) ==> r == Err::<Architecture, ScanError>(
                ScanError::PatternRejected,
            ),
            text_regex_compiles(BITNESS_REGEX@) ==> r == Ok::<Architecture, ScanError>(
                Architecture {
                    architecture: Architectures::x86_64,
                    is_64_bit: text_regex_matches(BITNESS_REGEX@, value@),
                    endian: Endian::Little,
                },
            ),
    {
        let is_64_bit = match text_regex_is_match(BITNESS_REGEX, value) {
            Some(b) => b,
            None => return Err(ScanError::PatternRejected),
        };
        Ok(Architecture { architecture: Architectures::x86_64, is_64_bit, endian: Endian::Little })
    }
}

/// Major and minor version of the kernel whose banner is `v`: the third
/// space-separated word, split on dots, gives major then minor, each parsed
/// as a `u8`.
pub open spec fn kernel_version_numbers(v: Seq<char>) -> Result<(u8, u8), ScanError> {
    let words = split_on(v, ' ');
    if words.len() < 3 {
        Err(ScanError::VersionNotFound)
    } else {
        let parts = split_on(words[2], '.');
        match parse_unsigned(parts[0], 10, 255) {
            None => Err(ScanError::InvalidNumber),
            Some(major) => if parts.len() < 2 {
                Err(ScanError::VersionNotFound)
            } else {
                match parse_unsigned(parts[1], 10, 255) {
                    None => Err(ScanError::InvalidNumber),
                    Some(minor) => Ok((major as u8, minor as u8)),
                }
            },
        }
    }
}

/// A kernel version read from a banner.
#[derive(Debug)]
pub struct KernelVersion {
    pub major: u8,
    pub minor: u8,
    pub banner_string: String,
}

impl KernelVersion {
    /// Reads the kernel version from the banner `value`.
    pub fn try_from(value: &str) -> (r: Result<KernelVersion, ScanError>)
        ensures
            kernel_version_numbers(value@) matches Err(e) ==> r matches Err(e2) && e2 == e,
            kernel_version_numbers(value@) matches Ok((major, minor)) ==> r matches Ok(k) && k.major
                == major && k.minor == minor && k.banner_string@ == value@,
    {
        proof {
            crate::text::lemma_split_nonempty(value@, ' ');
        }
        let n = value.unicode_len();
        assert(value@.subrange(0, n as int) =~= value@);
        let (a, b) = match nth_piece(value, 0, n, ' ', 2) {
            Some(r) => r,
            None => return Err(ScanError::VersionNotFound),
        };
        proof {
            crate::text::lemma_split_nonempty(value@.subrange(a as int, b as int), '.');
        }
        let (ma, mb) = match nth_piece(value, a, b, '.', 0) {
            Some(r) => r,
            None => return Err(ScanError::VersionNotFound),
        };
        let major = match parse_unsigned_range(value, ma, mb, 10, 255) {
            Some(v) => v as u8,
            None => return Err(ScanError::InvalidNumber),
        };
        let (na, nb) = match nth_piece(value, a, b, '.', 1) {
            Some(r) => r,
            None => return Err(ScanError::VersionNotFound),
        };
        let minor = match parse_unsigned_range(value, na, nb, 10, 255) {
            Some(v) => v as u8,
            None => return Err(ScanError::InvalidNumber),
        };
        Ok(KernelVersion { major, minor, banner_string: value.to_owned() })
    }
}


/// The data starts with the ELF magic number `\x7fELF`.
pub open spec fn has_elf_magic(raw: Seq<u8>) -> bool {
    &&& raw.len() >= 4
    &&& raw[0] == 0x7f
    &&& raw[1] == 0x45
    &&& raw[2] == 0x4c
    &&& raw[3] == 0x46
}

/// The banner `Banner::from_btfsec` reads from `raw`.
pub open spec fn btfsec_banner(raw: Seq<u8>) -> Result<Seq<char>, ScanError> {
    if !has_elf_magic(raw) {
        Err(ScanError::NotElf)
    } else {
        match banner_choice(raw) {
            None => Err(ScanError::BannerNotFound),
            Some(b) => Ok(b),
        }
    }
}

/// The banner from the first source that has one: the banner given as text,
/// the one in the BTF ELF file `btf` (see `btfsec_banner`), or the one
/// `banner_scan` finds in the image `image`; an error when none has.
pub open spec fn banner_from_sources(
    given: Option<Seq<char>>,
    btf: Option<Seq<u8>>,
    image: Option<Seq<u8>>,
) -> Result<Seq<char>, ScanError> {
    match given {
        Some(t) => Ok(t),
        None => match btf {
            Some(raw) if btfsec_banner(raw) is Ok => btfsec_banner(raw),
            _ => match image {
                Some(img) if banner_choice(img) is Some => Ok(banner_choice(img)->0),
                _ => Err(ScanError::BannerNotFound),
            },
        },
    }
}

/// A Linux banner.
pub struct Banner(String);

impl View for Banner {
    type V = Seq<char>;

    closed spec fn view(&self) -> Seq<char> {
        self.0@
    }
}

impl Banner {
    /// The banner `text`.
    pub fn new(text: String) -> (r: Banner)
        ensures
            r@ == text@,
    {
        Banner(text)
    }

    /// The text of the banner.
    pub fn as_str(&self) -> (r: &str)
        ensures
            r@ == self@,
    {
        self.0.as_str()
    }

    /// The banner as an owned `String`.
    pub fn to_string(&self) -> (r: String)
        ensures
            r@ == self@,
    {
        self.0.as_str().to_owned()
    }

    /// The UTF-8 bytes of the banner.
    pub fn as_bytes(&self) -> (r: &[u8])
        ensures
            r@ == encode_utf8(self@),
    {
        self.0.as_str().as_bytes()
    }

    /// Reads the banner from the ELF file `raw` that holds the BTF section: an
    /// error when `raw` is not an ELF file; otherwise the banner found in its
    /// bytes as `banner_scan` finds it.
    pub fn from_btfsec(raw: &[u8]) -> (r: Result<Banner, ScanError>)
        ensures
            match btfsec_banner(raw@) {
                Ok(b) => r matches Ok(v) && v@ == b,
                Err(e) => r matches Err(e2) && e2 == e,
            },
    {
        if raw.len() < 4 || raw[0] != 0x7f || raw[1] != 0x45 || raw[2] != 0x4c || raw[3] != 0x46 {
            return Err(ScanError::NotElf);
        }
        let image = RawImage::new(String::new(), vstd::slice::slice_to_vec(raw));
        match banner_scan(&image) {
            Some(b) => Ok(Banner(b)),
            None => Err(ScanError::BannerNotFound),
        }
    }

    /// The banner from the first source that has one (see
    /// `banner_from_sources`).
    pub fn try_from_sources(given: Option<String>, btf: Option<&[u8]>, image: Option<&RawImage>) -> (r:
        Result<Banner, ScanError>)
        ensures
            match banner_from_sources(
                match given {
                    Some(t) => Some(t@),
                    None => None,
                },
                match btf {
                    Some(raw) => Some(raw@),
                    None => None,
                },
                match image {
                    Some(img) => Some(img@),
                    None => None,
                },
            ) {
                Ok(b) => r matches Ok(v) && v@ == b,
                Err(e) => r matches Err(e2) && e2 == e,
            },
    {
        match given {
            Some(t) => return Ok(Banner(t)),
            None => {},
        }
        match btf {
            Some(raw) => match Banner::from_btfsec(raw) {
                Ok(b) => return Ok(b),
                Err(_) => {},
            },
            None => {},
        }
        match image {
            Some(img) => match banner_scan(img) {
                Some(b) => return Ok(Banner(b)),
                None => {},
            },
            None => {},
        }
        Err(ScanError::BannerNotFound)
    }
}

} // verus!
