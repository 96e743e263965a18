use vstd::prelude::*;

use crate::banner::Architectures;
use crate::error::ScanError;
use crate::image::traits::MemoryImage;
use crate::search::{byte_regex_compiles, byte_regex_spans, spans_well_formed};
use crate::text::{digit_value, lossy_string, numeral_value, parse_unsigned, parse_unsigned_range, utf8_lossy};

verus! {

/// A KERNELOFFSET line of VMCOREINFO: the KASLR slide in hexadecimal.
pub const KERNELOFFSET_REGEX: &'static str = r"KERNELOFFSET=([a-fA-F0-9]+)\x0A";

/// The chars that `char::is_whitespace` accepts: those with the Unicode
/// White_Space property.
pub open spec fn is_white_space(c: char) -> bool {
    let v = c as int;
    ||| 0x09 <= v <= 0x0d
    ||| v == 0x20
    ||| v == 0x85
    ||| v == 0xa0
    ||| v == 0x1680
    ||| 0x2000 <= v <= 0x200a
    ||| v == 0x2028
    ||| v == 0x2029
    ||| v == 0x202f
    ||| v == 0x205f
    ||| v == 0x3000
}

fn white_space(c: char) -> (r: bool)
    ensures
        r == is_white_space(c),
{
    let v = c as u32;
    (0x09 <= v && v <= 0x0d) || v == 0x20 || v == 0x85 || v == 0xa0 || v == 0x1680 || (0x2000 <= v
        && v <= 0x200a) || v == 0x2028 || v == 0x2029 || v == 0x202f || v == 0x205f || v == 0x3000
}

/// `s` without its leading white space.
pub open spec fn trim_start(s: Seq<char>) -> Seq<char>
    decreases s.len(),
{
    if s.len() > 0 && is_white_space(s[0]) {
        trim_start(s.drop_first())
    } else {
        s
    }
}

/// `s` without its trailing white space.
pub open spec fn trim_end(s: Seq<char>) -> Seq<char>
    decreases s.len(),
{
    if s.len() > 0 && is_white_space(s.last()) {
        trim_end(s.drop_last())
    } else {
        s
    }
}

/// `s` without leading and trailing white space (as `str::trim`).
pub open spec fn trim(s: Seq<char>) -> Seq<char> {
    trim_end(trim_start(s))
}

/// Char index range of `trim` of the chars `[lo, hi)` of `s`.
fn trim_range(s: &str, lo: usize, hi: usize) -> (r: (usize, usize))
    requires
        lo <= hi <= s@.len(),
    ensures
        lo <= r.0 <= r.1 <= hi,
        s@.subrange(r.0 as int, r.1 as int) == trim(s@.subrange(lo as int, hi as int)),
{
    let mut a = lo;
    while a < hi && white_space(s.get_char(a))
        invariant
            lo <= a <= hi <= s@.len(),
            trim_start(s@.subrange(lo as int, hi as int)) == trim_start(s@.subrange(a as int, hi as int)),
        decreases hi - a,
    {
        assert(s@.subrange(a as int, hi as int).drop_first() =~= s@.subrange(a + 1, hi as int));
        a = a + 1;
    }
    assert(trim_start(s@.subrange(a as int, hi as int)) == s@.subrange(a as int, hi as int));
    let mut b = hi;
    while b > a && white_space(s.get_char(b - 1))
        invariant
            lo <= a <= b <= hi <= s@.len(),
            trim_end(s@.subrange(a as int, hi as int)) == trim_end(s@.subrange(a as int, b as int)),
        decreases b - a,
    {
        assert(s@.subrange(a as int, b as int).drop_last() =~= s@.subrange(a as int, b - 1));
        b = b - 1;
    }
    assert(trim_end(s@.subrange(a as int, b as int)) == s@.subrange(a as int, b as int));
    (a, b)
}

/// `i` is the first position of `=` in `s`.
pub open spec fn first_equals_at(s: Seq<char>, i: int) -> bool {
    &&& 0 <= i < s.len()
    &&& s[i] == '='
    &&& forall|j: int| 0 <= j < i ==> s[j] != '='
}

/// The first position of `=` in `s`, if there is one.
pub open spec fn first_equals(s: Seq<char>) -> Option<int> {
    if exists|i: int| first_equals_at(s, i) {
        Some(choose|i: int| first_equals_at(s, i))
    } else {
        None
    }
}

/// The KASLR slide a KERNELOFFSET entry gives: the text after the first `=`,
/// trimmed, read as a hexadecimal `u64`.
pub open spec fn kernel_offset_of(text: Seq<char>) -> Result<u64, ScanError> {
    match first_equals(text) {
        None => Err(ScanError::MissingEquals),
        Some(i) => match parse_unsigned(trim(text.skip(i + 1)), 16, 0xffff_ffff_ffff_ffff) {
            None => Err(ScanError::InvalidNumber),
            Some(v) => Ok(v as u64),
        },
    }
}

/// Reads the KASLR slide from the text of a KERNELOFFSET entry (see
/// `kernel_offset_of`).
pub fn kernel_offset_value(text: &str) -> (r: Result<u64, ScanError>)
    ensures
        r == kernel_offset_of(text@),
{
    let n = text.unicode_len();
    let mut i: usize = 0;
    while i < n && text.get_char(i) != '='
        invariant
            n == text@.len(),
            i <= n,
            forall|j: int| 0 <= j < i ==> text@[j] != '=',
        decreases n - i,
    {
        i = i + 1;
    }
    if i == n {
        proof {
            if exists|k: int| first_equals_at(text@, k) {
                let k = choose|k: int| first_equals_at(text@, k);
                assert(text@[k] != '=');
            }
        }
        return Err(ScanError::MissingEquals);
    }
    proof {
        assert(first_equals_at(text@, i as int));
        let k = choose|k: int| first_equals_at(text@, k);
        assert(first_equals_at(text@, k));
        if k < i {
            assert(text@[k] != '=');
        }
        if i < k {
            assert(text@[i as int] != '=');
        }
    }
    let (a, b) = trim_range(text, i + 1, n);
    assert(text@.subrange(i + 1, n as int) =~= text@.skip(i + 1));
    match parse_unsigned_range(text, a, b, 16, 0xffff_ffff_ffff_ffff) {
        Some(v) => Ok(v),
        None => Err(ScanError::InvalidNumber),
    }
}

/// The text of the match at `span`, decoded as `from_utf8_lossy` does.
pub open spec fn span_text(data: Seq<u8>, span: (usize, usize)) -> Seq<char> {
    utf8_lossy(data.subrange(span.0 as int, span.1 as int))
}

/// The error of the first match, in order, whose text gives no slide.
pub open spec fn first_offset_error(data: Seq<u8>, spans: Seq<(usize, usize)>) -> Option<ScanError>
    decreases spans.len(),
{
    if spans.len() == 0 {
        None
    } else {
        match kernel_offset_of(span_text(data, spans[0])) {
            Err(e) => Some(e),
            Ok(_) => first_offset_error(data, spans.drop_first()),
        }
    }
}

/// The KASLR slide given by the KERNELOFFSET matches at `spans`: every match
/// must give one, and the first match's is taken.
pub open spec fn kernel_offset_from_spans(data: Seq<u8>, spans: Seq<(usize, usize)>) -> Result<
    u64,
    ScanError,
> {
    if spans.len() == 0 {
        Err(ScanError::KaslrNotFound)
    } else {
        match first_offset_error(data, spans) {
            Some(e) => Err(e),
            None => kernel_offset_of(span_text(data, spans[0])),
        }
    }
}

/// Reads the KASLR slide from the KERNELOFFSET matches at `spans` of `data`
/// (see `kernel_offset_from_spans`).
pub fn kernel_offset_from_matches(data: &[u8], spans: &Vec<(usize, usize)>) -> (r: Result<u64, ScanError>)
    requires
        spans_well_formed(spans@, data@.len()),
    ensures
        r == kernel_offset_from_spans(data@, spans@),
{
    if spans.len() == 0 {
        return Err(ScanError::KaslrNotFound);
    }
    let mut first: u64 = 0;
    let mut i: usize = 0;
    assert(spans@.skip(0) =~= spans@);
    while i < spans.len()
        invariant
            i <= spans@.len(),
            spans@.len() > 0,
            spans_well_formed(spans@, data@.len()),
            first_offset_error(data@, spans@) == first_offset_error(data@, spans@.skip(i as int)),
            i > 0 ==> kernel_offset_of(span_text(data@, spans@[0])) == Ok::<u64, ScanError>(first),
        decreases spans@.len() - i,
    {
        let (start, end) = spans[i];
        assert(spans@[i as int].0 <= spans@[i as int].1 <= data@.len());
        let bytes = vstd::slice::slice_subrange(data, start, end);
        let text = lossy_string(bytes);
        assert(spans@.skip(i as int)[0] == spans@[i as int]);
        assert(spans@.skip(i as int).drop_first() =~= spans@.skip(i + 1));
        match kernel_offset_value(text.as_str()) {
            Ok(v) => {
                if i == 0 {
                    first = v;
                }
            },
            Err(e) => return Err(e),
        }
        i = i + 1;
    }
    Ok(first)
}

/// The KASLR slide of the image `data` read from VMCOREINFO (see
/// `kernel_offset_from_spans`).
pub open spec fn kaslr_via_vmcoreinfo(data: Seq<u8>) -> Result<u64, ScanError> {
    if !byte_regex_compiles(KERNELOFFSET_REGEX@) {
        Err(ScanError::PatternRejected)
    } else {
        kernel_offset_from_spans(data, byte_regex_spans(KERNELOFFSET_REGEX@, data))
    }
}

/// Reads the KASLR slide from the KERNELOFFSET entries of VMCOREINFO in the
/// image (the way x86_64 and aarch64 kernels record it).
fn find_kaslr_via_vmcoreinfo<I: MemoryImage>(image: &I) -> (r: Result<u64, ScanError>)
    ensures
        r == kaslr_via_vmcoreinfo(image.image_bytes()),
{
    let data = image.as_bytes();
    let spans = match image.scan_regex(KERNELOFFSET_REGEX) {
        Some(v) => v,
        None => return Err(ScanError::PatternRejected),
    };
    kernel_offset_from_matches(data, &spans)
}

/// The KASLR slide of the image for `architecture`: read from VMCOREINFO on
/// aarch64 and x86_64, zero on arm, superh and sparc, and an error on the
/// other architectures.
pub fn find_kaslr_slide<I: MemoryImage>(image: &I, architecture: Architectures) -> (r: Result<
    u64,
    ScanError,
>)
    ensures
        match architecture {
            Architectures::aarch64 | Architectures::x86_64 => r == kaslr_via_vmcoreinfo(
                image.image_bytes(),
            ),
            Architectures::armbe | Architectures::armle | Architectures::superhbe
            | Architectures::superhle | Architectures::sparc => r == Ok::<u64, ScanError>(0),
            _ => r == Err::<u64, ScanError>(ScanError::UnsupportedArchitecture),
        },
{
    match architecture {
        Architectures::aarch64 | Architectures::x86_64 => find_kaslr_via_vmcoreinfo(image),
        Architectures::armbe | Architectures::armle | Architectures::superhbe
        | Architectures::superhle | Architectures::sparc => Ok(0),
        _ => Err(ScanError::UnsupportedArchitecture),
    }
}


proof fn lemma_trim_end_spaces(digits: Seq<char>, spaces: Seq<char>)
    requires
        digits.len() >= 1,
        !is_white_space(digits.last()),
        forall|i: int| 0 <= i < spaces.len() ==> is_white_space(#[trigger] spaces[i]),
    ensures
        trim_end(digits + spaces) == digits,
    decreases spaces.len(),
{
    if spaces.len() == 0 {
        assert(digits + spaces =~= digits);
    } else {
        assert((digits + spaces).drop_last() =~= digits + spaces.drop_last());
        assert((digits + spaces).last() == spaces.last());
        lemma_trim_end_spaces(digits, spaces.drop_last());
    }
}

/// A KERNELOFFSET entry in the expected form gives the slide it writes: a name
/// without `=`, then `=`, then hexadecimal digits whose value fits in a `u64`,
/// then white space (the newline that ends the entry), gives the value of the
/// digits.
pub proof fn lemma_kernel_offset_entry(name: Seq<char>, digits: Seq<char>, spaces: Seq<char>)
    requires
        forall|i: int| 0 <= i < name.len() ==> #[trigger] name[i] != '=',
        digits.len() >= 1,
        forall|i: int| 0 <= i < digits.len() ==> #[trigger] digit_value(digits[i], 16) is Some,
        numeral_value(digits, 16) matches Some(v) && v <= 0xffff_ffff_ffff_ffff,
        forall|i: int| 0 <= i < spaces.len() ==> is_white_space(#[trigger] spaces[i]),
    ensures
        kernel_offset_of(name + seq!['='] + digits + spaces) == Ok::<u64, ScanError>(
            numeral_value(digits, 16)->0 as u64,
        ),
{
    let text = name + seq!['='] + digits + spaces;
    let k = name.len() as int;
    assert(text[k] == '=');
    assert forall|j: int| 0 <= j < k implies text[j] != '=' by {
        assert(text[j] == name[j]);
    }
    assert(first_equals_at(text, k));
    let c = choose|c: int| first_equals_at(text, c);
    assert(first_equals_at(text, c));
    if c < k {
        assert(text[c] == name[c]);
    }
    if k < c {
        assert(text[k] != '=');
    }
    assert(text.skip(k + 1) =~= digits + spaces);
    assert(digit_value(digits[0], 16) is Some);
    assert(!is_white_space(digits[0]));
    assert((digits + spaces)[0] == digits[0]);
    assert(trim_start(digits + spaces) == digits + spaces);
    assert(digit_value(digits.last(), 16) is Some);
    lemma_trim_end_spaces(digits, spaces);
    assert(digits[0] != '+');
}

} // verus!
