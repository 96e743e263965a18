use vstd::prelude::*;

use crate::error::ScanError;

verus! {

/// Byte order of multi-byte values stored in an image.
#[derive(Debug, Clone, Copy, PartialEq, Eq, Structural)]
pub enum Endian {
    Little,
    Big,
}

/// `256` raised to `n`.
pub open spec fn radix_pow(n: nat) -> nat
    decreases n,
{
    if n == 0 {
        1
    } else {
        256 * radix_pow((n - 1) as nat)
    }
}

/// The unsigned value of `s` read most significant byte first.
pub open spec fn be_value(s: Seq<u8>) -> nat
    decreases s.len(),
{
    if s.len() == 0 {
        0
    } else {
        be_value(s.drop_last()) * 256 + s.last() as nat
    }
}

/// The unsigned value of `s` read least significant byte first.
pub open spec fn le_value(s: Seq<u8>) -> nat
    decreases s.len(),
{
    if s.len() == 0 {
        0
    } else {
        s[0] as nat + 256 * le_value(s.drop_first())
    }
}

/// The unsigned value of `s` in byte order `endian`.
pub open spec fn unsigned_value(s: Seq<u8>, endian: Endian) -> nat {
    match endian {
        Endian::Little => le_value(s),
        Endian::Big => be_value(s),
    }
}

/// Two's complement reading of the unsigned value `u` of a `width`-byte entry.
pub open spec fn sign_extend(u: nat, width: nat) -> int {
    if width > 0 && u >= radix_pow(width) / 2 {
        u - radix_pow(width)
    } else {
        u as int
    }
}

/// The widths (in bytes) of table entries that can be decoded.
pub open spec fn supported_width(width: int) -> bool {
    width == 2 || width == 4 || width == 8
}

/// The outcome of reading a `width`-byte entry at `offset`: bounds are checked
/// before the width.
pub open spec fn entry_read_ok(len: nat, offset: int, width: int) -> Result<(), ScanError> {
    if offset + width > len {
        Err(ScanError::InvalidBounds)
    } else if !supported_width(width) {
        Err(ScanError::UnsupportedEntrySize)
    } else {
        Ok(())
    }
}

/// The bytes of the entry of `width` bytes at `offset`.
pub open spec fn entry_bytes(data: Seq<u8>, offset: int, width: int) -> Seq<u8> {
    data.subrange(offset, offset + width)
}

/// Small facts about powers of 256: they are positive, at most `2^64` up to
/// the eighth, and their values for two, four and eight bytes.
pub proof fn lemma_radix_pow_facts(n: nat)
    ensures
        radix_pow(n) >= 1,
        n <= 8 ==> radix_pow(n) <= 0x1_0000_0000_0000_0000,
        radix_pow(2) == 0x1_0000,
        radix_pow(4) == 0x1_0000_0000,
        radix_pow(8) == 0x1_0000_0000_0000_0000,
    decreases n,
{
    reveal_with_fuel(radix_pow, 9);
    if n > 0 {
        lemma_radix_pow_facts((n - 1) as nat);
    }
}

proof fn lemma_be_bound(s: Seq<u8>)
    ensures
        be_value(s) < radix_pow(s.len()),
    decreases s.len(),
{
    if s.len() > 0 {
        lemma_be_bound(s.drop_last());
        let a = be_value(s.drop_last());
        let p = radix_pow(s.drop_last().len());
        let b = s.last() as nat;
        assert(a * 256 + b < p * 256) by (nonlinear_arith)
            requires
                a < p,
                b < 256,
        ;
    }
}

proof fn lemma_le_bound(s: Seq<u8>)
    ensures
        le_value(s) < radix_pow(s.len()),
    decreases s.len(),
{
    if s.len() > 0 {
        lemma_le_bound(s.drop_first());
        let a = le_value(s.drop_first());
        let p = radix_pow(s.drop_first().len());
        let b = s[0] as nat;
        assert(b + 256 * a < 256 * p) by (nonlinear_arith)
            requires
                a < p,
                b < 256,
        ;
    }
}

/// The value of an entry read most significant byte first.
fn decode_be(bytes: &[u8]) -> (v: u64)
    requires
        bytes@.len() <= 8,
    ensures
        v == be_value(bytes@),
{
    let mut acc: u64 = 0;
    let mut i: usize = 0;
    while i < bytes.len()
        invariant
            i <= bytes@.len() <= 8,
            acc == be_value(bytes@.subrange(0, i as int)),
        decreases bytes@.len() - i,
    {
        let ghost pre = bytes@.subrange(0, i as int);
        let ghost next = bytes@.subrange(0, i + 1);
        assert(next.drop_last() =~= pre);
        proof {
            lemma_be_bound(next);
            lemma_radix_pow_facts(next.len());
        }
        acc = acc * 256 + bytes[i] as u64;
        i = i + 1;
    }
    assert(bytes@.subrange(0, i as int) =~= bytes@);
    acc
}

/// The value of an entry read least significant byte first.
fn decode_le(bytes: &[u8]) -> (v: u64)
    requires
        bytes@.len() <= 8,
    ensures
        v == le_value(bytes@),
{
    let mut acc: u64 = 0;
    let mut j: usize = bytes.len();
    assert(bytes@.subrange(j as int, bytes@.len() as int) =~= Seq::<u8>::empty());
    while j > 0
        invariant
            j <= bytes@.len() <= 8,
            acc == le_value(bytes@.subrange(j as int, bytes@.len() as int)),
        decreases j,
    {
        let ghost pre = bytes@.subrange(j as int, bytes@.len() as int);
        let ghost next = bytes@.subrange(j - 1, bytes@.len() as int);
        assert(next.drop_first() =~= pre);
        proof {
            lemma_le_bound(next);
            lemma_radix_pow_facts(next.len());
        }
        acc = (bytes[j - 1] as u64) + 256 * acc;
        j = j - 1;
    }
    assert(bytes@.subrange(0, bytes@.len() as int) =~= bytes@);
    acc
}

/// Reads the unsigned `table_element_size`-byte entry at `offset` of `data`
/// in byte order `endian`.
pub fn read_entry_unsigned(
    data: &[u8],
    offset: usize,
    endian: Endian,
    table_element_size: usize,
) -> (r: Result<u64, ScanError>)
    ensures
        entry_read_ok(data@.len(), offset as int, table_element_size as int) matches Err(e)
            ==> r == Err::<u64, ScanError>(e),
        entry_read_ok(data@.len(), offset as int, table_element_size as int) is Ok ==> r is Ok,
        r matches Ok(v) ==> v == unsigned_value(
            entry_bytes(data@, offset as int, table_element_size as int),
            endian,
        ),
{
    let data_len = data.len();
    let end = match offset.checked_add(table_element_size) {
        Some(e) => e,
        None => return Err(ScanError::InvalidBounds),
    };
    if end > data_len {
        return Err(ScanError::InvalidBounds);
    }
    if table_element_size != 2 && table_element_size != 4 && table_element_size != 8 {
        return Err(ScanError::UnsupportedEntrySize);
    }
    let bytes = vstd::slice::slice_subrange(data, offset, end);
    let v = match endian {
        Endian::Big => decode_be(bytes),
        Endian::Little => decode_le(bytes),
    };
    Ok(v)
}

/// Reads the signed (two's complement) `table_element_size`-byte entry at
/// `offset` of `data` in byte order `endian`.
pub fn read_entry_signed(
    data: &[u8],
    offset: usize,
    endian: Endian,
    table_element_size: usize,
) -> (r: Result<i64, ScanError>)
    ensures
        entry_read_ok(data@.len(), offset as int, table_element_size as int) matches Err(e)
            ==> r == Err::<i64, ScanError>(e),
        entry_read_ok(data@.len(), offset as int, table_element_size as int) is Ok ==> r is Ok,
        r matches Ok(v) ==> v == sign_extend(
            unsigned_value(entry_bytes(data@, offset as int, table_element_size as int), endian),
            table_element_size as nat,
        ),
{
    let u = read_entry_unsigned(data, offset, endian, table_element_size)?;
    proof {
        lemma_radix_pow_facts(table_element_size as nat);
        let s = entry_bytes(data@, offset as int, table_element_size as int);
        lemma_be_bound(s);
        lemma_le_bound(s);
    }
    let v: i64 = if table_element_size == 8 {
        if u >= 0x8000_0000_0000_0000 {
            i64::MIN + ((u - 0x8000_0000_0000_0000) as i64)
        } else {
            u as i64
        }
    } else if table_element_size == 4 {
        if u >= 0x8000_0000 {
            (u as i64) - 0x1_0000_0000
        } else {
            u as i64
        }
    } else {
        if u >= 0x8000 {
            (u as i64) - 0x1_0000
        } else {
            u as i64
        }
    };
    Ok(v)
}

/// An unsigned value of `n` bytes is below `256` to the `n`.
pub proof fn lemma_unsigned_value_bound(s: Seq<u8>, endian: Endian)
    ensures
        unsigned_value(s, endian) < radix_pow(s.len()),
{
    lemma_be_bound(s);
    lemma_le_bound(s);
}

/// `v` written as `width` bytes, least significant first (as `to_le_bytes`).
#[verifier::opaque]
pub open spec fn le_bytes(v: nat, width: nat) -> Seq<u8> {
    Seq::new(width, |i: int| ((v / radix_pow(i as nat)) % 256) as u8)
}

/// `v` written as `width` bytes, most significant first (as `to_be_bytes`).
#[verifier::opaque]
pub open spec fn be_bytes(v: nat, width: nat) -> Seq<u8> {
    Seq::new(width, |i: int| ((v / radix_pow((width - 1 - i) as nat)) % 256) as u8)
}

/// `v` written as `width` bytes in byte order `endian`.
pub open spec fn encode_unsigned(v: nat, width: nat, endian: Endian) -> Seq<u8> {
    match endian {
        Endian::Little => le_bytes(v, width),
        Endian::Big => be_bytes(v, width),
    }
}

proof fn lemma_radix_pow_step(n: nat)
    ensures
        radix_pow(n + 1) == 256 * radix_pow(n),
{
}

/// The bytes of the `width`-byte entry holding `v` in byte order `endian`.
pub fn encode_entry(v: u64, width: usize, endian: Endian) -> (r: Vec<u8>)
    requires
        1 <= width <= 8,
    ensures
        r@ == encode_unsigned(v as nat, width as nat, endian),
{
    reveal(le_bytes);
    reveal(be_bytes);
    let mut digits: Vec<u8> = Vec::new();
    let mut i: usize = 0;
    let mut div: u64 = 1;
    proof {
        lemma_radix_pow_facts(0);
    }
    while i < width
        invariant
            i <= width <= 8,
            i < width ==> div == radix_pow(i as nat),
            digits@.len() == i,
            forall|j: int| 0 <= j < i ==> #[trigger] digits@[j] == ((v as nat / radix_pow(j as nat)) % 256) as u8,
        decreases width - i,
    {
        proof {
            lemma_radix_pow_facts(i as nat);
        }
        let d = ((v / div) % 256) as u8;
        digits.push(d);
        if i + 1 < width {
            proof {
                lemma_radix_pow_step(i as nat);
                lemma_radix_pow_facts((i + 1) as nat);
                assert(radix_pow((i + 1) as nat) <= 0x100_0000_0000_0000) by {
                    reveal_with_fuel(radix_pow, 8);
                    lemma_radix_pow_mono((i + 1) as nat, 7);
                }
            }
            div = div * 256;
        }
        i = i + 1;
    }
    match endian {
        Endian::Little => {
            assert(digits@ =~= le_bytes(v as nat, width as nat));
            digits
        },
        Endian::Big => {
            let mut out: Vec<u8> = Vec::new();
            let mut k: usize = 0;
            while k < width
                invariant
                    k <= width <= 8,
                    digits@.len() == width,
                    forall|j: int| 0 <= j < width ==> #[trigger] digits@[j] == ((v as nat / radix_pow(j as nat)) % 256) as u8,
                    out@.len() == k,
                    forall|j: int| 0 <= j < k ==> #[trigger] out@[j] == digits@[width - 1 - j],
                decreases width - k,
            {
                out.push(digits[width - 1 - k]);
                k = k + 1;
            }
            assert(out@ =~= be_bytes(v as nat, width as nat));
            out
        },
    }
}

proof fn lemma_radix_pow_mono(a: nat, b: nat)
    requires
        a <= b,
    ensures
        radix_pow(a) <= radix_pow(b),
    decreases b,
{
    if a < b {
        lemma_radix_pow_mono(a, (b - 1) as nat);
        lemma_radix_pow_facts((b - 1) as nat);
    }
}


proof fn lemma_shift_digit(v: nat, i: nat)
    ensures
        (v / 256) / radix_pow(i) == v / radix_pow(i + 1),
{
    lemma_radix_pow_facts(i);
    lemma_radix_pow_step(i);
    vstd::arithmetic::div_mod::lemma_div_denominator(v as int, 256, radix_pow(i) as int);
}

proof fn lemma_le_roundtrip(v: nat, w: nat)
    requires
        v < radix_pow(w),
    ensures
        le_value(le_bytes(v, w)) == v,
    decreases w,
{
    reveal(le_bytes);
    let s = le_bytes(v, w);
    if w == 0 {
        assert(s.len() == 0);
    } else {
        let rest = le_bytes(v / 256, (w - 1) as nat);
        assert forall|i: int| 0 <= i < rest.len() implies #[trigger] s.drop_first()[i] == rest[i] by {
            lemma_shift_digit(v, i as nat);
        }
        assert(s.drop_first() =~= rest);
        lemma_radix_pow_step((w - 1) as nat);
        assert(v / 256 < radix_pow((w - 1) as nat)) by (nonlinear_arith)
            requires
                v < 256 * radix_pow((w - 1) as nat),
        ;
        lemma_le_roundtrip(v / 256, (w - 1) as nat);
        assert(radix_pow(0) == 1);
        assert(v / 1 == v) by (nonlinear_arith);
        assert(v % 256 < 256) by (nonlinear_arith);
        assert(s[0] == ((v / radix_pow(0)) % 256) as u8);
        assert(s[0] == v % 256);
        assert(v == (v % 256) + 256 * (v / 256)) by (nonlinear_arith);
    }
}

proof fn lemma_be_roundtrip(v: nat, w: nat)
    requires
        v < radix_pow(w),
    ensures
        be_value(be_bytes(v, w)) == v,
    decreases w,
{
    reveal(be_bytes);
    let s = be_bytes(v, w);
    if w == 0 {
        assert(s.len() == 0);
    } else {
        let rest = be_bytes(v / 256, (w - 1) as nat);
        assert forall|i: int| 0 <= i < rest.len() implies #[trigger] s.drop_last()[i] == rest[i] by {
            lemma_shift_digit(v, (w - 2 - i) as nat);
        }
        assert(s.drop_last() =~= rest);
        lemma_radix_pow_step((w - 1) as nat);
        assert(v / 256 < radix_pow((w - 1) as nat)) by (nonlinear_arith)
            requires
                v < 256 * radix_pow((w - 1) as nat),
        ;
        lemma_be_roundtrip(v / 256, (w - 1) as nat);
        assert(radix_pow(0) == 1);
        assert(v / 1 == v) by (nonlinear_arith);
        assert(v % 256 < 256) by (nonlinear_arith);
        assert(s.last() == ((v / radix_pow((w - 1 - (w - 1)) as nat)) % 256) as u8);
        assert(s.last() == v % 256);
        assert(v == (v / 256) * 256 + (v % 256)) by (nonlinear_arith);
    }
}

/// Reading back an entry written by `encode_entry` gives the value again: for
/// every value that fits in `width` bytes and either byte order, the bytes of
/// `encode_unsigned` are `width` long and their unsigned value is the value.
pub proof fn lemma_encode_then_read(v: nat, width: nat, endian: Endian)
    requires
        v < radix_pow(width),
    ensures
        encode_unsigned(v, width, endian).len() == width,
        unsigned_value(encode_unsigned(v, width, endian), endian) == v,
{
    reveal(le_bytes);
    reveal(be_bytes);
    lemma_le_roundtrip(v, width);
    lemma_be_roundtrip(v, width);
}

/// Big-endian and little-endian readings agree up to the order of the bytes:
/// reading `s` most significant byte first gives what reading its reverse
/// least significant byte first gives.
pub proof fn lemma_byte_order_reverse(s: Seq<u8>)
    ensures
        be_value(s) == le_value(s.reverse()),
    decreases s.len(),
{
    if s.len() > 0 {
        lemma_byte_order_reverse(s.drop_last());
        let r = s.reverse();
        assert(r[0] == s.last());
        assert(r.drop_first() =~= s.drop_last().reverse());
        assert(be_value(s) == be_value(s.drop_last()) * 256 + s.last() as nat);
        assert(le_value(r) == r[0] as nat + 256 * le_value(r.drop_first()));
    }
}

/// A signed entry of `width` bytes lies in the two's complement range of that
/// width and agrees with the unsigned reading modulo `256` to the `width`.
pub proof fn lemma_sign_extend_range(u: nat, width: nat)
    requires
        width >= 1,
        u < radix_pow(width),
    ensures
        -(radix_pow(width) / 2) <= sign_extend(u, width) < radix_pow(width) / 2,
        sign_extend(u, width) == u || sign_extend(u, width) == u - radix_pow(width),
{
    lemma_radix_pow_facts(width);
    lemma_radix_pow_step((width - 1) as nat);
    assert(radix_pow(width) % 2 == 0) by (nonlinear_arith)
        requires
            radix_pow(width) == 256 * radix_pow((width - 1) as nat),
    ;
}

} // verus!
