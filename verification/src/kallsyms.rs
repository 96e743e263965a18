use vstd::prelude::*;
use vstd::utf8::{decode_utf8, valid_utf8};

pub use crate::bytes::{read_entry_signed, read_entry_unsigned};
use crate::bytes::{
    encode_entry, encode_unsigned, entry_bytes, lemma_radix_pow_facts, lemma_unsigned_value_bound,
    radix_pow, sign_extend, supported_width, unsigned_value, Endian,
};
use crate::error::ScanError;
use crate::banner::{banner_choice, banner_scan, kernel_version_numbers, KernelVersion, BITNESS_REGEX};
use crate::image::traits::{ImageRead, MemoryImage};
use crate::search::{
    byte_regex_compiles, byte_regex_spans, spans_well_formed, text_regex_compiles, text_regex_is_match,
    text_regex_matches,
    find_occurrences, last_occurrence, lemma_last_occurrence_is, occurrences, occurs_at,
    rfind_occurrence,
};
use crate::text::{
    contains_text, lemma_split_prefix_stable, lossy_string, split_on, text_contains, to_lowercase,
    unicode_lowercase, utf8_lossy,
};

verus! {

/// The symbol type letters that start a kallsyms name (`A`, `B`, `D`, `R`, `T`,
/// `V`, `W`, `G`, `I`, `N`, `P`, `C`, `S`, `U`, their lower-case forms where
/// the kernel uses them, `-` and `?`).
pub open spec fn is_symbol_type(b: u8) -> bool {
    ||| b == 0x41 || b == 0x42 || b == 0x44 || b == 0x52 || b == 0x54 || b == 0x56 || b == 0x57
    ||| b == 0x47 || b == 0x49 || b == 0x4e || b == 0x50 || b == 0x43 || b == 0x53 || b == 0x55
    ||| b == 0x61 || b == 0x62 || b == 0x63 || b == 0x64 || b == 0x67 || b == 0x69 || b == 0x6e
    ||| b == 0x70 || b == 0x72 || b == 0x73 || b == 0x74 || b == 0x75 || b == 0x76 || b == 0x77
    ||| b == 0x2d || b == 0x3f
}

fn symbol_type_byte(b: u8) -> (r: bool)
    ensures
        r == is_symbol_type(b),
{
    b == 0x41 || b == 0x42 || b == 0x44 || b == 0x52 || b == 0x54 || b == 0x56 || b == 0x57
        || b == 0x47 || b == 0x49 || b == 0x4e || b == 0x50 || b == 0x43 || b == 0x53 || b == 0x55
        || b == 0x61 || b == 0x62 || b == 0x63 || b == 0x64 || b == 0x67 || b == 0x69 || b == 0x6e
        || b == 0x70 || b == 0x72 || b == 0x73 || b == 0x74 || b == 0x75 || b == 0x76 || b == 0x77
        || b == 0x2d || b == 0x3f
}

/// The offset (into the token table) that entry `i` of the token index holds.
pub open spec fn token_offset(data: Seq<u8>, token_index: int, endian: Endian, i: int) -> nat {
    unsigned_value(entry_bytes(data, token_index + 2 * i, 2), endian)
}

/// All 256 token index entries, and the first byte of every token they point
/// to, lie inside `data`.
pub open spec fn token_index_readable(
    data: Seq<u8>,
    token_table: int,
    token_index: int,
    endian: Endian,
) -> bool {
    &&& 0 <= token_index
    &&& token_index + 512 <= data.len()
    &&& 0 <= token_table
    &&& forall|i: int|
        0 <= i < 256 ==> token_table + #[trigger] token_offset(data, token_index, endian, i)
            < data.len()
}

/// The indexes below `n` of the tokens whose first byte is a symbol type letter.
pub open spec fn valid_first_tokens(
    data: Seq<u8>,
    token_table: int,
    token_index: int,
    endian: Endian,
    n: nat,
) -> Seq<u8>
    decreases n,
{
    if n == 0 {
        Seq::empty()
    } else {
        let pre = valid_first_tokens(data, token_table, token_index, endian, (n - 1) as nat);
        let first = data[token_table + token_offset(data, token_index, endian, n - 1)];
        if is_symbol_type(first) {
            pre.push((n - 1) as u8)
        } else {
            pre
        }
    }
}

/// The token numbers (0 to 255) whose token starts with a symbol type letter:
/// the tokens a kallsyms name can begin with.
pub fn build_valid_first_tokens(
    data: &[u8],
    token_table_offset: usize,
    token_index_offset: usize,
    endian: Endian,
) -> (r: Vec<u8>)
    requires
        token_index_readable(data@, token_table_offset as int, token_index_offset as int, endian),
    ensures
        r@ == valid_first_tokens(
            data@,
            token_table_offset as int,
            token_index_offset as int,
            endian,
            256,
        ),
{
    let n = data.len();
    let mut out: Vec<u8> = Vec::new();
    let mut index: usize = 0;
    while index < 256
        invariant
            n == data@.len(),
            index <= 256,
            token_index_readable(data@, token_table_offset as int, token_index_offset as int, endian),
            out@ == valid_first_tokens(
                data@,
                token_table_offset as int,
                token_index_offset as int,
                endian,
                index as nat,
            ),
        decreases 256 - index,
    {
        let off = token_index_offset + 2 * index;
        let token_off = match read_entry_unsigned(data, off, endian, 2) {
            Ok(v) => v,
            Err(_) => {
                assert(false);
                0
            },
        };
        assert(token_off == token_offset(data@, token_index_offset as int, endian, index as int));
        assert(token_table_offset + token_offset(data@, token_index_offset as int, endian, index as int) < data@.len());
        let first_byte = data[token_table_offset + token_off as usize];
        if symbol_type_byte(first_byte) {
            out.push(index as u8);
        }
        index = index + 1;
    }
    out
}

/// Checks `token_index_readable`.
fn check_token_index_readable(
    data: &[u8],
    token_table_offset: usize,
    token_index_offset: usize,
    endian: Endian,
) -> (r: bool)
    ensures
        r == token_index_readable(
            data@,
            token_table_offset as int,
            token_index_offset as int,
            endian,
        ),
{
    let n = data.len();
    if token_index_offset > n || n - token_index_offset < 512 {
        return false;
    }
    let mut index: usize = 0;
    while index < 256
        invariant
            n == data@.len(),
            index <= 256,
            token_index_offset + 512 <= data@.len(),
            forall|i: int|
                0 <= i < index ==> token_table_offset + #[trigger] token_offset(
                    data@,
                    token_index_offset as int,
                    endian,
                    i,
                ) < data@.len(),
        decreases 256 - index,
    {
        let token_off = match read_entry_unsigned(data, token_index_offset + 2 * index, endian, 2) {
            Ok(v) => v,
            Err(_) => {
                assert(false);
                0
            },
        };
        assert(token_off == token_offset(data@, token_index_offset as int, endian, index as int));
        proof {
            lemma_unsigned_value_bound(
                entry_bytes(data@, token_index_offset + 2 * index, 2),
                endian,
            );
            lemma_radix_pow_facts(2);
        }
        if token_off as usize >= data.len() || token_table_offset >= data.len() - token_off as usize {
            return false;
        }
        index = index + 1;
    }
    true
}

/// The pieces of the token table: the bytes from `token_table` on, split at
/// NUL bytes.
pub open spec fn token_pieces(data: Seq<u8>, token_table: int) -> Seq<Seq<u8>> {
    split_on(data.skip(token_table), 0u8)
}

/// The token table: the first 256 NUL-terminated pieces from `token_table` on
/// (fewer when the data ends first), each decoded as `from_utf8_lossy` does.
pub fn build_token_table(data: &[u8], token_table_offset: usize) -> (r: Vec<String>)
    requires
        token_table_offset <= data@.len(),
    ensures
        ({
            let pieces = token_pieces(data@, token_table_offset as int);
            &&& r@.len() == if pieces.len() < 256 {
                pieces.len()
            } else {
                256
            }
            &&& forall|i: int| 0 <= i < r@.len() ==> #[trigger] r@[i]@ == utf8_lossy(pieces[i])
            &&& forall|i: int|
                0 <= i < r@.len() && valid_utf8(pieces[i]) ==> #[trigger] r@[i]@ == decode_utf8(
                    pieces[i],
                )
        }),
        r@.map_values(|t: String| t@) == token_table_texts(data@, token_table_offset as int),
{
    let ghost rest = data@.skip(token_table_offset as int);
    let n = data.len();
    let mut table: Vec<String> = Vec::new();
    let mut i: usize = token_table_offset;
    let mut cur_start: usize = token_table_offset;
    assert(rest.take(0) =~= Seq::<u8>::empty());
    assert(data@.subrange(cur_start as int, i as int) =~= Seq::<u8>::empty());
    while i < n && table.len() < 256
        invariant
            n == data@.len(),
            rest == data@.skip(token_table_offset as int),
            token_table_offset <= cur_start <= i <= n,
            table@.len() < 256 ==> split_on(rest.take(i - token_table_offset), 0u8).len()
                == table@.len() + 1,
            table@.len() <= 256,
            table@.len() == 256 ==> split_on(rest.take(i - token_table_offset), 0u8).len() >= 256
                + 1 || (split_on(rest.take(i - token_table_offset), 0u8).len() == 256 + 1),
            split_on(rest.take(i - token_table_offset), 0u8).len() >= table@.len() + 1,
            split_on(rest.take(i - token_table_offset), 0u8).last() == data@.subrange(
                cur_start as int,
                i as int,
            ),
            forall|j: int|
                0 <= j < table@.len() ==> #[trigger] table@[j]@ == utf8_lossy(
                    split_on(rest.take(i - token_table_offset), 0u8)[j],
                ),
            forall|j: int|
                0 <= j < table@.len() && valid_utf8(split_on(rest.take(i - token_table_offset), 0u8)[j])
                    ==> #[trigger] table@[j]@ == decode_utf8(
                    split_on(rest.take(i - token_table_offset), 0u8)[j],
                ),
        decreases n - i,
    {
        let ghost k = i - token_table_offset;
        assert(rest.take(k + 1).drop_last() =~= rest.take(k));
        assert(rest.take(k + 1).last() == data@[i as int]);
        if data[i] == 0 {
            let piece = vstd::slice::slice_subrange(data, cur_start, i);
            table.push(lossy_string(piece));
            cur_start = i + 1;
            assert(data@.subrange(cur_start as int, i + 1) =~= Seq::<u8>::empty());
        } else {
            assert(data@.subrange(cur_start as int, i + 1) =~= data@.subrange(
                cur_start as int,
                i as int,
            ).push(data@[i as int]));
        }
        i = i + 1;
    }
    proof {
        lemma_split_prefix_stable(rest, 0u8, i - token_table_offset, rest.len() as int);
        assert(rest.take(rest.len() as int) =~= rest);
    }
    if table.len() < 256 {
        assert(i == n);
        let piece = vstd::slice::slice_subrange(data, cur_start, n);
        assert(rest.take(n - token_table_offset) =~= rest);
        table.push(lossy_string(piece));
    }
    assert(table@.map_values(|t: String| t@) =~= token_table_texts(data@, token_table_offset as int));
    table
}

/// Offsets (within the token table starting at `start`) at which a token
/// begins, judged by the NUL bytes in `[start, upto)`: the first token at 0,
/// then one after every NUL.
pub open spec fn token_starts(data: Seq<u8>, start: int, upto: int) -> Seq<int>
    decreases upto - start,
{
    if upto <= start {
        seq![0int]
    } else {
        let pre = token_starts(data, start, upto - 1);
        if data[upto - 1] == 0 {
            pre.push(upto - start)
        } else {
            pre
        }
    }
}

/// A value cut to 16 bits and written as two bytes in byte order `endian`.
pub open spec fn u16_bytes(v: int, endian: Endian) -> Seq<u8> {
    let w = v % 0x1_0000;
    match endian {
        Endian::Little => seq![(w % 256) as u8, (w / 256) as u8],
        Endian::Big => seq![(w / 256) as u8, (w % 256) as u8],
    }
}

/// The 16-bit entries of `values` one after the other.
pub open spec fn u16_pattern(values: Seq<int>, endian: Endian) -> Seq<u8>
    decreases values.len(),
{
    if values.len() == 0 {
        Seq::empty()
    } else {
        u16_pattern(values.drop_last(), endian) + u16_bytes(values.last(), endian)
    }
}

/// Where `find_kallsyms_token_index` finds the token index of the token table
/// `[start, start + size)`: the first place where the table of token start
/// offsets occurs, written in the byte order under which it occurs more often
/// (big-endian on a tie).
pub open spec fn token_index_search(data: Seq<u8>, start: int, size: int) -> Result<
    (int, Endian),
    ScanError,
> {
    let starts = token_starts(data, start, start + size - 1);
    let le = occurrences(data, u16_pattern(starts, Endian::Little));
    let be = occurrences(data, u16_pattern(starts, Endian::Big));
    if le.len() == 0 && be.len() == 0 {
        Err(ScanError::TokenIndexNotFound)
    } else if le.len() > be.len() {
        Ok((le[0], Endian::Little))
    } else {
        Ok((be[0], Endian::Big))
    }
}

/// The token index found holds the table of token start offsets: at the place
/// `token_index_search` gives, the 16-bit start offsets occur in the byte order
/// it gives.
pub proof fn lemma_token_index_holds_starts(data: Seq<u8>, start: int, size: int)
    requires
        token_index_search(data, start, size) is Ok,
    ensures
        ({
            let (p, e) = token_index_search(data, start, size)->Ok_0;
            occurs_at(data, u16_pattern(token_starts(data, start, start + size - 1), e), p)
        }),
{
    let starts = token_starts(data, start, start + size - 1);
    let le = u16_pattern(starts, Endian::Little);
    let be = u16_pattern(starts, Endian::Big);
    crate::search::lemma_occurrences_inside(data, le, 0);
    crate::search::lemma_occurrences_inside(data, be, 0);
    if occurrences(data, le).len() > 0 {
        assert(occurs_at(data, le, occurrences(data, le)[0]));
    }
    if occurrences(data, be).len() > 0 {
        assert(occurs_at(data, be, occurrences(data, be)[0]));
    }
}

fn push_u16(out: &mut Vec<u8>, v: usize, endian: Endian)
    ensures
        final(out)@ == old(out)@ + u16_bytes(v as int, endian),
{
    let w = v % 0x1_0000;
    let lo = (w % 256) as u8;
    let hi = (w / 256) as u8;
    match endian {
        Endian::Little => {
            out.push(lo);
            out.push(hi);
        },
        Endian::Big => {
            out.push(hi);
            out.push(lo);
        },
    }
    assert(final(out)@ =~= old(out)@ + u16_bytes(v as int, endian));
}

fn build_u16_pattern(values: &Vec<usize>, endian: Endian) -> (r: Vec<u8>)
    ensures
        r@ == u16_pattern(values@.map_values(|v: usize| v as int), endian),
        r@.len() == 2 * values@.len(),
{
    let ghost vals = values@.map_values(|v: usize| v as int);
    let mut out: Vec<u8> = Vec::new();
    let mut i: usize = 0;
    assert(vals.take(0) =~= Seq::<int>::empty());
    while i < values.len()
        invariant
            i <= values@.len(),
            vals == values@.map_values(|v: usize| v as int),
            out@ == u16_pattern(vals.take(i as int), endian),
            out@.len() == 2 * i,
        decreases values@.len() - i,
    {
        assert(vals.take(i + 1).drop_last() =~= vals.take(i as int));
        push_u16(&mut out, values[i], endian);
        i = i + 1;
    }
    assert(vals.take(values@.len() as int) =~= vals);
    out
}

/// Finds the token index that belongs to the token table `[token_table_start,
/// token_table_start + token_table_size)` of `data`, and the byte order it is
/// written in (see `token_index_search`).
pub fn find_kallsyms_token_index(data: &[u8], token_table_start: usize, token_table_size: usize) -> (r:
    Result<(usize, Endian), ScanError>)
    requires
        token_table_start + token_table_size <= data@.len() + 1,
        token_table_start + token_table_size <= usize::MAX,
        token_table_start + token_table_size >= 1,
    ensures
        match token_index_search(data@, token_table_start as int, token_table_size as int) {
            Ok((p, e)) => r matches Ok((q, e2)) && q as int == p && e2 == e,
            Err(e) => r == Err::<(usize, Endian), ScanError>(e),
        },
        r matches Ok((p, _)) ==> p < data@.len(),
{
    let n = data.len();
    let end = token_table_start + token_table_size - 1;
    let mut token_indexes: Vec<usize> = Vec::new();
    token_indexes.push(0);
    let mut position = token_table_start;
    while position < end
        invariant
            token_table_start <= position,
            position <= end || end < token_table_start,
            end < token_table_start ==> position == token_table_start,
            end == token_table_start + token_table_size - 1,
            end <= data@.len(),
            token_indexes@.len() >= 1,
            token_indexes@.map_values(|v: usize| v as int) == token_starts(
                data@,
                token_table_start as int,
                position as int,
            ),
        decreases end - position,
    {
        if data[position] == 0 {
            token_indexes.push(position + 1 - token_table_start);
        }
        position = position + 1;
        assert(token_indexes@.map_values(|v: usize| v as int) =~= token_starts(
            data@,
            token_table_start as int,
            position as int,
        ));
    }
    if end < token_table_start {
        assert(token_starts(data@, token_table_start as int, end as int) == seq![0int]);
        assert(token_starts(data@, token_table_start as int, position as int) == seq![0int]);
    }
    let le_pattern = build_u16_pattern(&token_indexes, Endian::Little);
    let be_pattern = build_u16_pattern(&token_indexes, Endian::Big);
    let le_candidates = find_occurrences(data, le_pattern.as_slice());
    let be_candidates = find_occurrences(data, be_pattern.as_slice());
    if le_candidates.len() == 0 && be_candidates.len() == 0 {
        return Err(ScanError::TokenIndexNotFound);
    }
    proof {
        crate::search::lemma_occurrences_inside(data@, le_pattern@, 0);
        crate::search::lemma_occurrences_inside(data@, be_pattern@, 0);
        assert(le_pattern@.len() >= 1 && be_pattern@.len() >= 1);
        if le_candidates.len() > 0 {
            assert(occurs_at(data@, le_pattern@, occurrences(data@, le_pattern@)[0]));
        }
        if be_candidates.len() > 0 {
            assert(occurs_at(data@, be_pattern@, occurrences(data@, be_pattern@)[0]));
        }
    }
    if le_candidates.len() > be_candidates.len() {
        Ok((le_candidates[0], Endian::Little))
    } else {
        Ok((be_candidates[0], Endian::Big))
    }
}

/// The lookup table of first tokens: entry `i` tells whether token `i` is in
/// `valid`.
pub open spec fn first_token_lookup(valid: Seq<u8>) -> Seq<bool> {
    Seq::new(256, |i: int| valid.contains(i as u8))
}

/// The name that `candidate + marker` would point at starts with a plausible
/// length byte (1 to 127) followed by an allowed first token.
pub open spec fn marker_fits(data: Seq<u8>, candidate: int, marker: u64, lookup: Seq<bool>) -> bool {
    let pos = candidate + marker;
    &&& pos + 1 < data.len()
    &&& data[pos] != 0
    &&& data[pos] <= 127
    &&& lookup[data[pos + 1] as int]
}

/// Every marker, taken relative to `candidate`, points at a plausible name.
pub open spec fn names_candidate_fits(
    data: Seq<u8>,
    candidate: int,
    markers: Seq<u64>,
    lookup: Seq<bool>,
) -> bool {
    forall|i: int| 0 <= i < markers.len() ==> marker_fits(data, candidate, #[trigger] markers[i], lookup)
}

/// Whether `candidate` can be the start of kallsyms_names: every marker,
/// taken relative to it, points at a name with a length of 1 to 127 whose
/// first token is one of those `valid_first_token_indexes` allows.
pub fn validate_names_candidate(
    data: &[u8],
    candidate: usize,
    markers: &[u64],
    valid_first_token_indexes: &[bool; 256],
) -> (r: bool)
    ensures
        r == names_candidate_fits(data@, candidate as int, markers@, valid_first_token_indexes@),
{
    let n = data.len();
    let mut i: usize = 0;
    while i < markers.len()
        invariant
            n == data@.len(),
            i <= markers@.len(),
            forall|j: int|
                0 <= j < i ==> marker_fits(
                    data@,
                    candidate as int,
                    #[trigger] markers@[j],
                    valid_first_token_indexes@,
                ),
        decreases markers@.len() - i,
    {
        let marker = markers[i];
        if marker >= n as u64 {
            return false;
        }
        let pos = match candidate.checked_add(marker as usize) {
            Some(p) => p,
            None => return false,
        };
        if pos >= n - 1 || n == 0 {
            return false;
        }
        let len = data[pos];
        if len == 0 || len > 127 {
            return false;
        }
        let token_idx = data[pos + 1];
        if !valid_first_token_indexes[token_idx as usize] {
            return false;
        }
        i = i + 1;
    }
    true
}

/// `c` is the one offset of `data` at which every marker points at a
/// plausible name.
pub open spec fn names_start_at(data: Seq<u8>, markers: Seq<u64>, lookup: Seq<bool>, c: int) -> bool {
    &&& 0 <= c < data.len()
    &&& names_candidate_fits(data, c, markers, lookup)
    &&& forall|d: int|
        0 <= d < data.len() && d != c ==> !#[trigger] names_candidate_fits(data, d, markers, lookup)
}

/// The start of kallsyms_names that `find_kallsyms_names` finds, if there is
/// exactly one.
pub open spec fn unique_names_start(data: Seq<u8>, markers: Seq<u64>, lookup: Seq<bool>) -> Option<
    int,
> {
    if exists|c: int| names_start_at(data, markers, lookup, c) {
        Some(choose|c: int| names_start_at(data, markers, lookup, c))
    } else {
        None
    }
}

/// Finds kallsyms_names: the one offset of `data` that `validate_names_candidate`
/// accepts; an error when none or more than one does.
pub fn find_kallsyms_names(data: &[u8], marker_entries: &[u64], valid_first_token_indexes: Vec<u8>) -> (r:
    Result<usize, ScanError>)
    ensures
        match unique_names_start(data@, marker_entries@, first_token_lookup(valid_first_token_indexes@)) {
            Some(c) => r matches Ok(d) && d == c,
            None => r == Err::<usize, ScanError>(ScanError::NamesNotFound),
        },
{
    let ghost valid = valid_first_token_indexes@;
    let mut lookup = [false; 256];
    let mut k: usize = 0;
    while k < valid_first_token_indexes.len()
        invariant
            k <= valid.len(),
            valid == valid_first_token_indexes@,
            forall|t: int| 0 <= t < 256 ==> #[trigger] lookup@[t] == valid.take(k as int).contains(t as u8),
        decreases valid.len() - k,
    {
        let t = valid_first_token_indexes[k];
        let ghost before = lookup@;
        lookup[t as usize] = true;
        assert(lookup@ =~= before.update(t as int, true));
        proof {
            assert(valid.take(k + 1) =~= valid.take(k as int).push(t));
            assert(valid.take(k + 1)[k as int] == t);
            assert forall|u: int| 0 <= u < 256 implies #[trigger] lookup@[u] == valid.take(k + 1).contains(u as u8) by {
                if u == t as int {
                    assert(valid.take(k + 1).contains(u as u8));
                } else {
                    assert(lookup@[u] == before[u]);
                    if valid.take(k as int).contains(u as u8) {
                        let w = choose|w: int| 0 <= w < k && #[trigger] valid.take(k as int)[w] == u as u8;
                        assert(valid.take(k + 1)[w] == u as u8);
                    }
                    if valid.take(k + 1).contains(u as u8) {
                        let w = choose|w: int| 0 <= w < k + 1 && #[trigger] valid.take(k + 1)[w] == u as u8;
                        assert(w != k);
                        assert(valid.take(k as int)[w] == u as u8);
                    }
                }
            }
        }
        k = k + 1;
    }
    assert(valid.take(valid.len() as int) =~= valid);
    assert(lookup@ =~= first_token_lookup(valid));
    let ghost lk = first_token_lookup(valid);
    let n = data.len();
    let mut found: Option<usize> = None;
    let mut candidate: usize = 0;
    while candidate < n
        invariant
            n == data@.len(),
            candidate <= n,
            lookup@ == lk,
            lk == first_token_lookup(valid_first_token_indexes@),
            found matches Some(c) ==> c < candidate && names_candidate_fits(data@, c as int, marker_entries@, lk),
            forall|d: int|
                0 <= d < candidate && (found matches Some(c) ==> d != c) ==> !#[trigger] names_candidate_fits(
                    data@,
                    d,
                    marker_entries@,
                    lk,
                ),
        decreases n - candidate,
    {
        if validate_names_candidate(data, candidate, marker_entries, &lookup) {
            match found {
                Some(c) => {
                    proof {
                        if exists|c0: int| names_start_at(data@, marker_entries@, lk, c0) {
                            let c0 = choose|c0: int| names_start_at(data@, marker_entries@, lk, c0);
                            assert(names_start_at(data@, marker_entries@, lk, c0));
                            if c0 == c {
                                assert(!names_candidate_fits(data@, candidate as int, marker_entries@, lk));
                            } else {
                                assert(!names_candidate_fits(data@, c as int, marker_entries@, lk));
                            }
                        }
                    }
                    return Err(ScanError::NamesNotFound);
                },
                None => {
                    found = Some(candidate);
                },
            }
        }
        candidate = candidate + 1;
    }
    proof {
        match found {
            Some(c) => {
                assert(names_start_at(data@, marker_entries@, lk, c as int));
                let c0 = choose|c0: int| names_start_at(data@, marker_entries@, lk, c0);
                assert(names_start_at(data@, marker_entries@, lk, c0));
                assert(c0 == c);
            },
            None => {
                if exists|c0: int| names_start_at(data@, marker_entries@, lk, c0) {
                    let c0 = choose|c0: int| names_start_at(data@, marker_entries@, lk, c0);
                    assert(names_start_at(data@, marker_entries@, lk, c0));
                }
            },
        }
    }
    match found {
        Some(c) => Ok(c),
        None => Err(ScanError::NamesNotFound),
    }
}

/// Walks the names table from `pos`, at most `budget` names: the number of
/// names before the terminating zero length, or the error met first.
pub open spec fn count_names_from(data: Seq<u8>, pos: int, budget: nat) -> Result<nat, ScanError>
    decreases budget,
{
    if budget == 0 {
        Err(ScanError::InvalidNamesCandidate)
    } else if pos >= data.len() || pos < 0 {
        Err(ScanError::NamesOutOfData)
    } else if data[pos] == 0 {
        Ok(0)
    } else {
        match count_names_from(data, pos + data[pos] + 1, (budget - 1) as nat) {
            Ok(k) => Ok(k + 1),
            Err(e) => Err(e),
        }
    }
}

/// The number of symbols: 256 for every marker but the last, plus the names
/// in the last block (at most 256, ending at a zero length byte).
pub open spec fn symbol_count(data: Seq<u8>, names_offset: int, markers: Seq<u64>) -> Result<
    nat,
    ScanError,
> {
    if markers.len() == 0 {
        Err(ScanError::EmptyMarkers)
    } else {
        match count_names_from(data, names_offset + markers.last(), 256) {
            Ok(k) => Ok(((markers.len() - 1) * 256 + k) as nat),
            Err(e) => Err(e),
        }
    }
}

proof fn lemma_count_walks_table(data: Seq<u8>, pos: int, budget: nat)
    requires
        names_entries(data, pos) is Some,
        names_entries(data, pos)->0.len() < budget,
    ensures
        count_names_from(data, pos, budget) == Ok::<nat, ScanError>(names_entries(data, pos)->0.len()),
    decreases budget,
{
    if data[pos] != 0 {
        let next = pos + 1 + data[pos];
        lemma_count_walks_table(data, next, (budget - 1) as nat);
    }
}

/// Counting ends at the end of the last block of names: when the names from
/// the last marker on end at a zero length byte after `k` names, fewer than
/// 256, the symbol count is 256 for every other marker plus `k`.
pub proof fn lemma_symbol_count_of_table(data: Seq<u8>, names_offset: int, markers: Seq<u64>)
    requires
        markers.len() >= 1,
        names_entries(data, names_offset + markers.last()) is Some,
        names_entries(data, names_offset + markers.last())->0.len() < 256,
    ensures
        symbol_count(data, names_offset, markers) == Ok::<nat, ScanError>(
            ((markers.len() - 1) * 256 + names_entries(data, names_offset + markers.last())->0.len()) as nat,
        ),
{
    lemma_count_walks_table(data, names_offset + markers.last(), 256);
}

proof fn lemma_count_too_many(data: Seq<u8>, pos: int, budget: nat)
    requires
        names_entries(data, pos) is Some,
        names_entries(data, pos)->0.len() >= budget,
    ensures
        count_names_from(data, pos, budget) == Err::<nat, ScanError>(ScanError::InvalidNamesCandidate),
    decreases budget,
{
    if budget > 0 {
        let next = pos + 1 + data[pos];
        lemma_count_too_many(data, next, (budget - 1) as nat);
    }
}

/// A last block of 256 names or more is refused: when the names from the last
/// marker on hold at least 256 names, counting fails with
/// `InvalidNamesCandidate`.
pub proof fn lemma_symbol_count_too_many(data: Seq<u8>, names_offset: int, markers: Seq<u64>)
    requires
        markers.len() >= 1,
        names_entries(data, names_offset + markers.last()) is Some,
        names_entries(data, names_offset + markers.last())->0.len() >= 256,
    ensures
        symbol_count(data, names_offset, markers) == Err::<nat, ScanError>(ScanError::InvalidNamesCandidate),
{
    lemma_count_too_many(data, names_offset + markers.last(), 256);
}

/// Counts the symbols of the names table at `names_offset` (see `symbol_count`).
pub fn count_num_symbols(data: &[u8], names_offset: usize, markers: &[u64]) -> (r: Result<
    u64,
    ScanError,
>)
    requires
        markers@.len() * 256 <= u64::MAX,
    ensures
        match symbol_count(data@, names_offset as int, markers@) {
            Ok(k) => r == Ok::<u64, ScanError>(k as u64),
            Err(e) => r == Err::<u64, ScanError>(e),
        },
        r matches Ok(c) ==> (markers@.len() - 1) * 256 <= c < markers@.len() * 256,
{
    proof {
        if markers@.len() > 0 {
            lemma_count_below_budget(data@, names_offset + markers@.last(), 256);
        }
    }
    let m = markers.len();
    if m == 0 {
        return Err(ScanError::EmptyMarkers);
    }
    let last_marker = markers[m - 1];
    let n = data.len();
    let mut count: u64 = (m as u64 - 1) * 256;
    let mut pos: usize = 0;
    let mut in_range = false;
    if last_marker < n as u64 {
        match names_offset.checked_add(last_marker as usize) {
            Some(p) => {
                pos = p;
                in_range = true;
            },
            None => {},
        }
    }
    let ghost start = names_offset + last_marker;
    assert(markers@.last() == last_marker);
    if !in_range || pos >= n {
        assert(start >= n);
        return Err(ScanError::NamesOutOfData);
    }
    let mut i: usize = 0;
    while i < 256
        invariant
            n == data@.len(),
            i <= 256,
            pos < n,
            count == (m - 1) * 256 + i,
            m == markers@.len(),
            markers@.len() * 256 <= u64::MAX,
            m > 0,
            start == names_offset + markers@.last(),
            count_names_from(data@, start, 256) == match count_names_from(data@, pos as int, (256 - i) as nat) {
                Ok(k) => Ok::<nat, ScanError>(k + i as nat),
                Err(e) => Err::<nat, ScanError>(e),
            },
        decreases 256 - i,
    {
        let len = data[pos];
        if len == 0 {
            return Ok(count);
        }
        count = count + 1;
        i = i + 1;
        let step = len as usize + 1;
        if step >= n - pos {
            assert(count_names_from(data@, pos + len + 1, (256 - i) as nat) is Err);
            assert(i == 256 || count_names_from(data@, pos + len + 1, (256 - i) as nat) == Err::<nat, ScanError>(ScanError::NamesOutOfData));
            if i == 256 {
                return Err(ScanError::InvalidNamesCandidate);
            }
            return Err(ScanError::NamesOutOfData);
        }
        pos = pos + step;
    }
    Err(ScanError::InvalidNamesCandidate)
}

/// The entries of the names table from `pos` on: each is the run of token
/// numbers that follows a nonzero length byte; the table ends at a zero length
/// byte. `None` when the table runs past the end of `data`.
pub open spec fn names_entries(data: Seq<u8>, pos: int) -> Option<Seq<Seq<u8>>>
    decreases data.len() - pos,
{
    if pos < 0 || pos >= data.len() {
        None
    } else if data[pos] == 0 {
        Some(Seq::empty())
    } else if pos + 1 + data[pos] > data.len() {
        None
    } else {
        match names_entries(data, pos + 1 + data[pos]) {
            Some(rest) => Some(seq![data.subrange(pos + 1, pos + 1 + data[pos])] + rest),
            None => None,
        }
    }
}

/// Every token number in `entries` names a token of a table of `table_len`
/// tokens.
pub open spec fn tokens_in_table(entries: Seq<Seq<u8>>, table_len: nat) -> bool {
    forall|i: int, j: int|
        0 <= i < entries.len() && 0 <= j < entries[i].len() ==> #[trigger] entries[i][j] < table_len
}

/// The names table at `offset` ends inside `data` and uses only tokens of a
/// table of `table_len` tokens.
pub open spec fn names_table_fits(data: Seq<u8>, offset: int, table_len: nat) -> bool {
    &&& names_entries(data, offset) is Some
    &&& tokens_in_table(names_entries(data, offset)->0, table_len)
}

/// The text of a name: its tokens, one after the other.
pub open spec fn symbol_text(tokens: Seq<u8>, table: Seq<Seq<char>>) -> Seq<char>
    decreases tokens.len(),
{
    if tokens.len() == 0 {
        Seq::empty()
    } else {
        symbol_text(tokens.drop_last(), table) + table[tokens.last() as int]
    }
}

/// The texts of all entries.
pub open spec fn symbol_texts(entries: Seq<Seq<u8>>, table: Seq<Seq<char>>) -> Seq<Seq<char>> {
    entries.map_values(|e: Seq<u8>| symbol_text(e, table))
}

fn symbol_from_tokens(tokens: &[u8], token_table: &Vec<String>) -> (r: String)
    requires
        forall|j: int| 0 <= j < tokens@.len() ==> #[trigger] tokens@[j] < token_table@.len(),
    ensures
        r@ == symbol_text(tokens@, token_table@.map_values(|t: String| t@)),
{
    let ghost table = token_table@.map_values(|t: String| t@);
    let mut out = String::new();
    let mut i: usize = 0;
    assert(tokens@.take(0) =~= Seq::<u8>::empty());
    while i < tokens.len()
        invariant
            i <= tokens@.len(),
            table == token_table@.map_values(|t: String| t@),
            forall|j: int| 0 <= j < tokens@.len() ==> #[trigger] tokens@[j] < token_table@.len(),
            out@ == symbol_text(tokens@.take(i as int), table),
        decreases tokens@.len() - i,
    {
        assert(tokens@.take(i + 1).drop_last() =~= tokens@.take(i as int));
        let t = tokens[i] as usize;
        out.append(token_table[t].as_str());
        i = i + 1;
    }
    assert(tokens@.take(tokens@.len() as int) =~= tokens@);
    out
}

/// The names in the names table at `kallsyms_names_offset`, each the
/// concatenation of its tokens.
pub fn extract_symbol_names(data: &[u8], kallsyms_names_offset: usize, token_table: &Vec<String>) -> (r:
    Result<Vec<String>, ScanError>)
    requires
        names_table_fits(data@, kallsyms_names_offset as int, token_table@.len()),
    ensures
        r matches Ok(v) && v@.map_values(|s: String| s@) == symbol_texts(
            names_entries(data@, kallsyms_names_offset as int)->0,
            token_table@.map_values(|t: String| t@),
        ),
{
    let ghost table = token_table@.map_values(|t: String| t@);
    let ghost all = names_entries(data@, kallsyms_names_offset as int)->0;
    let mut symbol_names: Vec<String> = Vec::new();
    let mut current = kallsyms_names_offset;
    let n = data.len();
    let mut done = false;
    while !done
        invariant
            done ==> names_entries(data@, current as int)->0.len() == 0,
            n == data@.len(),
            table == token_table@.map_values(|t: String| t@),
            names_entries(data@, current as int) is Some,
            names_entries(data@, kallsyms_names_offset as int) is Some,
            all == names_entries(data@, kallsyms_names_offset as int)->0,
            tokens_in_table(all, token_table@.len()),
            symbol_names@.len() + names_entries(data@, current as int)->0.len() == all.len(),
            forall|i: int| 0 <= i < symbol_names@.len() ==> #[trigger] symbol_names@[i]@ == symbol_text(all[i], table),
            forall|i: int|
                0 <= i < names_entries(data@, current as int)->0.len() ==> #[trigger] names_entries(data@, current as int)->0[i]
                    == all[symbol_names@.len() + i],
        decreases n - current + if done { 0int } else { 1int },
    {
        let symbol_len = data[current] as usize;
        if symbol_len == 0 {
            done = true;
            continue;
        }
        let tokens = vstd::slice::slice_subrange(data, current + 1, current + 1 + symbol_len);
        let ghost rest = names_entries(data@, current as int)->0;
        assert(rest[0] == tokens@);
        assert(all[symbol_names@.len() as int] == tokens@);
        proof {
            assert forall|j: int| 0 <= j < tokens@.len() implies #[trigger] tokens@[j] < token_table@.len() by {
                assert(all[symbol_names@.len() as int][j] < token_table@.len());
            }
        }
        let symbol = symbol_from_tokens(tokens, token_table);
        let ghost next_rest = names_entries(data@, current + symbol_len + 1)->0;
        assert(names_entries(data@, current + symbol_len + 1) is Some);
        assert(rest =~= seq![tokens@] + next_rest);
        symbol_names.push(symbol);
        current = current + symbol_len + 1;
        assert forall|i: int|
            0 <= i < names_entries(data@, current as int)->0.len() implies #[trigger] names_entries(data@, current as int)->0[i]
                == all[symbol_names@.len() + i] by {
            assert(next_rest[i] == rest[i + 1]);
        }
    }
    assert(symbol_names@.map_values(|s: String| s@) =~= symbol_texts(all, table));
    Ok(symbol_names)
}

/// Every text is nonempty and starts with an ASCII char.
pub open spec fn all_start_ascii(texts: Seq<Seq<char>>) -> bool {
    forall|i: int| 0 <= i < texts.len() ==> (#[trigger] texts[i]).len() >= 1 && (texts[i][0] as int) < 0x80
}

/// `text` is one of `list`.
fn listed(list: &Vec<String>, text: &String) -> (r: bool)
    ensures
        r == list@.map_values(|s: String| s@).contains(text@),
{
    let ghost views = list@.map_values(|s: String| s@);
    let mut i: usize = 0;
    while i < list.len()
        invariant
            i <= list@.len(),
            views == list@.map_values(|s: String| s@),
            forall|j: int| 0 <= j < i ==> views[j] != text@,
        decreases list@.len() - i,
    {
        if list[i] == *text {
            assert(views[i as int] == text@);
            return true;
        }
        i = i + 1;
    }
    false
}

/// For each name of the names table at `kallsyms_names_offset`, in order: the
/// name without its leading symbol type letter, and whether that is one of
/// `search_list`.
pub fn search_symbol_names(
    data: &[u8],
    kallsyms_names_offset: usize,
    token_table: &Vec<String>,
    search_list: &Vec<String>,
) -> (r: Result<Vec<(String, bool)>, ScanError>)
    requires
        names_table_fits(data@, kallsyms_names_offset as int, token_table@.len()),
        all_start_ascii(
            symbol_texts(
                names_entries(data@, kallsyms_names_offset as int)->0,
                token_table@.map_values(|t: String| t@),
            ),
        ),
    ensures
        ({
            let texts = symbol_texts(
                names_entries(data@, kallsyms_names_offset as int)->0,
                token_table@.map_values(|t: String| t@),
            );
            r matches Ok(v) && v@.len() == texts.len() && forall|i: int|
                0 <= i < v@.len() ==> (#[trigger] v@[i]).0@ == texts[i].drop_first() && v@[i].1
                    == search_list@.map_values(|s: String| s@).contains(texts[i].drop_first())
        }),
{
    let ghost texts = symbol_texts(
        names_entries(data@, kallsyms_names_offset as int)->0,
        token_table@.map_values(|t: String| t@),
    );
    let names = match extract_symbol_names(data, kallsyms_names_offset, token_table) {
        Ok(v) => v,
        Err(e) => return Err(e),
    };
    assert(names@.len() == texts.len() && forall|i: int| 0 <= i < texts.len() ==> names@[i]@ == #[trigger] texts[i]) by {
        assert forall|i: int| 0 <= i < texts.len() implies names@[i]@ == #[trigger] texts[i] by {
            assert(names@.map_values(|s: String| s@)[i] == names@[i]@);
        }
    }
    let mut out: Vec<(String, bool)> = Vec::new();
    let mut i: usize = 0;
    while i < names.len()
        invariant
            i <= names@.len(),
            names@.len() == texts.len(),
            forall|j: int| 0 <= j < texts.len() ==> names@[j]@ == #[trigger] texts[j],
            all_start_ascii(texts),
            out@.len() == i,
            forall|j: int|
                0 <= j < i ==> (#[trigger] out@[j]).0@ == texts[j].drop_first() && out@[j].1
                    == search_list@.map_values(|s: String| s@).contains(texts[j].drop_first()),
        decreases names@.len() - i,
    {
        let name = names[i].as_str();
        let n = name.unicode_len();
        assert(texts[i as int].len() >= 1);
        let rest = name.substring_char(1, n).to_owned();
        assert(rest@ =~= texts[i as int].drop_first());
        let found = listed(search_list, &rest);
        out.push((rest, found));
        i = i + 1;
    }
    Ok(out)
}

/// Checks `names_table_fits`.
fn check_names_table(data: &[u8], offset: usize, table_len: usize) -> (r: bool)
    ensures
        r == names_table_fits(data@, offset as int, table_len as nat),
{
    let n = data.len();
    let mut current = offset;
    loop
        invariant
            n == data@.len(),
            names_entries(data@, offset as int) is Some && tokens_in_table(names_entries(data@, offset as int)->0, table_len as nat)
                <==> names_entries(data@, current as int) is Some && tokens_in_table(names_entries(data@, current as int)->0, table_len as nat),
        decreases n - current,
    {
        if current >= n {
            return false;
        }
        let symbol_len = data[current] as usize;
        if symbol_len == 0 {
            assert(tokens_in_table(Seq::<Seq<u8>>::empty(), table_len as nat));
            return true;
        }
        if symbol_len + 1 > n - current {
            return false;
        }
        let ghost tokens = data@.subrange(current + 1, current + 1 + symbol_len);
        let mut j: usize = current + 1;
        while j < current + 1 + symbol_len
            invariant
                n == data@.len(),
                current < n,
                symbol_len == data@[current as int],
                symbol_len > 0,
                tokens == data@.subrange(current + 1, current + 1 + symbol_len),
                names_entries(data@, offset as int) is Some && tokens_in_table(names_entries(data@, offset as int)->0, table_len as nat)
                    <==> names_entries(data@, current as int) is Some && tokens_in_table(names_entries(data@, current as int)->0, table_len as nat),
                current + 1 <= j <= current + 1 + symbol_len <= n,
                forall|k: int| current + 1 <= k < j ==> #[trigger] data@[k] < table_len,
            decreases current + 1 + symbol_len - j,
        {
            if data[j] as usize >= table_len {
                proof {
                    let next = current + 1 + symbol_len;
                    if names_entries(data@, next as int) is Some {
                        let e = names_entries(data@, current as int)->0;
                        let r = names_entries(data@, next as int)->0;
                        assert(e =~= seq![tokens] + r);
                        assert(e[0] == tokens);
                        assert(tokens[j - current - 1] == data@[j as int]);
                        assert(!(e[0][j - current - 1] < table_len));
                    }
                }
                return false;
            }
            j = j + 1;
        }
        proof {
            let next = current + 1 + symbol_len;
            if names_entries(data@, next as int) is Some {
                let e = names_entries(data@, current as int)->0;
                let r = names_entries(data@, next as int)->0;
                assert(e =~= seq![tokens] + r);
                if tokens_in_table(r, table_len as nat) {
                    assert forall|a: int, b: int| 0 <= a < e.len() && 0 <= b < e[a].len() implies #[trigger] e[a][b] < table_len by {
                        if a == 0 {
                            assert(e[0][b] == data@[current + 1 + b]);
                        } else {
                            assert(e[a] == r[a - 1]);
                        }
                    }
                }
                if tokens_in_table(e, table_len as nat) {
                    assert forall|a: int, b: int| 0 <= a < r.len() && 0 <= b < r[a].len() implies #[trigger] r[a][b] < table_len by {
                        assert(e[a + 1] == r[a]);
                    }
                }
            }
        }
        current = current + symbol_len + 1;
    }
}

/// How far before kallsyms_names kallsyms_num_syms is looked for.
pub const MAX_ALIGNMENT: usize = 256;

/// Where `find_kallsyms_num_syms` finds kallsyms_num_syms: the last place in the
/// 256 bytes before kallsyms_names that holds `num_syms` as an entry of
/// `entry_size` bytes in byte order `endian`.
pub open spec fn num_syms_search(
    data: Seq<u8>,
    names: int,
    entry_size: int,
    endian: Endian,
    num_syms: nat,
) -> Result<int, ScanError> {
    if names < 256 || names >= data.len() {
        Err(ScanError::NamesOutOfData)
    } else if !supported_width(entry_size) {
        Err(ScanError::UnsupportedEntrySize)
    } else if num_syms >= radix_pow(entry_size as nat) {
        Err(ScanError::NumSymsTooLarge)
    } else {
        match last_occurrence(
            data.subrange(names - 256, names),
            encode_unsigned(num_syms, entry_size as nat, endian),
        ) {
            None => Err(ScanError::NumSymsNotFound),
            Some(p) => Ok(names - 256 + p),
        }
    }
}

/// Finds kallsyms_num_syms before the names table (see `num_syms_search`).
pub fn find_kallsyms_num_syms(
    data: &[u8],
    kallsyms_names: usize,
    kallsyms_marker_entry_size: usize,
    endian: Endian,
    num_syms: u64,
) -> (r: Result<usize, ScanError>)
    ensures
        match num_syms_search(
            data@,
            kallsyms_names as int,
            kallsyms_marker_entry_size as int,
            endian,
            num_syms as nat,
        ) {
            Ok(p) => r matches Ok(q) && q as int == p,
            Err(e) => r == Err::<usize, ScanError>(e),
        },
{
    if kallsyms_names < MAX_ALIGNMENT {
        return Err(ScanError::NamesOutOfData);
    }
    let start = kallsyms_names - MAX_ALIGNMENT;
    if kallsyms_names >= data.len() {
        return Err(ScanError::NamesOutOfData);
    }
    if kallsyms_marker_entry_size != 2 && kallsyms_marker_entry_size != 4
        && kallsyms_marker_entry_size != 8 {
        return Err(ScanError::UnsupportedEntrySize);
    }
    proof {
        crate::bytes::lemma_radix_pow_facts(kallsyms_marker_entry_size as nat);
    }
    if kallsyms_marker_entry_size == 4 && num_syms > 0xffff_ffff {
        return Err(ScanError::NumSymsTooLarge);
    }
    if kallsyms_marker_entry_size == 2 && num_syms > 0xffff {
        return Err(ScanError::NumSymsTooLarge);
    }
    let needle = encode_entry(num_syms, kallsyms_marker_entry_size, endian);
    let haystack = vstd::slice::slice_subrange(data, start, kallsyms_names);
    match rfind_occurrence(haystack, needle.as_slice()) {
        None => {
            proof {
                if last_occurrence(haystack@, needle@) is Some {
                    let c = choose|c: int| occurs_at(haystack@, needle@, c) && forall|q: int| #![trigger occurs_at(haystack@, needle@, q)] c < q ==> !occurs_at(haystack@, needle@, q);
                    assert(occurs_at(haystack@, needle@, c));
                }
            }
            Err(ScanError::NumSymsNotFound)
        },
        Some(position) => {
            proof {
                lemma_last_occurrence_is(haystack@, needle@, position as int);
            }
            Ok(kallsyms_names - MAX_ALIGNMENT + position)
        },
    }
}

/// The place `find_kallsyms_num_syms` finds lies in the 256 bytes before the
/// names table and holds `num_syms`, read as an entry of `entry_size` bytes in
/// byte order `endian`.
pub proof fn lemma_num_syms_read_back(
    data: Seq<u8>,
    names: int,
    entry_size: int,
    endian: Endian,
    num_syms: nat,
    p: int,
)
    requires
        num_syms_search(data, names, entry_size, endian, num_syms) == Ok::<int, ScanError>(p),
    ensures
        names - 256 <= p,
        p + entry_size <= names,
        unsigned_value(entry_bytes(data, p, entry_size), endian) == num_syms,
{
    let sub = data.subrange(names - 256, names);
    let enc = encode_unsigned(num_syms, entry_size as nat, endian);
    assert(256 <= names < data.len() && supported_width(entry_size) && num_syms < radix_pow(
        entry_size as nat,
    ) && last_occurrence(sub, enc) == Some(p - (names - 256)));
    lemma_found_entry_reads(data, names, entry_size, endian, num_syms, p - (names - 256));
}

proof fn lemma_found_entry_reads(
    data: Seq<u8>,
    names: int,
    entry_size: int,
    endian: Endian,
    num_syms: nat,
    q: int,
)
    requires
        256 <= names < data.len(),
        supported_width(entry_size),
        num_syms < radix_pow(entry_size as nat),
        last_occurrence(
            data.subrange(names - 256, names),
            encode_unsigned(num_syms, entry_size as nat, endian),
        ) == Some(q),
    ensures
        0 <= q,
        q + entry_size <= 256,
        unsigned_value(entry_bytes(data, names - 256 + q, entry_size), endian) == num_syms,
{
    let sub = data.subrange(names - 256, names);
    let enc = encode_unsigned(num_syms, entry_size as nat, endian);
    crate::bytes::lemma_encode_then_read(num_syms, entry_size as nat, endian);
    crate::search::lemma_last_occurrence_inside(sub, enc);
    lemma_occurrence_reads(data, names - 256, sub, enc, q, entry_size, endian, num_syms);
}

proof fn lemma_occurrence_reads(
    data: Seq<u8>,
    base: int,
    sub: Seq<u8>,
    enc: Seq<u8>,
    q: int,
    width: int,
    endian: Endian,
    v: nat,
)
    requires
        0 <= base,
        base + sub.len() <= data.len(),
        sub == data.subrange(base, base + sub.len()),
        occurs_at(sub, enc, q),
        enc.len() == width,
        unsigned_value(enc, endian) == v,
    ensures
        0 <= q,
        q + width <= sub.len(),
        unsigned_value(entry_bytes(data, base + q, width), endian) == v,
{
    assert(entry_bytes(data, base + q, width) =~= sub.subrange(q, q + width));
}

/// `width` zero bytes.
pub open spec fn zero_bytes(width: nat) -> Seq<u8> {
    Seq::new(width, |i: int| 0u8)
}

/// Entry `i` of the table of `width`-byte entries that starts at `base`.
pub open spec fn entry_at(data: Seq<u8>, base: int, width: int, endian: Endian, i: int) -> nat {
    unsigned_value(entry_bytes(data, base + i * width, width), endian)
}

/// Consecutive markers are more than 0x200 and at most 0x40000 apart.
pub open spec fn marker_spacing_ok(prev: nat, next: nat) -> bool {
    prev + 0x200 < next && next <= prev + 0x40000
}

/// The first four entries at `base` look like the start of a markers table:
/// zero, then increasing by plausible block sizes.
pub open spec fn spot_check(data: Seq<u8>, base: int, width: int, endian: Endian) -> bool {
    &&& entry_at(data, base, width, endian, 0) == 0
    &&& marker_spacing_ok(entry_at(data, base, width, endian, 0), entry_at(data, base, width, endian, 1))
    &&& marker_spacing_ok(entry_at(data, base, width, endian, 1), entry_at(data, base, width, endian, 2))
    &&& marker_spacing_ok(entry_at(data, base, width, endian, 2), entry_at(data, base, width, endian, 3))
}

/// Looks for a markers table of `width`-byte entries at the runs of `width`
/// zero bytes before `position`, from the nearest backwards, trying at most
/// `tries` of them: `None` when all tries fail the spot check, otherwise the
/// table start or the error that ended the search.
#[verifier::opaque]
pub open spec fn marker_probe(data: Seq<u8>, width: int, endian: Endian, position: int, tries: nat) -> Option<
    Result<int, ScanError>,
>
    decreases tries,
{
    if tries == 0 {
        None
    } else {
        match last_occurrence(data.take(position), zero_bytes(width as nat)) {
            None => Some(Err(ScanError::MarkersNotFound)),
            Some(p) => if p + 4 * width > data.len() {
                Some(Err(ScanError::InvalidBounds))
            } else if spot_check(data, p, width, endian) {
                Some(Ok(p))
            } else {
                marker_probe(data, width, endian, p, (tries - 1) as nat)
            },
        }
    }
}

/// Start and entry width of the markers table before the token table at
/// `token_table`: entry widths 8, 4 and 2 are tried in turn, each on up to 32
/// zero runs.
pub open spec fn marker_search(data: Seq<u8>, token_table: int, endian: Endian) -> Result<
    (int, int),
    ScanError,
> {
    match marker_probe(data, 8, endian, token_table, 32) {
        Some(Ok(p)) => Ok((p, 8)),
        Some(Err(e)) => Err(e),
        None => match marker_probe(data, 4, endian, token_table, 32) {
            Some(Ok(p)) => Ok((p, 4)),
            Some(Err(e)) => Err(e),
            None => match marker_probe(data, 2, endian, token_table, 32) {
                Some(Ok(p)) => Ok((p, 2)),
                Some(Err(e)) => Err(e),
                None => Err(ScanError::MarkersNotFound),
            },
        },
    }
}

/// The entries from index `i` (below `count`) of the markers table at `base`
/// that follow `last` with plausible spacing, stopping at the first that does
/// not.
pub open spec fn marker_tail(
    data: Seq<u8>,
    base: int,
    width: int,
    endian: Endian,
    i: int,
    count: int,
    last: nat,
) -> Result<Seq<u64>, ScanError>
    decreases count - i,
{
    if i >= count {
        Ok(Seq::empty())
    } else if base + (i + 1) * width > data.len() {
        Err(ScanError::InvalidBounds)
    } else {
        let e = entry_at(data, base, width, endian, i);
        if !marker_spacing_ok(last, e) {
            Ok(Seq::empty())
        } else {
            match marker_tail(data, base, width, endian, i + 1, count, e) {
                Ok(t) => Ok(seq![e as u64] + t),
                Err(x) => Err(x),
            }
        }
    }
}

/// `prefix` in front of the entries of `r`.
pub open spec fn prepend_entries(prefix: Seq<u64>, r: Result<Seq<u64>, ScanError>) -> Result<
    Seq<u64>,
    ScanError,
> {
    match r {
        Ok(t) => Ok(prefix + t),
        Err(e) => Err(e),
    }
}

/// The number of markers read at most: the entries that fit between the table
/// start and the token table, but no more than 3000.
pub open spec fn marker_count(token_table: int, base: int, width: int) -> int {
    let fit = (token_table - base) / width;
    if fit < 3000 {
        fit
    } else {
        3000
    }
}

/// The markers table before the token table at `token_table`: its start, its
/// entries (the first, then those that follow with plausible spacing), and
/// its entry width.
pub open spec fn marker_table(data: Seq<u8>, token_table: int, endian: Endian) -> Result<
    (int, Seq<u64>, int),
    ScanError,
> {
    match marker_search(data, token_table, endian) {
        Err(e) => Err(e),
        Ok((base, width)) => {
            let first = entry_at(data, base, width, endian, 0);
            match marker_tail(
                data,
                base,
                width,
                endian,
                1,
                marker_count(token_table, base, width),
                first,
            ) {
                Ok(t) => Ok((base, seq![first as u64] + t, width)),
                Err(e) => Err(e),
            }
        },
    }
}

/// Marker `j` and the one after it are plausibly spaced.
pub open spec fn marker_step_ok(markers: Seq<u64>, j: int) -> bool {
    marker_spacing_ok(markers[j] as nat, markers[j + 1] as nat)
}

proof fn lemma_probe_found(data: Seq<u8>, width: int, endian: Endian, position: int, tries: nat, p: int)
    requires
        marker_probe(data, width, endian, position, tries) == Some(Ok::<int, ScanError>(p)),
    ensures
        spot_check(data, p, width, endian),
    decreases tries,
{
    reveal(marker_probe);
    if tries > 0 {
        match last_occurrence(data.take(position), zero_bytes(width as nat)) {
            None => {},
            Some(q) => {
                if q + 4 * width <= data.len() && !spot_check(data, q, width, endian) {
                    lemma_probe_found(data, width, endian, q, (tries - 1) as nat, p);
                }
            },
        }
    }
}

proof fn lemma_tail_spaced(
    data: Seq<u8>,
    base: int,
    width: int,
    endian: Endian,
    i: int,
    count: int,
    last: nat,
    t: Seq<u64>,
)
    requires
        supported_width(width),
        0 <= base,
        0 <= i,
        marker_tail(data, base, width, endian, i, count, last) == Ok::<Seq<u64>, ScanError>(t),
    ensures
        t.len() > 0 ==> marker_spacing_ok(last, t[0] as nat),
        forall|j: int| 0 <= j < t.len() - 1 ==> #[trigger] marker_step_ok(t, j),
    decreases count - i,
{
    if i < count && base + (i + 1) * width <= data.len() {
        let e = entry_at(data, base, width, endian, i);
        if marker_spacing_ok(last, e) {
            assert(0 <= base + i * width) by (nonlinear_arith)
                requires
                    0 <= base,
                    0 <= i,
                    width >= 2,
            ;
            crate::bytes::lemma_unsigned_value_bound(entry_bytes(data, base + i * width, width), endian);
            lemma_radix_pow_facts(width as nat);
            assert(entry_bytes(data, base + i * width, width).len() == width);
            let rest = marker_tail(data, base, width, endian, i + 1, count, e)->Ok_0;
            lemma_tail_spaced(data, base, width, endian, i + 1, count, e, rest);
            assert(t == seq![e as u64] + rest);
            assert(e < 0x1_0000_0000_0000_0000);
            assert((e as u64) as nat == e);
            assert forall|j: int| 0 <= j < t.len() - 1 implies #[trigger] marker_step_ok(t, j) by {
                if j == 0 {
                    assert(t[0] as nat == e);
                    assert(t[1] == rest[0]);
                } else {
                    assert(marker_step_ok(rest, j - 1));
                    assert(t[j] == rest[j - 1]);
                    assert(t[j + 1] == rest[j]);
                }
            }
        }
    }
}

/// The markers table found starts at zero, and each marker lies more than
/// 0x200 and at most 0x40000 past the one before it.
pub proof fn lemma_markers_spaced(data: Seq<u8>, token_table: int, endian: Endian)
    requires
        0 <= token_table <= data.len(),
        marker_table(data, token_table, endian) is Ok,
    ensures
        ({
            let entries = marker_table(data, token_table, endian)->Ok_0.1;
            &&& entries.len() >= 1
            &&& entries[0] == 0
            &&& forall|j: int| 0 <= j < entries.len() - 1 ==> #[trigger] marker_step_ok(entries, j)
        }),
{
    let (base, width) = marker_search(data, token_table, endian)->Ok_0;
    if marker_probe(data, 8, endian, token_table, 32) is Some {
        lemma_probe_found(data, 8, endian, token_table, 32, base);
    } else if marker_probe(data, 4, endian, token_table, 32) is Some {
        lemma_probe_found(data, 4, endian, token_table, 32, base);
    } else {
        lemma_probe_found(data, 2, endian, token_table, 32, base);
    }
    lemma_marker_search_facts(data, token_table, endian);
    let first = entry_at(data, base, width, endian, 0);
    let t = marker_tail(data, base, width, endian, 1, marker_count(token_table, base, width), first)->Ok_0;
    lemma_tail_spaced(data, base, width, endian, 1, marker_count(token_table, base, width), first, t);
    let entries = seq![first as u64] + t;
    assert(entries == marker_table(data, token_table, endian)->Ok_0.1);
    assert(first == 0);
    assert forall|j: int| 0 <= j < entries.len() - 1 implies #[trigger] marker_step_ok(entries, j) by {
        if j == 0 {
            assert(entries[0] == 0);
            assert(entries[1] == t[0]);
        } else {
            assert(marker_step_ok(t, j - 1));
            assert(entries[j] == t[j - 1]);
            assert(entries[j + 1] == t[j]);
        }
    }
}

/// The markers found increase: each lies more than 0x200 and at most 0x40000
/// past the one before it.
pub proof fn lemma_markers_increase(data: Seq<u8>, token_table: int, endian: Endian, j: int)
    requires
        0 <= token_table <= data.len(),
        marker_table(data, token_table, endian) is Ok,
        0 <= j < marker_table(data, token_table, endian)->Ok_0.1.len() - 1,
    ensures
        marker_table(data, token_table, endian)->Ok_0.1[j] + 0x200 < marker_table(
            data,
            token_table,
            endian,
        )->Ok_0.1[j + 1],
        marker_table(data, token_table, endian)->Ok_0.1[j + 1] <= marker_table(
            data,
            token_table,
            endian,
        )->Ok_0.1[j] + 0x40000,
{
    lemma_markers_spaced(data, token_table, endian);
    assert(marker_step_ok(marker_table(data, token_table, endian)->Ok_0.1, j));
}

proof fn lemma_marker_search_facts(data: Seq<u8>, token_table: int, endian: Endian)
    requires
        0 <= token_table <= data.len(),
        marker_search(data, token_table, endian) is Ok,
    ensures
        ({
            let (base, width) = marker_search(data, token_table, endian)->Ok_0;
            &&& supported_width(width)
            &&& 0 <= base
            &&& base + width <= token_table
            &&& base + 4 * width <= data.len()
            &&& spot_check(data, base, width, endian)
        }),
{
    let (base, width) = marker_search(data, token_table, endian)->Ok_0;
    if marker_probe(data, 8, endian, token_table, 32) is Some {
        lemma_probe_found(data, 8, endian, token_table, 32, base);
        lemma_probe_base(data, 8, endian, token_table, 32, base);
    } else if marker_probe(data, 4, endian, token_table, 32) is Some {
        lemma_probe_found(data, 4, endian, token_table, 32, base);
        lemma_probe_base(data, 4, endian, token_table, 32, base);
    } else {
        lemma_probe_found(data, 2, endian, token_table, 32, base);
        lemma_probe_base(data, 2, endian, token_table, 32, base);
    }
}

proof fn lemma_tail_values(
    data: Seq<u8>,
    base: int,
    width: int,
    endian: Endian,
    i: int,
    count: int,
    last: nat,
    t: Seq<u64>,
)
    requires
        supported_width(width),
        0 <= base,
        0 <= i,
        last < 0x1_0000_0000_0000_0000,
        marker_tail(data, base, width, endian, i, count, last) == Ok::<Seq<u64>, ScanError>(t),
    ensures
        forall|j: int|
            0 <= j < t.len() ==> (#[trigger] t[j]) as nat == entry_at(data, base, width, endian, i + j),
        t.len() > 0 ==> base + (i + t.len()) * width <= data.len(),
        i + t.len() <= if count > i {
            count
        } else {
            i
        },
        ({
            let prev: nat = if t.len() == 0 {
                last
            } else {
                t.last() as nat
            };
            ||| i + t.len() >= count
            ||| base + (i + t.len() + 1) * width <= data.len() && !marker_spacing_ok(
                prev,
                entry_at(data, base, width, endian, i + t.len()),
            )
        }),
    decreases count - i,
{
    if i < count && base + (i + 1) * width <= data.len() {
        let e = entry_at(data, base, width, endian, i);
        if marker_spacing_ok(last, e) {
            assert(0 <= base + i * width) by (nonlinear_arith)
                requires
                    0 <= base,
                    0 <= i,
                    width >= 2,
            ;
            crate::bytes::lemma_unsigned_value_bound(entry_bytes(data, base + i * width, width), endian);
            lemma_radix_pow_facts(width as nat);
            assert(entry_bytes(data, base + i * width, width).len() == width);
            let rest = marker_tail(data, base, width, endian, i + 1, count, e)->Ok_0;
            lemma_tail_values(data, base, width, endian, i + 1, count, e, rest);
            assert(t == seq![e as u64] + rest);
            assert(e < 0x1_0000_0000_0000_0000);
            assert((e as u64) as nat == e);
            assert forall|j: int| 0 <= j < t.len() implies (#[trigger] t[j]) as nat == entry_at(
                data,
                base,
                width,
                endian,
                i + j,
            ) by {
                if j == 0 {
                    assert(t[0] == e as u64);
                } else {
                    assert(t[j] == rest[j - 1]);
                    assert(i + j == (i + 1) + (j - 1));
                }
            }
            assert(i + t.len() == (i + 1) + rest.len());
            if rest.len() > 0 {
                assert(t.last() == rest.last());
            }
        } else {
            assert(t =~= Seq::<u64>::empty());
        }
    } else {
        assert(t =~= Seq::<u64>::empty());
    }
}

/// The markers table found holds, in order, the entries read at its slots:
/// the start of the table lies before the token table and passes the spot
/// check of its first four entries (zero, then plausibly spaced); each entry
/// is the value read at its slot; and the table is the longest well-spaced
/// run, stopping only at `marker_count` entries (at least one) or at the first
/// entry that is not plausibly spaced from the one before.
pub proof fn lemma_markers_read(data: Seq<u8>, token_table: int, endian: Endian)
    requires
        0 <= token_table <= data.len(),
        marker_table(data, token_table, endian) is Ok,
    ensures
        ({
            let (base, entries, width) = marker_table(data, token_table, endian)->Ok_0;
            let n = marker_count(token_table, base, width);
            &&& supported_width(width)
            &&& 0 <= base
            &&& base + width <= token_table
            &&& base + 4 * width <= data.len()
            &&& spot_check(data, base, width, endian)
            &&& forall|i: int|
                0 <= i < entries.len() ==> (#[trigger] entries[i]) as nat == entry_at(
                    data,
                    base,
                    width,
                    endian,
                    i,
                ) && base + (i + 1) * width <= data.len()
            &&& {
                ||| entries.len() == (if n < 1 {
                    1
                } else {
                    n
                })
                ||| entries.len() < n && base + (entries.len() + 1) * width <= data.len()
                    && !marker_spacing_ok(
                    entries.last() as nat,
                    entry_at(data, base, width, endian, entries.len() as int),
                )
            }
        }),
{
    lemma_marker_search_facts(data, token_table, endian);
    let (base, width) = marker_search(data, token_table, endian)->Ok_0;
    let n = marker_count(token_table, base, width);
    let first = entry_at(data, base, width, endian, 0);
    assert(first == 0);
    let t = marker_tail(data, base, width, endian, 1, n, first)->Ok_0;
    lemma_tail_values(data, base, width, endian, 1, n, first, t);
    let entries = seq![first as u64] + t;
    assert(entries == marker_table(data, token_table, endian)->Ok_0.1);
    assert(base + width <= data.len());
    assert forall|i: int| 0 <= i < entries.len() implies (#[trigger] entries[i]) as nat == entry_at(
        data,
        base,
        width,
        endian,
        i,
    ) && base + (i + 1) * width <= data.len() by {
        if i > 0 {
            assert(entries[i] == t[i - 1]);
            assert(1 + (i - 1) == i);
            assert(base + (i + 1) * width <= data.len()) by (nonlinear_arith)
                requires
                    base + (1 + t.len()) * width <= data.len(),
                    i + 1 <= 1 + t.len(),
                    width >= 0,
            ;
        }
    }
    if t.len() > 0 {
        assert(entries.last() == t.last());
    }
}

/// A markers table of `n` entries (at most 3000) that ends exactly at the
/// token table, whose entries are each more than 0x200 and at most 0x40000
/// past the one before, is read whole once its start is found.
pub proof fn lemma_markers_whole_table(data: Seq<u8>, token_table: int, endian: Endian, n: int)
    requires
        0 <= token_table <= data.len(),
        marker_table(data, token_table, endian) is Ok,
        1 <= n <= 3000,
        ({
            let (base, entries, width) = marker_table(data, token_table, endian)->Ok_0;
            &&& token_table - base == n * width
            &&& forall|i: int|
                1 <= i < n ==> entry_at(data, base, width, endian, i - 1) + 0x200 < #[trigger] entry_at(
                    data,
                    base,
                    width,
                    endian,
                    i,
                ) <= entry_at(data, base, width, endian, i - 1) + 0x40000
        }),
    ensures
        marker_table(data, token_table, endian)->Ok_0.1.len() == n,
{
    lemma_markers_read(data, token_table, endian);
    let (base, entries, width) = marker_table(data, token_table, endian)->Ok_0;
    assert((token_table - base) / width == n) by (nonlinear_arith)
        requires
            token_table - base == n * width,
            width >= 2,
    ;
    assert(marker_count(token_table, base, width) == n);
    if entries.len() < n {
        let l = entries.len() as int;
        assert(entries[l - 1] as nat == entry_at(data, base, width, endian, l - 1));
        assert(entries.last() == entries[l - 1]);
        assert(entry_at(data, base, width, endian, l - 1) + 0x200 < entry_at(data, base, width, endian, l));
    }
}

proof fn lemma_zero_run_before(data: Seq<u8>, width: int, position: int, q: int)
    requires
        0 <= position <= data.len(),
        width >= 1,
        last_occurrence(data.take(position), zero_bytes(width as nat)) == Some(q),
    ensures
        0 <= q,
        q + width <= position,
{
    crate::search::lemma_last_occurrence_inside(data.take(position), zero_bytes(width as nat));
}

proof fn lemma_probe_base(data: Seq<u8>, width: int, endian: Endian, position: int, tries: nat, p: int)
    requires
        marker_probe(data, width, endian, position, tries) == Some(Ok::<int, ScanError>(p)),
        0 <= position <= data.len(),
        width >= 1,
    ensures
        0 <= p,
        p + width <= position,
        p + 4 * width <= data.len(),
    decreases tries,
{
    reveal(marker_probe);
    if tries > 0 {
        match last_occurrence(data.take(position), zero_bytes(width as nat)) {
            None => {},
            Some(q) => {
                lemma_zero_run_before(data, width, position, q);
                if q + 4 * width <= data.len() && !spot_check(data, q, width, endian) {
                    lemma_probe_base(data, width, endian, q, (tries - 1) as nat, p);
                }
            },
        }
    }
}

/// The spot check at `base`, or the error met reading its four entries.
fn spot_check_at(data: &[u8], base: usize, width: usize, endian: Endian) -> (r: Result<bool, ScanError>)
    requires
        base + width <= data@.len(),
        width == 2 || width == 4 || width == 8,
    ensures
        base + 4 * width > data@.len() ==> r == Err::<bool, ScanError>(ScanError::InvalidBounds),
        base + 4 * width <= data@.len() ==> r == Ok::<bool, ScanError>(
            spot_check(data@, base as int, width as int, endian),
        ),
{
    let n = data.len();
    if width * 4 > n - base {
        return Err(ScanError::InvalidBounds);
    }
    let v0 = match read_entry_unsigned(data, base, endian, width) {
        Ok(v) => v,
        Err(e) => return Err(e),
    };
    let v1 = match read_entry_unsigned(data, base + width, endian, width) {
        Ok(v) => v,
        Err(e) => return Err(e),
    };
    let v2 = match read_entry_unsigned(data, base + 2 * width, endian, width) {
        Ok(v) => v,
        Err(e) => return Err(e),
    };
    let v3 = match read_entry_unsigned(data, base + 3 * width, endian, width) {
        Ok(v) => v,
        Err(e) => return Err(e),
    };
    assert(v0 == entry_at(data@, base as int, width as int, endian, 0));
    assert(v1 == entry_at(data@, base as int, width as int, endian, 1));
    assert(v2 == entry_at(data@, base as int, width as int, endian, 2));
    assert(v3 == entry_at(data@, base as int, width as int, endian, 3));
    Ok(v0 == 0 && v1 > v0 && v1 - v0 > 0x200 && v1 - v0 <= 0x40000 && v2 > v1 && v2 - v1 > 0x200
        && v2 - v1 <= 0x40000 && v3 > v2 && v3 - v2 > 0x200 && v3 - v2 <= 0x40000)
}

proof fn lemma_probe_step(
    data: Seq<u8>,
    width: int,
    endian: Endian,
    position: int,
    tries: nat,
    p: int,
)
    requires
        tries > 0,
        last_occurrence(data.take(position), zero_bytes(width as nat)) == Some(p),
    ensures
        marker_probe(data, width, endian, position, tries) == if p + 4 * width > data.len() {
            Some(Err::<int, ScanError>(ScanError::InvalidBounds))
        } else if spot_check(data, p, width, endian) {
            Some(Ok::<int, ScanError>(p))
        } else {
            marker_probe(data, width, endian, p, (tries - 1) as nat)
        },
{
    reveal(marker_probe);
}

fn probe_markers(data: &[u8], token_table_offset: usize, width: usize, endian: Endian) -> (r: Option<
    Result<usize, ScanError>,
>)
    requires
        token_table_offset <= data@.len(),
        width == 2 || width == 4 || width == 8,
    ensures
        match marker_probe(data@, width as int, endian, token_table_offset as int, 32) {
            None => r is None,
            Some(Ok(p)) => r == Some(Ok::<usize, ScanError>(p as usize)),
            Some(Err(e)) => r == Some(Err::<usize, ScanError>(e)),
        },
        r matches Some(Ok(p)) ==> p + 4 * width <= data@.len() && p + width <= token_table_offset,
        r matches Some(Ok(p)) ==> marker_probe(data@, width as int, endian, token_table_offset as int, 32)
            == Some(Ok::<int, ScanError>(p as int)),
{
    let n = data.len();
    let mut zeros: Vec<u8> = Vec::new();
    let mut z: usize = 0;
    while z < width
        invariant
            z <= width,
            zeros@ =~= zero_bytes(z as nat),
        decreases width - z,
    {
        zeros.push(0);
        z = z + 1;
    }
    let mut position = token_table_offset;
    let mut t: usize = 0;
    while t < 32
        invariant
            n == data@.len(),
            t <= 32,
            position <= token_table_offset <= n,
            width == 2 || width == 4 || width == 8,
            zeros@ == zero_bytes(width as nat),
            marker_probe(data@, width as int, endian, token_table_offset as int, 32) == marker_probe(
                data@,
                width as int,
                endian,
                position as int,
                (32 - t) as nat,
            ),
        decreases 32 - t,
    {
        let prefix = vstd::slice::slice_subrange(data, 0, position);
        assert(prefix@ =~= data@.take(position as int));
        let p = match rfind_occurrence(prefix, zeros.as_slice()) {
            None => {
                proof {
                    if last_occurrence(prefix@, zeros@) is Some {
                        let c = choose|c: int| occurs_at(prefix@, zeros@, c) && forall|q: int| #![trigger occurs_at(prefix@, zeros@, q)] c < q ==> !occurs_at(prefix@, zeros@, q);
                        assert(occurs_at(prefix@, zeros@, c));
                    }
                }
                reveal(marker_probe);
                return Some(Err(ScanError::MarkersNotFound));
            },
            Some(p) => p,
        };
        proof {
            lemma_last_occurrence_is(prefix@, zeros@, p as int);
            lemma_probe_step(data@, width as int, endian, position as int, (32 - t) as nat, p as int);
        }
        match spot_check_at(data, p, width, endian) {
            Err(e) => {
                return Some(Err(e));
            },
            Ok(true) => {
                return Some(Ok(p));
            },
            Ok(false) => {},
        }
        position = p;
        t = t + 1;
    }
    reveal(marker_probe);
    None
}

proof fn lemma_tail_step(
    data: Seq<u8>,
    base: int,
    width: int,
    endian: Endian,
    i: int,
    count: int,
    last: nat,
)
    requires
        i < count,
        base + (i + 1) * width <= data.len(),
    ensures
        marker_tail(data, base, width, endian, i, count, last) == if !marker_spacing_ok(
            last,
            entry_at(data, base, width, endian, i),
        ) {
            Ok::<Seq<u64>, ScanError>(Seq::empty())
        } else {
            prepend_entries(
                seq![entry_at(data, base, width, endian, i) as u64],
                marker_tail(data, base, width, endian, i + 1, count, entry_at(data, base, width, endian, i)),
            )
        },
{
}

/// Reads the markers after the first (see `marker_tail`); every entry read
/// lies inside `data`.
fn read_marker_tail(
    data: &[u8],
    base: usize,
    width: usize,
    endian: Endian,
    count: usize,
    first: u64,
) -> (r: Vec<u64>)
    requires
        width == 2 || width == 4 || width == 8,
        count <= 3000,
        base + count * width <= data@.len(),
    ensures
        marker_tail(data@, base as int, width as int, endian, 1, count as int, first as nat)
            == Ok::<Seq<u64>, ScanError>(r@),
        r@.len() + 1 <= count || r@.len() == 0,
{
    let n = data.len();
    let mut out: Vec<u64> = Vec::new();
    let mut last = first;
    let mut i: usize = 1;
    let mut stopped = false;
    assert(prepend_entries(Seq::<u64>::empty(), marker_tail(data@, base as int, width as int, endian, 1, count as int, first as nat)) =~= marker_tail(data@, base as int, width as int, endian, 1, count as int, first as nat));
    while i < count && !stopped
        invariant
            1 <= i,
            n == data@.len(),
            count <= 3000,
            width == 2 || width == 4 || width == 8,
            base + count * width <= data@.len(),
            stopped ==> marker_tail(data@, base as int, width as int, endian, i as int, count as int, last as nat)
                == Ok::<Seq<u64>, ScanError>(Seq::empty()),
            marker_tail(data@, base as int, width as int, endian, 1, count as int, first as nat)
                == prepend_entries(out@, marker_tail(data@, base as int, width as int, endian, i as int, count as int, last as nat)),
            out@.len() == i - 1,
            i <= count || out@.len() == 0,
        decreases count - i + if stopped { 0int } else { 1int },
    {
        assert(i * width + width <= count * width && base + (i + 1) * width == base + i * width + width) by (nonlinear_arith)
            requires
                i < count,
                width >= 0,
        ;
        proof {
            lemma_tail_step(data@, base as int, width as int, endian, i as int, count as int, last as nat);
        }
        let new_entry = match read_entry_unsigned(data, base + i * width, endian, width) {
            Ok(v) => v,
            Err(e) => {
                assert(false);
                0
            },
        };
        assert(new_entry == entry_at(data@, base as int, width as int, endian, i as int));
        if new_entry <= last || new_entry - last <= 0x200 || new_entry - last > 0x40000 {
            stopped = true;
        } else {
            let ghost old_out = out@;
            let ghost nxt = marker_tail(data@, base as int, width as int, endian, i + 1, count as int, new_entry as nat);
            out.push(new_entry);
            last = new_entry;
            i = i + 1;
            proof {
                if nxt is Ok {
                    assert(old_out + (seq![new_entry] + nxt->Ok_0) =~= out@ + nxt->Ok_0);
                }
            }
        }
    }
    if !stopped {
        assert(marker_tail(data@, base as int, width as int, endian, i as int, count as int, last as nat)
            == Ok::<Seq<u64>, ScanError>(Seq::empty()));
    }
    assert(out@ + Seq::<u64>::empty() =~= out@);
    out
}

/// Start and entry width of the markers table (see `marker_search`).
fn search_markers(data: &[u8], token_table_offset: usize, endian: Endian) -> (r: Result<
    (usize, usize),
    ScanError,
>)
    requires
        token_table_offset <= data@.len(),
    ensures
        match marker_search(data@, token_table_offset as int, endian) {
            Ok((p, w)) => r == Ok::<(usize, usize), ScanError>((p as usize, w as usize)),
            Err(e) => r == Err::<(usize, usize), ScanError>(e),
        },
        r matches Ok((p, w)) ==> (w == 2 || w == 4 || w == 8) && p + 4 * w <= data@.len() && p + w
            <= token_table_offset,
        r matches Ok((p, w)) ==> marker_search(data@, token_table_offset as int, endian) == Ok::<
            (int, int),
            ScanError,
        >((p as int, w as int)),
{
    match probe_markers(data, token_table_offset, 8, endian) {
        Some(Ok(p)) => return Ok((p, 8)),
        Some(Err(e)) => return Err(e),
        None => {},
    }
    match probe_markers(data, token_table_offset, 4, endian) {
        Some(Ok(p)) => return Ok((p, 4)),
        Some(Err(e)) => return Err(e),
        None => {},
    }
    match probe_markers(data, token_table_offset, 2, endian) {
        Some(Ok(p)) => Ok((p, 2)),
        Some(Err(e)) => Err(e),
        None => Err(ScanError::MarkersNotFound),
    }
}

/// Finds the markers table before the token table at `token_table_offset`
/// (see `marker_table`): its start, its entries and its entry width.
pub fn find_kallsyms_markers(data: &[u8], token_table_offset: usize, endian: Endian) -> (r: Result<
    (usize, Vec<u64>, usize),
    ScanError,
>)
    requires
        token_table_offset <= data@.len(),
    ensures
        match marker_table(data@, token_table_offset as int, endian) {
            Ok((base, entries, width)) => r matches Ok((b, v, w)) && b == base && v@ == entries && w
                == width,
            Err(e) => r == Err::<(usize, Vec<u64>, usize), ScanError>(e),
        },
        r matches Ok((b, v, w)) ==> (w == 2 || w == 4 || w == 8) && 1 <= v@.len() <= 3000 && b + w
            <= token_table_offset,
{
    let (marker_offset, width) = match search_markers(data, token_table_offset, endian) {
        Ok(f) => f,
        Err(e) => return Err(e),
    };
    let fit = (token_table_offset - marker_offset) / width;
    let count = if fit < 3000 {
        fit
    } else {
        3000
    };
    let ghost span: int = token_table_offset - marker_offset;
    assert(count * width <= span) by (nonlinear_arith)
        requires
            count <= fit,
            fit == span / (width as int),
            width > 0,
            span >= 0,
    ;
    let first = match read_entry_unsigned(data, marker_offset, endian, width) {
        Ok(v) => v,
        Err(e) => {
            assert(false);
            return Err(e);
        },
    };
    assert(first == entry_at(data@, marker_offset as int, width as int, endian, 0));
    let tail = read_marker_tail(data, marker_offset, width, endian, count, first);
    let mut entries: Vec<u64> = Vec::new();
    entries.push(first);
    let mut k: usize = 0;
    while k < tail.len()
        invariant
            k <= tail@.len(),
            entries@ == seq![first] + tail@.take(k as int),
        decreases tail@.len() - k,
    {
        entries.push(tail[k]);
        k = k + 1;
        assert(entries@ =~= seq![first] + tail@.take(k as int));
    }
    assert(tail@.take(tail@.len() as int) =~= tail@);
    assert(count == marker_count(token_table_offset as int, marker_offset as int, width as int));
    assert(marker_table(data@, token_table_offset as int, endian) == Ok::<(int, Seq<u64>, int), ScanError>((marker_offset as int, seq![first] + tail@, width as int)));
    Ok((marker_offset, entries, width))
}

/// The start of the kallsyms token table: the tokens for the digits, seven
/// more tokens, the upper-case letters, six more tokens, and the lower-case
/// letters, each NUL-terminated.
pub const KALLSYMS_TOKEN_TABLE_REGEX: &'static str = r"0\x001\x002\x003\x004\x005\x006\x007\x008\x009\x00(?:[0-9A-Za-z_.]{1,16}\x00){7}A\x00B\x00C\x00D\x00E\x00F\x00G\x00H\x00I\x00J\x00K\x00L\x00M\x00N\x00O\x00P\x00Q\x00R\x00S\x00T\x00U\x00V\x00W\x00X\x00Y\x00Z\x00(?:[0-9A-Za-z_.]{1,16}\x00){6}a\x00b\x00c\x00d\x00e\x00f\x00g\x00h\x00i\x00j\x00k\x00l\x00m\x00n\x00o\x00p\x00q\x00r\x00s\x00t\x00u\x00v\x00w\x00x\x00y\x00z\x00";

/// Walks back from `pos` one byte at a time, at most `steps` bytes, until a
/// NUL or a byte above `z`; `None` when the start of the data comes first.
pub open spec fn step_back(data: Seq<u8>, pos: int, steps: nat) -> Option<int>
    decreases steps,
{
    if steps == 0 {
        Some(pos)
    } else if pos <= 0 {
        None
    } else if data[pos - 1] == 0 || data[pos - 1] > 0x7a {
        Some(pos - 1)
    } else {
        step_back(data, pos - 1, (steps - 1) as nat)
    }
}

/// Walks back over `tokens` tokens from the NUL at `pos`: each must end at a
/// NUL within 50 bytes; `None` when one does not.
pub open spec fn walk_tokens(data: Seq<u8>, pos: int, tokens: nat) -> Option<int>
    decreases tokens,
{
    if tokens == 0 {
        Some(pos)
    } else {
        match step_back(data, pos, 50) {
            Some(p) => if data[p] == 0 {
                walk_tokens(data, p, (tokens - 1) as nat)
            } else {
                None
            },
            None => None,
        }
    }
}

/// The token table a match of `KALLSYMS_TOKEN_TABLE_REGEX` at `span` belongs
/// to: the 48 tokens before the match are walked back over, and the start is
/// rounded down to a multiple of 4. Its start and size, or `None`.
pub open spec fn token_table_at(data: Seq<u8>, span: (usize, usize)) -> Option<(int, int)> {
    let start = span.0 as int;
    if start == 0 || data[start - 1] != 0 {
        None
    } else {
        match walk_tokens(data, start - 1, 48) {
            None => None,
            Some(p) => {
                let q = p + 1;
                let aligned = q - q % 4;
                Some((aligned, span.1 - aligned))
            },
        }
    }
}

/// The token tables of all spans, in order.
pub open spec fn token_tables_of(data: Seq<u8>, spans: Seq<(usize, usize)>) -> Seq<(int, int)>
    decreases spans.len(),
{
    if spans.len() == 0 {
        Seq::empty()
    } else {
        let pre = token_tables_of(data, spans.drop_last());
        match token_table_at(data, spans.last()) {
            Some(t) => pre.push(t),
            None => pre,
        }
    }
}

fn step_back_exec(data: &[u8], pos: usize, steps: usize) -> (r: Option<usize>)
    requires
        pos <= data@.len(),
    ensures
        match step_back(data@, pos as int, steps as nat) {
            Some(p) => r == Some(p as usize) && 0 <= p <= pos,
            None => r is None,
        },
{
    let mut position = pos;
    let mut k: usize = 0;
    while k < steps
        invariant
            position <= pos <= data@.len(),
            k <= steps,
            step_back(data@, pos as int, steps as nat) == step_back(data@, position as int, (steps - k) as nat),
        decreases steps - k,
    {
        if position == 0 {
            return None;
        }
        position = position - 1;
        if data[position] == 0 || data[position] > 0x7a {
            return Some(position);
        }
        k = k + 1;
    }
    Some(position)
}

fn token_table_at_exec(data: &[u8], start: usize, end: usize) -> (r: Option<(usize, usize)>)
    requires
        start <= end <= data@.len(),
    ensures
        match token_table_at(data@, (start, end)) {
            Some((a, size)) => r == Some((a as usize, size as usize)) && 0 <= a <= start && size
                == end - a,
            None => r is None,
        },
{
    if start == 0 {
        return None;
    }
    let mut position = start - 1;
    if data[position] != 0 {
        return None;
    }
    let mut t: usize = 0;
    while t < 48
        invariant
            position < start <= end <= data@.len(),
            t <= 48,
            data@[position as int] == 0,
            walk_tokens(data@, start - 1, 48) == walk_tokens(data@, position as int, (48 - t) as nat),
        decreases 48 - t,
    {
        match step_back_exec(data, position, 50) {
            Some(p) => {
                if data[p] != 0 {
                    return None;
                }
                position = p;
            },
            None => {
                return None;
            },
        }
        t = t + 1;
    }
    let q = position + 1;
    let aligned = q - q % 4;
    Some((aligned, end - aligned))
}

/// The token tables of all spans (see `token_table_at`), in order.
pub fn token_tables_at(data: &[u8], spans: &Vec<(usize, usize)>) -> (r: Vec<(usize, usize)>)
    requires
        spans_well_formed(spans@, data@.len()),
    ensures
        r@.len() == token_tables_of(data@, spans@).len(),
        forall|i: int|
            0 <= i < r@.len() ==> (#[trigger] r@[i]).0 as int == token_tables_of(data@, spans@)[i].0
                && r@[i].1 as int == token_tables_of(data@, spans@)[i].1,
{
    let mut out: Vec<(usize, usize)> = Vec::new();
    let mut i: usize = 0;
    assert(spans@.take(0) =~= Seq::<(usize, usize)>::empty());
    while i < spans.len()
        invariant
            i <= spans@.len(),
            spans_well_formed(spans@, data@.len()),
            out@.len() == token_tables_of(data@, spans@.take(i as int)).len(),
            forall|j: int|
                0 <= j < out@.len() ==> (#[trigger] out@[j]).0 as int == token_tables_of(data@, spans@.take(i as int))[j].0
                    && out@[j].1 as int == token_tables_of(data@, spans@.take(i as int))[j].1,
        decreases spans@.len() - i,
    {
        let (start, end) = spans[i];
        assert(spans@.take(i + 1).drop_last() =~= spans@.take(i as int));
        assert(spans@[i as int].0 <= spans@[i as int].1 <= data@.len());
        match token_table_at_exec(data, start, end) {
            Some(t) => {
                out.push(t);
            },
            None => {},
        }
        i = i + 1;
    }
    assert(spans@.take(spans@.len() as int) =~= spans@);
    out
}

/// The start and size of every token table candidate in `image`: for each
/// match of `KALLSYMS_TOKEN_TABLE_REGEX`, the table it belongs to (see
/// `token_table_at`).
pub fn find_kallsyms_token_table<I: MemoryImage>(image: &I) -> (r: Result<
    Vec<(usize, usize)>,
    ScanError,
>)
    ensures
        !byte_regex_compiles(KALLSYMS_TOKEN_TABLE_REGEX@) ==> r == Err::<Vec<(usize, usize)>, ScanError>(
            ScanError::PatternRejected,
        ),
        byte_regex_compiles(KALLSYMS_TOKEN_TABLE_REGEX@) ==> {
            let tables = token_tables_of(
                image.image_bytes(),
                byte_regex_spans(KALLSYMS_TOKEN_TABLE_REGEX@, image.image_bytes()),
            );
            &&& tables.len() == 0 ==> r == Err::<Vec<(usize, usize)>, ScanError>(
                ScanError::TokenTableNotFound,
            )
            &&& tables.len() > 0 ==> (r matches Ok(v) && v@.len() == tables.len() && forall|i: int|
                0 <= i < v@.len() ==> (#[trigger] v@[i]).0 as int == tables[i].0 && v@[i].1 as int
                    == tables[i].1)
        },
{
    let data = image.as_bytes();
    let spans = match image.scan_regex(KALLSYMS_TOKEN_TABLE_REGEX) {
        Some(v) => v,
        None => return Err(ScanError::PatternRejected),
    };
    let tables = token_tables_at(data, &spans);
    if tables.len() == 0 {
        return Err(ScanError::TokenTableNotFound);
    }
    Ok(tables)
}

/// The smallest multiple of `a` that is at least `x` (as `next_multiple_of`).
pub open spec fn round_up(x: int, a: int) -> int {
    if x % a == 0 {
        x
    } else {
        x + (a - x % a)
    }
}

/// `s` holds a nonzero byte.
pub open spec fn has_nonzero(s: Seq<u8>) -> bool {
    exists|i: int| 0 <= i < s.len() && s[i] != 0
}

/// Steps back from `q` in steps of `w` bytes while the `w` bytes before `q`
/// are all zero; `None` when fewer than `w` bytes are left.
pub open spec fn back_to_nonzero(data: Seq<u8>, q: int, w: int) -> Option<int>
    decreases q,
{
    if w <= 0 || q < w {
        None
    } else if has_nonzero(data.subrange(q - w, q)) {
        Some(q)
    } else {
        back_to_nonzero(data, q - w, w)
    }
}

/// The kernel is an Itanium one, judged by its banner.
pub open spec fn is_itanium(banner: Seq<char>) -> bool {
    ||| contains_text(unicode_lowercase(banner), "itanium"@)
    ||| contains_text(unicode_lowercase(banner), "ia64"@)
}

/// The kernel is a 64-bit one: its markers are 8 bytes wide, or its banner
/// names a 64-bit architecture.
pub open spec fn is_64_bit_kernel(entry_size: int, banner: Seq<char>) -> bool {
    entry_size >= 8 || text_regex_matches(BITNESS_REGEX@, banner)
}

/// Width of kallsyms_relative_base.
pub open spec fn address_size(is_64_bit: bool, entry_size: int) -> int {
    if is_64_bit {
        8
    } else {
        entry_size
    }
}

/// Width of the entries of kallsyms_offsets.
pub open spec fn offset_size(entry_size: int) -> int {
    if entry_size < 4 {
        entry_size
    } else {
        4
    }
}

/// Where the search for kallsyms_relative_base starts: since 6.4 the tables
/// follow the token index (offsets, then the relative base, each aligned);
/// before, it is kallsyms_num_syms.
pub open spec fn offsets_search_start(
    num_syms: int,
    is_64_bit: bool,
    entry_size: int,
    major: u8,
    minor: u8,
    token_index_end: int,
    num_syms_offset: int,
) -> int {
    if major > 6 || (major == 6 && minor >= 4) {
        let align: int = if is_64_bit {
            8
        } else {
            4
        };
        round_up(
            round_up(token_index_end, align) + num_syms * offset_size(entry_size),
            align,
        ) + address_size(is_64_bit, entry_size)
    } else {
        num_syms_offset
    }
}

/// The offset `v` relocated against the relative base `base`: when most
/// offsets are negative (absolute per-CPU symbols), negative offsets count
/// down from `base - 1` and others are absolute; otherwise every offset is
/// added to `base`. Arithmetic wraps at 64 bits.
pub open spec fn relocate_offset(v: int, base: nat, absolute_percpu: bool) -> nat {
    if absolute_percpu {
        if v < 0 {
            ((base - 1 - v) % 0x1_0000_0000_0000_0000) as nat
        } else {
            v as nat
        }
    } else {
        ((v + base) % 0x1_0000_0000_0000_0000) as nat
    }
}

/// How many of `values` are negative.
pub open spec fn negative_count(values: Seq<i64>) -> nat
    decreases values.len(),
{
    if values.len() == 0 {
        0
    } else {
        negative_count(values.drop_last()) + if values.last() < 0 {
            1nat
        } else {
            0nat
        }
    }
}

/// At least half of `values` (and at least one) are negative.
pub open spec fn mostly_negative(values: Seq<i64>) -> bool {
    values.len() > 0 && 2 * negative_count(values) >= values.len()
}

proof fn lemma_negative_count_bounds(values: Seq<i64>)
    ensures
        (forall|i: int| 0 <= i < values.len() ==> #[trigger] values[i] >= 0) ==> negative_count(values) == 0,
        (forall|i: int| 0 <= i < values.len() ==> #[trigger] values[i] < 0) ==> negative_count(values)
            == values.len(),
    decreases values.len(),
{
    if values.len() > 0 {
        let pre = values.drop_last();
        lemma_negative_count_bounds(pre);
        if forall|i: int| 0 <= i < values.len() ==> #[trigger] values[i] >= 0 {
            assert forall|i: int| 0 <= i < pre.len() implies #[trigger] pre[i] >= 0 by {
                assert(pre[i] == values[i]);
            }
            assert(values.last() == values[values.len() - 1]);
        }
        if forall|i: int| 0 <= i < values.len() ==> #[trigger] values[i] < 0 {
            assert forall|i: int| 0 <= i < pre.len() implies #[trigger] pre[i] < 0 by {
                assert(pre[i] == values[i]);
            }
            assert(values.last() == values[values.len() - 1]);
        }
    }
}

/// How offsets become addresses: when no offset is negative, each address is
/// the relative base plus the offset; when every offset is negative (absolute
/// per-CPU symbols), each address counts down from the relative base minus
/// one; both modulo `2^64`.
pub proof fn lemma_relocation(values: Seq<i64>, base: nat)
    ensures
        relocated(values, base).len() == values.len(),
        (forall|i: int| 0 <= i < values.len() ==> #[trigger] values[i] >= 0) ==> forall|i: int|
            0 <= i < values.len() ==> #[trigger] relocated(values, base)[i] as int == (values[i] + base)
                % 0x1_0000_0000_0000_0000,
        (forall|i: int| 0 <= i < values.len() ==> #[trigger] values[i] < 0) ==> forall|i: int|
            0 <= i < values.len() ==> #[trigger] relocated(values, base)[i] as int == (base - 1 - values[i])
                % 0x1_0000_0000_0000_0000,
{
    lemma_negative_count_bounds(values);
}

/// The `count` signed entries of `width` bytes from `start`.
pub open spec fn signed_entries(data: Seq<u8>, start: int, width: int, endian: Endian, count: nat) -> Seq<
    i64,
> {
    Seq::new(
        count,
        |i: int| sign_extend(entry_at(data, start, width, endian, i), width as nat) as i64,
    )
}

/// The offsets relocated against `base` (see `relocate_offset`).
pub open spec fn relocated(values: Seq<i64>, base: nat) -> Seq<u64> {
    Seq::new(
        values.len(),
        |i: int| relocate_offset(values[i] as int, base, mostly_negative(values)) as u64,
    )
}

/// Where kallsyms_relative_base and kallsyms_offsets lie: the relative base is
/// the last nonzero word before the search start, the offsets table the
/// `num_syms` entries that end at the last nonzero entry before it.
pub open spec fn offsets_tables(
    data: Seq<u8>,
    num_syms: int,
    is_64_bit: bool,
    entry_size: int,
    major: u8,
    minor: u8,
    token_index_end: int,
    num_syms_offset: int,
) -> Result<(int, int), ScanError> {
    let abs = address_size(is_64_bit, entry_size);
    let obs = offset_size(entry_size);
    let p0 = offsets_search_start(
        num_syms,
        is_64_bit,
        entry_size,
        major,
        minor,
        token_index_end,
        num_syms_offset,
    );
    if p0 >= abs && p0 > data.len() {
        Err(ScanError::OffsetsOutOfData)
    } else {
        match back_to_nonzero(data, p0, abs) {
            None => Err(ScanError::RelativeBaseNotFound),
            Some(q1) => {
                let rb = q1 - abs;
                if !crate::bytes::supported_width(abs) {
                    Err(ScanError::UnsupportedEntrySize)
                } else {
                    match back_to_nonzero(data, rb, obs) {
                        None => Err(ScanError::OffsetsNotFound),
                        Some(q2) => if num_syms * obs > usize::MAX {
                            Err(ScanError::NumSymsTooLarge)
                        } else if num_syms * obs > q2 {
                            Err(ScanError::OffsetsNotFound)
                        } else if num_syms > 0 && !crate::bytes::supported_width(obs) {
                            Err(ScanError::UnsupportedEntrySize)
                        } else {
                            Ok((rb, q2 - num_syms * obs))
                        },
                    }
                }
            },
        }
    }
}

/// What `find_kallsyms_offsets` gives: the places of kallsyms_relative_base
/// and kallsyms_offsets, the relative base address, and the relocated
/// offsets of the `num_syms` symbols.
pub open spec fn kallsyms_offsets_result(
    data: Seq<u8>,
    num_syms: int,
    banner: Seq<char>,
    major: u8,
    minor: u8,
    entry_size: int,
    token_index_end: int,
    num_syms_offset: int,
    endian: Endian,
) -> Result<(int, int, u64, Seq<u64>), ScanError> {
    if is_itanium(banner) {
        Err(ScanError::ItaniumUnsupported)
    } else if entry_size < 8 && !text_regex_compiles(BITNESS_REGEX@) {
        Err(ScanError::PatternRejected)
    } else {
        let is_64_bit = is_64_bit_kernel(entry_size, banner);
        match offsets_tables(
            data,
            num_syms,
            is_64_bit,
            entry_size,
            major,
            minor,
            token_index_end,
            num_syms_offset,
        ) {
            Err(e) => Err(e),
            Ok((rb, offs)) => {
                let abs = address_size(is_64_bit, entry_size);
                let obs = offset_size(entry_size);
                let base = entry_at(data, rb, abs, endian, 0);
                let values = signed_entries(data, offs, obs, endian, num_syms as nat);
                Ok((rb, offs, base as u64, relocated(values, base)))
            },
        }
    }
}

proof fn lemma_round_up_at(x: int, a: int, y: int)
    requires
        a == 4 || a == 8,
        y % a == 0,
        x <= y < x + a,
    ensures
        round_up(x, a) == y,
{
    vstd::arithmetic::div_mod::lemma_fundamental_div_mod(x, a);
    vstd::arithmetic::div_mod::lemma_fundamental_div_mod(y, a);
    vstd::arithmetic::div_mod::lemma_mod_bound(x, a);
    let q = x / a;
    let r = x % a;
    let m = y / a;
    assert(r == 0 ==> y == x) by (nonlinear_arith)
        requires
            x == a * q + r,
            y == a * m,
            x <= y < x + a,
            a > 0,
    ;
    assert(r != 0 ==> y == x + (a - r)) by (nonlinear_arith)
        requires
            x == a * q + r,
            y == a * m,
            0 <= r < a,
            x <= y < x + a,
            a > 0,
    ;
}

proof fn lemma_back_over_zeros(data: Seq<u8>, q: int, w: int, p: int, k: nat)
    requires
        w >= 1,
        w <= p,
        q == p + k * w,
        q <= data.len(),
        forall|i: int| p <= i < q ==> #[trigger] data[i] == 0,
        exists|i: int| p - w <= i < p && #[trigger] data[i] != 0,
    ensures
        back_to_nonzero(data, q, w) == Some(p),
    decreases k,
{
    if k == 0 {
        assert(q == p) by (nonlinear_arith)
            requires
                q == p + k * w,
                k == 0,
        ;
        let i = choose|i: int| p - w <= i < p && #[trigger] data[i] != 0;
        assert(data.subrange(q - w, q)[i - (q - w)] != 0);
    } else {
        assert(q - w == p + (k - 1) * w) by (nonlinear_arith)
            requires
                q == p + k * w,
                k >= 1,
        ;
        assert(q - w >= p) by (nonlinear_arith)
            requires
                q - w == p + (k - 1) * w,
                k >= 1,
                w >= 1,
        ;
        assert(!has_nonzero(data.subrange(q - w, q))) by {
            if has_nonzero(data.subrange(q - w, q)) {
                let i = choose|i: int| 0 <= i < w && #[trigger] data.subrange(q - w, q)[i] != 0;
                assert(data[q - w + i] == 0);
            }
        }
        lemma_back_over_zeros(data, q - w, w, p, (k - 1) as nat);
    }
}

/// Since 6.4 the relative base comes right after the offsets: when the
/// `num_syms` offsets start at the first aligned place at or after the end of
/// the token index (alignment 8 for a 64-bit kernel, 4 otherwise), the last
/// offset is nonzero, zero padding follows up to the next aligned place, and a
/// nonzero word of the address size lies there, then that word is
/// kallsyms_relative_base, its value the relative base address, the offsets
/// table starts where the offsets start, and there is one address per symbol,
/// whatever the parity of `num_syms`.
#[verifier::spinoff_prover]
pub proof fn lemma_offsets_after_token_index(
    data: Seq<u8>,
    num_syms: int,
    banner: Seq<char>,
    major: u8,
    minor: u8,
    entry_size: int,
    token_index_end: int,
    num_syms_offset: int,
    endian: Endian,
    offsets: int,
    base_pos: int,
)
    requires
        major > 6 || (major == 6 && minor >= 4),
        !is_itanium(banner),
        entry_size == 2 || entry_size == 4 || entry_size == 8,
        entry_size < 8 ==> text_regex_compiles(BITNESS_REGEX@),
        ({
            let is64 = entry_size >= 8 || text_regex_matches(BITNESS_REGEX@, banner);
            let abs: int = if is64 {
                8
            } else {
                entry_size
            };
            let obs: int = if entry_size < 4 {
                entry_size
            } else {
                4
            };
            let align: int = if is64 {
                8
            } else {
                4
            };
            let end = offsets + num_syms * obs;
            &&& 0 <= token_index_end <= offsets < token_index_end + align
            &&& offsets % align == 0
            &&& num_syms >= 1
            &&& num_syms * obs <= usize::MAX
            &&& end <= base_pos < end + align
            &&& base_pos % align == 0
            &&& base_pos + abs <= data.len()
            &&& exists|i: int| end - obs <= i < end && #[trigger] data[i] != 0
            &&& forall|i: int| end <= i < base_pos ==> #[trigger] data[i] == 0
            &&& exists|i: int| base_pos <= i < base_pos + abs && #[trigger] data[i] != 0
        }),
    ensures
        ({
            let is64 = entry_size >= 8 || text_regex_matches(BITNESS_REGEX@, banner);
            let abs: int = if is64 {
                8
            } else {
                entry_size
            };
            let r = kallsyms_offsets_result(
                data,
                num_syms,
                banner,
                major,
                minor,
                entry_size,
                token_index_end,
                num_syms_offset,
                endian,
            );
            &&& r is Ok
            &&& r->Ok_0.0 == base_pos
            &&& r->Ok_0.1 == offsets
            &&& r->Ok_0.2 as nat == unsigned_value(data.subrange(base_pos, base_pos + abs), endian)
            &&& r->Ok_0.3.len() == num_syms
        }),
{
    let is64 = entry_size >= 8 || text_regex_matches(BITNESS_REGEX@, banner);
    assert(is64 == is_64_bit_kernel(entry_size, banner));
    let abs = address_size(is64, entry_size);
    let obs = offset_size(entry_size);
    let align: int = if is64 {
        8
    } else {
        4
    };
    let end = offsets + num_syms * obs;
    lemma_search_start_after(num_syms, is64, entry_size, major, minor, token_index_end, num_syms_offset, offsets, base_pos);
    let k = lemma_padding_steps(offsets, num_syms, obs, align, base_pos);
    assert(num_syms * obs >= obs) by (nonlinear_arith)
        requires
            num_syms >= 1,
            obs >= 2,
    ;
    lemma_back_over_zeros(data, base_pos + abs, abs, base_pos + abs, 0);
    lemma_back_over_zeros(data, base_pos, obs, end, k);
    crate::bytes::lemma_unsigned_value_bound(data.subrange(base_pos, base_pos + abs), endian);
    lemma_radix_pow_facts(abs as nat);
    assert(entry_bytes(data, base_pos + 0 * abs, abs) == data.subrange(base_pos, base_pos + abs));
}

proof fn lemma_search_start_after(
    num_syms: int,
    is64: bool,
    entry_size: int,
    major: u8,
    minor: u8,
    token_index_end: int,
    num_syms_offset: int,
    offsets: int,
    base_pos: int,
)
    requires
        major > 6 || (major == 6 && minor >= 4),
        entry_size == 2 || entry_size == 4 || entry_size == 8,
        ({
            let align: int = if is64 {
                8
            } else {
                4
            };
            let end = offsets + num_syms * offset_size(entry_size);
            &&& token_index_end <= offsets < token_index_end + align
            &&& offsets % align == 0
            &&& end <= base_pos < end + align
            &&& base_pos % align == 0
        }),
    ensures
        offsets_search_start(num_syms, is64, entry_size, major, minor, token_index_end, num_syms_offset)
            == base_pos + address_size(is64, entry_size),
{
    let align: int = if is64 {
        8
    } else {
        4
    };
    lemma_round_up_at(token_index_end, align, offsets);
    lemma_round_up_at(offsets + num_syms * offset_size(entry_size), align, base_pos);
}

proof fn lemma_padding_steps(offsets: int, num_syms: int, obs: int, align: int, base_pos: int) -> (k: nat)
    requires
        obs == 2 || obs == 4,
        align == 4 || align == 8,
        offsets % align == 0,
        base_pos % align == 0,
        offsets + num_syms * obs <= base_pos,
    ensures
        base_pos == offsets + num_syms * obs + k * obs,
{
    vstd::arithmetic::div_mod::lemma_fundamental_div_mod(offsets, align);
    vstd::arithmetic::div_mod::lemma_fundamental_div_mod(base_pos, align);
    let x = offsets / align;
    let y = base_pos / align;
    let r = align / obs;
    assert(align == r * obs);
    let kk = (y - x) * r - num_syms;
    assert(base_pos == offsets + num_syms * obs + kk * obs) by (nonlinear_arith)
        requires
            offsets == align * x,
            base_pos == align * y,
            align == r * obs,
            kk == (y - x) * r - num_syms,
    ;
    assert(kk >= 0) by (nonlinear_arith)
        requires
            base_pos == offsets + num_syms * obs + kk * obs,
            offsets + num_syms * obs <= base_pos,
            obs >= 2,
    ;
    kk as nat
}

/// Where the offsets tables are looked for depends, from 6.4 on, only on the
/// end of the token index and, before 6.4, only on kallsyms_num_syms: two
/// searches that differ only in the other of the two give the same result.
pub proof fn lemma_offsets_search_inputs(
    data: Seq<u8>,
    num_syms: int,
    banner: Seq<char>,
    major: u8,
    minor: u8,
    entry_size: int,
    token_index_end: int,
    other_token_index_end: int,
    num_syms_offset: int,
    other_num_syms_offset: int,
    endian: Endian,
)
    ensures
        (major > 6 || (major == 6 && minor >= 4)) ==> kallsyms_offsets_result(
            data,
            num_syms,
            banner,
            major,
            minor,
            entry_size,
            token_index_end,
            num_syms_offset,
            endian,
        ) == kallsyms_offsets_result(
            data,
            num_syms,
            banner,
            major,
            minor,
            entry_size,
            token_index_end,
            other_num_syms_offset,
            endian,
        ),
        !(major > 6 || (major == 6 && minor >= 4)) ==> kallsyms_offsets_result(
            data,
            num_syms,
            banner,
            major,
            minor,
            entry_size,
            token_index_end,
            num_syms_offset,
            endian,
        ) == kallsyms_offsets_result(
            data,
            num_syms,
            banner,
            major,
            minor,
            entry_size,
            other_token_index_end,
            num_syms_offset,
            endian,
        ),
{
}

fn back_to_nonzero_exec(data: &[u8], q: usize, w: usize) -> (r: Option<usize>)
    requires
        q <= data@.len(),
        w >= 1,
    ensures
        match back_to_nonzero(data@, q as int, w as int) {
            Some(p) => r == Some(p as usize) && w <= p <= q,
            None => r is None,
        },
{
    let mut position = q;
    loop
        invariant
            position <= q <= data@.len(),
            w >= 1,
            back_to_nonzero(data@, q as int, w as int) == back_to_nonzero(data@, position as int, w as int),
        decreases position,
    {
        if position < w {
            return None;
        }
        let start = position - w;
        let mut k = start;
        let mut nonzero = false;
        while k < position && !nonzero
            invariant
                start <= k <= position <= data@.len(),
                start == position - w,
                nonzero ==> k < position && data@[k as int] != 0,
                !nonzero ==> forall|j: int| start <= j < k ==> data@[j] == 0,
            decreases position - k + if nonzero { 0int } else { 1int },
        {
            if data[k] != 0 {
                nonzero = true;
            } else {
                k = k + 1;
            }
        }
        proof {
            let word = data@.subrange(start as int, position as int);
            if nonzero {
                assert(word[k - start] != 0);
            } else {
                assert forall|i: int| 0 <= i < word.len() implies word[i] == 0 by {
                    assert(word[i] == data@[start + i]);
                }
            }
        }
        if nonzero {
            return Some(position);
        }
        position = start;
    }
}

fn round_up_exec(x: usize, a: usize) -> (r: Option<usize>)
    requires
        a > 0,
    ensures
        round_up(x as int, a as int) <= usize::MAX ==> r == Some(round_up(x as int, a as int) as usize),
        round_up(x as int, a as int) > usize::MAX ==> r is None,
{
    let rem = x % a;
    if rem == 0 {
        Some(x)
    } else {
        x.checked_add(a - rem)
    }
}

fn read_offsets(data: &[u8], start: usize, width: usize, endian: Endian, count: usize) -> (r: Vec<i64>)
    requires
        width == 2 || width == 4,
        start + count * width <= data@.len(),
    ensures
        r@ == signed_entries(data@, start as int, width as int, endian, count as nat),
{
    let n = data.len();
    let mut out: Vec<i64> = Vec::new();
    let mut i: usize = 0;
    while i < count
        invariant
            n == data@.len(),
            width == 2 || width == 4,
            start + count * width <= data@.len(),
            i <= count,
            out@ == signed_entries(data@, start as int, width as int, endian, count as nat).take(i as int),
        decreases count - i,
    {
        assert(i * width + width <= count * width && (i + 1) * width == i * width + width) by (nonlinear_arith)
            requires
                i < count,
                width >= 0,
        ;
        let v = match read_entry_signed(data, start + i * width, endian, width) {
            Ok(v) => v,
            Err(_) => {
                assert(false);
                0
            },
        };
        out.push(v);
        i = i + 1;
        assert(out@ =~= signed_entries(data@, start as int, width as int, endian, count as nat).take(i as int));
    }
    assert(signed_entries(data@, start as int, width as int, endian, count as nat).take(count as int) =~= signed_entries(data@, start as int, width as int, endian, count as nat));
    out
}

proof fn lemma_wrap(x: int)
    requires
        -0x1_0000_0000_0000_0000 <= x < 2 * 0x1_0000_0000_0000_0000,
    ensures
        x < 0 ==> x % 0x1_0000_0000_0000_0000 == x + 0x1_0000_0000_0000_0000,
        0 <= x < 0x1_0000_0000_0000_0000 ==> x % 0x1_0000_0000_0000_0000 == x,
        x >= 0x1_0000_0000_0000_0000 ==> x % 0x1_0000_0000_0000_0000 == x - 0x1_0000_0000_0000_0000,
{
}

fn relocate_exec(v: i64, base: u64, absolute_percpu: bool) -> (r: u64)
    ensures
        r == relocate_offset(v as int, base as nat, absolute_percpu),
{
    let t: i128 = if absolute_percpu {
        if v < 0 {
            base as i128 - 1 - v as i128
        } else {
            v as i128
        }
    } else {
        v as i128 + base as i128
    };
    proof {
        lemma_wrap(t as int);
    }
    if absolute_percpu && v >= 0 {
        return v as u64;
    }
    if t < 0 {
        (t + 0x1_0000_0000_0000_0000) as u64
    } else if t >= 0x1_0000_0000_0000_0000 {
        (t - 0x1_0000_0000_0000_0000) as u64
    } else {
        t as u64
    }
}

fn relocate_all(values: &Vec<i64>, base: u64) -> (r: Vec<u64>)
    ensures
        r@ == relocated(values@, base as nat),
{
    let mut negative: usize = 0;
    let mut i: usize = 0;
    assert(values@.take(0) =~= Seq::<i64>::empty());
    while i < values.len()
        invariant
            i <= values@.len(),
            negative == negative_count(values@.take(i as int)),
            negative <= i,
        decreases values@.len() - i,
    {
        assert(values@.take(i + 1).drop_last() =~= values@.take(i as int));
        if values[i] < 0 {
            negative = negative + 1;
        }
        i = i + 1;
    }
    assert(values@.take(values@.len() as int) =~= values@);
    let n = values.len();
    let absolute_percpu = n > 0 && negative >= n - negative;
    assert(absolute_percpu == mostly_negative(values@));
    let mut out: Vec<u64> = Vec::new();
    let mut k: usize = 0;
    while k < n
        invariant
            n == values@.len(),
            k <= n,
            absolute_percpu == mostly_negative(values@),
            out@ == relocated(values@, base as nat).take(k as int),
        decreases n - k,
    {
        out.push(relocate_exec(values[k], base, absolute_percpu));
        k = k + 1;
        assert(out@ =~= relocated(values@, base as nat).take(k as int));
    }
    assert(relocated(values@, base as nat).take(n as int) =~= relocated(values@, base as nat));
    out
}

proof fn lemma_round_up_ge(x: int, a: int)
    requires
        a > 0,
        x >= 0,
    ensures
        round_up(x, a) >= x,
{
}

fn search_start_exec(
    num_syms: usize,
    is_64_bit: bool,
    entry_size: usize,
    major: u8,
    minor: u8,
    token_index_end: usize,
    num_syms_offset: usize,
) -> (r: Option<usize>)
    requires
        entry_size >= 1,
    ensures
        ({
            let p0 = offsets_search_start(
                num_syms as int,
                is_64_bit,
                entry_size as int,
                major,
                minor,
                token_index_end as int,
                num_syms_offset as int,
            );
            &&& r matches Some(v) ==> v == p0
            &&& r is None ==> p0 > usize::MAX
        }),
{
    if !(major > 6 || (major == 6 && minor >= 4)) {
        return Some(num_syms_offset);
    }
    let address_byte_size: usize = if is_64_bit {
        8
    } else {
        entry_size
    };
    let offset_byte_size: usize = if entry_size < 4 {
        entry_size
    } else {
        4
    };
    let align: usize = if is_64_bit {
        8
    } else {
        4
    };
    let ghost o1 = round_up(token_index_end as int, align as int);
    let ghost o2 = o1 + num_syms * offset_byte_size;
    let ghost o3 = round_up(o2, align as int);
    proof {
        lemma_round_up_ge(token_index_end as int, align as int);
        assert(num_syms * offset_byte_size >= 0) by (nonlinear_arith)
            requires
                num_syms >= 0,
                offset_byte_size >= 0,
        ;
        lemma_round_up_ge(o2, align as int);
    }
    let p1 = match round_up_exec(token_index_end, align) {
        Some(p) => p,
        None => return None,
    };
    let span = match num_syms.checked_mul(offset_byte_size) {
        Some(s) => s,
        None => return None,
    };
    let p2 = match p1.checked_add(span) {
        Some(p) => p,
        None => return None,
    };
    let p3 = match round_up_exec(p2, align) {
        Some(p) => p,
        None => return None,
    };
    p3.checked_add(address_byte_size)
}

/// The tables and the addresses once the word size is known: the places of
/// kallsyms_relative_base and kallsyms_offsets, the relative base address,
/// and the relocated offsets (see `offsets_tables`). `is_64_bit` is the word
/// size `find_kallsyms_offsets` judged from the entry size and the banner.
pub fn offsets_from(
    data: &[u8],
    num_syms: usize,
    is_64_bit: bool,
    entry_size: usize,
    major: u8,
    minor: u8,
    token_index_end: usize,
    num_syms_offset: usize,
    endian: Endian,
) -> (r: Result<(usize, usize, u64, Vec<u64>), ScanError>)
    requires
        entry_size >= 1,
    ensures
        match offsets_tables(
            data@,
            num_syms as int,
            is_64_bit,
            entry_size as int,
            major,
            minor,
            token_index_end as int,
            num_syms_offset as int,
        ) {
            Ok((rb, offs)) => r matches Ok((a, b, c, v)) && a == rb && b == offs && c == entry_at(
                data@,
                rb,
                address_size(is_64_bit, entry_size as int),
                endian,
                0,
            ) && v@ == relocated(
                signed_entries(data@, offs, offset_size(entry_size as int), endian, num_syms as nat),
                c as nat,
            ),
            Err(e) => r matches Err(e2) && e2 == e,
        },
{
    let address_byte_size: usize = if is_64_bit {
        8
    } else {
        entry_size
    };
    let offset_byte_size: usize = if entry_size < 4 {
        entry_size
    } else {
        4
    };
    let n = data.len();
    let position = match search_start_exec(
        num_syms,
        is_64_bit,
        entry_size,
        major,
        minor,
        token_index_end,
        num_syms_offset,
    ) {
        Some(p) => p,
        None => return Err(ScanError::OffsetsOutOfData),
    };
    if position < address_byte_size {
        return Err(ScanError::RelativeBaseNotFound);
    }
    if position > n {
        return Err(ScanError::OffsetsOutOfData);
    }
    let q1 = match back_to_nonzero_exec(data, position, address_byte_size) {
        Some(q) => q,
        None => return Err(ScanError::RelativeBaseNotFound),
    };
    let kallsyms_relative_base = q1 - address_byte_size;
    if address_byte_size != 2 && address_byte_size != 4 && address_byte_size != 8 {
        return Err(ScanError::UnsupportedEntrySize);
    }
    let relative_base_address = match read_entry_unsigned(data, kallsyms_relative_base, endian, address_byte_size) {
        Ok(v) => v,
        Err(e) => {
            assert(false);
            return Err(e);
        },
    };
    let q2 = match back_to_nonzero_exec(data, kallsyms_relative_base, offset_byte_size) {
        Some(q) => q,
        None => return Err(ScanError::OffsetsNotFound),
    };
    let span = match offset_byte_size.checked_mul(num_syms) {
        Some(s) => s,
        None => {
            assert(num_syms * offset_byte_size > usize::MAX) by (nonlinear_arith)
                requires
                    offset_byte_size * num_syms > usize::MAX,
            ;
            return Err(ScanError::NumSymsTooLarge);
        },
    };
    assert(span == num_syms * offset_byte_size) by (nonlinear_arith)
        requires
            span == offset_byte_size * num_syms,
    ;
    if span > q2 {
        return Err(ScanError::OffsetsNotFound);
    }
    let kallsyms_offsets = q2 - span;
    if num_syms > 0 && offset_byte_size != 2 && offset_byte_size != 4 {
        return Err(ScanError::UnsupportedEntrySize);
    }
    let offsets = if num_syms == 0 {
        let v: Vec<i64> = Vec::new();
        assert(v@ =~= signed_entries(data@, kallsyms_offsets as int, offset_byte_size as int, endian, 0));
        v
    } else {
        read_offsets(data, kallsyms_offsets, offset_byte_size, endian, num_syms)
    };
    let adjusted = relocate_all(&offsets, relative_base_address);
    Ok((kallsyms_relative_base, kallsyms_offsets, relative_base_address, adjusted))
}

/// Finds kallsyms_relative_base and kallsyms_offsets and reads the symbol
/// addresses (see `kallsyms_offsets_result`): the place of the relative base,
/// the place of the offsets table, the relative base address, and the
/// relocated offsets.
pub fn find_kallsyms_offsets(
    data: &[u8],
    num_syms: usize,
    kernel_version: KernelVersion,
    kallsyms_marker_entry_size: usize,
    kallsyms_token_index_end: usize,
    kallsyms_num_syms_offset: usize,
    endian: Endian,
) -> (r: Result<(usize, usize, u64, Vec<u64>), ScanError>)
    requires
        kallsyms_marker_entry_size >= 1 || is_itanium(kernel_version.banner_string@),
    ensures
        match kallsyms_offsets_result(
            data@,
            num_syms as int,
            kernel_version.banner_string@,
            kernel_version.major,
            kernel_version.minor,
            kallsyms_marker_entry_size as int,
            kallsyms_token_index_end as int,
            kallsyms_num_syms_offset as int,
            endian,
        ) {
            Ok((rb, offs, base, addrs)) => r matches Ok((a, b, c, v)) && a == rb && b == offs && c
                == base && v@ == addrs,
            Err(e) => r matches Err(e2) && e2 == e,
        },
{
    let lower = to_lowercase(kernel_version.banner_string.as_str());
    proof {
        reveal_strlit("itanium");
        reveal_strlit("ia64");
    }
    if text_contains(lower.as_str(), "itanium") || text_contains(lower.as_str(), "ia64") {
        return Err(ScanError::ItaniumUnsupported);
    }
    let is_64_bit = if kallsyms_marker_entry_size >= 8 {
        true
    } else {
        match text_regex_is_match(BITNESS_REGEX, kernel_version.banner_string.as_str()) {
            Some(b) => b,
            None => return Err(ScanError::PatternRejected),
        }
    };
    offsets_from(
        data,
        num_syms,
        is_64_bit,
        kallsyms_marker_entry_size,
        kernel_version.major,
        kernel_version.minor,
        kallsyms_token_index_end,
        kallsyms_num_syms_offset,
        endian,
    )
}


/// How far on either side of a token table candidate the token index, the
/// markers and the names are looked for (30 MiB).
pub const WINDOW_SIZE: usize = 30 * 1024 * 1024;

/// Start of the search window around the token table at `tt`.
pub open spec fn window_start(tt: int) -> int {
    if tt >= WINDOW_SIZE {
        tt - WINDOW_SIZE
    } else {
        0
    }
}

/// End of the search window around the token table at `tt`, in data of `len`
/// bytes.
pub open spec fn window_end(tt: int, len: int) -> int {
    if tt + WINDOW_SIZE < len {
        tt + WINDOW_SIZE
    } else {
        len
    }
}

/// The token table at `tt` as text: its first 256 pieces (fewer when the data
/// ends first), each decoded as `from_utf8_lossy` does.
pub open spec fn token_table_texts(data: Seq<u8>, tt: int) -> Seq<Seq<char>> {
    let pieces = token_pieces(data, tt);
    Seq::new(
        if pieces.len() < 256 {
            pieces.len()
        } else {
            256
        },
        |i: int| utf8_lossy(pieces[i]),
    )
}

/// The kallsyms structure found in an image, as mathematical values.
pub ghost struct KallsymsView {
    pub token_table: int,
    pub token_index: int,
    pub markers: int,
    pub names: int,
    pub num_syms_offset: int,
    pub relative_base: int,
    pub offsets: int,
    pub num_syms: nat,
    pub relative_base_address: nat,
    pub symbol_offsets: Seq<u64>,
    pub symbol_names: Seq<Seq<char>>,
}

/// What one token table candidate leads to: nothing (the next candidate is
/// tried), an error that ends the search, or a complete structure.
pub ghost enum CarveStep {
    Skip,
    Abort(ScanError),
    Found(KallsymsView),
}

/// The last steps for a candidate whose names table and symbol count are
/// known: the banner and its kernel version (whose absence ends the search),
/// the offsets tables, and the symbol names.
#[verifier::opaque]
pub open spec fn carve_finish(
    data: Seq<u8>,
    tt: int,
    ti: int,
    endian: Endian,
    mk: int,
    width: int,
    names: int,
    num_syms: nat,
    nso: int,
    banner: Option<Seq<char>>,
) -> CarveStep {
    match banner {
        None => CarveStep::Abort(ScanError::BannerNotFound),
        Some(b) => match kernel_version_numbers(b) {
            Err(e) => CarveStep::Abort(e),
            Ok((major, minor)) => match kallsyms_offsets_result(
                data,
                num_syms as int,
                b,
                major,
                minor,
                width,
                ti + 512,
                nso,
                endian,
            ) {
                Err(_) => CarveStep::Skip,
                Ok((rb, offs, base, addrs)) => {
                    let table = token_table_texts(data, tt);
                    if !names_table_fits(data, names, table.len()) {
                        CarveStep::Skip
                    } else {
                        CarveStep::Found(
                            KallsymsView {
                                token_table: tt,
                                token_index: ti,
                                markers: mk,
                                names,
                                num_syms_offset: nso,
                                relative_base: rb,
                                offsets: offs,
                                num_syms,
                                relative_base_address: base as nat,
                                symbol_offsets: addrs,
                                symbol_names: symbol_texts(names_entries(data, names)->0, table),
                            },
                        )
                    }
                },
            },
        },
    }
}

/// The steps for a candidate whose token index is known: the markers (looked
/// for in the window `[ws, we)`), the names table they point into, the symbol
/// count and kallsyms_num_syms, then `carve_finish`.
#[verifier::opaque]
pub open spec fn carve_from_index(
    data: Seq<u8>,
    tt: int,
    ws: int,
    we: int,
    ti: int,
    endian: Endian,
    banner: Option<Seq<char>>,
) -> CarveStep {
    let window = data.subrange(ws, we);
    match marker_table(window, tt - ws, endian) {
        Err(_) => CarveStep::Skip,
        Ok((mb, markers, width)) => if !token_index_readable(data, tt, ti, endian) {
            CarveStep::Skip
        } else {
            let lookup = first_token_lookup(valid_first_tokens(data, tt, ti, endian, 256));
            match unique_names_start(window, markers, lookup) {
                None => CarveStep::Skip,
                Some(nw) => {
                    let names = nw + ws;
                    match symbol_count(data, names, markers) {
                        Err(_) => CarveStep::Skip,
                        Ok(num_syms) => match num_syms_search(data, names, width, endian, num_syms) {
                            Err(_) => CarveStep::Skip,
                            Ok(nso) => carve_finish(
                                data,
                                tt,
                                ti,
                                endian,
                                mb + ws,
                                width,
                                names,
                                num_syms,
                                nso,
                                banner,
                            ),
                        },
                    }
                },
            }
        },
    }
}

/// What the token table candidate `[tt, tt + size)` leads to, given the banner
/// of the image. The token index, markers and names are looked for in a
/// window of `WINDOW_SIZE` bytes on either side of the token table; a
/// candidate that does not fit in its window is skipped.
pub open spec fn carve_attempt(data: Seq<u8>, tt: int, size: int, banner: Option<Seq<char>>) -> CarveStep {
    let ws = window_start(tt);
    let we = window_end(tt, data.len() as int);
    if tt > data.len() || tt + size > we + 1 || tt + size < 1 {
        CarveStep::Skip
    } else {
        match token_index_search(data.subrange(ws, we), tt - ws, size) {
            Err(_) => CarveStep::Skip,
            Ok((tiw, endian)) => carve_from_index(data, tt, ws, we, tiw + ws, endian, banner),
        }
    }
}

/// The candidates tried in order: the first that leads to a structure gives
/// it, the first that ends the search gives its error.
pub open spec fn carve_over(data: Seq<u8>, cands: Seq<(int, int)>, banner: Option<Seq<char>>) -> Result<
    KallsymsView,
    ScanError,
>
    decreases cands.len(),
{
    if cands.len() == 0 {
        Err(ScanError::KallsymsNotFound)
    } else {
        match carve_attempt(data, cands[0].0, cands[0].1, banner) {
            CarveStep::Skip => carve_over(data, cands.drop_first(), banner),
            CarveStep::Abort(e) => Err(e),
            CarveStep::Found(k) => Ok(k),
        }
    }
}

/// The kallsyms structure of the image `data`: the token table candidates,
/// tried in order (see `carve_over`).
pub open spec fn kallsyms_of(data: Seq<u8>) -> Result<KallsymsView, ScanError> {
    if !byte_regex_compiles(KALLSYMS_TOKEN_TABLE_REGEX@) {
        Err(ScanError::PatternRejected)
    } else {
        let tables = token_tables_of(data, byte_regex_spans(KALLSYMS_TOKEN_TABLE_REGEX@, data));
        if tables.len() == 0 {
            Err(ScanError::TokenTableNotFound)
        } else {
            carve_over(data, tables, banner_choice(data))
        }
    }
}

/// The kallsyms structure of a kernel image: where each of its tables lies
/// (file offsets), the number of symbols, the relative base address, the
/// symbol addresses and the symbol names.
#[derive(Debug, Clone)]
pub struct Kallsyms {
    pub kallsyms_token_table: usize,
    pub kallsyms_token_index: usize,
    pub kallsyms_markers: usize,
    pub kallsyms_names: usize,
    pub kallsyms_num_syms: usize,
    pub kallsyms_relative_base: usize,
    pub kallsyms_offsets: usize,
    pub num_syms: u64,
    pub relative_base_address: u64,
    pub symbol_offsets: Vec<u64>,
    pub symbol_names: Vec<String>,
}

impl View for Kallsyms {
    type V = KallsymsView;

    open spec fn view(&self) -> KallsymsView {
        KallsymsView {
            token_table: self.kallsyms_token_table as int,
            token_index: self.kallsyms_token_index as int,
            markers: self.kallsyms_markers as int,
            names: self.kallsyms_names as int,
            num_syms_offset: self.kallsyms_num_syms as int,
            relative_base: self.kallsyms_relative_base as int,
            offsets: self.kallsyms_offsets as int,
            num_syms: self.num_syms as nat,
            relative_base_address: self.relative_base_address as nat,
            symbol_offsets: self.symbol_offsets@,
            symbol_names: self.symbol_names@.map_values(|s: String| s@),
        }
    }
}

/// What trying one candidate gave.
enum Attempt {
    Skip,
    Abort(ScanError),
    Found(Kallsyms),
}

/// The step that `r` stands for.
spec fn attempt_matches(r: Attempt, step: CarveStep) -> bool {
    match step {
        CarveStep::Skip => r is Skip,
        CarveStep::Abort(e) => r matches Attempt::Abort(e2) && e2 == e,
        CarveStep::Found(k) => r matches Attempt::Found(v) && v@ == k,
    }
}

proof fn lemma_count_below_budget(data: Seq<u8>, pos: int, budget: nat)
    ensures
        count_names_from(data, pos, budget) matches Ok(k) ==> k < budget,
    decreases budget,
{
    if budget > 0 {
        lemma_count_below_budget(data, pos + data[pos] + 1, (budget - 1) as nat);
    }
}

/// Runs `carve_finish` for one candidate.
fn finish_candidate<I: MemoryImage + ImageRead>(
    image: &I,
    token_table: Vec<String>,
    tt: usize,
    ti: usize,
    endian: Endian,
    mk: usize,
    width: usize,
    names: usize,
    num_syms: u64,
    nso: usize,
) -> (r: Attempt)
    requires
        token_table@.map_values(|t: String| t@) == token_table_texts(image.image_bytes(), tt as int),
        ti + 512 <= image.image_bytes().len(),
        width >= 1,
        num_syms <= 0x10_0000,
    ensures
        attempt_matches(
            r,
            carve_finish(
                image.image_bytes(),
                tt as int,
                ti as int,
                endian,
                mk as int,
                width as int,
                names as int,
                num_syms as nat,
                nso as int,
                banner_choice(image.image_bytes()),
            ),
        ),
{
    reveal(carve_finish);
    let data = image.as_bytes();
    let len = data.len();
    assert(ti + 512 <= len);
    let banner = match banner_scan(image) {
        Some(b) => b,
        None => return Attempt::Abort(ScanError::BannerNotFound),
    };
    let kernel_version = match KernelVersion::try_from(banner.as_str()) {
        Ok(k) => k,
        Err(e) => return Attempt::Abort(e),
    };
    let (rb, offs, base, addrs) = match find_kallsyms_offsets(
        data,
        num_syms as usize,
        kernel_version,
        width,
        ti + 512,
        nso,
        endian,
    ) {
        Ok(o) => o,
        Err(_) => return Attempt::Skip,
    };
    if !check_names_table(data, names, token_table.len()) {
        return Attempt::Skip;
    }
    let symbol_names = match extract_symbol_names(data, names, &token_table) {
        Ok(v) => v,
        Err(_) => return Attempt::Skip,
    };
    Attempt::Found(
        Kallsyms {
            kallsyms_token_table: tt,
            kallsyms_token_index: ti,
            kallsyms_markers: mk,
            kallsyms_names: names,
            kallsyms_num_syms: nso,
            kallsyms_relative_base: rb,
            kallsyms_offsets: offs,
            num_syms,
            relative_base_address: base,
            symbol_offsets: addrs,
            symbol_names,
        },
    )
}

/// Runs `carve_from_index` for one candidate; `window` is the data of the
/// window `[ws, we)`.
fn candidate_from_index<I: MemoryImage + ImageRead>(
    image: &I,
    token_table: Vec<String>,
    window: &[u8],
    tt: usize,
    ws: usize,
    we: usize,
    ti: usize,
    endian: Endian,
) -> (r: Attempt)
    requires
        token_table@.map_values(|t: String| t@) == token_table_texts(image.image_bytes(), tt as int),
        ws <= tt <= we <= image.image_bytes().len(),
        window@ == image.image_bytes().subrange(ws as int, we as int),
    ensures
        attempt_matches(
            r,
            carve_from_index(
                image.image_bytes(),
                tt as int,
                ws as int,
                we as int,
                ti as int,
                endian,
                banner_choice(image.image_bytes()),
            ),
        ),
{
    reveal(carve_from_index);
    let data = image.as_bytes();
    let (mbw, markers, width) = match find_kallsyms_markers(window, tt - ws, endian) {
        Ok(m) => m,
        Err(_) => return Attempt::Skip,
    };
    let mk = mbw + ws;
    if !check_token_index_readable(data, tt, ti, endian) {
        return Attempt::Skip;
    }
    let valid = build_valid_first_tokens(data, tt, ti, endian);
    let namesw = match find_kallsyms_names(window, markers.as_slice(), valid) {
        Ok(n) => n,
        Err(_) => return Attempt::Skip,
    };
    proof {
        let c = choose|c: int| names_start_at(window@, markers@, first_token_lookup(valid@), c);
        assert(names_start_at(window@, markers@, first_token_lookup(valid@), c));
    }
    let names = namesw + ws;
    let num_syms = match count_num_symbols(data, names, markers.as_slice()) {
        Ok(n) => n,
        Err(_) => return Attempt::Skip,
    };
    proof {
        lemma_count_below_budget(data@, names + markers@.last(), 256);
    }
    let nso = match find_kallsyms_num_syms(data, names, width, endian, num_syms) {
        Ok(n) => n,
        Err(_) => return Attempt::Skip,
    };
    finish_candidate(image, token_table, tt, ti, endian, mk, width, names, num_syms, nso)
}

/// Tries the token table candidate `[tt, tt + size)` (see `carve_attempt`).
fn try_candidate<I: MemoryImage + ImageRead>(image: &I, tt: usize, size: usize) -> (r: Attempt)
    ensures
        attempt_matches(
            r,
            carve_attempt(image.image_bytes(), tt as int, size as int, banner_choice(image.image_bytes())),
        ),
{
    let data = image.as_bytes();
    let len = data.len();
    if tt > len {
        return Attempt::Skip;
    }
    let ws = if tt >= WINDOW_SIZE {
        tt - WINDOW_SIZE
    } else {
        0
    };
    let we = if len - tt > WINDOW_SIZE {
        tt + WINDOW_SIZE
    } else {
        len
    };
    assert(ws == window_start(tt as int) && we == window_end(tt as int, len as int));
    if size > we - tt + 1 || (tt == 0 && size == 0) {
        return Attempt::Skip;
    }
    let token_table = build_token_table(data, tt);
    let window = vstd::slice::slice_subrange(data, ws, we);
    let (tiw, endian) = match find_kallsyms_token_index(window, tt - ws, size) {
        Ok(t) => t,
        Err(_) => return Attempt::Skip,
    };
    candidate_from_index(image, token_table, window, tt, ws, we, tiw + ws, endian)
}

/// Carves the kallsyms structure out of a kernel image: for each token table
/// candidate in turn, the token index, markers and names table are looked for
/// around it, the symbols counted, kallsyms_num_syms and the offsets tables
/// found, and the names read; the first candidate that gets through gives the
/// result (see `kallsyms_of`). A missing banner or kernel version ends the
/// search with an error.
pub fn carve_kallsyms<I: MemoryImage + ImageRead>(image: &I) -> (r: Result<Kallsyms, ScanError>)
    ensures
        match kallsyms_of(image.image_bytes()) {
            Ok(k) => r matches Ok(v) && v@ == k,
            Err(e) => r matches Err(e2) && e2 == e,
        },
{
    let ghost data = image.image_bytes();
    let candidates = match find_kallsyms_token_table(image) {
        Ok(c) => c,
        Err(e) => return Err(e),
    };
    let ghost tables = token_tables_of(data, byte_regex_spans(KALLSYMS_TOKEN_TABLE_REGEX@, data));
    let mut i: usize = 0;
    assert(tables.skip(0) =~= tables);
    while i < candidates.len()
        invariant
            i <= candidates@.len(),
            byte_regex_compiles(KALLSYMS_TOKEN_TABLE_REGEX@),
            tables.len() > 0,
            data == image.image_bytes(),
            tables == token_tables_of(data, byte_regex_spans(KALLSYMS_TOKEN_TABLE_REGEX@, data)),
            candidates@.len() == tables.len(),
            forall|j: int|
                0 <= j < candidates@.len() ==> (#[trigger] candidates@[j]).0 as int == tables[j].0
                    && candidates@[j].1 as int == tables[j].1,
            kallsyms_of(data) == carve_over(data, tables.skip(i as int), banner_choice(data)),
        decreases candidates@.len() - i,
    {
        let (tt, size) = candidates[i];
        assert(tables.skip(i as int)[0] == tables[i as int]);
        assert(tables.skip(i as int).drop_first() =~= tables.skip(i + 1));
        match try_candidate(image, tt, size) {
            Attempt::Skip => {},
            Attempt::Abort(e) => return Err(e),
            Attempt::Found(k) => return Ok(k),
        }
        i = i + 1;
    }
    assert(tables.skip(i as int).len() == 0);
    Err(ScanError::KallsymsNotFound)
}


/// The facts every carved structure satisfies: one address per symbol;
/// kallsyms_num_syms in the 256 bytes before kallsyms_names, which starts
/// inside the data; the markers before the token table; and the symbol names
/// those that `extract_symbol_names` reads from the names table with the
/// tokens `build_token_table` reads at the token table.
pub open spec fn carved_consistently(data: Seq<u8>, k: KallsymsView) -> bool {
    let table = token_table_texts(data, k.token_table);
    &&& k.symbol_offsets.len() == k.num_syms
    &&& k.names - 256 <= k.num_syms_offset < k.names
    &&& 0 <= k.names < data.len()
    &&& 0 <= k.markers < k.token_table <= data.len()
    &&& names_table_fits(data, k.names, table.len())
    &&& k.symbol_names == symbol_texts(names_entries(data, k.names)->0, table)
    &&& offsets_follow_token_index(data, k)
}

/// The offsets tables of a carved structure are those `find_kallsyms_offsets`
/// finds for the image's banner and kernel version when its search is given the
/// end of the 256-entry token index (`token_index + 512`) and kallsyms_num_syms,
/// for some entry width and byte order.
pub open spec fn offsets_follow_token_index(data: Seq<u8>, k: KallsymsView) -> bool {
    match banner_choice(data) {
        None => false,
        Some(b) => match kernel_version_numbers(b) {
            Err(_) => false,
            Ok((major, minor)) => exists|width: int, endian: Endian|
                supported_width(width) && #[trigger] kallsyms_offsets_result(
                    data,
                    k.num_syms as int,
                    b,
                    major,
                    minor,
                    width,
                    k.token_index + 512,
                    k.num_syms_offset,
                    endian,
                ) == Ok::<(int, int, u64, Seq<u64>), ScanError>(
                    (k.relative_base, k.offsets, k.relative_base_address as u64, k.symbol_offsets),
                ),
        },
    }
}

proof fn lemma_attempt_found(data: Seq<u8>, tt: int, size: int, banner: Option<Seq<char>>)
    requires
        0 <= tt,
        banner == banner_choice(data),
        carve_attempt(data, tt, size, banner) is Found,
    ensures
        carve_attempt(data, tt, size, banner)->Found_0.token_table == tt,
        carved_consistently(data, carve_attempt(data, tt, size, banner)->Found_0),
{
    reveal(carve_from_index);
    reveal(carve_finish);
    let ws = window_start(tt);
    let we = window_end(tt, data.len() as int);
    let window = data.subrange(ws, we);
    let (tiw, endian) = token_index_search(window, tt - ws, size)->Ok_0;
    let ti = tiw + ws;
    let (mb, markers, width) = marker_table(window, tt - ws, endian)->Ok_0;
    lemma_marker_search_facts(window, tt - ws, endian);
    let lookup = first_token_lookup(valid_first_tokens(data, tt, ti, endian, 256));
    let nw = unique_names_start(window, markers, lookup)->0;
    assert(names_start_at(window, markers, lookup, nw));
    let names = nw + ws;
    let num_syms = symbol_count(data, names, markers)->Ok_0;
    let nso = num_syms_search(data, names, width, endian, num_syms)->Ok_0;
    lemma_num_syms_read_back(data, names, width, endian, num_syms, nso);
    let b = banner->0;
    let (major, minor) = kernel_version_numbers(b)->Ok_0;
    let k = carve_attempt(data, tt, size, banner)->Found_0;
    assert(supported_width(width) && kallsyms_offsets_result(
        data,
        k.num_syms as int,
        b,
        major,
        minor,
        width,
        k.token_index + 512,
        k.num_syms_offset,
        endian,
    ) == Ok::<(int, int, u64, Seq<u64>), ScanError>(
        (k.relative_base, k.offsets, k.relative_base_address as u64, k.symbol_offsets),
    ));
}

/// What `carve_kallsyms` finds is consistent (see `carved_consistently`): in
/// particular its offsets tables are those found from the end of the token
/// index (`offsets_follow_token_index`); and its token table is one of the
/// candidates `find_kallsyms_token_table` gives.
pub proof fn lemma_kallsyms_consistent(data: Seq<u8>)
    requires
        kallsyms_of(data) is Ok,
    ensures
        carved_consistently(data, kallsyms_of(data)->Ok_0),
        exists|j: int|
            0 <= j < token_tables_of(data, byte_regex_spans(KALLSYMS_TOKEN_TABLE_REGEX@, data)).len()
                && (#[trigger] token_tables_of(
                data,
                byte_regex_spans(KALLSYMS_TOKEN_TABLE_REGEX@, data),
            )[j]).0 == kallsyms_of(data)->Ok_0.token_table,
{
    let spans = byte_regex_spans(KALLSYMS_TOKEN_TABLE_REGEX@, data);
    let tables = token_tables_of(data, spans);
    lemma_token_tables_start(data, spans);
    lemma_carve_over_consistent(data, tables, banner_choice(data));
}

proof fn lemma_token_tables_start(data: Seq<u8>, spans: Seq<(usize, usize)>)
    ensures
        forall|j: int|
            0 <= j < token_tables_of(data, spans).len() ==> 0 <= #[trigger] token_tables_of(
                data,
                spans,
            )[j].0,
    decreases spans.len(),
{
    if spans.len() > 0 {
        lemma_token_tables_start(data, spans.drop_last());
        let pre = token_tables_of(data, spans.drop_last());
        let start = spans.last().0 as int;
        if !(start == 0 || data[start - 1] != 0) {
            match walk_tokens(data, start - 1, 48) {
                None => {},
                Some(p) => {
                    lemma_walk_tokens_nonneg(data, start - 1, 48);
                    let q = p + 1;
                    assert(0 <= q - q % 4);
                    let t = token_tables_of(data, spans);
                    assert forall|j: int| 0 <= j < t.len() implies 0 <= #[trigger] t[j].0 by {
                        if j < pre.len() {
                            assert(t[j] == pre[j]);
                        }
                    }
                },
            }
        }
    }
}

proof fn lemma_walk_tokens_nonneg(data: Seq<u8>, pos: int, tokens: nat)
    requires
        0 <= pos,
    ensures
        walk_tokens(data, pos, tokens) matches Some(p) ==> 0 <= p,
    decreases tokens,
{
    if tokens > 0 {
        lemma_step_back_nonneg(data, pos, 50);
        match step_back(data, pos, 50) {
            Some(p) => lemma_walk_tokens_nonneg(data, p, (tokens - 1) as nat),
            None => {},
        }
    }
}

proof fn lemma_step_back_nonneg(data: Seq<u8>, pos: int, steps: nat)
    requires
        0 <= pos,
    ensures
        step_back(data, pos, steps) matches Some(p) ==> 0 <= p,
    decreases steps,
{
    if steps > 0 && pos > 0 {
        lemma_step_back_nonneg(data, pos - 1, (steps - 1) as nat);
    }
}

proof fn lemma_carve_over_consistent(data: Seq<u8>, cands: Seq<(int, int)>, banner: Option<Seq<char>>)
    requires
        banner == banner_choice(data),
        carve_over(data, cands, banner) is Ok,
        forall|j: int| 0 <= j < cands.len() ==> 0 <= #[trigger] cands[j].0,
    ensures
        carved_consistently(data, carve_over(data, cands, banner)->Ok_0),
        exists|j: int| 0 <= j < cands.len() && (#[trigger] cands[j]).0 == carve_over(data, cands, banner)->Ok_0.token_table,
    decreases cands.len(),
{
    if cands.len() > 0 {
        assert(0 <= cands[0].0);
        match carve_attempt(data, cands[0].0, cands[0].1, banner) {
            CarveStep::Skip => {
                let rest = cands.drop_first();
                assert forall|j: int| 0 <= j < rest.len() implies 0 <= #[trigger] rest[j].0 by {
                    assert(rest[j] == cands[j + 1]);
                }
                lemma_carve_over_consistent(data, rest, banner);
                let j = choose|j: int| 0 <= j < rest.len() && (#[trigger] rest[j]).0 == carve_over(data, rest, banner)->Ok_0.token_table;
                assert(cands[j + 1] == rest[j]);
            },
            CarveStep::Abort(_) => {},
            CarveStep::Found(_) => {
                lemma_attempt_found(data, cands[0].0, cands[0].1, banner);
                assert(cands[0].0 == carve_over(data, cands, banner)->Ok_0.token_table);
            },
        }
    }
}

} // verus!
