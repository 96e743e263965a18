use btf2json::banner::KernelVersion;
use btf2json::bytes::Endian;
use btf2json::error::ScanError;
use btf2json::image::raw::RawImage;
use btf2json::kallsyms::{
    build_token_table, build_valid_first_tokens, carve_kallsyms, count_num_symbols,
    extract_symbol_names, find_kallsyms_markers, find_kallsyms_names, find_kallsyms_num_syms,
    find_kallsyms_offsets, find_kallsyms_token_index, find_kallsyms_token_table, offsets_from,
    read_entry_unsigned, search_symbol_names, validate_names_candidate,
};

const NUM_SYMS: usize = 769;
const RELATIVE_BASE: u64 = 0xffff_ffff_8100_0000;
const MARKERS: [u64; 4] = [0, 769, 1538, 2307];

/// Where each table of the synthetic kernel image lies.
struct Layout {
    data: Vec<u8>,
    offsets: usize,
    relative_base: usize,
    num_syms: usize,
    names: usize,
    markers: usize,
    token_table: usize,
    token_table_size: usize,
    token_index: usize,
}

fn token_strings() -> Vec<String> {
    let mut t = Vec::new();
    for i in 0..48 {
        t.push(format!("x{:02}", i));
    }
    for c in b'0'..=b'9' {
        t.push((c as char).to_string());
    }
    for i in 0..7 {
        t.push(format!("q{}", i));
    }
    for c in b'A'..=b'Z' {
        t.push((c as char).to_string());
    }
    for i in 0..6 {
        t.push(format!("r{}", i));
    }
    for c in b'a'..=b'z' {
        t.push((c as char).to_string());
    }
    for i in 123..256 {
        t.push(format!("y{}", i));
    }
    assert_eq!(t.len(), 256);
    t
}

fn pad_to(data: &mut Vec<u8>, align: usize) {
    while data.len() % align != 0 {
        data.push(0xee);
    }
}

/// A little-endian 64-bit kernel 5.10 image with 769 symbols, named "T11"
/// (tokens 84, 49, 49) at the start of each block of 256 and "T1" otherwise,
/// at relative base `RELATIVE_BASE` plus 16 times their number.
fn synthetic_kernel() -> Layout {
    let mut data = Vec::new();
    data.extend_from_slice(b"Linux version 5.10.0-test (gcc) #1 SMP\n");
    pad_to(&mut data, 64);
    let offsets = data.len();
    for i in 0..NUM_SYMS {
        data.extend_from_slice(&((16 * i) as i32).to_le_bytes());
    }
    let relative_base = data.len();
    data.extend_from_slice(&RELATIVE_BASE.to_le_bytes());
    let num_syms = data.len();
    data.extend_from_slice(&(NUM_SYMS as u64).to_le_bytes());
    let names = data.len();
    for i in 0..NUM_SYMS {
        if i % 256 == 0 {
            data.extend_from_slice(&[3, 84, 49, 49]);
        } else {
            data.extend_from_slice(&[2, 84, 49]);
        }
    }
    data.push(0);
    pad_to(&mut data, 8);
    let markers = data.len();
    for m in MARKERS {
        data.extend_from_slice(&m.to_le_bytes());
    }
    let token_table = data.len();
    let mut starts = Vec::new();
    for t in token_strings() {
        starts.push((data.len() - token_table) as u16);
        data.extend_from_slice(t.as_bytes());
        data.push(0);
    }
    let z_end = token_table + starts[123] as usize;
    pad_to(&mut data, 8);
    let token_index = data.len();
    for s in &starts {
        data.extend_from_slice(&s.to_le_bytes());
    }
    data.extend_from_slice(&[0xee; 64]);
    Layout {
        data,
        offsets,
        relative_base,
        num_syms,
        names,
        markers,
        token_table,
        token_table_size: z_end - token_table,
        token_index,
    }
}

fn valid_first() -> Vec<u8> {
    let l = synthetic_kernel();
    build_valid_first_tokens(&l.data, l.token_table, l.token_index, Endian::Little)
}

#[test]
fn carve_synthetic_kernel() {
    let l = synthetic_kernel();
    let img = RawImage::new("synthetic".to_string(), l.data.clone());
    let k = carve_kallsyms(&img).unwrap();
    assert_eq!(k.kallsyms_token_table, l.token_table);
    assert_eq!(k.kallsyms_token_index, l.token_index);
    assert_eq!(k.kallsyms_markers, l.markers);
    assert_eq!(k.kallsyms_names, l.names);
    assert_eq!(k.kallsyms_num_syms, l.num_syms);
    assert_eq!(k.kallsyms_relative_base, l.relative_base);
    assert_eq!(k.kallsyms_offsets, l.offsets);
    assert_eq!(k.num_syms, NUM_SYMS as u64);
    assert_eq!(k.relative_base_address, RELATIVE_BASE);
    assert_eq!(k.symbol_offsets.len(), NUM_SYMS);
    assert_eq!(k.symbol_offsets[0], RELATIVE_BASE);
    assert_eq!(k.symbol_offsets[10], RELATIVE_BASE + 160);
    assert_eq!(k.symbol_names.len(), NUM_SYMS);
    assert_eq!(k.symbol_names[0], "T11");
    assert_eq!(k.symbol_names[1], "T1");
    assert_eq!(k.symbol_names[768], "T11");
    assert_eq!(k.symbol_names.iter().filter(|n| *n == "T1").count(), NUM_SYMS - 4);
}

#[test]
fn carve_consistency() {
    let l = synthetic_kernel();
    let k = carve_kallsyms(&RawImage::new(String::new(), l.data)).unwrap();
    assert_eq!(k.symbol_offsets.len() as u64, k.num_syms);
    assert!(k.kallsyms_names - 256 <= k.kallsyms_num_syms && k.kallsyms_num_syms < k.kallsyms_names);
}

#[test]
fn carve_without_token_table() {
    let img = RawImage::new(String::new(), b"Linux version 5.10.0\n nothing else".to_vec());
    assert!(matches!(carve_kallsyms(&img), Err(ScanError::TokenTableNotFound)));
}

#[test]
fn carve_without_banner_is_an_error() {
    let mut l = synthetic_kernel();
    l.data[0] = b'l';
    let img = RawImage::new(String::new(), l.data);
    assert!(matches!(carve_kallsyms(&img), Err(ScanError::BannerNotFound)));
}

#[test]
fn carve_with_broken_markers_finds_nothing() {
    let mut l = synthetic_kernel();
    let m = l.markers;
    l.data[m + 9] = 0xff;
    l.data[m + 10] = 0xff;
    let img = RawImage::new(String::new(), l.data);
    assert!(matches!(carve_kallsyms(&img), Err(ScanError::KallsymsNotFound)));
}

#[test]
fn token_table_candidates() {
    let l = synthetic_kernel();
    let img = RawImage::new(String::new(), l.data);
    assert_eq!(find_kallsyms_token_table(&img), Ok(vec![(l.token_table, l.token_table_size)]));
}

#[test]
fn token_table_strings() {
    let l = synthetic_kernel();
    let t = build_token_table(&l.data, l.token_table);
    assert_eq!(t, token_strings());
    assert_eq!(build_token_table(b"ab\0cd\0", 0), vec!["ab", "cd", ""]);
    assert_eq!(build_token_table(b"ab\0cd", 3), vec!["cd"]);
    assert_eq!(build_token_table(b"a\xffb\0", 0), vec!["a\u{fffd}b", ""]);
}

#[test]
fn token_index_is_found_after_the_table() {
    let l = synthetic_kernel();
    assert_eq!(
        find_kallsyms_token_index(&l.data, l.token_table, l.token_table_size),
        Ok((l.token_index, Endian::Little))
    );
}

#[test]
fn token_index_holds_the_token_starts() {
    let l = synthetic_kernel();
    let (at, endian) = find_kallsyms_token_index(&l.data, l.token_table, l.token_table_size).unwrap();
    let mut offset = 0usize;
    for (i, t) in token_strings().iter().take(123).enumerate() {
        let entry = read_entry_unsigned(&l.data, at + 2 * i, endian, 2).unwrap();
        assert_eq!(entry, offset as u64);
        offset += t.len() + 1;
    }
}

#[test]
fn token_index_small_cases() {
    let mut data = b"a\0bc\0d\0".to_vec();
    data.extend_from_slice(&[9, 9, 9]);
    data.extend_from_slice(&[0, 0, 0, 2, 0, 5]);
    assert_eq!(find_kallsyms_token_index(&data, 0, 7), Ok((10, Endian::Big)));
    let mut data = b"a\0bc\0d\0".to_vec();
    data.extend_from_slice(&[7, 0, 0, 2, 0, 5, 0]);
    assert_eq!(find_kallsyms_token_index(&data, 0, 7), Ok((8, Endian::Little)));
    assert_eq!(find_kallsyms_token_index(b"a\0bc\0d\0", 0, 7), Err(ScanError::TokenIndexNotFound));
}

#[test]
fn valid_first_tokens_are_the_symbol_type_letters() {
    let v = valid_first();
    let expected: Vec<u8> = token_strings()
        .iter()
        .enumerate()
        .filter(|(_, t)| "ABDRTVWGINPCSUabcdginprstuvw-?".contains(t.chars().next().unwrap()))
        .map(|(i, _)| i as u8)
        .collect();
    assert_eq!(v, expected);
    assert!(v.contains(&84));
    assert!(!v.contains(&49));
}

#[test]
fn markers_are_found_before_the_token_table() {
    let l = synthetic_kernel();
    let (at, entries, width) = find_kallsyms_markers(&l.data, l.token_table, Endian::Little).unwrap();
    assert_eq!((at, width), (l.markers, 8));
    assert_eq!(entries, MARKERS.to_vec());
    assert_eq!(entries[0], 0);
    assert!(entries.windows(2).all(|w| w[0] + 0x200 < w[1] && w[1] <= w[0] + 0x40000));
}

#[test]
fn markers_missing() {
    let data = vec![0xeeu8; 64];
    assert_eq!(find_kallsyms_markers(&data, 64, Endian::Little), Err(ScanError::MarkersNotFound));
}

#[test]
fn names_candidates() {
    let l = synthetic_kernel();
    let mut lookup = [false; 256];
    for i in valid_first() {
        lookup[i as usize] = true;
    }
    let markers = MARKERS;
    assert!(validate_names_candidate(&l.data, l.names, &markers, &lookup));
    assert!(!validate_names_candidate(&l.data, l.names + 4, &markers, &lookup));
    assert!(!validate_names_candidate(&l.data, l.names + 1, &markers, &lookup));
    assert!(!validate_names_candidate(&l.data, l.data.len(), &markers, &lookup));
    assert_eq!(find_kallsyms_names(&l.data, &markers, valid_first()), Ok(l.names));
}

#[test]
fn names_candidate_must_be_unique() {
    let data = [1u8, 84, 1, 84, 0];
    assert_eq!(find_kallsyms_names(&data, &[0], vec![84]), Err(ScanError::NamesNotFound));
    assert_eq!(find_kallsyms_names(&data, &[0, 2], vec![84]), Ok(0));
    assert_eq!(find_kallsyms_names(&data, &[0], vec![]), Err(ScanError::NamesNotFound));
}

#[test]
fn symbols_are_counted_from_the_last_marker() {
    let l = synthetic_kernel();
    assert_eq!(count_num_symbols(&l.data, l.names, &MARKERS), Ok(NUM_SYMS as u64));
    let data = [2u8, 1, 2, 1, 3, 0];
    assert_eq!(count_num_symbols(&data, 0, &[0]), Ok(2));
    assert_eq!(count_num_symbols(&data, 0, &[0, 0]), Ok(258));
}

#[test]
fn symbol_count_errors() {
    let data = [2u8, 1, 2, 1, 3, 0];
    assert_eq!(count_num_symbols(&data, 0, &[]), Err(ScanError::EmptyMarkers));
    assert_eq!(count_num_symbols(&data[..5], 0, &[0]), Err(ScanError::NamesOutOfData));
    assert_eq!(count_num_symbols(&data, 10, &[0]), Err(ScanError::NamesOutOfData));
    let endless = vec![1u8; 1000];
    assert_eq!(count_num_symbols(&endless, 0, &[0]), Err(ScanError::InvalidNamesCandidate));
}

#[test]
fn num_syms_is_found_before_the_names() {
    let l = synthetic_kernel();
    let found = find_kallsyms_num_syms(&l.data, l.names, 8, Endian::Little, NUM_SYMS as u64);
    assert_eq!(found, Ok(l.num_syms));
    assert_eq!(read_entry_unsigned(&l.data, l.num_syms, Endian::Little, 8), Ok(NUM_SYMS as u64));
    let mut data = vec![0u8; 400];
    data[100..104].copy_from_slice(&5u32.to_be_bytes());
    assert_eq!(find_kallsyms_num_syms(&data, 300, 4, Endian::Big, 5), Ok(100));
    assert_eq!(find_kallsyms_num_syms(&data, 300, 4, Endian::Little, 5), Ok(103));
    assert_eq!(find_kallsyms_num_syms(&data, 300, 4, Endian::Little, 6), Err(ScanError::NumSymsNotFound));
}

#[test]
fn num_syms_errors() {
    let data = vec![0u8; 400];
    assert_eq!(find_kallsyms_num_syms(&data, 100, 4, Endian::Big, 5), Err(ScanError::NamesOutOfData));
    assert_eq!(find_kallsyms_num_syms(&data, 400, 4, Endian::Big, 5), Err(ScanError::NamesOutOfData));
    assert_eq!(find_kallsyms_num_syms(&data, 300, 3, Endian::Big, 5), Err(ScanError::UnsupportedEntrySize));
    assert_eq!(find_kallsyms_num_syms(&data, 300, 2, Endian::Big, 70000), Err(ScanError::NumSymsTooLarge));
}

fn kernel(banner: &str) -> KernelVersion {
    KernelVersion::try_from(banner).unwrap()
}

#[test]
fn offsets_tables_of_the_synthetic_kernel() {
    let l = synthetic_kernel();
    let (rb, offs, base, addrs) = find_kallsyms_offsets(
        &l.data,
        NUM_SYMS,
        kernel("Linux version 5.10.0-test (gcc) #1 SMP"),
        8,
        l.token_index + 512,
        l.num_syms,
        Endian::Little,
    )
    .unwrap();
    assert_eq!((rb, offs, base), (l.relative_base, l.offsets, RELATIVE_BASE));
    assert_eq!(addrs.len(), NUM_SYMS);
    assert_eq!(addrs[768], RELATIVE_BASE + 16 * 768);
}

#[test]
fn mostly_negative_offsets_count_down_from_the_base() {
    let mut data = Vec::new();
    for v in [-1i32, -2, 5] {
        data.extend_from_slice(&v.to_le_bytes());
    }
    data.extend_from_slice(&0x1000u64.to_le_bytes());
    let end = data.len();
    data.extend_from_slice(&[0u8; 16]);
    let (rb, offs, base, addrs) =
        find_kallsyms_offsets(&data, 3, kernel("Linux version 5.4.0 x86_64"), 8, 0, end + 16, Endian::Little).unwrap();
    assert_eq!((rb, offs, base), (12, 0, 0x1000));
    assert_eq!(addrs, vec![0x1000, 0x1001, 5]);
}

#[test]
fn mostly_positive_offsets_are_added_to_the_base() {
    let mut data = Vec::new();
    for v in [-1i32, 2, 5] {
        data.extend_from_slice(&v.to_le_bytes());
    }
    data.extend_from_slice(&0x1000u64.to_le_bytes());
    let end = data.len();
    let (_, _, _, addrs) =
        find_kallsyms_offsets(&data, 3, kernel("Linux version 5.4.0 x86_64"), 8, 0, end, Endian::Little).unwrap();
    assert_eq!(addrs, vec![0xfff, 0x1002, 0x1005]);
}

#[test]
fn offsets_after_the_token_index_since_6_4() {
    let mut data = vec![0xeeu8; 16];
    for v in [1i32, 2] {
        data.extend_from_slice(&v.to_le_bytes());
    }
    data.extend_from_slice(&0x2000u64.to_le_bytes());
    let (rb, offs, base, addrs) =
        find_kallsyms_offsets(&data, 2, kernel("Linux version 6.4.0 x86_64"), 8, 13, 0, Endian::Little).unwrap();
    assert_eq!((rb, offs, base), (24, 16, 0x2000));
    assert_eq!(addrs, vec![0x2001, 0x2002]);
}

#[test]
fn offsets_refuse_itanium() {
    let data = vec![1u8; 64];
    let r = find_kallsyms_offsets(&data, 1, kernel("Linux version 5.4.0 IA64 build"), 8, 0, 32, Endian::Little);
    assert!(matches!(r, Err(ScanError::ItaniumUnsupported)));
    let r = find_kallsyms_offsets(&data, 1, kernel("Linux version 5.4.0 Itanium"), 8, 0, 32, Endian::Little);
    assert!(matches!(r, Err(ScanError::ItaniumUnsupported)));
}

#[test]
fn offsets_without_relative_base() {
    let data = vec![0u8; 64];
    let r = find_kallsyms_offsets(&data, 1, kernel("Linux version 5.4.0 x86_64"), 8, 0, 32, Endian::Little);
    assert!(matches!(r, Err(ScanError::RelativeBaseNotFound)));
    let r = find_kallsyms_offsets(&data, 1, kernel("Linux version 5.4.0 x86_64"), 8, 0, 100, Endian::Little);
    assert!(matches!(r, Err(ScanError::OffsetsOutOfData)));
}

#[test]
fn symbol_names_are_token_concatenations() {
    let table: Vec<String> = vec!["T".to_string(), "ab".to_string(), "c".to_string()];
    let data = [2u8, 0, 1, 1, 2, 0];
    assert_eq!(extract_symbol_names(&data, 0, &table), Ok(vec!["Tab".to_string(), "c".to_string()]));
    assert_eq!(extract_symbol_names(&data, 5, &table), Ok(vec![]));
}

#[test]
fn symbol_search_drops_the_type_letter() {
    let table: Vec<String> = vec!["T".to_string(), "ab".to_string(), "tc".to_string()];
    let data = [2u8, 0, 1, 1, 2, 0];
    let found = search_symbol_names(&data, 0, &table, &vec!["c".to_string()]).unwrap();
    assert_eq!(found, vec![("ab".to_string(), false), ("c".to_string(), true)]);
}

#[test]
fn token_table_pieces_from_an_offset() {
    let data = b"ab\0c\0\0d";
    assert_eq!(build_token_table(data, 0), vec!["ab", "c", "", "d"]);
    assert_eq!(build_token_table(data, 1), vec!["b", "c", "", "d"]);
}

#[test]
fn itanium_is_refused_whatever_the_entry_size() {
    let data = vec![0u8; 16];
    let r = find_kallsyms_offsets(&data, 1, kernel("Linux version 5.4.0 ia64"), 0, 0, 8, Endian::Little);
    assert!(matches!(r, Err(ScanError::ItaniumUnsupported)));
}

#[test]
fn offsets_from_a_known_word_size() {
    let mut data = Vec::new();
    for v in [-1i32, -2, 5] {
        data.extend_from_slice(&v.to_le_bytes());
    }
    data.extend_from_slice(&0x1000u64.to_le_bytes());
    let end = data.len();
    assert_eq!(
        offsets_from(&data, 3, true, 8, 5, 4, 0, end, Endian::Little),
        Ok((12, 0, 0x1000, vec![0x1000, 0x1001, 5]))
    );
    assert_eq!(
        offsets_from(&data, 3, false, 4, 5, 4, 0, end, Endian::Little),
        Ok((12, 0, 0x1000, vec![0x1000, 0x1001, 5]))
    );
}

#[test]
fn offsets_search_start_ignores_the_other_input() {
    let mut data = vec![0xeeu8; 16];
    for v in [1i32, 2] {
        data.extend_from_slice(&v.to_le_bytes());
    }
    data.extend_from_slice(&0x2000u64.to_le_bytes());
    let k = "Linux version 6.4.0 x86_64";
    let a = find_kallsyms_offsets(&data, 2, kernel(k), 8, 13, 0, Endian::Little).unwrap();
    let b = find_kallsyms_offsets(&data, 2, kernel(k), 8, 13, 99, Endian::Little).unwrap();
    assert_eq!(a, b);
    let k = "Linux version 6.3.0 x86_64";
    let a = find_kallsyms_offsets(&data, 2, kernel(k), 8, 0, 32, Endian::Little).unwrap();
    let b = find_kallsyms_offsets(&data, 2, kernel(k), 8, 1000, 32, Endian::Little).unwrap();
    assert_eq!(a, b);
}

#[test]
fn carved_names_match_the_table_readers() {
    let l = synthetic_kernel();
    let k = carve_kallsyms(&RawImage::new(String::new(), l.data.clone())).unwrap();
    let table = build_token_table(&l.data, k.kallsyms_token_table);
    assert_eq!(extract_symbol_names(&l.data, k.kallsyms_names, &table).unwrap(), k.symbol_names);
    let cands = find_kallsyms_token_table(&RawImage::new(String::new(), l.data.clone())).unwrap();
    assert!(cands.iter().any(|(t, _)| *t == k.kallsyms_token_table));
    assert!(k.kallsyms_markers < k.kallsyms_token_table && k.kallsyms_names < l.data.len());
}

#[test]
fn markers_are_the_values_at_their_slots() {
    let l = synthetic_kernel();
    let (at, entries, width) = find_kallsyms_markers(&l.data, l.token_table, Endian::Little).unwrap();
    for (i, e) in entries.iter().enumerate() {
        assert_eq!(read_entry_unsigned(&l.data, at + i * width, Endian::Little, width), Ok(*e));
    }
    let n = ((l.token_table - at) / width).min(3000);
    assert_eq!(entries.len(), n.max(1));
}
