use btf2json::error::ScanError;
use btf2json::image::raw::RawImage;
use btf2json::image::traits::{ImageRead, MemoryImage};

fn image(bytes: &[u8]) -> RawImage {
    RawImage::new("vmlinux.raw".to_string(), bytes.to_vec())
}

#[test]
fn raw_image_gives_its_bytes_and_name() {
    let img = image(b"abc");
    assert_eq!(img.as_bytes(), b"abc");
    assert_eq!(img.name(), "vmlinux.raw");
}

#[test]
fn raw_image_cannot_carve() {
    let img = image(b"abc");
    assert_eq!(img.carve_banner(), Err(ScanError::Unimplemented));
    assert!(matches!(img.carve_btf(), Err(ScanError::Unimplemented)));
}

#[test]
fn read_until_stops_at_a_terminator() {
    let img = image(b"hello\nworld\0rest");
    assert_eq!(img.read_until(0, vec![0, b'\n'], None), Some(&b"hello"[..]));
    assert_eq!(img.read_until(6, vec![0, b'\n'], None), Some(&b"world"[..]));
    assert_eq!(img.read_until(5, vec![0, b'\n'], None), Some(&b""[..]));
}

#[test]
fn read_until_stops_at_the_limit_or_the_end() {
    let img = image(b"abcdefgh");
    assert_eq!(img.read_until(1, vec![0], Some(3)), Some(&b"bcd"[..]));
    assert_eq!(img.read_until(5, vec![0], Some(100)), Some(&b"fgh"[..]));
    assert_eq!(img.read_until(8, vec![0], None), Some(&b""[..]));
    let long = vec![b'a'; 2000];
    let img = image(&long);
    assert_eq!(img.read_until(0, vec![0], None).unwrap().len(), 1024);
    assert_eq!(img.read_until(10, vec![0], Some(usize::MAX)).unwrap().len(), 1990);
}

#[test]
fn read_bytes_is_cut_at_the_end() {
    let img = image(b"abcdef");
    assert_eq!(img.read_bytes(1, 3), Some(&b"bcd"[..]));
    assert_eq!(img.read_bytes(4, 10), Some(&b"ef"[..]));
    assert_eq!(img.read_bytes(6, 1), Some(&b""[..]));
}

#[test]
fn scan_bytes_finds_non_overlapping_occurrences() {
    let img = image(b"aaaa-aa");
    assert_eq!(img.scan_bytes(b"aa"), vec![0, 2, 5]);
    assert_eq!(img.scan_bytes(b"b"), Vec::<usize>::new());
}

#[test]
fn scan_regex_gives_match_spans() {
    let img = image(b"x KERNELOFFSET=1f\n y KERNELOFFSET=2\n");
    assert_eq!(
        img.scan_regex(r"KERNELOFFSET=[0-9a-f]+\n"),
        Some(vec![(2, 18), (21, 36)])
    );
    assert_eq!(img.scan_regex(r"(unclosed"), None);
}
