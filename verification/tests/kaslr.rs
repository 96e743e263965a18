use btf2json::banner::Architectures;
use btf2json::error::ScanError;
use btf2json::image::raw::RawImage;
use btf2json::kaslr::{find_kaslr_slide, kernel_offset_from_matches, kernel_offset_value};

fn image(bytes: &[u8]) -> RawImage {
    RawImage::new(String::new(), bytes.to_vec())
}

#[test]
fn kaslr_slide_from_vmcoreinfo() {
    let img = image(b"OSRELEASE=6.1.0\nKERNELOFFSET=1a000000\nNUMBER(phys_base)=0\n");
    assert_eq!(find_kaslr_slide(&img, Architectures::x86_64), Ok(0x1a000000));
    assert_eq!(find_kaslr_slide(&img, Architectures::aarch64), Ok(0x1a000000));
}

#[test]
fn kaslr_slide_takes_the_first_entry() {
    let img = image(b"KERNELOFFSET=2Fe00000\n...KERNELOFFSET=3\n");
    assert_eq!(find_kaslr_slide(&img, Architectures::x86_64), Ok(0x2fe00000));
}

#[test]
fn kaslr_slide_missing() {
    let img = image(b"KERNELOFFSET=\n KERNELOFFSET=zz\n");
    assert_eq!(find_kaslr_slide(&img, Architectures::x86_64), Err(ScanError::KaslrNotFound));
}

#[test]
fn kaslr_slide_too_large_is_an_error() {
    let img = image(b"KERNELOFFSET=10000000000000000\n");
    assert_eq!(find_kaslr_slide(&img, Architectures::x86_64), Err(ScanError::InvalidNumber));
}

#[test]
fn kaslr_slide_is_zero_without_randomization_support() {
    let img = image(b"KERNELOFFSET=1000\n");
    for arch in [
        Architectures::armbe,
        Architectures::armle,
        Architectures::superhbe,
        Architectures::superhle,
        Architectures::sparc,
    ] {
        assert_eq!(find_kaslr_slide(&img, arch), Ok(0));
    }
}

#[test]
fn kaslr_slide_unsupported_architectures() {
    let img = image(b"KERNELOFFSET=1000\n");
    for arch in [Architectures::mipsle, Architectures::x86, Architectures::riscv, Architectures::powerpcbe] {
        assert_eq!(find_kaslr_slide(&img, arch), Err(ScanError::UnsupportedArchitecture));
    }
}

#[test]
fn kernel_offset_entries() {
    assert_eq!(kernel_offset_value("KERNELOFFSET=1a\n"), Ok(0x1a));
    assert_eq!(kernel_offset_value("K= \t ff \u{3000}"), Ok(0xff));
    assert_eq!(kernel_offset_value("A=B=1"), Err(ScanError::InvalidNumber));
    assert_eq!(kernel_offset_value("no equals"), Err(ScanError::MissingEquals));
    assert_eq!(kernel_offset_value("K=   "), Err(ScanError::InvalidNumber));
    assert_eq!(kernel_offset_value("K=+10"), Ok(0x10));
    assert_eq!(kernel_offset_value("K=ffffffffffffffff"), Ok(u64::MAX));
}

#[test]
fn kernel_offset_from_several_matches() {
    let data = b"K=10\nK=zz\n";
    assert_eq!(kernel_offset_from_matches(data, &vec![(0, 5)]), Ok(0x10));
    assert_eq!(kernel_offset_from_matches(data, &vec![(0, 5), (5, 10)]), Err(ScanError::InvalidNumber));
    assert_eq!(kernel_offset_from_matches(data, &vec![]), Err(ScanError::KaslrNotFound));
    assert_eq!(kernel_offset_from_matches(b"K\xff=7", &vec![(0, 4)]), Ok(7));
}
