use btf2json::banner::{banner_scan, Architecture, Architectures, Banner, KernelVersion};
use btf2json::bytes::Endian;
use btf2json::error::ScanError;
use btf2json::image::raw::RawImage;

fn image(bytes: &[u8]) -> RawImage {
    RawImage::new(String::new(), bytes.to_vec())
}

#[test]
fn banner_scan_finds_the_banner() {
    let mut data = vec![0xeeu8; 16];
    data.extend_from_slice(b"Linux version 5.15.0-91-generic (buildd@lcy02) #101 SMP\n");
    data.extend_from_slice(&[0u8; 8]);
    let r = banner_scan(&image(&data));
    assert_eq!(r, Some("Linux version 5.15.0-91-generic (buildd@lcy02) #101 SMP".to_string()));
}

#[test]
fn banner_scan_takes_the_most_frequent_banner() {
    let mut data = Vec::new();
    data.extend_from_slice(b"Linux version 4.1.2 other\0");
    data.extend_from_slice(b"Linux version 6.1.0 main\0");
    data.extend_from_slice(b"Linux version 6.1.0 main\n");
    let r = banner_scan(&image(&data));
    assert_eq!(r, Some("Linux version 6.1.0 main".to_string()));
}

#[test]
fn banner_scan_without_banner_is_none() {
    assert_eq!(banner_scan(&image(b"no banner here, Linux version x.y")), None);
}

#[test]
fn banner_scan_skips_text_that_is_not_utf8() {
    let mut data = Vec::new();
    data.extend_from_slice(b"Linux version 1.2.3 \xff\xfe\0");
    assert_eq!(banner_scan(&image(&data)), None);
    data.extend_from_slice(b"Linux version 1.2.4 ok\0");
    assert_eq!(banner_scan(&image(&data)), Some("Linux version 1.2.4 ok".to_string()));
}

#[test]
fn kernel_version_from_banner() {
    let k = KernelVersion::try_from("Linux version 6.5.0-14-generic (gcc) #14 SMP").unwrap();
    assert_eq!((k.major, k.minor), (6, 5));
    assert_eq!(k.banner_string, "Linux version 6.5.0-14-generic (gcc) #14 SMP");
    let k = KernelVersion::try_from("Linux version 4.18.0").unwrap();
    assert_eq!((k.major, k.minor), (4, 18));
}

#[test]
fn kernel_version_errors() {
    assert!(matches!(KernelVersion::try_from("Linux version"), Err(ScanError::VersionNotFound)));
    assert!(matches!(KernelVersion::try_from("Linux version 6"), Err(ScanError::VersionNotFound)));
    assert!(matches!(KernelVersion::try_from("Linux version x.5.0"), Err(ScanError::InvalidNumber)));
    assert!(matches!(KernelVersion::try_from("Linux version 300.1.0"), Err(ScanError::InvalidNumber)));
    assert!(matches!(KernelVersion::try_from("Linux version 6.-1.0"), Err(ScanError::InvalidNumber)));
}

#[test]
fn kernel_version_accepts_a_plus_sign() {
    let k = KernelVersion::try_from("Linux version +6.+2.0").unwrap();
    assert_eq!((k.major, k.minor), (6, 2));
}

#[test]
fn architecture_from_banner() {
    let a = Architecture::try_from("Linux version 6.1.0 (x86_64-linux-gnu-gcc)").unwrap();
    assert_eq!(
        a,
        Architecture { architecture: Architectures::x86_64, is_64_bit: true, endian: Endian::Little }
    );
    let a = Architecture::try_from("Linux version 4.4.0 (i686-pc-linux-gnu)").unwrap();
    assert!(!a.is_64_bit);
    assert!(Architecture::try_from("aarch64 kernel").unwrap().is_64_bit);
    assert!(Architecture::try_from("itanium").unwrap().is_64_bit);
}

fn elf_with_banner() -> Vec<u8> {
    let mut raw = vec![0x7f, b'E', b'L', b'F', 2, 1, 1, 0];
    raw.extend_from_slice(&[0u8; 8]);
    raw.extend_from_slice(b"Linux version 6.8.0 (btf) #1\0");
    raw
}

#[test]
fn banner_from_btf_elf() {
    let b = Banner::from_btfsec(&elf_with_banner()).unwrap();
    assert_eq!(b.as_str(), "Linux version 6.8.0 (btf) #1");
    assert_eq!(b.to_string(), "Linux version 6.8.0 (btf) #1");
    assert_eq!(b.as_bytes(), b"Linux version 6.8.0 (btf) #1");
}

#[test]
fn banner_from_btf_needs_elf() {
    assert!(matches!(Banner::from_btfsec(b"Linux version 6.8.0"), Err(ScanError::NotElf)));
    assert!(matches!(Banner::from_btfsec(b"\x7fEL"), Err(ScanError::NotElf)));
    let raw = vec![0x7f, b'E', b'L', b'F', 0, 0];
    assert!(matches!(Banner::from_btfsec(&raw), Err(ScanError::BannerNotFound)));
}

#[test]
fn banner_sources_in_order() {
    let img = image(b"Linux version 5.4.0 img\n");
    let btf = elf_with_banner();
    let b = Banner::try_from_sources(Some("given".to_string()), Some(&btf), Some(&img)).unwrap();
    assert_eq!(b.as_str(), "given");
    let b = Banner::try_from_sources(None, Some(&btf), Some(&img)).unwrap();
    assert_eq!(b.as_str(), "Linux version 6.8.0 (btf) #1");
    let b = Banner::try_from_sources(None, Some(b"not elf"), Some(&img)).unwrap();
    assert_eq!(b.as_str(), "Linux version 5.4.0 img");
    assert!(matches!(
        Banner::try_from_sources(None, None, Some(&image(b"nothing"))),
        Err(ScanError::BannerNotFound)
    ));
    assert!(matches!(Banner::try_from_sources(None, None, None), Err(ScanError::BannerNotFound)));
}
