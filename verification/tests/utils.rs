use btf2json::utils::{escape_bytes, most_common};

fn strings(v: &[&str]) -> Vec<String> {
    v.iter().map(|s| s.to_string()).collect()
}

#[test]
fn most_common_picks_the_most_frequent() {
    assert_eq!(most_common(strings(&["a", "b", "a", "c", "b", "a"])), Some("a".to_string()));
    assert_eq!(most_common(strings(&["x"])), Some("x".to_string()));
}

#[test]
fn most_common_of_nothing_is_none() {
    assert_eq!(most_common(Vec::new()), None);
}

#[test]
fn most_common_breaks_ties_by_first_occurrence() {
    assert_eq!(most_common(strings(&["y", "x", "x", "y"])), Some("y".to_string()));
}

#[test]
fn escape_keeps_graphic_bytes() {
    assert_eq!(escape_bytes(b"Linux!~"), b"Linux!~".to_vec());
}

#[test]
fn escape_writes_other_bytes_in_hex() {
    assert_eq!(escape_bytes(b"A\x00 z\xff\n"), b"A\\x00\\x20z\\xff\\x0a".to_vec());
    assert_eq!(escape_bytes(b""), Vec::<u8>::new());
}

#[test]
fn escaped_text_is_printable() {
    let all: Vec<u8> = (0..=255u8).collect();
    let out = escape_bytes(&all);
    assert!(out.iter().all(|b| b.is_ascii_graphic()));
    assert_eq!(out.len(), 94 + 4 * 162);
}
