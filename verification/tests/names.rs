//! Names of files that are not text.
use image_janitor::name::{name_bytes, name_text, MARK};

#[test]
fn text_names_are_themselves() {
    assert_eq!(name_text(Some("fw.bin"), &b"fw.bin".to_vec()), "fw.bin");
    assert_eq!(name_text(Some(""), &vec![]), "");
    assert!(name_bytes("fw.bin").is_none());
    assert!(name_bytes("").is_none());
}

#[test]
fn other_names_are_read_back() {
    for bytes in [vec![0xffu8], vec![b'a', 0x80, b'.', 0xfe], (1..=255u8).collect()] {
        let text = name_text(None, &bytes);
        assert!(text.starts_with(MARK));
        assert_eq!(name_bytes(&text), Some(bytes));
    }
    assert_ne!(name_text(None, &vec![0x80]), name_text(None, &vec![0x81]));
}

#[test]
fn names_that_look_like_written_bytes_are_written_in_bytes() {
    let odd = format!("{}a", MARK);
    let bytes = odd.as_bytes().to_vec();
    let text = name_text(Some(&odd), &bytes);
    assert_ne!(text, odd);
    assert_eq!(name_bytes(&text), Some(bytes));
    assert!(name_bytes(&format!("{}\u{100}", MARK)).is_none());
}
