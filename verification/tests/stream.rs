use gguf_rs::stream::{flush_utf8, valid_prefix};

#[test]
fn complete_text_goes_out() {
    let mut buf = "h\u{e9}llo".as_bytes().to_vec();
    assert_eq!(flush_utf8(&mut buf), "h\u{e9}llo");
    assert!(buf.is_empty());
    assert_eq!(flush_utf8(&mut buf), "");
}

#[test]
fn incomplete_character_waits() {
    let text = "a\u{1f600}b".as_bytes();
    let mut buf = Vec::new();
    let mut shown = String::new();
    for &b in text {
        buf.push(b);
        shown.push_str(&flush_utf8(&mut buf));
    }
    assert_eq!(shown, "a\u{1f600}b");
    assert!(buf.is_empty());
}

#[test]
fn longest_valid_prefix() {
    assert_eq!(valid_prefix(b"abc"), 3);
    assert_eq!(valid_prefix(&[b'a', 0xE4, 0xBD]), 1);
    assert_eq!(valid_prefix(&[0xFF, b'a']), 0);
    assert_eq!(valid_prefix(&[]), 0);
}

#[test]
fn what_does_not_go_out_stays() {
    let mut buf = vec![b'x', 0xE4, 0xBD];
    assert_eq!(flush_utf8(&mut buf), "x");
    assert_eq!(buf, vec![0xE4, 0xBD]);
}
