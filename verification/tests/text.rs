use apollo::text::{
    append_padded_left, append_padded_right, bytes_before, decimal_text, same_text, signed_text,
    space, trim,
};

#[test]
fn numbers_are_written_as_usual() {
    for n in [0u64, 1, 9, 10, 42, 99, 100, 4_294_967_295, u64::MAX] {
        assert_eq!(decimal_text(n), n.to_string());
    }
    assert_eq!(decimal_text(65_536), "65536");
}

#[test]
fn integers_may_be_negative() {
    for n in [0, 1, -1, 127, -10, i32::MAX, i32::MIN] {
        assert_eq!(signed_text(n), n.to_string());
    }
    assert_eq!(signed_text(-128), "-128");
}

#[test]
fn bytes_are_ordered_as_usual() {
    let words: [&[u8]; 7] = [b"", b"a", b"aa", b"ab", b"b", b"\x7f", b"\xff"];
    for x in words {
        for y in words {
            assert_eq!(bytes_before(x, y), x < y, "{x:?} {y:?}");
        }
    }
}

#[test]
fn texts_are_the_same_or_not() {
    assert!(same_text("sshd", "sshd"));
    assert!(same_text("", ""));
    assert!(!same_text("sshd", "sshe"));
    assert!(!same_text("sshd", "ssh"));
    assert!(!same_text("\u{e9}", "e\u{301}"));
}

#[test]
fn white_space_is_what_unicode_says() {
    for n in 0..=0x10_ffffu32 {
        if let Some(c) = char::from_u32(n) {
            assert_eq!(space(c), c.is_whitespace(), "{n:x}");
        }
    }
}

#[test]
fn white_space_is_trimmed_at_both_ends() {
    for s in ["", " ", " \t\r\n", "void", "void\n", "\n void box \u{3000}", "\u{200b}x\u{a0}"] {
        assert_eq!(trim(s), s.trim(), "{s:?}");
    }
    assert_eq!(trim("  my host \n"), "my host");
}

#[test]
fn columns_are_padded() {
    let mut s = String::from("|");
    append_padded_right(&mut s, "ab", 4);
    append_padded_left(&mut s, "cd", 5);
    append_padded_right(&mut s, "longer", 3);
    append_padded_left(&mut s, "\u{e9}", 2);
    assert_eq!(s, "|ab     cdlonger \u{e9}");
    assert_eq!(s, format!("|{:<4}{:>5}{:<3}{:>2}", "ab", "cd", "longer", "\u{e9}"));
}
