use npump::text::{chars_less, chars_of, decimal_string, string_from_chars, trim_chars};

#[test]
fn decimal_rendering() {
    for n in [0u64, 7, 10, 99, 100, 12345, u64::MAX] {
        assert_eq!(decimal_string(n), n.to_string());
    }
}

#[test]
fn trimming_matches_str_trim() {
    for s in ["", "  ", " a ", "\t^1.2.3\n", "\u{3000}x\u{2028}", "\u{85}y\u{a0}", "a b"] {
        let t: String = trim_chars(chars_of(s).as_slice()).into_iter().collect();
        assert_eq!(t, s.trim());
    }
}

#[test]
fn char_order_matches_string_order() {
    let words = ["", "a", "B", "b", "ab", "é", "z", "aa", "\u{10000}", "\u{ffff}"];
    for a in words {
        for b in words {
            assert_eq!(chars_less(chars_of(a).as_slice(), chars_of(b).as_slice()), a < b, "{a:?} {b:?}");
        }
    }
}

#[test]
fn chars_round_trip() {
    let s = "héllo ✓";
    assert_eq!(string_from_chars(chars_of(s).as_slice()), s);
}

#[test]
fn white_space_agrees_with_std_on_all_chars() {
    for u in 0u32..=0x10FFFF {
        if let Some(c) = char::from_u32(u) {
            assert_eq!(npump::text::white_space(c), c.is_whitespace(), "char {:x}", u);
        }
    }
}

#[test]
fn padding_matches_format() {
    for s in ["", "ab", "exactly-five", "é✓"] {
        for w in [0usize, 3, 12, 15] {
            let mut out = Vec::new();
            npump::text::push_padded(&mut out, chars_of(s).as_slice(), w);
            assert_eq!(out.into_iter().collect::<String>(), format!("{:<w$}", s, w = w));
        }
    }
}
