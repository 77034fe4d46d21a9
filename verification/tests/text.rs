use thclaws_core::paths::join_path;
use thclaws_core::text::{
    blank, hex_char, lowercase, push_decimal, replace, split_at_char, strip_suffix,
    strip_trailing, to_chars, to_text, trim, white_space,
};

#[test]
fn white_space_is_what_the_standard_library_says() {
    for code in 0..=0x10ffffu32 {
        if let Some(c) = char::from_u32(code) {
            assert_eq!(white_space(c), c.is_whitespace(), "{code:x}");
        }
    }
}

#[test]
fn trimming() {
    for s in ["", " ", "a", " a b\t", "\u{3000}x\u{85}", "\r\n\r\n"] {
        assert_eq!(to_text(trim(&to_chars(s))), s.trim());
        assert_eq!(blank(s), s.trim().is_empty());
    }
    assert_eq!(to_text(strip_trailing(&to_chars("a//b//"), '/')), "a//b");
    assert_eq!(to_text(strip_trailing(&to_chars("///"), '/')), "");
}

#[test]
fn small_letters() {
    let s = "AZaz@[`{É0";
    assert_eq!(to_text(&lowercase(&to_chars(s))), s.to_ascii_lowercase());
}

#[test]
fn splitting() {
    for s in ["", "/", "a", "a/b", "/a//b/"] {
        let chars = to_chars(s);
        let parts: Vec<String> = split_at_char(&chars, '/').iter().map(|p| to_text(p)).collect();
        let expected: Vec<&str> = s.split('/').collect();
        assert_eq!(parts, expected);
    }
}

#[test]
fn suffixes() {
    assert_eq!(to_text(strip_suffix(&to_chars("a.git"), &to_chars(".git"))), "a");
    assert_eq!(to_text(strip_suffix(&to_chars("git"), &to_chars(".git"))), "git");
}

#[test]
fn replacing() {
    for (s, pat, with) in [("aaa", "aa", "b"), ("abab", "ab", ""), ("x", "y", "z"), ("", "a", "b")] {
        assert_eq!(replace(s, pat, with), s.replace(pat, with));
    }
}

#[test]
fn numbers_in_decimal() {
    for n in [0usize, 7, 10, 99, 1234567890, usize::MAX] {
        let mut out = String::from("n=");
        push_decimal(&mut out, n);
        assert_eq!(out, format!("n={n}"));
    }
}

#[test]
fn hexadecimal_digits() {
    for d in 0..16u8 {
        assert_eq!(hex_char(d), char::from_digit(d as u32, 16).unwrap());
    }
}

#[test]
fn joining_paths() {
    let cases =
        [("/a", "b"), ("/a/", "b"), ("", "b"), ("/a", "/b"), ("/a", ""), ("/", "b/c"), ("a//", "b")];
    for (base, rel) in cases {
        let expected = std::path::Path::new(base).join(rel).display().to_string();
        assert_eq!(join_path(base, rel), expected);
    }
}
