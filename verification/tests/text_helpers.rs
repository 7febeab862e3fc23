use rust_governor::text::{encode_utf16_str, parse_u32_str, trim_nul_str, trim_str};

#[test]
fn trimming_matches_std() {
    for s in ["", "   ", " a b ", "\t\r\nx\u{3000}", "\u{85}y\u{a0}", "z\u{200b}"] {
        assert_eq!(trim_str(s), s.trim(), "{s:?}");
    }
    for s in ["", "\0\0", "\0a\0b\0", "ab"] {
        assert_eq!(trim_nul_str(s), s.trim_matches('\0'), "{s:?}");
    }
}

#[test]
fn parsing_matches_std() {
    for s in ["", "0", "007", "+5", "+", "-0", "-5", "4294967295", "4294967296", "12a", " 1", "99999999999999999999", "+-1", "٣"] {
        assert_eq!(parse_u32_str(s), s.parse::<u32>().ok(), "{s:?}");
    }
}

#[test]
fn utf16_round_trip() {
    for s in ["", "plain", "\u{1F600} and \u{10FFFF}", "é\u{FFFF}"] {
        let u = encode_utf16_str(s);
        assert_eq!(u, s.encode_utf16().collect::<Vec<u16>>());
    }
}

