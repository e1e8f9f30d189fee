use dsh_desktop::text::{
    decimal,
    join_with, parse_u16, split_char, text_ends_with, text_eq, text_lt, trim, white_space,
};

#[test]
fn trim_matches_std() {
    let samples = [
        "",
        "   ",
        " 49473 ",
        "\t\n49473\r\n",
        "\u{3000}全角\u{3000}",
        "\u{85}a b\u{a0}",
        "\u{2028}x\u{200a}",
        "no-space",
        " a\u{200b} ",
    ];
    for s in samples {
        assert_eq!(trim(s), s.trim(), "trim of {:?}", s);
    }
}

#[test]
fn white_space_matches_std() {
    for c in ['\u{0}', ' ', '\t', '\n', '\u{b}', '\u{c}', '\r', '\u{1c}', '\u{85}', '\u{a0}', '\u{1680}',
        '\u{180e}', '\u{2000}', '\u{200a}', '\u{200b}', '\u{2028}', '\u{2029}', '\u{202f}', '\u{205f}',
        '\u{3000}', 'a', '中'] {
        assert_eq!(white_space(c), c.is_whitespace(), "{:?}", c);
    }
}

#[test]
fn parse_u16_matches_std() {
    let samples = [
        "", "+", "-", "0", "7", "+7", "-7", "65535", "65536", "0065535", "99999999999", "12a",
        "1 2", " 1", "١٢", "+-1", "++1", "49473",
    ];
    for s in samples {
        assert_eq!(parse_u16(s), s.parse::<u16>().ok(), "parse of {:?}", s);
    }
}

#[test]
fn order_matches_std() {
    let samples = ["", "a", "ab", "b", "B", "电光紫", "荧光绿", "é", "z", "aa", "a\u{0}"];
    for a in samples {
        for b in samples {
            assert_eq!(text_lt(a, b), a < b, "{:?} < {:?}", a, b);
            assert_eq!(text_eq(a, b), a == b);
        }
    }
}

#[test]
fn split_and_join_match_std() {
    let samples = ["", "/", "a", "pkg/skin.json", "/a//b/", "pkg/assets/bg.png", "中/文"];
    for s in samples {
        let ours = split_char(s, '/');
        let std: Vec<String> = s.split('/').map(|p| p.to_string()).collect();
        assert_eq!(ours, std, "split of {:?}", s);
        assert_eq!(join_with(&ours, "/"), s);
    }
    assert_eq!(join_with(&Vec::new(), "/"), "");
    assert_eq!(join_with(&vec!["a".to_string(), "b".to_string()], ", "), "a, b");
}

#[test]
fn ends_with_matches_std() {
    for s in ["skin.json", "pkg/skin.json", "myskin.json", "skin.jsonx", "", "json"] {
        assert_eq!(text_ends_with(s, "skin.json"), s.ends_with("skin.json"));
    }
}

#[test]
fn decimal_matches_to_string() {
    for n in [0u16, 5, 9, 10, 11, 99, 100, 1000, 12345, 65534, 65535] {
        assert_eq!(decimal(n), n.to_string());
    }
}
