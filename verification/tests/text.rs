use web_research_mcp::ip::{cidr_match, is_public_ip, parse_ip, parse_unsigned};
use web_research_mcp::json::Json;
use web_research_mcp::order::{in_rank_order, text_before};
use web_research_mcp::text::{
    byte_len, contains, decimal_text, ends_with, is_alphanumeric, is_whitespace, join,
    replace_char, split_char, starts_with, to_ascii_lower, to_lowercase, trim, trim_end_char,
};

fn every_char() -> Vec<char> {
    (0..=0x10FFFFu32).filter_map(char::from_u32).collect()
}

#[test]
fn white_space_is_what_unicode_says() {
    for c in every_char() {
        assert_eq!(is_whitespace(c), c.is_whitespace(), "{:?}", c);
    }
}

#[test]
fn letters_and_numbers_are_what_unicode_says() {
    for c in every_char() {
        assert_eq!(is_alphanumeric(c), c.is_alphanumeric(), "{:?}", c);
    }
}

#[test]
fn lowercase_is_that_of_the_whole_text() {
    for s in ["", "ABC-xyz 09", "\u{c9}COLE", "\u{39f}\u{394}\u{39f}\u{3a3}", "\u{130}x"] {
        assert_eq!(to_lowercase(s), s.to_lowercase());
    }
    assert_eq!(to_ascii_lower("\u{c9}A"), "\u{c9}a");
}

#[test]
fn texts_are_trimmed_split_and_joined() {
    assert_eq!(trim("\u{3000} a b \n"), "a b");
    assert_eq!(trim_end_char("a//", '/'), "a");
    assert_eq!(split_char("a,,b", ','), vec!["a", "", "b"]);
    assert_eq!(join(&vec!["a".into(), "b".into()], " - "), "a - b");
    assert_eq!(replace_char("a:b:", ':', "--"), "a--b--");
    assert!(contains("abc", "bc") && contains("abc", "") && !contains("abc", "ac"));
    assert!(starts_with("abc", "ab") && ends_with("abc", "bc"));
    assert_eq!(decimal_text(0), "0");
    assert_eq!(decimal_text(u64::MAX), "18446744073709551615");
    assert_eq!(byte_len("a\u{e9}\u{20ac}\u{1f600}"), 10);
}

#[test]
fn texts_stand_in_the_order_of_their_characters() {
    let words = ["", "a", "B", "ab", "\u{e9}", "z", "\u{1f600}", "\u{fffd}"];
    for a in words {
        for b in words {
            assert_eq!(text_before(a, b), a < b, "{a:?} {b:?}");
        }
    }
    let mut sorted: Vec<String> = words.iter().map(|w| w.to_string()).collect();
    let ours = in_rank_order(sorted.clone());
    sorted.sort();
    assert_eq!(ours, sorted);
}

#[test]
fn addresses_are_read_and_judged() {
    let public = |s: &str| is_public_ip(parse_ip(s).unwrap());
    for s in [
        "8.8.8.8",
        "100.128.0.1",
        "172.32.0.1",
        "2606:4700::1111",
        "::ffff:8.8.8.8",
        "198.17.255.255",
        "198.20.0.0",
        "192.0.1.1",
        "223.255.255.255",
        "1.0.0.0",
        "2001:200::1",
        "2001:4860:4860::8888",
        "64:ff9c::1",
        "64:ff9b:2::1",
        "100:0:0:2::",
        "192.31.195.255",
        "192.52.194.0",
        "192.175.49.0",
        "2620:4f:8001::1",
        "2003::1",
        "3fff:1000::1",
        "5f01::1",
        "::1:0:0:1",
    ] {
        assert!(public(s), "{s}");
    }
    for s in [
        "10.1.2.3",
        "127.0.0.1",
        "169.254.1.1",
        "172.16.0.1",
        "192.168.0.1",
        "100.64.0.1",
        "0.0.0.0",
        "255.255.255.255",
        "192.0.2.1",
        "224.0.0.1",
        "::",
        "::1",
        "fc00::1",
        "fe80::1",
        "ff02::1",
        "2001:db8::1",
        "0.255.255.255",
        "192.0.0.255",
        "192.31.196.1",
        "192.52.193.1",
        "192.88.99.1",
        "192.175.48.255",
        "198.18.0.0",
        "198.19.255.255",
        "198.51.100.7",
        "203.0.113.255",
        "239.255.255.255",
        "240.0.0.0",
        "::ffff:127.0.0.1",
        "::ffff:192.168.1.1",
        "::ffff:198.18.0.1",
        "::8.8.8.8",
        "64:ff9b::8.8.8.8",
        "64:ff9b:1:ffff::",
        "100::1",
        "100:0:0:1::",
        "2620:4f:8000::1",
        "2001::1",
        "2001:1ff:ffff::",
        "2002:808:808::",
        "3fff:fff::1",
        "5f00::1",
        "fdff::1",
        "febf::1",
        "fec0::1",
        "feff::1",
        "ff00::",
    ] {
        assert!(!public(s), "{s}");
    }
    for s in ["", "1.2.3", "1.2.3.4.5", "256.1.1.1", "01.2.3.4", "1::2::3", "12345::", "g::"] {
        assert!(parse_ip(s).is_none(), "{s}");
    }
    let ip = parse_ip("10.1.2.3").unwrap();
    assert_eq!(cidr_match("10.0.0.0/8", ip), Some(true));
    assert_eq!(cidr_match("0.0.0.0/0", ip), Some(true));
    assert_eq!(cidr_match("10.0.0.0/33", ip), Some(false));
    assert_eq!(cidr_match("10.0.0.0", ip), None);
    assert_eq!(cidr_match("10.0.0.0/256", ip), None);
    assert_eq!(parse_unsigned("+7", 10), Some(7));
    assert_eq!(parse_unsigned("11", 10), None);
}

#[test]
fn values_are_read_by_their_keys() {
    let v = Json::Object(vec![
        ("a".into(), Json::Unsigned(1)),
        ("b".into(), Json::Text("x".into())),
    ]);
    assert_eq!(v.get("a").unwrap().as_unsigned(), Some(1));
    assert_eq!(v.get_text("b").unwrap(), "x");
    assert!(v.get("c").is_none() && v.get_text("a").is_none());
    assert!(Json::Negative(-1).as_unsigned().is_none());
    assert_eq!(v.copy().get_text("b").unwrap(), "x");
}
