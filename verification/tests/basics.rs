use monitorzinho::bytes::{push16, push32, u16_at, u32_at, u64_at, u8_at, Endian};
use monitorzinho::dict::{find_pair, find_word, put_pair, put_word};
use monitorzinho::number::{
    dec_signed, dec_wide, hex16, micros, parse_hex_upto, parse_i64, parse_upto, zero_fill,
};
use monitorzinho::order::{sort_texts, stable_order};
use monitorzinho::text::{
    contains, contains_ci, ends_with, join, replace, sorts_before, split, split_lines, split_once,
    split_runs, split_words, starts_with, strip_prefix, strip_suffix, trim, Cut,
};

#[test]
fn what_is_written_is_read_back_in_either_order() {
    for e in [Endian::Little, Endian::Big] {
        let mut v = Vec::new();
        push16(&mut v, 0x1234, e);
        push32(&mut v, 0xdead_beef, e);
        assert_eq!(u16_at(&v, 0, e), 0x1234);
        assert_eq!(u32_at(&v, 2, e), 0xdead_beef);
    }
    assert_eq!(u64_at(&[1, 0, 0, 0, 0, 0, 0, 0], 0, Endian::Little), 1);
    assert_eq!(u64_at(&[1, 0, 0, 0, 0, 0, 0, 0], 0, Endian::Big), 1 << 56);
    assert_eq!(u8_at(&[7], 0), 7);
    assert_eq!(u32_at(&[1, 2], 0, Endian::Little), 0, "o que não chega até lá é zero");
}

#[test]
fn a_name_stands_once() {
    let mut v: Vec<(String, u8)> = Vec::new();
    put_pair(&mut v, "a", 1);
    put_pair(&mut v, "b", 2);
    put_pair(&mut v, "a", 3);
    assert_eq!(v.len(), 2);
    assert_eq!(find_pair(&v, "a").map(|i| v[i].1), Some(3));
    assert_eq!(find_pair(&v, "c"), None);
    let mut w: Vec<(String, String)> = Vec::new();
    put_word(&mut w, "x", "1");
    put_word(&mut w, "x", "2");
    assert_eq!(find_word(&w, "x").map(|i| w[i].1.clone()).as_deref(), Some("2"));
}

#[test]
fn equals_keep_their_order() {
    assert_eq!(stable_order(&[3, 1, 3, 2]), vec![1, 3, 0, 2]);
    let v: Vec<String> = ["b", "a", "ç", "B"].iter().map(|x| x.to_string()).collect();
    assert_eq!(sort_texts(&v), vec!["B", "a", "b", "ç"]);
    assert!(sorts_before("a", "ab") && !sorts_before("ab", "a") && !sorts_before("a", "a"));
}

#[test]
fn texts_are_cut_as_they_are_everywhere() {
    assert_eq!(split("a,,b", Cut::At(',')), vec!["a", "", "b"]);
    assert_eq!(split_runs("a,,b", Cut::At(',')), vec!["a", "b"]);
    assert_eq!(split_words("  a \t b\u{a0}c "), vec!["a", "b", "c"]);
    assert_eq!(split_lines("a\r\nb\n\nc"), vec!["a", "b", "", "c"]);
    assert_eq!(split_once("k=v=w", '='), Some(("k".to_string(), "v=w".to_string())));
    assert_eq!(split_once("k", '='), None);
    assert_eq!(trim("\u{2003} é \n"), "é");
    assert!(contains("maçã", "çã") && !contains("maçã", "ca"));
    assert!(contains_ci("PostgreSQL", "GRES") && contains_ci("ÁGUA", "água"));
    assert!(starts_with("tcp6", "tcp") && ends_with("tcp6", "6"));
    assert_eq!(strip_prefix("net:[1]", "net:[").as_deref(), Some("1]"));
    assert_eq!(strip_suffix("net:[1]", "x"), None);
    assert_eq!(replace("a-b-c", "-", "::"), "a::b::c");
    assert_eq!(join(&["a".to_string(), "b".to_string()], ", "), "a, b");
}

#[test]
fn numbers_are_read_within_their_bounds() {
    assert_eq!(parse_upto("65535", 65535), Some(65535));
    assert_eq!(parse_upto("65536", 65535), None);
    assert_eq!(parse_upto("+7", 9), Some(7));
    assert_eq!(parse_upto("", 9), None);
    assert_eq!(parse_hex_upto("1F90", 65535), Some(8080));
    assert_eq!(parse_hex_upto("G", 65535), None);
    assert_eq!(parse_i64("-9223372036854775808"), Some(i64::MIN));
    assert_eq!(parse_i64("9223372036854775808"), None);
    assert_eq!(dec_signed(i64::MIN), "-9223372036854775808");
    assert_eq!(dec_wide(u128::MAX), "340282366920938463463374607431768211455");
    assert_eq!(zero_fill("7", 2), "07");
    assert_eq!(hex16(0xab), "ab");
    assert!(micros(1500).contains("1.5"), "{}", micros(1500));
}
