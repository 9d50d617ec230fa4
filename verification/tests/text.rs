use hrdf_routing_engine::text::{
    chars_of, parse_i32, remove_char_exec, split_at_char, split_chars, string_from_chars,
    trim_chars,
};

fn pieces(text: &str, sep: &str) -> Vec<String> {
    let chars = chars_of(text);
    let sep = chars_of(sep);
    split_chars(&chars, &sep)
        .into_iter()
        .map(string_from_chars)
        .collect()
}

#[test]
fn split_matches_str_split() {
    for (text, sep) in [
        ("a>b>c", ">"),
        (">a>>b>", ">"),
        ("", ">"),
        ("G '1' A 'AB' ", "' "),
        ("abc", "abc"),
        ("aaa", "aa"),
        ("x' y' ", "' "),
    ] {
        let expected: Vec<String> = text.split(sep).map(|s| s.to_string()).collect();
        assert_eq!(pieces(text, sep), expected, "splitting {:?} at {:?}", text, sep);
    }
}

#[test]
fn split_at_char_keeps_empty_pieces() {
    let chars = chars_of("Bern<1>>Berne<2>");
    let got: Vec<String> = split_at_char(&chars, '>')
        .into_iter()
        .map(string_from_chars)
        .collect();
    assert_eq!(got, vec!["Bern<1", "", "Berne<2", ""]);
}

#[test]
fn trim_matches_str_trim() {
    for text in ["  a b  ", "\t\n x\u{a0}", "", "   ", "abc", "\u{3000}y\u{2028}"] {
        let got = string_from_chars(trim_chars(&chars_of(text)));
        assert_eq!(got, text.trim());
    }
}

#[test]
fn remove_char_drops_every_occurrence() {
    let got = string_from_chars(remove_char_exec(&chars_of("$Zürich$ HB$"), '$'));
    assert_eq!(got, "Zürich HB");
}

#[test]
fn parse_i32_matches_str_parse() {
    for text in [
        "0", "42", "-17", "+5", "0008501120", "-", "+", "", " 1", "1 ", "2147483647",
        "2147483648", "-2147483648", "-2147483649", "12a", "99999999999999999999",
    ] {
        let expected = text.parse::<i32>().ok();
        assert_eq!(parse_i32(&chars_of(text)), expected, "reading {:?}", text);
    }
}
