use markov_chains::text::{chars_of, is_whitespace, split_once, split_whitespace, trim};

#[test]
fn whitespace_is_what_char_tells() {
    for code in 0..=0x10ffffu32 {
        if let Some(c) = char::from_u32(code) {
            assert_eq!(is_whitespace(c), c.is_whitespace(), "U+{:04X}", code);
        }
    }

    assert!(is_whitespace(' '));
    assert!(is_whitespace('\t'));
    assert!(is_whitespace('\u{3000}'));
    assert!(!is_whitespace('a'));
    assert!(!is_whitespace('\u{200b}'));
}

#[test]
fn trim_and_split_agree_with_the_strings_own() {
    let texts = [
        "",
        " ",
        "a",
        " a",
        "a ",
        "  Hello,   World!  ",
        "\u{a0}one\u{2003}two \u{3000}",
        "\t\ttabs\tand\nlines\r\n",
        "ünï cödé  wörds",
        "no-space",
    ];

    for text in texts {
        assert_eq!(trim(text), text.trim());
        assert_eq!(split_whitespace(text), text.split_whitespace().collect::<Vec<_>>());
        assert_eq!(chars_of(text), text.chars().collect::<Vec<_>>());
    }
}

#[test]
fn split_once_cuts_at_the_first_delimiter() {
    assert_eq!(split_once("key=value", '='), Some((String::from("key"), String::from("value"))));
    assert_eq!(split_once("a=b=c", '='), Some((String::from("a"), String::from("b=c"))));
    assert_eq!(split_once("=b", '='), Some((String::new(), String::from("b"))));
    assert_eq!(split_once("a=", '='), Some((String::from("a"), String::new())));
    assert_eq!(split_once("ü=ö", '='), Some((String::from("ü"), String::from("ö"))));
    assert_eq!(split_once("none", '='), None);
    assert_eq!(split_once("", '='), None);
}
