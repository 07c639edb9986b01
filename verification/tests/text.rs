use lnchannels::text::{chars_of, str_contains, str_lt};

#[test]
fn chars_come_out_in_order() {
    assert_eq!(chars_of("a\u{e9}z"), vec!['a', '\u{e9}', 'z']);
    assert_eq!(chars_of(""), Vec::<char>::new());
}

#[test]
fn order_is_decided_by_first_difference() {
    assert!(str_lt("02aa", "02ab"));
    assert!(!str_lt("02ab", "02aa"));
    assert!(str_lt("02ff", "03aa"));
}

#[test]
fn a_prefix_comes_first() {
    assert!(str_lt("02a", "02ab"));
    assert!(!str_lt("02ab", "02a"));
    assert!(str_lt("", "0"));
}

#[test]
fn no_text_comes_before_itself() {
    assert!(!str_lt("03bb", "03bb"));
    assert!(!str_lt("", ""));
}

#[test]
fn order_agrees_with_the_order_of_strings() {
    let samples = ["", "0", "02", "02a", "03", "a", "A", "z\u{e9}", "z\u{10000}", "zz"];
    for a in samples.iter() {
        for b in samples.iter() {
            assert_eq!(str_lt(a, b), a < b);
        }
    }
}

#[test]
fn finds_a_word_anywhere() {
    assert!(str_contains("OP_DUP OP_HASH160 abcd OP_EQUALVERIFY", "OP_HASH160"));
    assert!(str_contains("OP_HASH160", "OP_HASH160"));
    assert!(str_contains("xxOP_HASH160", "OP_HASH160"));
    assert!(!str_contains("OP_HASH16", "OP_HASH160"));
    assert!(!str_contains("", "OP_HASH160"));
}

#[test]
fn the_empty_text_is_found_everywhere() {
    assert!(str_contains("abc", ""));
    assert!(str_contains("", ""));
}

#[test]
fn search_agrees_with_the_search_of_strings() {
    let hays = ["", "a", "ab", "aab", "abab", "OP_IF 144 OP_CHECKSEQUENCEVERIFY OP_DROP"];
    let needles = ["", "a", "b", "ab", "ba", "aab", "OP_CHECKSEQUENCEVERIFY", "abc"];
    for h in hays.iter() {
        for n in needles.iter() {
            assert_eq!(str_contains(h, n), h.contains(n));
        }
    }
}
