use ternary_search::text::{
    blank, characters, first_strings, lines, prefix, push_decimal, split, text, trim, white,
};

#[test]
fn white_space_is_that_of_unicode() {
    for n in 0..=0x10ffffu32 {
        if let Some(c) = char::from_u32(n) {
            assert_eq!(white(c), c.is_whitespace(), "{n:x}");
        }
    }
}

#[test]
fn trimming_agrees_with_the_standard_library() {
    for s in ["", " ", "a", "  a b \t", "\u{3000}x\u{a0}\r\n", "\u{200b}x", " 0.5", "é "] {
        assert_eq!(trim(s), s.trim());
        assert_eq!(blank(s), s.trim().is_empty());
    }
}

#[test]
fn splitting_agrees_with_the_standard_library() {
    for s in ["", ",", "a", "a,b", ",a,,b,", "é,ü,"] {
        let expected: Vec<&str> = s.split(',').collect();
        assert_eq!(split(s, ','), expected);
        assert_eq!(split(s, ',').join(","), s);
    }
}

#[test]
fn joined_pieces_split_back() {
    let lists: [&[&str]; 5] = [&[""], &["a"], &["", ""], &["a", "", "bc"], &["1.5", " -2 ", "é"]];
    for pieces in lists {
        assert_eq!(split(&pieces.join(","), ','), pieces);
    }
}

#[test]
fn lines_of_texts_put_together() {
    for a in ["", "\n", "x\n", "x\r\n\ny\n"] {
        for b in ["", "z", "\n", "z\r\n", " \nw"] {
            let mut expected = lines(a);
            expected.extend(lines(b));
            assert_eq!(lines(&format!("{a}{b}")), expected);
        }
    }
}

#[test]
fn lines_agree_with_the_standard_library() {
    for s in [
        "", "\n", "a", "a\n", "a\nb", "a\r\nb\r\n", "\n\na\n\n", "a\r", "a\r\r\n", "\r\n", "é\n\r",
    ] {
        let expected: Vec<&str> = s.lines().collect();
        assert_eq!(lines(s), expected, "{s:?}");
    }
}

#[test]
fn prefixes_count_characters() {
    assert_eq!(prefix("äöü", 2), "äö");
    assert_eq!(prefix("abc", 3), "abc");
    assert_eq!(prefix("abc", 5), "abc");
    assert_eq!(prefix("", 0), "");
    let names: Vec<String> = vec!["a".to_string(), "b".to_string(), "c".to_string()];
    assert_eq!(first_strings(&names, 2), vec!["a", "b"]);
    assert_eq!(first_strings(&names, 4), names);
    assert_eq!(text(&characters("añb"), 1, 3), "ñb");
}

#[test]
fn decimals() {
    for n in [0usize, 7, 10, 99, 100, 384, 1150, usize::MAX] {
        let mut s = String::from("n=");
        push_decimal(&mut s, n);
        assert_eq!(s, format!("n={n}"));
    }
}
