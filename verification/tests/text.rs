use mylauncher::text::{
    chars_of, comes_before, contains_chars, is_space_char, join_with_spaces, name_before,
    split_lines, split_words, string_of,
};

fn chars(s: &str) -> Vec<char> {
    s.chars().collect()
}

fn words(s: &str) -> Vec<String> {
    split_words(&chars(s))
}

#[test]
fn white_space_is_what_std_calls_white_space() {
    let mut n: u32 = 0;
    while n <= 0x10ffff {
        if let Some(c) = char::from_u32(n) {
            assert_eq!(is_space_char(c), c.is_whitespace(), "code point {:x}", n);
        }
        n += 1;
    }
}

#[test]
fn chars_of_gives_every_character() {
    assert_eq!(chars_of("añ€😀"), vec!['a', 'ñ', '€', '😀']);
    assert_eq!(chars_of(""), Vec::<char>::new());
}

#[test]
fn string_of_takes_a_range() {
    let v = chars("hello world");
    assert_eq!(string_of(&v, 6, 11), "world");
    assert_eq!(string_of(&v, 3, 3), "");
}

#[test]
fn split_words_agrees_with_split_whitespace() {
    let samples = [
        "",
        " ",
        "firefox",
        "firefox %u --new-window",
        "  leading and trailing  ",
        "tabs\tand\nnewlines\r\nmixed",
        "no\u{a0}break\u{3000}wide",
        "a  b   c",
        "ünï cödé wörds",
    ];
    for s in samples {
        let expected: Vec<String> = s.split_whitespace().map(|w| w.to_string()).collect();
        assert_eq!(words(s), expected, "input {:?}", s);
    }
}

#[test]
fn split_lines_agrees_with_lines() {
    let samples = [
        "",
        "\n",
        "a",
        "a\n",
        "a\nb",
        "a\r\nb\r\n",
        "a\n\nb",
        "a\r",
        "a\rb\n",
        "\r\n\r\n",
        "Files\nFirefox\nGIMP\n",
        "x\r\r\ny",
    ];
    for s in samples {
        let expected: Vec<String> = s.lines().map(|l| l.to_string()).collect();
        assert_eq!(split_lines(&chars(s)), expected, "input {:?}", s);
    }
}

#[test]
fn join_puts_one_space_between_words() {
    assert_eq!(join_with_spaces(&vec![]), "");
    assert_eq!(join_with_spaces(&vec!["one".to_string()]), "one");
    assert_eq!(
        join_with_spaces(&vec!["a".to_string(), "b".to_string(), "c".to_string()]),
        "a b c"
    );
}

#[test]
fn joined_words_split_into_the_same_words() {
    let w = words("  gimp   --no-splash  file.png ");
    assert_eq!(words(&join_with_spaces(&w)), w);
}

#[test]
fn contains_agrees_with_str_contains() {
    let hays = ["", "a", "firefox", "file manager", "aaa", "abcabd"];
    let needles = ["", "a", "fire", "fox", "file", "abd", "aaaa", "x"];
    for h in hays {
        for n in needles {
            assert_eq!(contains_chars(&chars(h), &chars(n)), h.contains(n), "{:?} in {:?}", n, h);
        }
    }
}

#[test]
fn order_agrees_with_the_order_of_strings() {
    let samples = ["", "a", "A", "ab", "abc", "abd", "b", "Files", "Firefox", "GIMP", "éclair", "zebra", "😀", "z😀"];
    for a in samples {
        for b in samples {
            assert_eq!(name_before(a, b), a < b, "{:?} before {:?}", a, b);
            assert_eq!(comes_before(&chars(a), &chars(b)), a < b);
        }
    }
}

#[test]
fn upper_case_comes_before_lower_case() {
    assert!(name_before("Zebra", "apple"));
    assert!(!name_before("apple", "Zebra"));
}
