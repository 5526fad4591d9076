use wpm::generator::{generate, WORDS_FIRST, WORDS_SECOND};

fn word_list() -> Vec<&'static str> {
    WORDS_FIRST
        .lines()
        .chain(WORDS_SECOND.lines())
        .filter(|l| !l.trim().is_empty())
        .collect()
}

#[test]
fn generate_gives_the_asked_number_of_listed_words() {
    let list = word_list();
    for n in [1usize, 2, 25, 100] {
        let text = generate(n);
        let words: Vec<&str> = text.split(' ').collect();
        assert_eq!(words.len(), n);
        assert!(words.iter().all(|w| list.contains(w)), "unexpected word in {:?}", text);
    }
}

#[test]
fn generate_zero_words_is_empty() {
    assert_eq!(generate(0), "");
}

#[test]
fn word_list_has_no_empty_or_spaced_words() {
    let list = word_list();
    assert_eq!(list.len(), 119);
    assert!(list.iter().all(|w| !w.is_empty() && !w.contains(' ')));
}

#[test]
fn whitespace_agrees_with_std() {
    for code in 0u32..=0x10ffff {
        if let Some(c) = char::from_u32(code) {
            assert_eq!(wpm::generator::is_white_char(c), c.is_whitespace(), "at {:#x}", code);
        }
    }
}

#[test]
fn non_blank_lines_follows_str_lines() {
    for text in ["", "\n", "a", "a\n", "a\r\nb\n \n\t\nc\r", "\r\n\r\nx  \ny\r\r\n", "one\n\u{3000}\ntwo"] {
        let expected: Vec<&str> = text.lines().filter(|l| !l.trim().is_empty()).collect();
        assert_eq!(wpm::generator::non_blank_lines(text), expected, "for {:?}", text);
    }
}
