use levenstein::{
    dynamic_ascii_case_sensitive, dynamic_simd_wasteful, dynamic_wasteful, recursive,
    recursive_ascii_case_sens,
};

const LONG_CASES: [(&str, &str, usize); 8] = [
    ("abcdefghijklmnopqrstuvwxyz", "abcdefghijklmnopqrstuvwxyz", 0),
    ("aaaaaaaaaaaaaaaaaaaa", "bbbbbbbbbbbbbbbbbbbb", 20),
    (
        "the quick brown fox jumps over the lazy dog",
        "the quick brown cat jumped over a lazy dog",
        8,
    ),
    ("levenshtein distance between words", "distance between two levenshtein words", 24),
    ("rasvakeitin ja reissumies ovat sanoja", "reissumies ja rasvakeitin", 26),
    ("märkäpuku ja älytön vääryys käännös", "aita äiti ääää aaaa puku äly", 30),
    ("\0\0a\0b\0c\0d\0e\0f\0g\0h\0", "abcdefgh", 10),
    (
        "aaaaaaaaaaaaaaaaaaaaaaaaaaaaaaaaaaaaaaaa",
        "aaaaaaaaaaaaaaaaaaaaaaaaaaaaaaaaab",
        7,
    ),
];

#[test]
fn empty_words_give_the_other_length() {
    assert_eq!(recursive("", "kello"), 5);
    assert_eq!(recursive("kello", ""), 5);
    assert_eq!(recursive("", ""), 0);
    assert_eq!(recursive("", "äiti"), 4);
    assert_eq!(recursive_ascii_case_sens("", "abc"), 3);
    assert_eq!(dynamic_wasteful("", "äiti"), 4);
    assert_eq!(dynamic_wasteful("äiti", ""), 4);
    assert_eq!(dynamic_ascii_case_sensitive("", "abc"), 3);
    assert_eq!(dynamic_ascii_case_sensitive("abc", ""), 3);
}

#[test]
fn simd_counts_bytes_when_a_word_is_empty() {
    assert_eq!(dynamic_simd_wasteful("", "äiti"), 5);
    assert_eq!(dynamic_simd_wasteful("ääää", ""), 8);
    assert_eq!(dynamic_simd_wasteful("", "abc"), 3);
}

#[test]
fn identical_words_are_at_distance_zero() {
    assert_eq!(recursive("märkäpuku", "märkäpuku"), 0);
    assert_eq!(dynamic_wasteful("märkäpuku", "märkäpuku"), 0);
    assert_eq!(dynamic_ascii_case_sensitive("kitten", "kitten"), 0);
}

#[test]
fn distance_is_symmetric() {
    let pairs = [("kitten", "sitting"), ("aita", "äiti"), ("vääryys", "käännös"), ("", "abc")];
    for (s1, s2) in pairs {
        assert_eq!(recursive(s1, s2), recursive(s2, s1));
        assert_eq!(dynamic_wasteful(s1, s2), dynamic_wasteful(s2, s1));
    }
}

#[test]
fn front_recursion_agrees_with_back_table() {
    let pairs = [("kitten", "sitting"), ("aita", "äiti"), ("märkäpuku", "puku"), ("sello", "kello")];
    for (s1, s2) in pairs {
        assert_eq!(recursive(s1, s2), dynamic_wasteful(s1, s2));
    }
}

#[test]
fn ascii_bytes_and_characters_agree() {
    let pairs = [("kitten", "sitting"), ("aamu", "aamukahvi"), ("kasvimaa", "maa")];
    for (s1, s2) in pairs {
        assert_eq!(recursive_ascii_case_sens(s1, s2), recursive(s1, s2));
    }
}

#[test]
fn distance_is_at_most_the_longer_length() {
    assert_eq!(recursive("abc", "xyz"), 3);
    assert_eq!(dynamic_wasteful("abcd", "xy"), 4);
}

#[test]
fn two_rows_compare_only_the_current_element_in_the_first_column() {
    // The first character of the shorter word, `a`, occurs in `ab` before the
    // last position only: the two-row scheme answers 2 where the distance is 1.
    assert_eq!(dynamic_ascii_case_sensitive("a", "ab"), 2);
    assert_eq!(recursive("a", "ab"), 1);
    assert_eq!(dynamic_ascii_case_sensitive("ab", "a"), 2);
    assert_eq!(dynamic_ascii_case_sensitive("abc", "aXbc"), 2);
    assert_eq!(recursive("abc", "aXbc"), 1);
}

#[test]
fn two_rows_are_exact_when_the_first_character_repeats_to_the_end() {
    // `k` does not occur in `sitting`; `x` occurs in `abxxx` only at its end.
    assert_eq!(dynamic_ascii_case_sensitive("kitten", "sitting"), 3);
    assert_eq!(dynamic_ascii_case_sensitive("xab", "abxxx"), recursive("xab", "abxxx"));
    assert_eq!(dynamic_ascii_case_sensitive("xab", "abxxx"), 4);
}

#[test]
fn anti_diagonal_scheme_on_long_words() {
    for (s1, s2, ans) in LONG_CASES {
        assert_eq!(dynamic_simd_wasteful(s1, s2), ans);
        assert_eq!(dynamic_simd_wasteful(s2, s1), ans);
        assert_eq!(dynamic_wasteful(s1, s2), ans);
    }
}

fn long_word(parts: &[&str], times: usize) -> String {
    let mut s = String::new();
    for k in 0..times {
        s.push_str(parts[k % parts.len()]);
    }
    s
}

#[test]
fn anti_diagonal_scheme_agrees_with_full_table() {
    let s1 = long_word(&["rasvakeitin ", "reissumies ", "märkäpuku ", "älytön "], 40);
    let s2 = long_word(&["reissumies ", "vääryys ", "käännös ", "rasvakeitin "], 37);
    assert_eq!(dynamic_simd_wasteful(&s1, &s2), dynamic_wasteful(&s1, &s2));
    assert_eq!(dynamic_simd_wasteful(&s2, &s1), dynamic_wasteful(&s1, &s2));
    let s3 = long_word(&["abc", "abd", "bcd"], 30);
    let s4 = long_word(&["abd", "bcd", "abc", "xyz"], 25);
    assert_eq!(dynamic_simd_wasteful(&s3, &s4), dynamic_wasteful(&s3, &s4));
}

#[test]
fn anti_diagonal_scheme_agrees_on_short_words() {
    let s1 = "rasvakeitin";
    let s2 = "reissumies";
    assert_eq!(dynamic_simd_wasteful(s1, s2), dynamic_wasteful(s1, s2));
}

#[test]
fn equal_first_characters_are_matched() {
    assert_eq!(recursive("kello", "kelo"), recursive("ello", "elo"));
    assert_eq!(recursive("kello", "kelo"), 1);
}

#[test]
fn distance_to_a_single_character() {
    assert_eq!(recursive("abcb", "b"), 3);
    assert_eq!(recursive("abca", "x"), 4);
    assert_eq!(dynamic_wasteful("b", "abcb"), 3);
}
