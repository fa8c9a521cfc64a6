use levenstein::{
    dynamic_ascii_case_sensitive, dynamic_simd_wasteful, dynamic_wasteful, recursive,
    recursive_ascii_case_sens,
};

const BASIC_ASCII_TEST_CASES: [(&str, &str, usize); 5] = [
    ("kitten", "sitting", 3),
    ("aamu", "aamukahvi", 5),
    ("sello", "kello", 1),
    ("kasvimaa", "maa", 5),
    ("yhdys sana", "yhdyssana", 1),
];

const FINNISH_ALPHABET_TEST_CASES: [(&str, &str, usize); 5] = [
    ("aita", "äiti", 2),
    ("ääää", "aaaa", 4),
    ("märkäpuku", "puku", 5),
    ("älytön", "äly", 3),
    ("vääryys", "käännös", 4),
];

#[test]
fn recursive_works() {
    let it = BASIC_ASCII_TEST_CASES.iter().chain(FINNISH_ALPHABET_TEST_CASES.iter());
    for (s1, s2, ans) in it {
        assert_eq!(recursive(s1, s2), *ans);
    }
}

#[test]
fn recursive_ascii_case_sens_works() {
    for (s1, s2, ans) in BASIC_ASCII_TEST_CASES {
        assert_eq!(recursive(s1, s2), ans);
    }
}

#[test]
fn dynamic_wasteful_works() {
    let it = BASIC_ASCII_TEST_CASES.iter().chain(FINNISH_ALPHABET_TEST_CASES.iter());
    for (s1, s2, ans) in it {
        assert_eq!(recursive(s1, s2), *ans);
    }
}

#[test]
fn dynamic_ascii_case_sens_works() {
    for (s1, s2, ans) in BASIC_ASCII_TEST_CASES {
        assert_eq!(dynamic_ascii_case_sensitive(s1, s2), ans);
    }
}

#[test]
fn recursive_ascii_agrees_with_recursive() {
    let s1 = "rasvakeitin";
    let s2 = "reissumies";
    assert_eq!(recursive(s1, s2), recursive_ascii_case_sens(s1, s2));
}

#[test]
fn dynamic_wasteful_agrees_with_recursive() {
    let s1 = "rasvakeitin";
    let s2 = "reissumies";
    assert_eq!(dynamic_wasteful(s1, s2), recursive(s1, s2));
}

#[test]
fn dynamic_simd_wasteful_works() {
    for (s1, s2, ans) in BASIC_ASCII_TEST_CASES {
        assert_eq!(dynamic_simd_wasteful(s1, s2), ans);
    }
    for (s1, s2, ans) in FINNISH_ALPHABET_TEST_CASES {
        assert_eq!(dynamic_simd_wasteful(s1, s2), ans);
    }
}
