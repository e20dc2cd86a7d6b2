use double_counter::count_doubles;
use double_counter::count_doubles_fold;
use double_counter::count_doubles_memreplace;
use double_counter::count_doubles_once;
use double_counter::count_doubles_once_bytes;
use double_counter::count_doubles_peek;
use double_counter::count_doubles_slice;

fn char_variant_results(s: &str) -> [u64; 6] {
    [
        count_doubles(s),
        count_doubles_once(s),
        count_doubles_memreplace(s),
        count_doubles_fold(s),
        count_doubles_peek(s),
        count_doubles_slice(s),
    ]
}

#[test]
fn empty_string_counts_zero() {
    for r in char_variant_results("") {
        assert_eq!(r, 0);
    }
    assert_eq!(count_doubles_once_bytes(""), 0);
}

#[test]
fn single_character_counts_zero() {
    for r in char_variant_results("a") {
        assert_eq!(r, 0);
    }
    assert_eq!(count_doubles_once_bytes("a"), 0);
}

#[test]
fn one_double() {
    for r in char_variant_results("aa") {
        assert_eq!(r, 1);
    }
}

#[test]
fn run_of_three_counts_two_pairs() {
    for r in char_variant_results("aaa") {
        assert_eq!(r, 2);
    }
}

#[test]
fn double_followed_by_other() {
    for r in char_variant_results("aab") {
        assert_eq!(r, 1);
    }
}

#[test]
fn no_adjacent_doubles() {
    for r in char_variant_results("abcabc") {
        assert_eq!(r, 0);
    }
}

#[test]
fn three_separate_doubles() {
    for r in char_variant_results("aabbcc") {
        assert_eq!(r, 3);
    }
}

#[test]
fn long_run_counts_length_minus_one() {
    for r in char_variant_results("aaaaaaaa") {
        assert_eq!(r, 7);
    }
}

#[test]
fn all_char_variants_agree() {
    let inputs = [
        "",
        "a",
        "aa",
        "aab",
        "abcabc",
        "aabbcc",
        "xxxyxx",
        "a b  c",
        "\u{3b1}\u{3b1}\u{3b2}\u{3b2}",
        "na\u{ef}ve",
    ];
    for s in inputs {
        let rs = char_variant_results(s);
        for r in rs {
            assert_eq!(r, rs[0]);
        }
    }
}

#[test]
fn byte_variant_agrees_on_ascii() {
    let inputs = ["", "a", "aa", "aaa", "aab", "abcabc", "aabbcc", "aaaaaaaa"];
    for s in inputs {
        assert_eq!(count_doubles_once_bytes(s), count_doubles(s));
    }
}

#[test]
fn byte_variant_diverges_on_multibyte() {
    // Two Greek alphas are one adjacent double of characters, but their
    // UTF-8 bytes CE B1 CE B1 hold no adjacent equal byte pair.
    let s = "\u{3b1}\u{3b1}";
    assert_eq!(count_doubles(s), 1);
    assert_eq!(count_doubles_once_bytes(s), 0);
}

#[test]
fn multibyte_doubles_count_by_character() {
    for r in char_variant_results("\u{3b1}\u{3b1}") {
        assert_eq!(r, 1);
    }
    for r in char_variant_results("\u{e9}\u{e9}x") {
        assert_eq!(r, 1);
    }
}

#[test]
fn repeated_calls_return_the_same_result() {
    let inputs = ["", "aa", "aabbcc", "\u{3b1}\u{3b1}"];
    for s in inputs {
        assert_eq!(count_doubles(s), count_doubles(s));
        assert_eq!(count_doubles_once(s), count_doubles_once(s));
        assert_eq!(count_doubles_memreplace(s), count_doubles_memreplace(s));
        assert_eq!(count_doubles_fold(s), count_doubles_fold(s));
        assert_eq!(count_doubles_peek(s), count_doubles_peek(s));
        assert_eq!(count_doubles_slice(s), count_doubles_slice(s));
        assert_eq!(count_doubles_once_bytes(s), count_doubles_once_bytes(s));
    }
}
