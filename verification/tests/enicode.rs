use quests::enicode::{checked_eni, checked_loop_eni, checked_trunc_eni, decimal_of, eni, loop_eni};
use quests::enicode::{trunc_eni, Entry};
use quests::modular::{gcd, mul_mod, power_mod};
use quests::text::{find, nth_field, parse_int, parse_uint, split_at_first, to_chars};

#[test]
fn test_4_3_11() {
    assert_eq!(954, eni(4, 3, 11));
}

#[test]
fn test_line1() {
    let entry: Entry = "A=4 B=4 C=6 X=3 Y=4 Z=5 M=11".parse().unwrap();
    assert_eq!(114644, entry.calculate());
}

#[test]
fn test_line3() {
    let entry: Entry = "A=5 B=9 C=6 X=8 Y=6 Z=8 M=14".parse().unwrap();
    assert_eq!(11611972920, entry.calculate());
}

#[test]
fn test_loop1() {
    assert_eq!(132000, loop_eni(4, 3000, 110));
    assert_eq!(559940, loop_eni(4, 14000, 120));
    assert_eq!(1200000, loop_eni(9, 16000, 150));
    assert_eq!(1279880, loop_eni(8, 16000, 160));
}

#[test]
fn eni_without_a_score_or_a_modulus_has_no_value() {
    assert_eq!(checked_eni(4, 0, 11), None);
    assert_eq!(checked_eni(4, 3, 0), None);
    assert_eq!(checked_loop_eni(4, 3, 0), None);
    assert_eq!(checked_loop_eni(4, 0, 11), Some(0));
}

#[test]
fn eni_keeps_zero_scores_as_digits() {
    // 2, 4, 8 mod 8 = 0, then 0: the text is "0042".
    assert_eq!(checked_eni(2, 4, 8), Some(42));
    // scores 10, 100, 1000, ... under a large modulus
    assert_eq!(checked_eni(10, 3, 1_000_000), Some(100010010));
}

#[test]
fn eni_that_overflows_has_no_value() {
    assert_eq!(checked_eni(3, 60, 1_000_003), None);
}

#[test]
fn loop_eni_is_the_plain_sum() {
    let mut score: usize = 1;
    let mut sum: usize = 0;
    for _ in 0..1000 {
        score = score * 7 % 1009;
        sum += score;
    }
    assert_eq!(checked_loop_eni(7, 1000, 1009), Some(sum));
}

#[test]
fn entry_parsing_rejects_short_or_bad_lines() {
    assert_eq!(Entry::parse("A=4 B=4 C=6 X=3 Y=4 Z=5"), None);
    assert_eq!(Entry::parse("A=4 B=4 C=6 X=3 Y=4 Z=5 M=x"), None);
    assert_eq!(
        Entry::parse("A=4 B=4 C=6 X=3 Y=4 Z=5 M=11"),
        Some(Entry { a: 4, b: 4, c: 6, x: 3, y: 4, z: 5, m: 11 })
    );
    assert!("A=4".parse::<Entry>().is_err());
}

#[test]
fn test_trunc_eni_1() {
    assert_eq!(10510510, trunc_eni(5, 6, 15));
}

#[test]
fn test_trunc_eni_2() {
    assert_eq!(0, trunc_eni(8, 6, 16));
}

#[test]
fn trunc_eni_is_eni_for_short_runs_and_its_first_scores_for_long_ones() {
    assert_eq!(checked_trunc_eni(4, 3, 11), checked_eni(4, 3, 11));
    assert_eq!(checked_trunc_eni(4, 5, 11), checked_eni(4, 5, 11));
    // scores of 2 under 1000: 2 4 8 16 32 64 128 256; the last five are 16 .. 256
    assert_eq!(checked_trunc_eni(2, 8, 1000), Some(256128643216));
    assert_eq!(checked_trunc_eni(2, 8, 0), None);
    assert_eq!(checked_trunc_eni(2, 0, 7), None);
}

#[test]
fn trunc_and_loop_sums_of_an_entry() {
    let entry = Entry::parse("A=4 B=4 C=6 X=3 Y=4 Z=5 M=11").unwrap();
    assert_eq!(entry.checked_calculate(), Some(114644));
    assert_eq!(entry.trunc_calculate(), 114644);
    assert_eq!(entry.checked_trunc_calculate(), Some(114644));
    // sums of scores: 4+5+9, 4+5+9+3, 6+3+7+9+10
    assert_eq!(entry.loop_calculate(), 18 + 21 + 35);
    assert_eq!(entry.checked_loop_calculate(), Some(74));
    let none = Entry { a: 1, b: 1, c: 1, x: 1, y: 1, z: 1, m: 0 };
    assert_eq!(none.checked_calculate(), None);
    assert_eq!(none.checked_trunc_calculate(), None);
    assert_eq!(none.checked_loop_calculate(), None);
}

#[test]
fn power_mod_and_gcd() {
    assert_eq!(power_mod(1, 2, 10, 1000), 24);
    assert_eq!(power_mod(3, 2, 10, 1000), 72);
    assert_eq!(power_mod(1, 7, 0, 13), 1);
    assert_eq!(power_mod(1, 7, 0, 1), 0);
    assert_eq!(power_mod(1, 3, 1_000_000_000_000, 1_000_000_007), {
        let mut r: u128 = 1;
        let mut b: u128 = 3;
        let mut e: u64 = 1_000_000_000_000;
        while e > 0 {
            if e & 1 == 1 {
                r = r * b % 1_000_000_007;
            }
            b = b * b % 1_000_000_007;
            e >>= 1;
        }
        r as u64
    });
    assert_eq!(power_mod(1, u64::MAX, 3, u64::MAX - 1), 1);
    assert_eq!(mul_mod(u64::MAX, u64::MAX, u64::MAX - 1), 1);
    assert_eq!(gcd(12, 18), 6);
    assert_eq!(gcd(18, 12), 6);
    assert_eq!(gcd(17, 5), 1);
    assert_eq!(gcd(0, 5), 5);
    assert_eq!(gcd(5, 0), 5);
    assert_eq!(gcd(0, 0), 0);
}

#[test]
fn numbers_are_parsed_as_the_standard_library_does() {
    let cases = ["0", "7", "+7", "-7", "", "+", "-", "007", "1 ", " 1", "1_0", "18446744073709551615",
        "18446744073709551616", "9223372036854775807", "9223372036854775808", "-9223372036854775808",
        "-9223372036854775809", "--1", "+-1", "١"];
    for case in cases {
        let text: Vec<char> = case.chars().collect();
        assert_eq!(parse_uint(&text), case.parse::<usize>().ok(), "{case:?}");
        assert_eq!(parse_int(&text), case.parse::<i64>().ok(), "{case:?}");
    }
}

#[test]
fn fields_and_splits() {
    let text: Vec<char> = "a=1 bb  c".chars().collect();
    let word = |k| nth_field(&text, k).map(|w| w.iter().collect::<String>());
    assert_eq!(word(0), Some("a=1".to_string()));
    assert_eq!(word(1), Some("bb".to_string()));
    assert_eq!(word(2), Some("".to_string()));
    assert_eq!(word(3), Some("c".to_string()));
    assert_eq!(word(4), None);
    assert_eq!(find(&text, ' ', 0), 3);
    assert_eq!(find(&text, ' ', 4), 6);
    assert_eq!(find(&text, 'z', 0), 9);
    let (before, after) = split_at_first(&text, '=').unwrap();
    assert_eq!(before, vec!['a']);
    assert_eq!(after.iter().collect::<String>(), "1 bb  c");
    assert_eq!(split_at_first(&text, 'z'), None);
    assert_eq!(to_chars("héllo"), vec!['h', 'é', 'l', 'l', 'o']);
    assert_eq!(decimal_of(0), vec!['0']);
    assert_eq!(decimal_of(9075), vec!['9', '0', '7', '5']);
}

const SECOND_EXAMPLE: [&str; 5] = [
    "A=3657 B=3583 C=9716 X=903056852 Y=9283895500 Z=85920867478 M=188",
    "A=6061 B=4425 C=5082 X=731145782 Y=1550090416 Z=87586428967 M=107",
    "A=7818 B=5395 C=9975 X=122388873 Y=4093041057 Z=58606045432 M=102",
    "A=7681 B=9603 C=5681 X=716116871 Y=6421884967 Z=66298999264 M=196",
    "A=7334 B=9016 C=8524 X=297284338 Y=1565962337 Z=86750102612 M=145",
];

#[test]
fn test_part2() {
    let entries = SECOND_EXAMPLE
        .iter()
        .map(|line| line.parse::<Entry>().unwrap())
        .collect::<Vec<_>>();
    assert_eq!(
        1507702060886,
        entries
            .iter()
            .map(|entry| entry.trunc_calculate())
            .max()
            .unwrap()
    );
}

#[test]
fn test_part3() {
    let entries = SECOND_EXAMPLE
        .iter()
        .map(|line| line.parse::<Entry>().unwrap())
        .collect::<Vec<_>>();
    assert_eq!(
        7276515438396,
        entries
            .iter()
            .map(|entry| entry.loop_calculate())
            .max()
            .unwrap()
    );
}
