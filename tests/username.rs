use std::str::from_utf8;

use secretgen::username::{
    consonant_at, generate_complex_username, generate_simple_username, vowel_at,
};

fn is_vowel(c: char) -> bool {
    "aeiouy".contains(c)
}

#[test]
fn generates_ten_thousand_character_simple_username() {
    let bytes = generate_simple_username(false, 10000);
    let string = from_utf8(&bytes).unwrap();

    assert_eq!(string.chars().count(), 10000)
}

#[test]
fn generates_empty_simple_username() {
    let bytes = generate_simple_username(false, 0);

    assert_eq!(bytes.len(), 0)
}

#[test]
fn generates_ten_thousand_syllable_complex_username() {
    let bytes = generate_complex_username(false, 10000);
    let string = from_utf8(&bytes).unwrap();
    let length = string.chars().count();
    let range = 20000..=30000;

    assert!(range.contains(&length), "expected a number in {:?}, but got {} instead", range, length);
}

#[test]
fn generates_empty_complex_username() {
    let bytes = generate_complex_username(false, 0);

    assert_eq!(bytes.len(), 0)
}

#[test]
fn simple_username_alternates_vowels_and_consonants() {
    let bytes = generate_simple_username(false, 50);
    let s = from_utf8(&bytes).unwrap();
    let chars: Vec<char> = s.chars().collect();
    assert_eq!(chars.len(), 50);
    for c in &chars {
        assert!(c.is_ascii_lowercase());
    }
    for pair in chars.windows(2) {
        assert_ne!(is_vowel(pair[0]), is_vowel(pair[1]));
    }
}

#[test]
fn capitalized_simple_username_starts_upper_case() {
    let bytes = generate_simple_username(true, 8);
    assert_eq!(bytes.len(), 8);
    assert!(bytes[0].is_ascii_uppercase());
    for b in &bytes[1..] {
        assert!(b.is_ascii_lowercase());
    }
}

#[test]
fn capitalized_complex_username_starts_with_upper_consonant() {
    let bytes = generate_complex_username(true, 3);
    assert!(bytes.len() >= 6 && bytes.len() <= 9);
    assert!(bytes[0].is_ascii_uppercase());
    assert!(!is_vowel(bytes[0].to_ascii_lowercase() as char));
    assert!(is_vowel(bytes[1] as char));
}

#[test]
fn single_syllable_username_is_open_or_closed() {
    for _ in 0..50 {
        let bytes = generate_complex_username(false, 1);
        assert!(bytes.len() == 2 || bytes.len() == 3);
        assert!(!is_vowel(bytes[0] as char));
        assert!(is_vowel(bytes[1] as char));
        if bytes.len() == 3 {
            assert!(!is_vowel(bytes[2] as char));
        }
    }
}

#[test]
fn letters_at_drawn_positions() {
    let vowels: Vec<u8> = (0..6u128).map(vowel_at).collect();
    assert_eq!(vowels, b"aeiouy".to_vec());
    let consonants: Vec<u8> = (0..20u128).map(consonant_at).collect();
    assert_eq!(consonants, b"bcdfghjklmnpqrstvwxz".to_vec());
}
