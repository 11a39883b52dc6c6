use vstd::prelude::*;

use crate::random::random_below;

verus! {

pub open spec fn is_vowel(b: u8) -> bool {
    b == 97 || b == 101 || b == 105 || b == 111 || b == 117 || b == 121
}

pub open spec fn is_consonant(b: u8) -> bool {
    &&& 97 <= b <= 122
    &&& !is_vowel(b)
}

pub open spec fn is_letter(b: u8) -> bool {
    is_vowel(b) || is_consonant(b)
}

/// ASCII upper case of a lower-case letter; other bytes stay as they are.
pub open spec fn upper(b: u8) -> u8 {
    if 97 <= b <= 122 {
        (b - 32) as u8
    } else {
        b
    }
}

/// `w` with its first byte in upper case when `capitalize` is set.
pub open spec fn capitalized(w: Seq<u8>, capitalize: bool) -> Seq<u8> {
    if capitalize && w.len() > 0 {
        w.update(0, upper(w[0]))
    } else {
        w
    }
}

/// Lower-case letters in which vowels and consonants take turns.
pub open spec fn alternating(w: Seq<u8>) -> bool {
    &&& forall|i: int| 0 <= i < w.len() ==> #[trigger] is_letter(w[i])
    &&& forall|i: int| 0 <= i < w.len() - 1 ==> is_vowel(#[trigger] w[i]) != is_vowel(w[i + 1])
}

pub open spec fn is_open_syllable(s: Seq<u8>) -> bool {
    s.len() == 2 && is_consonant(s[0]) && is_vowel(s[1])
}

pub open spec fn is_closed_syllable(s: Seq<u8>) -> bool {
    s.len() == 3 && is_consonant(s[0]) && is_vowel(s[1]) && is_consonant(s[2])
}

/// `w` is `n` syllables one after the other, each a consonant and a vowel,
/// optionally followed by another consonant.
pub open spec fn syllables(w: Seq<u8>, n: nat) -> bool
    decreases n,
{
    if n == 0 {
        w.len() == 0
    } else {
        (w.len() >= 2 && is_open_syllable(w.subrange(w.len() - 2, w.len() as int))
            && syllables(w.subrange(0, w.len() - 2), (n - 1) as nat)) || (w.len() >= 3
            && is_closed_syllable(w.subrange(w.len() - 3, w.len() as int)) && syllables(
            w.subrange(0, w.len() - 3),
            (n - 1) as nat,
        ))
    }
}

/// Each syllable holds two or three letters.
pub proof fn lemma_syllables_length(w: Seq<u8>, n: nat)
    requires
        syllables(w, n),
    ensures
        2 * n <= w.len() <= 3 * n,
    decreases n,
{
    if n > 0 {
        if w.len() >= 2 && is_open_syllable(w.subrange(w.len() - 2, w.len() as int))
            && syllables(w.subrange(0, w.len() - 2), (n - 1) as nat) {
            lemma_syllables_length(w.subrange(0, w.len() - 2), (n - 1) as nat);
        } else {
            lemma_syllables_length(w.subrange(0, w.len() - 3), (n - 1) as nat);
        }
    }
}

/// The vowels "aeiouy", in order.
pub open spec fn vowels() -> Seq<u8> {
    seq![97u8, 101, 105, 111, 117, 121]
}

/// The twenty consonants, in alphabetical order.
pub open spec fn consonants() -> Seq<u8> {
    seq![98u8, 99, 100, 102, 103, 104, 106, 107, 108, 109, 110, 112, 113, 114, 115, 116, 118, 119, 120, 122]
}

/// The vowel at position `i` of "aeiouy".
pub fn vowel_at(i: u128) -> (r: u8)
    requires
        i < 6,
    ensures
        r == vowels()[i as int],
        is_vowel(r),
{
    if i == 0 {
        97
    } else if i == 1 {
        101
    } else if i == 2 {
        105
    } else if i == 3 {
        111
    } else if i == 4 {
        117
    } else {
        121
    }
}

/// The consonant at position `i` of the twenty, in alphabetical order.
pub fn consonant_at(i: u128) -> (r: u8)
    requires
        i < 20,
    ensures
        r == consonants()[i as int],
        is_consonant(r),
{
    if i == 0 {
        98
    } else if i == 1 {
        99
    } else if i == 2 {
        100
    } else if i == 3 {
        102
    } else if i == 4 {
        103
    } else if i == 5 {
        104
    } else if i == 6 {
        106
    } else if i == 7 {
        107
    } else if i == 8 {
        108
    } else if i == 9 {
        109
    } else if i == 10 {
        110
    } else if i == 11 {
        112
    } else if i == 12 {
        113
    } else if i == 13 {
        114
    } else if i == 14 {
        115
    } else if i == 15 {
        116
    } else if i == 16 {
        118
    } else if i == 17 {
        119
    } else if i == 18 {
        120
    } else {
        122
    }
}

/// The vowel at a position drawn uniformly at random.
fn choose_random_vowel() -> (r: u8)
    ensures
        is_vowel(r),
        exists|i: int| 0 <= i < 6 && r == #[trigger] vowels()[i],
{
    let i = random_below(6);
    vowel_at(i)
}

/// The consonant at a position drawn uniformly at random.
fn choose_random_consonant() -> (r: u8)
    ensures
        is_consonant(r),
        exists|i: int| 0 <= i < 20 && r == #[trigger] consonants()[i],
{
    let i = random_below(20);
    consonant_at(i)
}

fn add_vowel(input: &mut Vec<u8>)
    ensures
        final(input)@.len() == old(input)@.len() + 1,
        final(input)@.subrange(0, old(input)@.len() as int) == old(input)@,
        is_vowel(final(input)@.last()),
{
    let v = choose_random_vowel();
    input.push(v);
    assert(final(input)@.subrange(0, old(input)@.len() as int) =~= old(input)@);
}

fn add_consonant(input: &mut Vec<u8>)
    ensures
        final(input)@.len() == old(input)@.len() + 1,
        final(input)@.subrange(0, old(input)@.len() as int) == old(input)@,
        is_consonant(final(input)@.last()),
{
    let c = choose_random_consonant();
    input.push(c);
    assert(final(input)@.subrange(0, old(input)@.len() as int) =~= old(input)@);
}

/// Position `j` of `w` holds a letter, a vowel exactly on the positions of
/// the parity the word started with.
pub open spec fn slot_holds(w: Seq<u8>, j: int, start_vowel: bool) -> bool {
    is_letter(w[j]) && (is_vowel(w[j]) <==> ((j % 2 == 0) == start_vowel))
}

fn upper_byte(b: u8) -> (r: u8)
    ensures
        r == upper(b),
{
    if 97 <= b && b <= 122 {
        b - 32
    } else {
        b
    }
}

/// Puts the first byte of a non-empty `w` in upper case when asked.
fn capitalize_first(w: &mut Vec<u8>, capitalize: bool)
    ensures
        final(w)@ == capitalized(old(w)@, capitalize),
{
    if capitalize && w.len() > 0 {
        let c = upper_byte(w[0]);
        w.set(0, c);
    }
}

/// Generate a simple pronounceable username by alternating random vowels
/// and consonants: `length` lower-case letters, starting with a vowel or a
/// consonant as a coin flip decides, the first one in upper case when
/// `capitalize` is set.
pub fn generate_simple_username(capitalize: bool, length: usize) -> (r: Vec<u8>)
    ensures
        exists|w: Seq<u8>|
            #![trigger capitalized(w, capitalize)]
            w.len() == length && alternating(w) && r@ == capitalized(w, capitalize),
{
    let mut output: Vec<u8> = Vec::new();
    if length == 0 {
        assert(alternating(output@));
        assert(output@ == capitalized(output@, capitalize));
        return output;
    }
    let start_vowel = random_below(2) == 0;
    let mut i: usize = 0;
    while i < length
        invariant
            i <= length,
            output@.len() == i,
            forall|j: int| 0 <= j < i ==> #[trigger] slot_holds(output@, j, start_vowel),
        decreases length - i,
    {
        let ghost before = output@;
        if (i % 2 == 0) == start_vowel {
            add_vowel(&mut output);
        } else {
            add_consonant(&mut output);
        }
        assert(output@[i as int] == output@.last());
        assert forall|j: int| 0 <= j < i + 1 implies #[trigger] slot_holds(output@, j, start_vowel) by {
            if j < i {
                assert(output@.subrange(0, i as int)[j] == output@[j]);
                assert(slot_holds(before, j, start_vowel));
            }
        }
        i = i + 1;
    }
    let ghost w = output@;
    assert forall|j: int| 0 <= j < w.len() - 1 implies is_vowel(#[trigger] w[j]) != is_vowel(
        w[j + 1],
    ) by {
        assert(slot_holds(w, j, start_vowel) && slot_holds(w, j + 1, start_vowel));
    }
    assert forall|j: int| 0 <= j < w.len() implies #[trigger] is_letter(w[j]) by {
        assert(slot_holds(w, j, start_vowel));
    }
    assert(alternating(w));
    capitalize_first(&mut output, capitalize);
    assert(output@ == capitalized(w, capitalize));
    output
}

/// Generate a pronounceable username from `length` random syllables, each
/// open (consonant, vowel) or closed (consonant, vowel, consonant) as a coin
/// flip decides; the first letter is in upper case when `capitalize` is set.
pub fn generate_complex_username(capitalize: bool, length: usize) -> (r: Vec<u8>)
    ensures
        exists|w: Seq<u8>|
            #![trigger capitalized(w, capitalize)]
            syllables(w, length as nat) && r@ == capitalized(w, capitalize),
        2 * length <= r@.len() <= 3 * length,
{
    let mut output: Vec<u8> = Vec::new();
    let mut i: usize = 0;
    while i < length
        invariant
            i <= length,
            syllables(output@, i as nat),
        decreases length - i,
    {
        let ghost before = output@;
        let closed = random_below(2) == 0;
        add_consonant(&mut output);
        let ghost s1 = output@;
        add_vowel(&mut output);
        let ghost s2 = output@;
        if closed {
            add_consonant(&mut output);
            let ghost s3 = output@;
            assert(s3[s3.len() - 3] == s2[s2.len() - 2]);
            assert(s2[s2.len() - 2] == s1.last());
            assert(s3[s3.len() - 2] == s2.last());
            assert(s3.subrange(0, s3.len() - 3) =~= before);
            assert(is_closed_syllable(s3.subrange(s3.len() - 3, s3.len() as int)));
        } else {
            assert(s2[s2.len() - 2] == s1.last());
            assert(s2.subrange(0, s2.len() - 2) =~= before);
            assert(is_open_syllable(s2.subrange(s2.len() - 2, s2.len() as int)));
        }
        i = i + 1;
    }
    proof {
        lemma_syllables_length(output@, length as nat);
    }
    let ghost w = output@;
    capitalize_first(&mut output, capitalize);
    assert(output@.len() == w.len());
    output
}

} // verus!
