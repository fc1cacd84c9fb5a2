use workbench::cipher::SubstitutionCipher;

const ALPHABET: &str = "abcdefghijklmnopqrstuvwxyz";

/// The images of `a` ..= `z`, read off by encoding the alphabet.
fn images(cipher: &SubstitutionCipher) -> Vec<u8> {
    cipher.apply(&ALPHABET.to_string()).into_bytes()
}

fn is_permutation(images: &[u8]) -> bool {
    let mut sorted = images.to_vec();
    sorted.sort();
    sorted == ALPHABET.as_bytes()
}

/// The crossover the contract describes, computed from the parents' images.
fn expected_crossover(a: &[u8], b: &[u8], point: usize) -> Vec<u8> {
    let k = point.min(26);
    let head = &a[..k];
    let mut child = vec![0u8; 26];
    let mut refill = Vec::new();
    for i in 0..26 {
        if i < k {
            child[i] = a[i];
        } else if !head.contains(&b[i]) {
            child[i] = b[i];
        } else {
            refill.push(i);
        }
    }
    let mut missing: Vec<u8> = (b'a'..=b'z').filter(|c| !child.contains(c)).collect();
    missing.sort();
    // The lowest missing letter goes to the last position to fill.
    for (position, letter) in refill.iter().rev().zip(missing.iter()) {
        child[*position] = *letter;
    }
    child
}

#[test]
fn new_ciphers_permute_the_alphabet() {
    for _ in 0..20 {
        let cipher = SubstitutionCipher::new();
        assert!(is_permutation(&images(&cipher)));
    }
}

#[test]
fn clone_keeps_the_images() {
    let cipher = SubstitutionCipher::new();
    assert_eq!(images(&cipher.clone()), images(&cipher));
}

#[test]
fn crossover_at_follows_the_contract() {
    for point in 0..30 {
        let a = SubstitutionCipher::new();
        let b = SubstitutionCipher::new();
        let child = SubstitutionCipher::crossover_at(&a, &b, point);
        let expected = expected_crossover(&images(&a), &images(&b), point);
        assert_eq!(images(&child), expected);
        assert!(is_permutation(&images(&child)));
    }
}

#[test]
fn crossover_at_the_ends_and_with_itself() {
    let a = SubstitutionCipher::new();
    let b = SubstitutionCipher::new();
    assert_eq!(images(&SubstitutionCipher::crossover_at(&a, &b, 0)), images(&b));
    assert_eq!(images(&SubstitutionCipher::crossover_at(&a, &b, 26)), images(&a));
    assert_eq!(images(&SubstitutionCipher::crossover_at(&a, &b, 100)), images(&a));
    assert_eq!(images(&SubstitutionCipher::crossover_at(&a, &a, 13)), images(&a));
}

#[test]
fn random_crossover_is_a_crossover_at_some_point() {
    let a = SubstitutionCipher::new();
    let b = SubstitutionCipher::new();
    let child = images(&SubstitutionCipher::crossover(&a, &b));
    let (ia, ib) = (images(&a), images(&b));
    assert!((0..26).any(|point| expected_crossover(&ia, &ib, point) == child));
}

#[test]
fn mutate_at_swaps_two_images() {
    for position in 0..26 {
        let mut cipher = SubstitutionCipher::new();
        let before = images(&cipher);
        cipher.mutate_at(position);
        let q = (before[position] - b'a') as usize;
        let mut expected = before.clone();
        expected[position] = before[q];
        expected[q] = before[position];
        assert_eq!(images(&cipher), expected);
        assert!(is_permutation(&images(&cipher)));
    }
}

#[test]
fn random_mutation_keeps_a_permutation() {
    let mut cipher = SubstitutionCipher::new();
    for _ in 0..50 {
        cipher.mutate();
        assert!(is_permutation(&images(&cipher)));
    }
}

#[test]
fn apply_replaces_letters_and_keeps_the_rest() {
    let cipher = SubstitutionCipher::new();
    let m = images(&cipher);
    let text = String::from("Hi, a zoo! \u{0100}\u{0161}");
    let encoded: Vec<char> = cipher.apply(&text).chars().collect();
    let expected = vec![
        'H',
        m[(b'i' - b'a') as usize] as char,
        ',',
        ' ',
        m[0] as char,
        ' ',
        m[25] as char,
        m[(b'o' - b'a') as usize] as char,
        m[(b'o' - b'a') as usize] as char,
        '!',
        ' ',
        // U+0100 has low byte 0: kept.
        '\u{0100}',
        // U+0161 has low byte 0x61, the code of `a`: replaced like `a`.
        m[0] as char,
    ];
    assert_eq!(encoded, expected);
    assert_eq!(cipher.apply(&String::new()), "");
}

#[test]
fn to_string_lists_every_letter() {
    let cipher = SubstitutionCipher::new();
    let m = images(&cipher);
    let mut expected = String::new();
    for i in 0..26 {
        expected.push((b'a' + i as u8) as char);
        expected.push_str(": ");
        expected.push(m[i] as char);
        expected.push_str(", ");
    }
    expected.push('\n');
    assert_eq!(cipher.to_string(), expected);
}
