use std::collections::HashSet;
use vigenere_crack::cipher::{decrypt_char, decrypt_vigenere, encrypt_char, encrypt_vigenere, chars_of};
use vigenere_crack::crack::{
    crack, decrypt_vigenere_firstword, uppercase_alphabet, validate_batch, ResultSet, BATCH_SIZE,
};
use vigenere_crack::dictionary::Dictionary;
use vigenere_crack::keyspace::{generate_permutations_iter, key_count_checked, KeySpace};

fn all_keys(mut ks: KeySpace) -> Vec<String> {
    let mut out = Vec::new();
    while let Some(k) = ks.next_key() {
        out.push(k);
    }
    out
}

fn dict_of(words: &[&str]) -> Dictionary {
    let mut d = Dictionary::new();
    for w in words {
        d.add_line(w);
    }
    d
}

#[test]
fn key_space_two_symbols_three_long_has_eight_distinct_keys() {
    let ks = generate_permutations_iter(&['A', 'B'], 3).unwrap();
    assert_eq!(ks.size(), 8);
    let keys = all_keys(ks);
    assert_eq!(keys.len(), 8);
    assert!(keys.iter().all(|k| k.chars().count() == 3));
    let distinct: HashSet<&String> = keys.iter().collect();
    assert_eq!(distinct.len(), 8);
}

#[test]
fn key_space_order_is_mixed_radix() {
    let keys = all_keys(generate_permutations_iter(&['A', 'B'], 2).unwrap());
    assert_eq!(keys, vec!["AA", "BA", "AB", "BB"]);
}

#[test]
fn key_at_picks_symbols_by_remainder() {
    let alphabet = uppercase_alphabet();
    let ks = generate_permutations_iter(&alphabet, 2).unwrap();
    assert_eq!(ks.size(), 676);
    assert_eq!(ks.key_at(0), "AA");
    assert_eq!(ks.key_at(1), "BA");
    assert_eq!(ks.key_at(27), "BB");
    assert_eq!(ks.key_at(675), "ZZ");
}

#[test]
fn key_space_of_length_zero_has_one_empty_key() {
    let keys = all_keys(generate_permutations_iter(&['A', 'B'], 0).unwrap());
    assert_eq!(keys, vec![String::new()]);
}

#[test]
fn key_space_over_empty_alphabet_is_empty() {
    let ks = generate_permutations_iter(&[], 2).unwrap();
    assert!(ks.is_done());
    assert_eq!(all_keys(ks).len(), 0);
}

#[test]
fn key_space_too_large_is_refused() {
    let alphabet = uppercase_alphabet();
    assert!(generate_permutations_iter(&alphabet, 20).is_none());
    assert_eq!(key_count_checked(26, 20), None);
    assert_eq!(key_count_checked(26, 3), Some(17576));
    assert_eq!(key_count_checked(0, 0), Some(1));
}

#[test]
fn batches_cover_the_space_once() {
    let alphabet = uppercase_alphabet();
    let mut ks = generate_permutations_iter(&alphabet, 2).unwrap();
    let mut sizes = Vec::new();
    let mut seen = HashSet::new();
    while !ks.is_done() {
        let batch = ks.next_batch(BATCH_SIZE);
        sizes.push(batch.len());
        for k in batch {
            assert!(seen.insert(k));
        }
    }
    assert_eq!(sizes.len(), 11);
    assert!(sizes[..10].iter().all(|&n| n == 64));
    assert_eq!(sizes[10], 36);
    assert_eq!(seen.len(), 676);
    assert!(ks.next_key().is_none());
    assert!(ks.next_batch(5).is_empty());
}

#[test]
fn uppercase_alphabet_is_a_to_z() {
    let a = uppercase_alphabet();
    assert_eq!(a.len(), 26);
    assert_eq!(a.iter().collect::<String>(), "ABCDEFGHIJKLMNOPQRSTUVWXYZ");
}

#[test]
fn decrypt_char_shifts_back() {
    assert_eq!(decrypt_char('B', 'C'), 'B');
    assert_eq!(decrypt_char('B', 'A'), 'Z');
    assert_eq!(decrypt_char('B', 'a'), 'Z');
    assert_eq!(decrypt_char('Z', 'Y'), 'Z');
    assert_eq!(decrypt_char('A', 'q'), 'Q');
    assert_eq!(decrypt_char('b', 'C'), 'B');
}

#[test]
fn decrypt_char_passes_non_letters() {
    assert_eq!(decrypt_char('K', '!'), '!');
    assert_eq!(decrypt_char('K', ' '), ' ');
    assert_eq!(decrypt_char('K', '7'), '7');
    assert_eq!(decrypt_char('K', 'é'), 'é');
}

#[test]
fn encrypt_char_shifts_forward() {
    assert_eq!(encrypt_char('B', 'Z'), 'A');
    assert_eq!(encrypt_char('C', 'a'), 'C');
    assert_eq!(encrypt_char('A', '?'), '?');
}

#[test]
fn decrypt_repeats_key_cyclically() {
    assert_eq!(decrypt_vigenere("AB", "HFLMOXOSLE"), "HELLOWORLD");
    assert_eq!(encrypt_vigenere("AB", "HELLOWORLD"), "HFLMOXOSLE");
}

#[test]
fn empty_key_decrypts_to_empty_text() {
    assert_eq!(decrypt_vigenere("", "ABC"), "");
}

#[test]
fn identity_key_upper_cases() {
    assert_eq!(decrypt_vigenere("AAA", "Hello, World!"), "HELLO, WORLD!");
    assert_eq!(decrypt_vigenere("A", ""), "");
}

#[test]
fn round_trip_restores_upper_cased_plaintext() {
    let plain = "Attack at dawn, 5 o'clock!";
    let c = encrypt_vigenere("LEMON", plain);
    assert_eq!(c, "LXFOPV MH OEIB, 5 C'NPAQX!");
    assert_eq!(decrypt_vigenere("LEMON", &c), "ATTACK AT DAWN, 5 O'CLOCK!");
}

#[test]
fn chars_of_keeps_order() {
    assert_eq!(chars_of("aé!"), vec!['a', 'é', '!']);
}

#[test]
fn dictionary_upper_cases_and_skips_empty_lines() {
    let mut d = Dictionary::new();
    d.add_line("hello");
    d.add_line("");
    d.add_line("World");
    assert!(d.contains("HELLO"));
    assert!(d.contains("WORLD"));
    assert!(!d.contains("hello"));
    assert!(!d.contains(""));
}

#[test]
fn dictionary_insert_word_is_exact() {
    let mut d = Dictionary::new();
    d.insert_word("abc".to_string());
    d.insert_word(String::new());
    assert!(d.contains("abc"));
    assert!(!d.contains("ABC"));
    assert!(!d.contains(""));
}

#[test]
fn dictionary_from_lines() {
    let d = Dictionary::from_lines(&vec!["cat".to_string(), String::new(), "Dog".to_string()]);
    assert!(d.contains("CAT"));
    assert!(d.contains("DOG"));
    assert!(!d.contains("COW"));
}

#[test]
fn validation_accepts_dictionary_prefix() {
    let d = dict_of(&["HELLO"]);
    assert_eq!(
        decrypt_vigenere_firstword("AB", "HFLMOXOSLE", 5, &d),
        Some("HELLOWORLD".to_string())
    );
}

#[test]
fn validation_rejects_unknown_prefix() {
    let d = dict_of(&["HELLO"]);
    assert_eq!(decrypt_vigenere_firstword("AA", "HFLMOXOSLE", 5, &d), None);
    assert_eq!(decrypt_vigenere_firstword("AB", "HFLMOXOSLE", 4, &d), None);
    assert_eq!(decrypt_vigenere_firstword("AB", "HFLMOXOSLE", 6, &d), None);
}

#[test]
fn validation_prefix_longer_than_text_uses_whole_text() {
    let d = dict_of(&["HI"]);
    assert_eq!(decrypt_vigenere_firstword("A", "hi", 10, &d), Some("HI".to_string()));
}

#[test]
fn validate_batch_keeps_passing_keys_in_order() {
    let d = dict_of(&["HELLO", "IGMNP"]);
    let keys = vec!["AA".to_string(), "AB".to_string(), "ZZ".to_string()];
    let c = encrypt_vigenere("AB", "HELLOWORLD");
    let got = validate_batch(&keys, &c, 5, &d);
    assert_eq!(
        got,
        vec![
            ("AB".to_string(), "HELLOWORLD".to_string()),
            ("ZZ".to_string(), "IGMNPYPTMF".to_string()),
        ]
    );
}

#[test]
fn arrival_order_does_not_change_the_collected_pairs() {
    let d = dict_of(&["HELLO", "IGMNP"]);
    let c = encrypt_vigenere("AB", "HELLOWORLD");
    let mut keys = all_keys(generate_permutations_iter(&uppercase_alphabet(), 2).unwrap());
    let forward: HashSet<(String, String)> = validate_batch(&keys, &c, 5, &d).into_iter().collect();
    keys.reverse();
    let backward = validate_batch(&keys, &c, 5, &d);
    let backward_set: HashSet<(String, String)> = backward.iter().cloned().collect();
    assert_eq!(backward.len(), backward_set.len());
    assert_eq!(forward, backward_set);
    assert_eq!(forward.len(), 2);
}

#[test]
fn result_set_keeps_arrival_order() {
    let mut r = ResultSet::new();
    assert_eq!(r.len(), 0);
    r.record("B".to_string(), "X".to_string());
    r.record("A".to_string(), "Y".to_string());
    assert_eq!(r.len(), 2);
    assert_eq!(
        r.into_pairs(),
        vec![("B".to_string(), "X".to_string()), ("A".to_string(), "Y".to_string())]
    );
}

#[test]
fn end_to_end_finds_hello_world() {
    let c = encrypt_vigenere("AB", "HELLOWORLD");
    let d = dict_of(&["HELLO"]);
    let results = crack(&c, 2, 5, &d).unwrap().into_pairs();
    assert!(results.contains(&("AB".to_string(), "HELLOWORLD".to_string())));
    let keys: HashSet<&String> = results.iter().map(|p| &p.0).collect();
    assert_eq!(keys.len(), results.len());
}

#[test]
fn crack_with_empty_dictionary_finds_nothing() {
    let d = Dictionary::new();
    assert_eq!(crack("ABC", 1, 1, &d).unwrap().len(), 0);
}

#[test]
fn crack_refuses_too_large_key_space() {
    let d = Dictionary::new();
    assert!(crack("ABC", 20, 1, &d).is_none());
}
