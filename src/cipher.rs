//! Per-character and per-text Vigenère decryption and encryption.
use vstd::prelude::*;

verus! {

/// An ASCII letter of either case.
pub open spec fn is_letter(c: char) -> bool {
    ('a' <= c && c <= 'z') || ('A' <= c && c <= 'Z')
}

/// The upper-case form of an ASCII letter; any other character is unchanged.
pub open spec fn upper(c: char) -> char {
    if 'a' <= c && c <= 'z' {
        ((c as u32) - 32) as char
    } else {
        c
    }
}

/// Position of a letter in the alphabet, 0 for 'A' up to 25 for 'Z'.
pub open spec fn letter_index(c: char) -> int {
    (upper(c) as u32) - 65
}

/// The letter at a position of the alphabet.
pub open spec fn letter_at(i: int) -> char {
    (65 + i) as char
}

/// Decrypts one character: a letter is shifted back by the key letter's
/// position, modulo the alphabet; anything else passes through.
pub open spec fn dec_char(k: char, c: char) -> char {
    if is_letter(c) {
        letter_at((letter_index(c) - letter_index(k) + 26) % 26)
    } else {
        c
    }
}

/// Encrypts one character, the inverse of `dec_char` on upper-case letters.
pub open spec fn enc_char(k: char, c: char) -> char {
    if is_letter(c) {
        letter_at((letter_index(c) + letter_index(k)) % 26)
    } else {
        c
    }
}

fn letter_offset(c: char) -> (r: u32)
    requires
        is_letter(c),
    ensures
        r == letter_index(c),
        r < 26,
{
    let u = c as u32;
    if 97 <= u && u <= 122 {
        u - 97
    } else {
        u - 65
    }
}

/// Decrypts the ciphertext character `c` under the key character `k`.
pub fn decrypt_char(k: char, c: char) -> (r: char)
    requires
        is_letter(k),
    ensures
        r == dec_char(k, c),
{
    if ('a' <= c && c <= 'z') || ('A' <= c && c <= 'Z') {
        let x: u32 = (letter_offset(c) + 26 - letter_offset(k)) % 26;
        ((x + 65) as u8) as char
    } else {
        c
    }
}

/// Encrypts the plaintext character `c` under the key character `k`.
pub fn encrypt_char(k: char, c: char) -> (r: char)
    requires
        is_letter(k),
    ensures
        r == enc_char(k, c),
{
    if ('a' <= c && c <= 'z') || ('A' <= c && c <= 'Z') {
        let x: u32 = (letter_offset(c) + letter_offset(k)) % 26;
        ((x + 65) as u8) as char
    } else {
        c
    }
}

/// Every character of the key is an ASCII letter.
pub open spec fn valid_key(key: Seq<char>) -> bool {
    forall|i: int| 0 <= i < key.len() ==> is_letter(#[trigger] key[i])
}

/// The key character that meets position `i` of the text: the key repeats
/// cyclically.
pub open spec fn key_char_at(key: Seq<char>, i: int) -> char {
    key[i % (key.len() as int)]
}

/// Decryption of a whole text. Each text character is paired with the key
/// repeated cyclically; an empty key pairs with nothing, so the result is empty.
pub open spec fn dec_text(key: Seq<char>, text: Seq<char>) -> Seq<char> {
    if key.len() == 0 {
        Seq::empty()
    } else {
        Seq::new(text.len(), |i: int| dec_char(key_char_at(key, i), text[i]))
    }
}

/// Encryption of a whole text, pairing characters as `dec_text` does.
pub open spec fn enc_text(key: Seq<char>, text: Seq<char>) -> Seq<char> {
    if key.len() == 0 {
        Seq::empty()
    } else {
        Seq::new(text.len(), |i: int| enc_char(key_char_at(key, i), text[i]))
    }
}

/// A text with its ASCII letters upper-cased.
pub open spec fn upper_text(text: Seq<char>) -> Seq<char> {
    text.map_values(|c: char| upper(c))
}

/// Relies on `String::push`: the character is appended at the end.
#[verifier::external_body]
pub(crate) fn push_char(s: &mut String, c: char)
    ensures
        final(s)@ == old(s)@.push(c),
{
    s.push(c);
}

/// The characters of `s`, in order.
pub fn chars_of(s: &str) -> (r: Vec<char>)
    ensures
        r@ == s@,
{
    let mut r: Vec<char> = Vec::new();
    for c in it: s.chars()
        invariant
            r@ == it.seq().take(it.index() as int),
            it.seq() == s@,
    {
        r.push(c);
    }
    r
}

proof fn lemma_next_key_position(i: int, j: int, n: int)
    requires
        0 <= i,
        0 < n,
        j == if (i % n) + 1 < n { (i % n) + 1 } else { 0 },
    ensures
        j == (i + 1) % n,
{
    vstd::arithmetic::div_mod::lemma_add_mod_noop(i, 1, n);
    vstd::arithmetic::div_mod::lemma_mod_self_0(n);
    vstd::arithmetic::div_mod::lemma_mod_bound(i, n);
    if n == 1 {
        vstd::arithmetic::div_mod::lemma_mod_self_0(1);
        vstd::arithmetic::div_mod::lemma_mod_self_0(i + 1);
    } else {
        vstd::arithmetic::div_mod::lemma_small_mod(1, n as nat);
    }
    if i % n + 1 < n {
        vstd::arithmetic::div_mod::lemma_small_mod((i % n + 1) as nat, n as nat);
    }
}

/// Decrypts `text` under `key`, the key repeated cyclically along the text.
pub fn decrypt_vigenere(key: &str, text: &str) -> (r: String)
    requires
        valid_key(key@),
    ensures
        r@ == dec_text(key@, text@),
{
    let k = chars_of(key);
    let mut r = String::new();
    if k.len() == 0 {
        return r;
    }
    let mut j: usize = 0;
    for c in it: text.chars()
        invariant
            it.seq() == text@,
            k@ == key@,
            k@.len() > 0,
            j < k@.len(),
            j == it.index() % (k@.len() as int),
            valid_key(key@),
            r@ == dec_text(key@, text@).take(it.index() as int),
    {
        let d = decrypt_char(k[j], c);
        push_char(&mut r, d);
        assert(r@ =~= dec_text(key@, text@).take(it.index() + 1));
        j = if j < k.len() - 1 { j + 1 } else { 0 };
        proof { lemma_next_key_position(it.index() as int, j as int, k@.len() as int); }
    }
    assert(r@ =~= dec_text(key@, text@));
    r
}

/// Encrypts `text` under `key`, the key repeated cyclically along the text.
pub fn encrypt_vigenere(key: &str, text: &str) -> (r: String)
    requires
        valid_key(key@),
    ensures
        r@ == enc_text(key@, text@),
{
    let k = chars_of(key);
    let mut r = String::new();
    if k.len() == 0 {
        return r;
    }
    let mut j: usize = 0;
    for c in it: text.chars()
        invariant
            it.seq() == text@,
            k@ == key@,
            k@.len() > 0,
            j < k@.len(),
            j == it.index() % (k@.len() as int),
            valid_key(key@),
            r@ == enc_text(key@, text@).take(it.index() as int),
    {
        let d = encrypt_char(k[j], c);
        push_char(&mut r, d);
        assert(r@ =~= enc_text(key@, text@).take(it.index() + 1));
        j = if j < k.len() - 1 { j + 1 } else { 0 };
        proof { lemma_next_key_position(it.index() as int, j as int, k@.len() as int); }
    }
    assert(r@ =~= enc_text(key@, text@));
    r
}

pub proof fn lemma_letter_at_is_letter(i: int)
    requires
        0 <= i < 26,
    ensures
        is_letter(letter_at(i)),
        letter_index(letter_at(i)) == i,
{
}

proof fn lemma_char_round_trip(k: char, c: char)
    requires
        is_letter(k),
    ensures
        dec_char(k, enc_char(k, c)) == upper(c),
{
    if is_letter(c) {
        let ci = letter_index(c);
        let ki = letter_index(k);
        let m = (ci + ki) % 26;
        assert(0 <= m < 26);
        lemma_letter_at_is_letter(m);
        assert((m - ki + 26) % 26 == ci) by {
            vstd::arithmetic::div_mod::lemma_fundamental_div_mod(ci + ki, 26);
            vstd::arithmetic::div_mod::lemma_mod_multiples_vanish((ci + ki) / 26, ci - ki + 26, 26) ;
        }
        lemma_letter_at_is_letter(ci);
    }
}

/// Decrypting with a key made only of 'A' gives the text back with its
/// letters upper-cased and every other character unchanged.
pub proof fn lemma_identity_key(key: Seq<char>, text: Seq<char>)
    requires
        key.len() > 0,
        forall|i: int| 0 <= i < key.len() ==> #[trigger] key[i] == 'A',
    ensures
        dec_text(key, text) == upper_text(text),
{
    assert forall|i: int| 0 <= i < text.len() implies #[trigger] dec_text(key, text)[i]
        == upper_text(text)[i] by {
        vstd::arithmetic::div_mod::lemma_mod_bound(i, key.len() as int);
        let c = text[i];
        if is_letter(c) {
            lemma_letter_at_is_letter(letter_index(c));
        }
    }
    assert(dec_text(key, text) =~= upper_text(text));
}

/// Decrypting an encryption under the same key gives back the plaintext,
/// its letters upper-cased and every other character unchanged.
pub proof fn lemma_round_trip(key: Seq<char>, text: Seq<char>)
    requires
        key.len() > 0,
        valid_key(key),
    ensures
        dec_text(key, enc_text(key, text)) == upper_text(text),
{
    assert forall|i: int| 0 <= i < text.len() implies #[trigger] dec_text(
        key,
        enc_text(key, text),
    )[i] == upper_text(text)[i] by {
        vstd::arithmetic::div_mod::lemma_mod_bound(i, key.len() as int);
        lemma_char_round_trip(key_char_at(key, i), text[i]);
    }
    assert(dec_text(key, enc_text(key, text)) =~= upper_text(text));
}

} // verus!
