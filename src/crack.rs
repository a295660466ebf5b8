//! Validation of candidate keys against the dictionary, and the search over
//! a whole key space.
use vstd::prelude::*;
use crate::cipher::{
    dec_text, decrypt_vigenere, is_letter, lemma_letter_at_is_letter, letter_at, push_char, valid_key,
};
use crate::dictionary::Dictionary;
use crate::keyspace::{
    generate_permutations_iter, is_key_over, key_count, key_space, lemma_key_space_exhaustive,
};

verus! {

/// How many candidate keys are validated together.
pub const BATCH_SIZE: usize = 64;

/// The leading `n` characters of `s`, or all of `s` where it is shorter.
pub open spec fn first_word(s: Seq<char>, n: nat) -> Seq<char> {
    if n <= s.len() {
        s.take(n as int)
    } else {
        s
    }
}

/// A key passes when the first word of its decryption is in the dictionary.
pub open spec fn passes(key: Seq<char>, text: Seq<char>, n: nat, dict: Set<Seq<char>>) -> bool {
    dict.contains(first_word(dec_text(key, text), n))
}

/// The (key, decryption) pairs of the keys that pass, in the keys' order.
pub open spec fn accepted(
    keys: Seq<Seq<char>>,
    text: Seq<char>,
    n: nat,
    dict: Set<Seq<char>>,
) -> Seq<(Seq<char>, Seq<char>)>
    decreases keys.len(),
{
    if keys.len() == 0 {
        Seq::empty()
    } else {
        let k = keys.last();
        let rest = accepted(keys.drop_last(), text, n, dict);
        if passes(k, text, n, dict) {
            rest.push((k, dec_text(k, text)))
        } else {
            rest
        }
    }
}

/// The 26 upper-case letters 'A' to 'Z', in order.
pub open spec fn latin_alphabet() -> Seq<char> {
    Seq::new(26, |i: int| letter_at(i))
}

/// The alphabet of the search: 'A' to 'Z'.
pub fn uppercase_alphabet() -> (r: Vec<char>)
    ensures
        r@ == latin_alphabet(),
{
    let mut r: Vec<char> = Vec::new();
    for i in 0..26u8
        invariant
            r@ == latin_alphabet().take(i as int),
    {
        r.push((65 + i) as char);
        assert(r@ =~= latin_alphabet().take(i + 1));
    }
    assert(r@ =~= latin_alphabet());
    r
}

fn first_chars(s: &str, n: usize) -> (r: String)
    ensures
        r@ == first_word(s@, n as nat),
{
    let mut r = String::new();
    let mut taken: usize = 0;
    for c in it: s.chars()
        invariant
            it.seq() == s@,
            taken <= n,
            taken == if it.index() <= n { it.index() as int } else { n as int },
            r@ == s@.take(taken as int),
    {
        if taken < n {
            push_char(&mut r, c);
            taken = taken + 1;
            assert(r@ =~= s@.take(taken as int));
        }
    }
    assert(n >= s@.len() ==> r@ =~= s@);
    r
}

/// Decrypts `text` under `key` and returns the decryption when its first
/// `first_word_length` characters form a dictionary word; otherwise `None`.
pub fn decrypt_vigenere_firstword(
    key: &str,
    text: &str,
    first_word_length: usize,
    word_set: &Dictionary,
) -> (r: Option<String>)
    requires
        valid_key(key@),
    ensures
        passes(key@, text@, first_word_length as nat, word_set@) ==> r is Some && r->0@ == dec_text(
            key@,
            text@,
        ),
        !passes(key@, text@, first_word_length as nat, word_set@) ==> r is None,
{
    let decrypted = decrypt_vigenere(key, text);
    let first = first_chars(decrypted.as_str(), first_word_length);
    if word_set.contains(first.as_str()) {
        Some(decrypted)
    } else {
        None
    }
}

/// The views of a list of (key, plaintext) pairs.
pub open spec fn pair_views(v: Seq<(String, String)>) -> Seq<(Seq<char>, Seq<char>)> {
    v.map_values(|p: (String, String)| (p.0@, p.1@))
}

/// The views of a list of keys.
pub open spec fn key_views(v: Seq<String>) -> Seq<Seq<char>> {
    v.map_values(|k: String| k@)
}

/// The accepted (key, plaintext) pairs, in the order they arrived. It only
/// grows, and only its one owner appends to it.
pub struct ResultSet {
    pairs: Vec<(String, String)>,
}

impl View for ResultSet {
    type V = Seq<(Seq<char>, Seq<char>)>;

    closed spec fn view(&self) -> Seq<(Seq<char>, Seq<char>)> {
        pair_views(self.pairs@)
    }
}

impl ResultSet {
    /// An empty result set.
    pub fn new() -> (r: ResultSet)
        ensures
            r@ == Seq::<(Seq<char>, Seq<char>)>::empty(),
    {
        let r = ResultSet { pairs: Vec::new() };
        assert(r@ =~= Seq::<(Seq<char>, Seq<char>)>::empty());
        r
    }

    /// Appends one accepted pair.
    pub fn record(&mut self, key: String, plaintext: String)
        ensures
            final(self)@ == old(self)@.push((key@, plaintext@)),
    {
        self.pairs.push((key, plaintext));
        assert(final(self)@ =~= old(self)@.push((key@, plaintext@)));
    }

    /// The number of pairs recorded.
    pub fn len(&self) -> (r: usize)
        ensures
            r == self@.len(),
    {
        self.pairs.len()
    }

    /// Hands the recorded pairs out, in arrival order.
    pub fn into_pairs(self) -> (r: Vec<(String, String)>)
        ensures
            pair_views(r@) == self@,
    {
        self.pairs
    }
}

proof fn lemma_accepted_append(
    a: Seq<Seq<char>>,
    b: Seq<Seq<char>>,
    text: Seq<char>,
    n: nat,
    dict: Set<Seq<char>>,
)
    ensures
        accepted(a + b, text, n, dict) == accepted(a, text, n, dict) + accepted(b, text, n, dict),
    decreases b.len(),
{
    if b.len() == 0 {
        assert(a + b =~= a);
        assert(accepted(a, text, n, dict) + accepted(b, text, n, dict) =~= accepted(a, text, n, dict));
    } else {
        assert((a + b).drop_last() =~= a + b.drop_last());
        assert((a + b).last() == b.last());
        lemma_accepted_append(a, b.drop_last(), text, n, dict);
        let k = b.last();
        if passes(k, text, n, dict) {
            assert(accepted(a, text, n, dict) + accepted(b.drop_last(), text, n, dict).push(
                (k, dec_text(k, text)),
            ) =~= (accepted(a, text, n, dict) + accepted(b.drop_last(), text, n, dict)).push(
                (k, dec_text(k, text)),
            ));
        }
    }
}

/// Validates each key of a batch and returns the pairs of those that pass,
/// in the batch's order.
pub fn validate_batch(
    keys: &Vec<String>,
    text: &str,
    first_word_length: usize,
    word_set: &Dictionary,
) -> (r: Vec<(String, String)>)
    requires
        forall|i: int| 0 <= i < keys@.len() ==> valid_key(#[trigger] keys@[i]@),
    ensures
        pair_views(r@) == accepted(key_views(keys@), text@, first_word_length as nat, word_set@),
{
    let ghost n = first_word_length as nat;
    let mut r: Vec<(String, String)> = Vec::new();
    for i in 0..keys.len()
        invariant
            n == first_word_length as nat,
            forall|j: int| 0 <= j < keys@.len() ==> valid_key(#[trigger] keys@[j]@),
            pair_views(r@) == accepted(key_views(keys@).take(i as int), text@, n, word_set@),
    {
        let key = &keys[i];
        let ghost kv = key_views(keys@);
        assert(kv.take(i + 1).drop_last() =~= kv.take(i as int));
        assert(kv.take(i + 1).last() == key@);
        assert(accepted(kv.take(i + 1), text@, n, word_set@) == if passes(key@, text@, n, word_set@) {
            accepted(kv.take(i as int), text@, n, word_set@).push((key@, dec_text(key@, text@)))
        } else {
            accepted(kv.take(i as int), text@, n, word_set@)
        });
        if let Some(plain) = decrypt_vigenere_firstword(key.as_str(), text, first_word_length, word_set) {
            let ghost before = r@;
            r.push((key.clone(), plain));
            assert(pair_views(r@) =~= pair_views(before).push((key@, dec_text(key@, text@))));
        }
    }
    assert(key_views(keys@).take(keys@.len() as int) =~= key_views(keys@));
    r
}

/// Searches every key of `key_length` letters 'A' to 'Z' and returns the
/// pairs of those that pass, in enumeration order. Returns `None` where the
/// number of keys does not fit in a `usize`.
pub fn crack(
    encrypted: &str,
    key_length: usize,
    first_word_length: usize,
    word_set: &Dictionary,
) -> (r: Option<ResultSet>)
    ensures
        match r {
            Some(results) => results@ == accepted(
                key_space(latin_alphabet(), key_length as nat),
                encrypted@,
                first_word_length as nat,
                word_set@,
            ),
            None => key_count(latin_alphabet(), key_length as nat) > usize::MAX,
        },
{
    let alphabet = uppercase_alphabet();
    let ghost all = key_space(latin_alphabet(), key_length as nat);
    let ghost n = first_word_length as nat;
    let mut keys = match generate_permutations_iter(alphabet.as_slice(), key_length) {
        Some(ks) => ks,
        None => {
            return None;
        },
    };
    proof {
        assert(latin_alphabet().no_duplicates()) by {
            assert forall|i: int, j: int| 0 <= i < 26 && 0 <= j < 26 && i != j implies latin_alphabet()[i]
                != latin_alphabet()[j] by {
                lemma_letter_at_is_letter(i);
                lemma_letter_at_is_letter(j);
            }
        }
        lemma_key_space_exhaustive(latin_alphabet(), key_length as nat);
    }
    let mut results = ResultSet::new();
    while !keys.is_done()
        invariant
            n == first_word_length as nat,
            all == key_space(latin_alphabet(), key_length as nat),
            keys.alphabet() == latin_alphabet(),
            keys.key_length() == key_length,
            keys.remaining() == all.skip(keys.position() as int),
            keys.position() <= all.len(),
            forall|i: int|
                0 <= i < all.len() ==> is_key_over(
                    latin_alphabet(),
                    key_length as nat,
                    #[trigger] all[i],
                ),
            results@ == accepted(all.take(keys.position() as int), encrypted@, n, word_set@),
        decreases keys.remaining().len(),
    {
        let ghost start = keys.position() as int;
        let batch = keys.next_batch(BATCH_SIZE);
        proof {
            assert forall|i: int| 0 <= i < batch@.len() implies valid_key(#[trigger] batch@[i]@) by {
                assert(batch@[i]@ == all[start + i]);
                assert forall|j: int| 0 <= j < batch@[i]@.len() implies is_letter(
                    #[trigger] batch@[i]@[j],
                ) by {
                    assert(latin_alphabet().contains(all[start + i][j]));
                    let m = choose|m: int| 0 <= m < 26 && latin_alphabet()[m] == all[start + i][j];
                    lemma_letter_at_is_letter(m);
                }
            }
        }
        let pairs = validate_batch(&batch, encrypted, first_word_length, word_set);
        let ghost before = results@;
        for j in 0..pairs.len()
            invariant
                results@ == before + pair_views(pairs@).take(j as int),
        {
            let k = pairs[j].0.clone();
            let p = pairs[j].1.clone();
            results.record(k, p);
            assert(results@ =~= before + pair_views(pairs@).take(j + 1));
        }
        proof {
            let end = keys.position() as int;
            assert(pair_views(pairs@).take(pairs@.len() as int) =~= pair_views(pairs@));
            assert(key_views(batch@) =~= all.subrange(start, end));
            assert(all.take(end) =~= all.take(start) + all.subrange(start, end));
            lemma_accepted_append(all.take(start), all.subrange(start, end), encrypted@, n, word_set@);
        }
    }
    assert(all.take(all.len() as int) =~= all);
    Some(results)
}

proof fn lemma_accepted_count(
    keys: Seq<Seq<char>>,
    text: Seq<char>,
    n: nat,
    dict: Set<Seq<char>>,
    p: (Seq<char>, Seq<char>),
)
    ensures
        accepted(keys, text, n, dict).to_multiset().count(p) == if p.1 == dec_text(p.0, text)
            && passes(p.0, text, n, dict) {
            keys.to_multiset().count(p.0)
        } else {
            0
        },
    decreases keys.len(),
{
    broadcast use vstd::seq_lib::group_to_multiset_ensures;

    if keys.len() == 0 {
        assert(accepted(keys, text, n, dict) =~= Seq::<(Seq<char>, Seq<char>)>::empty());
        assert(keys =~= Seq::<Seq<char>>::empty());
    } else {
        let init = keys.drop_last();
        let k = keys.last();
        assert(keys =~= init.push(k));
        lemma_accepted_count(init, text, n, dict, p);
    }
}

/// However the candidates are scheduled, the pairs collected are the same:
/// for any arrival order of the candidate keys, the accepted pairs form the
/// same multiset, each one a passing key with its decryption, and when the
/// keys are distinct every passing key is collected exactly once.
pub proof fn lemma_arrival_order_irrelevant(
    keys: Seq<Seq<char>>,
    arrivals: Seq<Seq<char>>,
    text: Seq<char>,
    n: nat,
    dict: Set<Seq<char>>,
)
    requires
        arrivals.to_multiset() == keys.to_multiset(),
    ensures
        accepted(arrivals, text, n, dict).to_multiset() == accepted(keys, text, n, dict).to_multiset(),
        forall|p: (Seq<char>, Seq<char>)|
            #[trigger] accepted(arrivals, text, n, dict).contains(p) ==> keys.contains(p.0) && passes(
                p.0,
                text,
                n,
                dict,
            ) && p.1 == dec_text(p.0, text),
        keys.no_duplicates() ==> forall|k: Seq<char>|
            keys.contains(k) && passes(k, text, n, dict) ==> #[trigger] accepted(
                arrivals,
                text,
                n,
                dict,
            ).to_multiset().count((k, dec_text(k, text))) == 1,
{
    broadcast use vstd::seq_lib::group_to_multiset_ensures;

    let got = accepted(arrivals, text, n, dict);
    let want = accepted(keys, text, n, dict);
    assert forall|p: (Seq<char>, Seq<char>)| #[trigger] got.to_multiset().count(p)
        == want.to_multiset().count(p) by {
        lemma_accepted_count(arrivals, text, n, dict, p);
        lemma_accepted_count(keys, text, n, dict, p);
    }
    assert(got.to_multiset() =~= want.to_multiset());
    assert forall|p: (Seq<char>, Seq<char>)| #[trigger] got.contains(p) implies keys.contains(p.0)
        && passes(p.0, text, n, dict) && p.1 == dec_text(p.0, text) by {
        lemma_accepted_count(arrivals, text, n, dict, p);
    }
    if keys.no_duplicates() {
        keys.lemma_multiset_has_no_duplicates();
        assert forall|k: Seq<char>| keys.contains(k) && passes(k, text, n, dict) implies #[trigger] got.to_multiset().count(
            (k, dec_text(k, text)),
        ) == 1 by {
            lemma_accepted_count(arrivals, text, n, dict, (k, dec_text(k, text)));
        }
    }
}

} // verus!
