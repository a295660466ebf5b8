//! Lazy enumeration of every key of a fixed length over an alphabet.
use vstd::prelude::*;
use vstd::arithmetic::power::pow;
use crate::cipher::push_char;

verus! {

/// The key at `index` in mixed-radix order: position 0 takes the symbol at
/// `index % A`, and the rest of the key is the key at `index / A`.
pub open spec fn key_at(alphabet: Seq<char>, length: nat, index: nat) -> Seq<char>
    decreases length,
{
    if length == 0 {
        Seq::empty()
    } else {
        seq![alphabet[(index % alphabet.len()) as int]] + key_at(
            alphabet,
            (length - 1) as nat,
            index / alphabet.len(),
        )
    }
}

/// The number of keys of `length` symbols over `alphabet`.
pub open spec fn key_count(alphabet: Seq<char>, length: nat) -> int {
    pow(alphabet.len() as int, length)
}

/// Every key of `length` symbols over `alphabet`, in enumeration order.
pub open spec fn key_space(alphabet: Seq<char>, length: nat) -> Seq<Seq<char>> {
    Seq::new(key_count(alphabet, length) as nat, |i: int| key_at(alphabet, length, i as nat))
}

/// A key of `length` symbols, each taken from `alphabet`.
pub open spec fn is_key_over(alphabet: Seq<char>, length: nat, key: Seq<char>) -> bool {
    &&& key.len() == length
    &&& forall|i: int| 0 <= i < key.len() ==> alphabet.contains(#[trigger] key[i])
}

/// The index at which `key` stands in enumeration order: the inverse of
/// `key_at` on keys over the alphabet.
pub open spec fn index_of_key(alphabet: Seq<char>, key: Seq<char>) -> nat
    decreases key.len(),
{
    if key.len() == 0 {
        0
    } else {
        (alphabet.index_of(key[0]) + alphabet.len() * index_of_key(alphabet, key.drop_first())) as nat
    }
}

proof fn lemma_key_at_is_key(alphabet: Seq<char>, length: nat, index: nat)
    requires
        alphabet.len() > 0,
    ensures
        is_key_over(alphabet, length, key_at(alphabet, length, index)),
    decreases length,
{
    if length > 0 {
        let a = alphabet.len() as int;
        lemma_key_at_is_key(alphabet, (length - 1) as nat, index / alphabet.len());
        vstd::arithmetic::div_mod::lemma_mod_bound(index as int, a);
        let k = key_at(alphabet, length, index);
        let t = key_at(alphabet, (length - 1) as nat, index / alphabet.len());
        assert forall|i: int| 0 <= i < k.len() implies alphabet.contains(#[trigger] k[i]) by {
            if i > 0 {
                assert(k[i] == t[i - 1]);
            } else {
                assert(alphabet[(index % alphabet.len()) as int] == k[0]);
            }
        }
    }
}

proof fn lemma_key_at_injective(alphabet: Seq<char>, length: nat, i: nat, j: nat)
    requires
        alphabet.no_duplicates(),
        i < key_count(alphabet, length),
        j < key_count(alphabet, length),
        key_at(alphabet, length, i) == key_at(alphabet, length, j),
    ensures
        i == j,
    decreases length,
{
    reveal(pow);
    if length > 0 {
        let a = alphabet.len() as int;
        if a == 0 {
            assert(key_count(alphabet, length) == 0);
        }
        let rest = (length - 1) as nat;
        let ki = key_at(alphabet, length, i);
        let kj = key_at(alphabet, length, j);
        assert(ki[0] == alphabet[(i as int) % a]);
        assert(kj[0] == alphabet[(j as int) % a]);
        vstd::arithmetic::div_mod::lemma_mod_bound(i as int, a);
        vstd::arithmetic::div_mod::lemma_mod_bound(j as int, a);
        assert((i as int) % a == (j as int) % a);
        assert(key_at(alphabet, rest, i / alphabet.len()) =~= ki.drop_first());
        assert(key_at(alphabet, rest, j / alphabet.len()) =~= kj.drop_first());
        vstd::arithmetic::div_mod::lemma_multiply_divide_lt(i as int, a, key_count(alphabet, rest));
        vstd::arithmetic::div_mod::lemma_multiply_divide_lt(j as int, a, key_count(alphabet, rest));
        vstd::arithmetic::div_mod::lemma_div_pos_is_pos(i as int, a);
        vstd::arithmetic::div_mod::lemma_div_pos_is_pos(j as int, a);
        lemma_key_at_injective(alphabet, rest, i / alphabet.len(), j / alphabet.len());
        vstd::arithmetic::div_mod::lemma_fundamental_div_mod(i as int, a);
        vstd::arithmetic::div_mod::lemma_fundamental_div_mod(j as int, a);
    }
}

proof fn lemma_index_of_key(alphabet: Seq<char>, length: nat, key: Seq<char>)
    requires
        is_key_over(alphabet, length, key),
    ensures
        index_of_key(alphabet, key) < key_count(alphabet, length),
        key_at(alphabet, length, index_of_key(alphabet, key)) == key,
    decreases length,
{
    reveal(pow);
    if length > 0 {
        let a = alphabet.len() as int;
        let rest = (length - 1) as nat;
        let tail = key.drop_first();
        assert(alphabet.contains(key[0]));
        assert forall|i: int| 0 <= i < tail.len() implies alphabet.contains(#[trigger] tail[i]) by {
            assert(tail[i] == key[i + 1]);
        }
        lemma_index_of_key(alphabet, rest, tail);
        let p = alphabet.index_of(key[0]);
        let r = index_of_key(alphabet, tail) as int;
        let idx = index_of_key(alphabet, key) as int;
        assert(0 <= p < a && alphabet[p] == key[0]);
        assert(idx == p + a * r);
        assert(idx == r * a + p) by (nonlinear_arith)
            requires
                idx == p + a * r,
        ;
        vstd::arithmetic::div_mod::lemma_fundamental_div_mod_converse(idx, a, r, p);
        assert(idx < a * key_count(alphabet, rest)) by (nonlinear_arith)
            requires
                idx == p + a * r,
                0 <= p < a,
                0 <= r < key_count(alphabet, rest),
        ;
        assert(key_at(alphabet, length, idx as nat) =~= key);
    }
}

/// The enumeration is exhaustive and free of repeats: over an alphabet of
/// A distinct symbols it holds A^L keys, each of L symbols of the alphabet,
/// no two alike, and every such key appears in it.
pub proof fn lemma_key_space_exhaustive(alphabet: Seq<char>, length: nat)
    requires
        alphabet.no_duplicates(),
    ensures
        key_space(alphabet, length).len() == pow(alphabet.len() as int, length),
        forall|i: int|
            0 <= i < key_space(alphabet, length).len() ==> is_key_over(
                alphabet,
                length,
                #[trigger] key_space(alphabet, length)[i],
            ),
        key_space(alphabet, length).no_duplicates(),
        forall|key: Seq<char>|
            is_key_over(alphabet, length, key) ==> #[trigger] key_space(alphabet, length).contains(
                key,
            ),
{
    let ks = key_space(alphabet, length);
    if alphabet.len() == 0 {
        vstd::arithmetic::power::lemma_pow0(0);
        if length > 0 {
            vstd::arithmetic::power::lemma0_pow(length);
        }
    } else {
        vstd::arithmetic::power::lemma_pow_positive(alphabet.len() as int, length);
    }
    assert forall|i: int| 0 <= i < ks.len() implies is_key_over(alphabet, length, #[trigger] ks[i]) by {
        if alphabet.len() > 0 {
            lemma_key_at_is_key(alphabet, length, i as nat);
        } else {
            assert(length == 0);
        }
    }
    assert forall|i: int, j: int| 0 <= i < ks.len() && 0 <= j < ks.len() && i != j implies ks[i]
        != ks[j] by {
        if ks[i] == ks[j] {
            lemma_key_at_injective(alphabet, length, i as nat, j as nat);
        }
    }
    assert forall|key: Seq<char>| is_key_over(alphabet, length, key) implies #[trigger] ks.contains(
        key,
    ) by {
        lemma_index_of_key(alphabet, length, key);
        assert(ks[index_of_key(alphabet, key) as int] == key);
    }
}

/// A one-pass enumerator of the key space. Keys are produced on demand, in
/// enumeration order, and each is produced once.
pub struct KeySpace {
    alphabet: Vec<char>,
    length: usize,
    next: usize,
    total: usize,
}

/// The number of keys of `length` symbols over an alphabet of `a` symbols,
/// or `None` where that number does not fit in a `usize`.
pub fn key_count_checked(a: usize, length: usize) -> (r: Option<usize>)
    ensures
        match r {
            Some(n) => n == pow(a as int, length as nat),
            None => pow(a as int, length as nat) > usize::MAX,
        },
{
    proof {
        reveal(pow);
    }
    let mut total: usize = 1;
    for i in 0..length
        invariant
            total == pow(a as int, i as nat),
    {
        proof {
            reveal(pow);
            vstd::arithmetic::mul::lemma_mul_is_commutative(total as int, a as int);
            assert(pow(a as int, (i + 1) as nat) == a * pow(a as int, i as nat));
        }
        match total.checked_mul(a) {
            Some(t) => {
                total = t;
            },
            None => {
                proof {
                    vstd::arithmetic::mul::lemma_mul_basics(total as int);
                    vstd::arithmetic::power::lemma_pow_increases(a as nat, (i + 1) as nat, length as nat);
                }
                return None;
            },
        }
    }
    Some(total)
}

/// Starts the enumeration of every key of `length` symbols over `alphabet`.
/// Returns `None` where the number of keys does not fit in a `usize`.
pub fn generate_permutations_iter(alphabet: &[char], length: usize) -> (r: Option<KeySpace>)
    ensures
        match r {
            Some(ks) => {
                &&& ks.alphabet() == alphabet@
                &&& ks.key_length() == length
                &&& ks.position() == 0
                &&& ks.remaining() == key_space(alphabet@, length as nat)
            },
            None => key_count(alphabet@, length as nat) > usize::MAX,
        },
{
    match key_count_checked(alphabet.len(), length) {
        Some(total) => {
            let mut symbols: Vec<char> = Vec::new();
            for i in 0..alphabet.len()
                invariant
                    symbols@ == alphabet@.take(i as int),
            {
                symbols.push(alphabet[i]);
                assert(symbols@ =~= alphabet@.take(i + 1));
            }
            assert(symbols@ =~= alphabet@);
            let ks = KeySpace { alphabet: symbols, length, next: 0, total };
            assert(ks.remaining() =~= key_space(alphabet@, length as nat));
            Some(ks)
        },
        None => None,
    }
}

impl KeySpace {
    #[verifier::type_invariant]
    closed spec fn inv(&self) -> bool {
        &&& self.total == key_count(self.alphabet@, self.length as nat)
        &&& self.next <= self.total
    }

    /// The alphabet that keys are drawn from.
    pub closed spec fn alphabet(&self) -> Seq<char> {
        self.alphabet@
    }

    /// The number of symbols in each key.
    pub closed spec fn key_length(&self) -> nat {
        self.length as nat
    }

    /// How many keys have been produced so far.
    pub closed spec fn position(&self) -> nat {
        self.next as nat
    }

    /// The keys not yet produced, in order.
    pub open spec fn remaining(&self) -> Seq<Seq<char>> {
        key_space(self.alphabet(), self.key_length()).skip(self.position() as int)
    }

    /// Produces the next key, or `None` once every key has been produced.
    pub fn next_key(&mut self) -> (r: Option<String>)
        ensures
            final(self).alphabet() == old(self).alphabet(),
            final(self).key_length() == old(self).key_length(),
            old(self).remaining().len() == 0 ==> r is None && final(self).position() == old(
                self,
            ).position(),
            old(self).remaining().len() > 0 ==> r is Some && r->0@ == old(self).remaining()[0]
                && final(self).position() == old(self).position() + 1 && final(self).remaining()
                == old(self).remaining().skip(1),
    {
        proof {
            use_type_invariant(&*self);
        }
        if self.next == self.total {
            None
        } else {
            let k = self.key_at(self.next);
            self.next = self.next + 1;
            assert(final(self).remaining() =~= old(self).remaining().skip(1));
            Some(k)
        }
    }

    /// Produces up to `max` further keys, in order: fewer only when the
    /// space runs out.
    pub fn next_batch(&mut self, max: usize) -> (r: Vec<String>)
        ensures
            final(self).alphabet() == old(self).alphabet(),
            final(self).key_length() == old(self).key_length(),
            r@.len() == if max < old(self).remaining().len() {
                max as int
            } else {
                old(self).remaining().len() as int
            },
            forall|i: int| 0 <= i < r@.len() ==> #[trigger] r@[i]@ == old(self).remaining()[i],
            final(self).position() == old(self).position() + r@.len(),
            final(self).remaining() == old(self).remaining().skip(r@.len() as int),
    {
        let mut r: Vec<String> = Vec::new();
        let mut n: usize = 0;
        while n < max && !self.is_done()
            invariant
                n <= max,
                n == r@.len(),
                self.alphabet() == old(self).alphabet(),
                self.key_length() == old(self).key_length(),
                n <= old(self).remaining().len(),
                self.position() == old(self).position() + n,
                self.remaining() == old(self).remaining().skip(n as int),
                forall|i: int| 0 <= i < r@.len() ==> #[trigger] r@[i]@ == old(self).remaining()[i],
            decreases max - n,
        {
            if let Some(k) = self.next_key() {
                r.push(k);
                n = n + 1;
                assert(self.remaining() =~= old(self).remaining().skip(n as int));
            }
        }
        r
    }

    /// The number of keys in the whole space.
    pub fn size(&self) -> (r: usize)
        ensures
            r == key_count(self.alphabet(), self.key_length()),
    {
        proof {
            use_type_invariant(self);
        }
        self.total
    }

    /// Whether every key has been produced.
    pub fn is_done(&self) -> (r: bool)
        ensures
            r == (self.remaining().len() == 0),
    {
        proof {
            use_type_invariant(self);
        }
        self.next == self.total
    }

    /// The key at `index` in enumeration order.
    pub fn key_at(&self, index: usize) -> (r: String)
        requires
            index < key_count(self.alphabet(), self.key_length()),
        ensures
            r@ == key_at(self.alphabet(), self.key_length(), index as nat),
    {
        proof {
            use_type_invariant(self);
        }
        let a = self.alphabet.len();
        let ghost alpha = self.alphabet@;
        let ghost len = self.length as nat;
        if self.length > 0 && a == 0 {
            proof {
                vstd::arithmetic::power::lemma0_pow(len);
            }
        }
        let mut r = String::new();
        let mut idx: usize = index;
        for j in 0..self.length
            invariant
                a == alpha.len(),
                alpha == self.alphabet@,
                len == self.length,
                self.length > 0 ==> a > 0,
                r@ + key_at(alpha, (len - j) as nat, idx as nat) == key_at(alpha, len, index as nat),
        {
            let ghost before = r@;
            push_char(&mut r, self.alphabet[idx % a]);
            assert(r@ + key_at(alpha, (len - j - 1) as nat, (idx / a) as nat) =~= before
                + key_at(alpha, (len - j) as nat, idx as nat));
            idx = idx / a;
        }
        assert(r@ =~= r@ + key_at(alpha, 0, idx as nat));
        r
    }
}

} // verus!
