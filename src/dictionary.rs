//! The set of known words that a candidate decryption must start with.
use vstd::prelude::*;
use vstd::hash_set::StringHashSet;

verus! {

/// What `str::to_uppercase` makes of a text.
pub uninterp spec fn upper_of(s: Seq<char>) -> Seq<char>;

/// Relies on `str::to_uppercase`: the result depends on the characters
/// alone, and an empty text stays empty.
#[verifier::external_body]
fn to_uppercase(s: &str) -> (r: String)
    ensures
        r@ == upper_of(s@),
        s@.len() == 0 ==> r@.len() == 0,
{
    s.to_uppercase()
}

/// A set of upper-case words, read-only once loaded.
pub struct Dictionary {
    words: StringHashSet,
}

impl View for Dictionary {
    type V = Set<Seq<char>>;

    closed spec fn view(&self) -> Set<Seq<char>> {
        self.words@
    }
}

impl Dictionary {
    /// An empty dictionary.
    pub fn new() -> (r: Dictionary)
        ensures
            r@ == Set::<Seq<char>>::empty(),
    {
        Dictionary { words: StringHashSet::new() }
    }

    /// Adds `word` as it stands; an empty word is skipped.
    pub fn insert_word(&mut self, word: String)
        ensures
            final(self)@ == if word@.len() == 0 {
                old(self)@
            } else {
                old(self)@.insert(word@)
            },
    {
        if word.as_str().unicode_len() != 0 {
            self.words.insert(word);
        }
    }

    /// Adds one line of a word list: the line is upper-cased, and skipped
    /// when that leaves it empty.
    pub fn add_line(&mut self, line: &str)
        ensures
            final(self)@ == if upper_of(line@).len() == 0 {
                old(self)@
            } else {
                old(self)@.insert(upper_of(line@))
            },
    {
        let word = to_uppercase(line);
        self.insert_word(word);
    }

    /// A dictionary holding each non-empty line of `lines`, upper-cased.
    pub fn from_lines(lines: &Vec<String>) -> (r: Dictionary)
        ensures
            forall|w: Seq<char>|
                r@.contains(w) <==> w.len() > 0 && exists|i: int|
                    0 <= i < lines@.len() && #[trigger] upper_of(lines@[i]@) == w,
    {
        let mut d = Dictionary::new();
        for i in 0..lines.len()
            invariant
                forall|w: Seq<char>|
                    d@.contains(w) <==> w.len() > 0 && exists|j: int|
                        0 <= j < i && #[trigger] upper_of(lines@[j]@) == w,
        {
            d.add_line(lines[i].as_str());
            assert forall|w: Seq<char>|
                d@.contains(w) <==> w.len() > 0 && exists|j: int|
                    0 <= j < i + 1 && #[trigger] upper_of(lines@[j]@) == w by {
                if w.len() > 0 && w == upper_of(lines@[i as int]@) {
                    assert(upper_of(lines@[i as int]@) == w);
                }
            }
        }
        d
    }

    /// Whether `word` is in the dictionary, compared exactly.
    pub fn contains(&self, word: &str) -> (r: bool)
        ensures
            r == self@.contains(word@),
    {
        self.words.contains(word)
    }
}

} // verus!
