//! The canonical key of an anagram equivalence class.
//!
//! A key stands for the multiset of characters of a word: two words get
//! equal keys exactly when each character occurs the same number of times
//! in both. The representation is the word's characters in sorted order,
//! which is a canonical form of that multiset.

use vstd::prelude::*;
use vstd::multiset::Multiset;
use vstd::relations::{sorted_by, total_ordering};

verus! {

/// The order in which a key stores its characters: by code point.
pub open spec fn char_le(a: char, b: char) -> bool {
    (a as u32) <= (b as u32)
}

/// The sort order, as a function value usable with `sorted_by`.
pub open spec fn char_le_fn() -> spec_fn(char, char) -> bool {
    |a: char, b: char| char_le(a, b)
}

/// `char_le` is a total order on characters.
pub proof fn lemma_char_le_total()
    ensures
        total_ordering(char_le_fn()),
{
    let r = char_le_fn();
    assert(vstd::relations::reflexive(r)) by {
        assert forall|x: char| #[trigger] r(x, x) by {}
    }
    assert(vstd::relations::antisymmetric(r)) by {
        assert forall|x: char, y: char| #[trigger] r(x, y) && #[trigger] r(y, x) implies x == y by {
            vstd::utf8::char_u32_cast(x, x as u32);
            vstd::utf8::char_u32_cast(y, y as u32);
        }
    }
    assert(vstd::relations::transitive(r)) by {
        assert forall|x: char, y: char, z: char| #[trigger] r(x, y) && #[trigger] r(y, z) implies r(
            x,
            z,
        ) by {}
    }
    assert(vstd::relations::strongly_connected(r)) by {
        assert forall|x: char, y: char| #[trigger] r(x, y) || #[trigger] r(y, x) by {}
    }
}

/// Inserting `c` at the first position whose character is not below it
/// keeps a sorted sequence sorted.
proof fn lemma_insert_sorted(s: Seq<char>, j: int, c: char)
    requires
        sorted_by(s, char_le_fn()),
        0 <= j <= s.len(),
        forall|p: int| 0 <= p < j ==> char_le(#[trigger] s[p], c),
        j < s.len() ==> char_le(c, s[j]),
    ensures
        sorted_by(s.insert(j, c), char_le_fn()),
{
    let t = s.insert(j, c);
    s.insert_ensures(j, c);
    assert forall|p: int, q: int| 0 <= p < q < t.len() implies #[trigger] char_le_fn()(
        t[p],
        t[q],
    ) by {
        if p < j {
            assert(t[p] == s[p]);
        } else if p == j {
            assert(t[p] == c);
        } else {
            assert(t[p] == s[p - 1]);
        }
        if q < j {
            assert(t[q] == s[q]);
        } else if q == j {
            assert(t[q] == c);
        } else {
            assert(t[q] == s[q - 1]);
        }
        if q < j {
            assert(char_le_fn()(s[p], s[q]));
        } else if q == j {
            assert(char_le(s[p], c));
        } else if p < j {
            assert(char_le_fn()(s[p], s[q - 1]));
        } else if p == j {
            assert(j < s.len() && char_le(c, s[j]));
            if q - 1 > j {
                assert(char_le_fn()(s[j], s[q - 1]));
            }
        } else {
            assert(char_le_fn()(s[p - 1], s[q - 1]));
        }
    }
}

/// A canonical key of an anagram equivalence class.
///
/// Its view is the multiset of characters of the word it was built from,
/// which is exactly the character-to-count mapping of that word (a count
/// of zero is the same as absence from the multiset). The stored form is
/// canonical: two well-formed keys with equal views are identical.
pub struct CanonicalKey {
    letters: Vec<char>,
}

impl View for CanonicalKey {
    type V = Multiset<char>;

    closed spec fn view(&self) -> Multiset<char> {
        self.letters@.to_multiset()
    }
}

impl CanonicalKey {
    /// The stored characters are in sorted order.
    pub closed spec fn wf(self) -> bool {
        sorted_by(self.letters@, char_le_fn())
    }

    /// Derive the canonical key of `word`: one pass over its characters,
    /// counting each occurrence (by keeping every occurrence in the
    /// sorted canonical form).
    pub fn build(word: &str) -> (k: CanonicalKey)
        ensures
            k.wf(),
            k@ == word@.to_multiset(),
    {
        let n: usize = word.unicode_len();
        let mut letters: Vec<char> = Vec::new();
        proof {
            assert(word@.take(0) =~= Seq::<char>::empty());
            assert(letters@.to_multiset() =~= word@.take(0).to_multiset());
        }
        let mut i: usize = 0;
        while i < n
            invariant
                i <= n,
                n == word@.len(),
                sorted_by(letters@, char_le_fn()),
                letters@.to_multiset() == word@.take(i as int).to_multiset(),
                letters@.len() == i,
            decreases n - i,
        {
            let c = word.get_char(i);
            let mut j: usize = 0;
            while j < letters.len() && (letters[j] as u32) <= (c as u32)
                invariant
                    j <= letters@.len(),
                    forall|p: int| 0 <= p < j ==> char_le(#[trigger] letters@[p], c),
                decreases letters@.len() - j,
            {
                j += 1;
            }
            proof {
                lemma_insert_sorted(letters@, j as int, c);
                vstd::seq_lib::to_multiset_insert(letters@, j as int, c);
                assert(word@.take(i + 1) =~= word@.take(i as int).push(word@[i as int]));
                vstd::seq_lib::to_multiset_build(word@.take(i as int), word@[i as int]);
            }
            letters.insert(j, c);
            i += 1;
        }
        proof {
            assert(word@.take(n as int) =~= word@);
        }
        CanonicalKey { letters }
    }

    /// Compare two keys by their character-count contents: the result is
    /// `true` exactly when the two multisets (equivalently, the two
    /// character-to-count mappings) are equal.
    pub fn key_eq(&self, other: &CanonicalKey) -> (r: bool)
        requires
            self.wf(),
            other.wf(),
        ensures
            r == (self@ == other@),
    {
        if self.letters.len() != other.letters.len() {
            proof {
                self.letters@.to_multiset_ensures();
                other.letters@.to_multiset_ensures();
            }
            return false;
        }
        let n = self.letters.len();
        let mut i: usize = 0;
        while i < n
            invariant
                i <= n,
                n == self.letters@.len() == other.letters@.len(),
                self.wf(),
                other.wf(),
                forall|p: int| 0 <= p < i ==> self.letters@[p] == other.letters@[p],
            decreases n - i,
        {
            if self.letters[i] != other.letters[i] {
                proof {
                    if self@ == other@ {
                        lemma_char_le_total();
                        vstd::seq_lib::lemma_sorted_unique(
                            self.letters@,
                            other.letters@,
                            char_le_fn(),
                        );
                    }
                }
                return false;
            }
            i += 1;
        }
        proof {
            assert(self.letters@ =~= other.letters@);
        }
        true
    }
}

/// Law: two words build equal keys exactly when they are anagrams of each
/// other, that is, when they have the same multiset of characters. The
/// empty word forms its own equivalence class (the empty multiset).
pub proof fn lemma_key_eq_iff_anagram(ka: CanonicalKey, kb: CanonicalKey, a: Seq<char>, b: Seq<char>)
    requires
        ka@ == a.to_multiset(),
        kb@ == b.to_multiset(),
    ensures
        (ka@ == kb@) <==> (a.to_multiset() == b.to_multiset()),
{
}

/// The number of times `c` occurs among the characters of `s`.
pub open spec fn occurrences(s: Seq<char>, c: char) -> nat
    decreases s.len(),
{
    if s.len() == 0 {
        0
    } else {
        occurrences(s.drop_first(), c) + if s[0] == c {
            1nat
        } else {
            0nat
        }
    }
}

/// A word's character multiset counts each character exactly as often
/// as it occurs in the word.
proof fn lemma_to_multiset_occurrences(s: Seq<char>, c: char)
    ensures
        s.to_multiset().count(c) == occurrences(s, c),
    decreases s.len(),
{
    broadcast use vstd::seq_lib::group_to_multiset_ensures;
    broadcast use vstd::multiset::group_multiset_axioms;

    if s.len() == 0 {
        assert(s.to_multiset() =~= Multiset::<char>::empty());
    } else {
        assert(s.remove(0).to_multiset() =~= s.to_multiset().remove(s[0]));
        assert(s.remove(0) =~= s.drop_first());
        lemma_to_multiset_occurrences(s.drop_first(), c);
        assert(s.contains(s[0]));
        assert(s.to_multiset().count(s[0]) > 0);
    }
}

/// Law: the key built from a word maps each character to the number of
/// its occurrences in the word; a character that does not occur has
/// count zero, that is, it is simply absent from the multiset.
pub proof fn lemma_key_counts(k: CanonicalKey, w: Seq<char>, c: char)
    requires
        k@ == w.to_multiset(),
    ensures
        k@.count(c) == occurrences(w, c),
{
    lemma_to_multiset_occurrences(w, c);
}

} // verus!

