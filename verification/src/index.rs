//! The anagram index: the dictionary loaded once from a word source,
//! then queried many times.
//!
//! The index maps the canonical key of every stored word to the bucket
//! of all stored words with that key, in the order in which they came
//! from the source, duplicates kept. A query computes the probe word's
//! key and returns its bucket, or reports an explicit absence when no
//! stored word is an anagram of the probe.

use vstd::prelude::*;
use vstd::multiset::Multiset;
use crate::key::CanonicalKey;
use crate::prep::{Preprocess, apply_spec};

verus! {

/// The character sequences of a list of strings.
pub open spec fn word_views(ws: Seq<String>) -> Seq<Seq<char>> {
    ws.map_values(|w: String| w@)
}

/// The words an index stores for a source, line by line: each line with
/// the preprocessing policy applied. Every line becomes exactly one
/// stored word; none is rejected.
pub open spec fn stored_words(lines: Seq<Seq<char>>, p: Preprocess) -> Seq<Seq<char>> {
    lines.map_values(|l: Seq<char>| apply_spec(p, l))
}

/// Whether a word falls in the anagram equivalence class `k`.
pub open spec fn in_class(k: Multiset<char>) -> spec_fn(Seq<char>) -> bool {
    |w: Seq<char>| w.to_multiset() == k
}

/// The bucket of class `k`: the stored words that are anagrams of each
/// other under `k`, in source order.
pub open spec fn bucket_of(words: Seq<Seq<char>>, k: Multiset<char>) -> Seq<Seq<char>> {
    words.filter(in_class(k))
}

/// The index a word source denotes: every equivalence class with at
/// least one stored word is mapped to its bucket.
pub open spec fn index_of(words: Seq<Seq<char>>) -> Map<Multiset<char>, Seq<Seq<char>>> {
    Map::new(
        |k: Multiset<char>| exists|i: int| 0 <= i < words.len() && words[i].to_multiset() == k,
        |k: Multiset<char>| bucket_of(words, k),
    )
}

/// What a query answers against an index: the probe's bucket if its
/// class is present, and an explicit absence otherwise.
pub open spec fn query_spec(m: Map<Multiset<char>, Seq<Seq<char>>>, word: Seq<char>) -> Option<
    Seq<Seq<char>>,
> {
    if m.contains_key(word.to_multiset()) {
        Some(m[word.to_multiset()])
    } else {
        None
    }
}

/// Anything that can be asked which of its known words are anagrams of a
/// probe word. The probe must have gone through the same preprocessing
/// as the stored words, or the lookup silently misses.
pub trait Anagrams {
    /// The implementor's internal well-formedness.
    spec fn inv(&self) -> bool;

    /// The anagram classes the implementor knows, with their buckets.
    spec fn contents(&self) -> Map<Multiset<char>, Seq<Seq<char>>>;

    /// All known words that are anagrams of `word`, in the order they
    /// came from the source, or `None` when no such word is known.
    fn get_all<'a>(&'a self, word: &str) -> (r: Option<&'a Vec<String>>)
        requires
            self.inv(),
        ensures
            (match r {
                Some(ws) => query_spec(self.contents(), word@) == Some(word_views(ws@)),
                None => query_spec(self.contents(), word@) is None,
            }),
    ;
}


/// Appending a word extends exactly the bucket of its own class and
/// leaves every other bucket as it was.
proof fn lemma_bucket_of_push(ws: Seq<Seq<char>>, w: Seq<char>, k: Multiset<char>)
    ensures
        w.to_multiset() == k ==> bucket_of(ws.push(w), k) == bucket_of(ws, k).push(w),
        w.to_multiset() != k ==> bucket_of(ws.push(w), k) == bucket_of(ws, k),
{
    assert(ws.push(w) =~= ws + seq![w]);
    Seq::filter_distributes_over_add(ws, seq![w], in_class(k));
    assert(seq![w].filter(in_class(k)) == if w.to_multiset() == k {
        seq![w]
    } else {
        Seq::<Seq<char>>::empty()
    }) by {
        reveal_with_fuel(Seq::filter, 2);
        assert(seq![w].drop_last() =~= Seq::<Seq<char>>::empty());
        if w.to_multiset() == k {
            assert(seq![w].filter(in_class(k)) =~= seq![w]);
        } else {
            assert(seq![w].filter(in_class(k)) =~= Seq::<Seq<char>>::empty());
        }
    }
    if w.to_multiset() == k {
        assert(bucket_of(ws, k) + seq![w] =~= bucket_of(ws, k).push(w));
    } else {
        assert(bucket_of(ws, k) + Seq::<Seq<char>>::empty() =~= bucket_of(ws, k));
    }
}

/// The views of a list of words, after one more word is appended.
proof fn lemma_word_views_push(ws: Seq<String>, w: String)
    ensures
        word_views(ws.push(w)) == word_views(ws).push(w@),
{
    assert(word_views(ws.push(w)) =~= word_views(ws).push(w@));
}

/// Whether some bucket in `entries` holds class `k`.
spec fn class_known(entries: Seq<Bucket>, k: Multiset<char>) -> bool {
    exists|q: int| 0 <= q < entries.len() && (#[trigger] entries[q].key)@ == k
}

/// One anagram equivalence class of the dictionary: its canonical key
/// and the stored words of the class, in source order.
struct Bucket {
    key: CanonicalKey,
    words: Vec<String>,
}

/// The loaded dictionary: built once from a word source, immutable
/// afterwards, queried through [`Anagrams::get_all`].
pub struct AnagramWordList {
    entries: Vec<Bucket>,
}

impl AnagramWordList {
    /// Every key is well formed, no class appears twice, and no bucket
    /// is empty.
    pub closed spec fn wf(self) -> bool {
        &&& forall|i: int| 0 <= i < self.entries@.len() ==> (#[trigger] self.entries@[i].key).wf()
        &&& forall|i: int, j: int|
            0 <= i < j < self.entries@.len() ==> self.entries@[i].key@ != self.entries@[j].key@
        &&& forall|i: int|
            0 <= i < self.entries@.len() ==> (#[trigger] self.entries@[i].words)@.len() >= 1
    }

    /// The slot holding class `k`, when one exists.
    spec fn slot_of(self, k: Multiset<char>) -> int {
        choose|i: int| 0 <= i < self.entries@.len() && self.entries@[i].key@ == k
    }

    /// Whether some slot holds class `k`.
    spec fn has_class(self, k: Multiset<char>) -> bool {
        class_known(self.entries@, k)
    }

    /// Build the dictionary from the lines of a word source. Every line,
    /// after preprocessing, becomes exactly one entry in the bucket of
    /// its anagram class: buckets keep source order, duplicates are
    /// kept, and blank lines are stored like any other entry.
    #[verifier::loop_isolation(false)]
    pub fn from_lines(lines: &Vec<String>, p: Preprocess) -> (idx: AnagramWordList)
        ensures
            idx.wf(),
            idx@ == index_of(stored_words(word_views(lines@), p)),
    {
        let ghost stored = stored_words(word_views(lines@), p);
        let mut entries: Vec<Bucket> = Vec::new();
        let n = lines.len();
        let mut i: usize = 0;
        while i < n
            invariant
                i <= n,
                forall|q: int| 0 <= q < entries@.len() ==> (#[trigger] entries@[q].key).wf(),
                forall|q: int, r: int|
                    0 <= q < r < entries@.len() ==> entries@[q].key@ != entries@[r].key@,
                forall|q: int|
                    0 <= q < entries@.len() ==> (#[trigger] entries@[q].words)@.len() >= 1,
                forall|q: int|
                    0 <= q < entries@.len() ==> word_views((#[trigger] entries@[q].words)@)
                        == bucket_of(stored.take(i as int), entries@[q].key@),
                forall|q: int|
                    0 <= q < entries@.len() ==> exists|l: int|
                        0 <= l < i && stored[l].to_multiset() == (#[trigger] entries@[q].key)@,
                forall|l: int|
                    0 <= l < i ==> class_known(entries@, (#[trigger] stored[l]).to_multiset()),
            decreases n - i,
        {
            let word = p.apply(&lines[i]);
            proof {
                assert(word_views(lines@)[i as int] == lines@[i as int]@);
                assert(word@ == stored[i as int]);
            }
            let wkey = CanonicalKey::build(word.as_str());
            let m = entries.len();
            let mut j: usize = 0;
            let mut hit: usize = m;
            while j < m
                invariant
                    j <= m,
                    hit == m || hit < j,
                    hit == m ==> forall|q: int|
                        0 <= q < j ==> (#[trigger] entries@[q].key)@ != wkey@,
                    hit < m ==> entries@[hit as int].key@ == wkey@,
                decreases m - j,
            {
                if hit == m {
                    if entries[j].key.key_eq(&wkey) {
                        hit = j;
                    }
                }
                j += 1;
            }
            proof {
                assert(stored.take(i + 1) =~= stored.take(i as int).push(stored[i as int]));
            }
            if hit < m {
                let ghost ent0 = entries@;
                let ghost h = hit as int;
                let mut b = entries.remove(hit);
                b.words.push(word);
                entries.push(b);
                proof {
                    ent0.remove_ensures(h);
                    let ent1 = entries@;
                    assert(ent1.len() == ent0.len());
                    assert(forall|q: int| 0 <= q < h ==> #[trigger] ent1[q] == ent0[q]);
                    assert(forall|q: int|
                        h <= q < ent0.len() - 1 ==> #[trigger] ent1[q] == ent0[q + 1]);
                    assert(ent1[ent1.len() - 1].key == ent0[h].key);
                    assert(ent1[ent1.len() - 1].words@ == ent0[h].words@.push(word));
                    lemma_word_views_push(ent0[h].words@, word);
                    assert forall|q: int| 0 <= q < ent1.len() implies word_views(
                        (#[trigger] ent1[q].words)@,
                    ) == bucket_of(stored.take(i + 1), ent1[q].key@) by {
                        if q == ent1.len() - 1 {
                            lemma_bucket_of_push(
                                stored.take(i as int),
                                stored[i as int],
                                ent0[h].key@,
                            );
                        } else {
                            let o: int = if q < h {
                                q
                            } else {
                                q + 1
                            };
                            assert(ent1[q] == ent0[o]);
                            assert(ent0[o].key@ != ent0[h].key@);
                            lemma_bucket_of_push(
                                stored.take(i as int),
                                stored[i as int],
                                ent0[o].key@,
                            );
                        }
                    }
                    assert forall|l: int| 0 <= l < i + 1 implies class_known(
                        ent1,
                        (#[trigger] stored[l]).to_multiset(),
                    ) by {
                        if l == i {
                            assert(ent1[ent1.len() - 1].key@ == stored[l as int].to_multiset());
                        } else {
                            let qo = choose|q: int|
                                0 <= q < ent0.len() && (#[trigger] ent0[q].key)@
                                    == stored[l].to_multiset();
                            if qo == h {
                                assert(ent1[ent1.len() - 1].key@ == stored[l].to_multiset());
                            } else if qo < h {
                                assert(ent1[qo].key@ == stored[l].to_multiset());
                            } else {
                                assert(ent1[qo - 1].key@ == stored[l].to_multiset());
                            }
                        }
                    }
                }
            } else {
                let ghost ent0 = entries@;
                let mut first: Vec<String> = Vec::new();
                first.push(word);
                entries.push(Bucket { key: wkey, words: first });
                proof {
                    let ent1 = entries@;
                    assert(forall|q: int|
                        0 <= q < ent0.len() ==> (#[trigger] ent0[q].key)@ != wkey@);
                    assert(bucket_of(stored.take(i as int), wkey@) == Seq::<Seq<char>>::empty())
                        by {
                        assert forall|l: int| 0 <= l < stored.take(i as int).len() implies !(
                        in_class(wkey@)(#[trigger] stored.take(i as int)[l])) by {
                            if stored[l].to_multiset() == wkey@ {
                                let q = choose|q: int|
                                    0 <= q < ent0.len() && (#[trigger] ent0[q].key)@
                                        == stored[l].to_multiset();
                                assert(ent0[q].key@ == wkey@);
                            }
                        }
                        stored.take(i as int).lemma_all_neg_filter_empty(in_class(wkey@));
                    }
                    assert(ent1[ent1.len() - 1].words@ =~= seq![word]);
                    assert(word_views(seq![word]) =~= seq![word@]);
                    assert forall|q: int| 0 <= q < ent1.len() implies word_views(
                        (#[trigger] ent1[q].words)@,
                    ) == bucket_of(stored.take(i + 1), ent1[q].key@) by {
                        lemma_bucket_of_push(stored.take(i as int), stored[i as int], ent1[q].key@);
                        if q == ent1.len() - 1 {
                            assert(bucket_of(stored.take(i + 1), wkey@) =~= seq![word@]);
                        }
                    }
                    assert forall|l: int| 0 <= l < i + 1 implies class_known(
                        ent1,
                        (#[trigger] stored[l]).to_multiset(),
                    ) by {
                        if l == i {
                            assert(ent1[ent1.len() - 1].key@ == stored[l].to_multiset());
                        } else {
                            let qo = choose|q: int|
                                0 <= q < ent0.len() && (#[trigger] ent0[q].key)@
                                    == stored[l].to_multiset();
                            assert(ent1[qo].key@ == stored[l].to_multiset());
                        }
                    }
                }
            }
            i += 1;
        }
        let idx = AnagramWordList { entries };
        proof {
            assert(stored.take(n as int) =~= stored);
            let target = index_of(stored);
            assert forall|k: Multiset<char>| #[trigger] idx@.contains_key(k) implies target.contains_key(k)
                && idx@[k] == target[k] by {
                let q = idx.slot_of(k);
                assert(0 <= q < idx.entries@.len() && idx.entries@[q].key@ == k);
                let l = choose|l: int|
                    0 <= l < n && stored[l].to_multiset() == (#[trigger] idx.entries@[q].key)@;
                assert(0 <= l < stored.len() && stored[l].to_multiset() == k);
                assert(target.contains_key(k));
                assert(idx@[k] == word_views(idx.entries@[q].words@));
                assert(bucket_of(stored.take(n as int), k) == bucket_of(stored, k));
            }
            assert forall|k: Multiset<char>| #[trigger] target.contains_key(k) implies idx@.contains_key(
                k,
            ) by {
                let l = choose|l: int| 0 <= l < stored.len() && (#[trigger] stored[l]).to_multiset()
                    == k;
                assert(class_known(idx.entries@, stored[l].to_multiset()));
            }
            assert(idx@ =~= target);
        }
        idx
    }

}

impl View for AnagramWordList {
    type V = Map<Multiset<char>, Seq<Seq<char>>>;

    closed spec fn view(&self) -> Map<Multiset<char>, Seq<Seq<char>>> {
        Map::new(
            |k: Multiset<char>| self.has_class(k),
            |k: Multiset<char>| word_views(self.entries@[self.slot_of(k)].words@),
        )
    }
}

impl Anagrams for AnagramWordList {
    open spec fn inv(&self) -> bool {
        self.wf()
    }

    open spec fn contents(&self) -> Map<Multiset<char>, Seq<Seq<char>>> {
        self@
    }

    fn get_all<'a>(&'a self, word: &str) -> (r: Option<&'a Vec<String>>) {
        let probe = CanonicalKey::build(word);
        let ghost k: Multiset<char> = word@.to_multiset();
        let n = self.entries.len();
        let mut j: usize = 0;
        while j < n
            invariant
                j <= n,
                n == self.entries@.len(),
                self.wf(),
                probe.wf(),
                probe@ == k,
                k == word@.to_multiset(),
                forall|p: int| 0 <= p < j ==> (#[trigger] self.entries@[p].key)@ != k,
            decreases n - j,
        {
            if self.entries[j].key.key_eq(&probe) {
                proof {
                    assert(self.has_class(k));
                    let s = self.slot_of(k);
                    assert(0 <= s < self.entries@.len() && self.entries@[s].key@ == k);
                    if s != j {
                        assert(self.entries@[s].key@ != self.entries@[j as int].key@);
                    }
                    assert(self@.contains_key(k));
                    assert(self@[k] == word_views(self.entries@[j as int].words@));
                }
                return Some(&self.entries[j].words);
            }
            j += 1;
        }
        proof {
            assert(!self.has_class(k));
        }
        None
    }
}

/// Law: an index built from a word source answers every probe with
/// exactly the stored words that are anagrams of the probe, in the
/// order they came from the source (duplicates kept), and with an
/// explicit absence — never an empty bucket — when there are none.
pub proof fn lemma_round_trip(
    idx: AnagramWordList,
    lines: Seq<Seq<char>>,
    p: Preprocess,
    probe: Seq<char>,
)
    requires
        idx@ == index_of(stored_words(lines, p)),
    ensures
        ({
            let ws = stored_words(lines, p);
            let k = probe.to_multiset();
            query_spec(idx@, probe) == if bucket_of(ws, k).len() > 0 {
                Some(bucket_of(ws, k))
            } else {
                None::<Seq<Seq<char>>>
            }
        }),
{
    let ws = stored_words(lines, p);
    let k = probe.to_multiset();
    if idx@.contains_key(k) {
        let l = choose|l: int| 0 <= l < ws.len() && ws[l].to_multiset() == k;
        ws.lemma_filter_contains(in_class(k), l);
        assert(bucket_of(ws, k).contains(ws[l]));
    } else {
        if bucket_of(ws, k).len() > 0 {
            let e = bucket_of(ws, k)[0];
            ws.lemma_filter_pred(in_class(k), 0);
            assert(bucket_of(ws, k).contains(e));
            ws.lemma_filter_contains_rev(in_class(k), e);
            let l = choose|l: int| 0 <= l < ws.len() && ws[l] == e;
            assert(ws[l].to_multiset() == k);
            assert(idx@.contains_key(k));
        }
    }
}

/// Law: building twice from identical source content yields indexes
/// that answer every query identically, whatever their storage looks
/// like inside.
pub proof fn lemma_build_idempotent(
    a: AnagramWordList,
    b: AnagramWordList,
    lines: Seq<Seq<char>>,
    p: Preprocess,
    probe: Seq<char>,
)
    requires
        a@ == index_of(stored_words(lines, p)),
        b@ == index_of(stored_words(lines, p)),
    ensures
        query_spec(a@, probe) == query_spec(b@, probe),
{
}

} // verus!
