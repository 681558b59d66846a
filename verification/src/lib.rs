//! An anagram dictionary: words are grouped by a canonical key that two
//! words share exactly when they are anagrams of each other, and the
//! resulting index answers "which known words are anagrams of this word?".

pub mod index;
pub mod key;
pub mod prep;
pub mod source;
