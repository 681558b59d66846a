//! The word-preprocessing policy applied to every source line before it
//! is stored, and to every probe word before it is looked up.
//!
//! Two policies exist: keep the line exactly as it is, or trim the
//! whitespace that surrounds it. Whichever policy an index was built
//! with, the caller must apply the same one to its queries, or lookups
//! silently miss.

use vstd::prelude::*;

verus! {

/// The characters that the trimming policy strips from either end of a
/// line: blank, tab, carriage return and line feed.
pub open spec fn is_space(c: char) -> bool {
    c == ' ' || c == '\t' || c == '\r' || c == '\n'
}

/// `s` without its leading whitespace.
pub open spec fn trim_front_spec(s: Seq<char>) -> Seq<char>
    decreases s.len(),
{
    if s.len() > 0 && is_space(s[0]) {
        trim_front_spec(s.drop_first())
    } else {
        s
    }
}

/// `s` without its trailing whitespace.
pub open spec fn trim_back_spec(s: Seq<char>) -> Seq<char>
    decreases s.len(),
{
    if s.len() > 0 && is_space(s.last()) {
        trim_back_spec(s.drop_last())
    } else {
        s
    }
}

/// `s` without the whitespace that surrounds it.
pub open spec fn trim_spec(s: Seq<char>) -> Seq<char> {
    trim_back_spec(trim_front_spec(s))
}

/// How a raw line becomes the stored (and probed) form of a word.
#[derive(Clone, Copy)]
pub enum Preprocess {
    /// Store the line exactly as it came, surrounding whitespace included.
    Keep,
    /// Strip the whitespace that surrounds the line.
    Trim,
}

/// What a policy makes of a line.
pub open spec fn apply_spec(p: Preprocess, s: Seq<char>) -> Seq<char> {
    match p {
        Preprocess::Keep => s,
        Preprocess::Trim => trim_spec(s),
    }
}

impl Preprocess {
    /// Apply the policy to one line.
    pub fn apply(&self, line: &str) -> (w: String)
        ensures
            w@ == apply_spec(*self, line@),
    {
        match self {
            Preprocess::Keep => String::from_str(line),
            Preprocess::Trim => trim(line),
        }
    }
}

/// Whether `c` is one of the characters the trimming policy strips.
fn is_space_char(c: char) -> (r: bool)
    ensures
        r == is_space(c),
{
    c == ' ' || c == '\t' || c == '\r' || c == '\n'
}

/// Trimming the front only looks past the leading whitespace.
proof fn lemma_trim_front_step(s: Seq<char>, i: int)
    requires
        0 <= i < s.len(),
        forall|p: int| 0 <= p < i ==> is_space(#[trigger] s[p]),
    ensures
        trim_front_spec(s) == trim_front_spec(s.skip(i)),
    decreases i,
{
    if i > 0 {
        assert(is_space(s[0]));
        assert(s.drop_first() =~= s.skip(1));
        assert forall|p: int| 0 <= p < i - 1 implies is_space(#[trigger] s.skip(1)[p]) by {
            assert(s.skip(1)[p] == s[p + 1]);
        }
        lemma_trim_front_step(s.skip(1), i - 1);
        assert(s.skip(1).skip(i - 1) =~= s.skip(i));
    } else {
        assert(s.skip(0) =~= s);
    }
}

/// A sequence of whitespace alone trims from the front to nothing.
proof fn lemma_trim_front_all_space(s: Seq<char>)
    requires
        forall|p: int| 0 <= p < s.len() ==> is_space(#[trigger] s[p]),
    ensures
        trim_front_spec(s) == Seq::<char>::empty(),
    decreases s.len(),
{
    if s.len() > 0 {
        lemma_trim_front_all_space(s.drop_first());
    } else {
        assert(s =~= Seq::<char>::empty());
    }
}

/// Trimming the back only looks past the trailing whitespace.
proof fn lemma_trim_back_step(s: Seq<char>, e: int)
    requires
        0 <= e <= s.len(),
        forall|p: int| e <= p < s.len() ==> is_space(#[trigger] s[p]),
    ensures
        trim_back_spec(s) == trim_back_spec(s.take(e)),
    decreases s.len() - e,
{
    if e < s.len() {
        assert(is_space(s.last()));
        assert(s.drop_last() =~= s.take(s.len() - 1));
        lemma_trim_back_step(s.take(s.len() - 1), e);
        assert(s.take(s.len() - 1).take(e) =~= s.take(e));
    } else {
        assert(s.take(e) =~= s);
    }
}

/// Trim the whitespace that surrounds `line`.
fn trim(line: &str) -> (w: String)
    ensures
        w@ == trim_spec(line@),
{
    let n: usize = line.unicode_len();
    let mut start: usize = 0;
    while start < n && is_space_char(line.get_char(start))
        invariant
            start <= n,
            n == line@.len(),
            forall|p: int| 0 <= p < start ==> is_space(#[trigger] line@[p]),
        decreases n - start,
    {
        start += 1;
    }
    if start == n {
        proof {
            lemma_trim_front_all_space(line@);
            assert(trim_back_spec(Seq::<char>::empty()) == Seq::<char>::empty());
            reveal_strlit("");
            assert(""@ =~= Seq::<char>::empty());
        }
        return String::from_str("");
    }
    proof {
        lemma_trim_front_step(line@, start as int);
        assert(trim_front_spec(line@.skip(start as int)) == line@.skip(start as int));
    }
    let mut end: usize = n;
    while end > start && is_space_char(line.get_char(end - 1))
        invariant
            start <= end <= n,
            n == line@.len(),
            start < n,
            !is_space(line@[start as int]),
            forall|p: int| end <= p < n ==> is_space(#[trigger] line@[p]),
        decreases end,
    {
        end -= 1;
    }
    proof {
        let t = line@.skip(start as int);
        lemma_trim_back_step(t, end - start);
        assert(t.take(end - start) =~= line@.subrange(start as int, end as int));
        assert(trim_back_spec(line@.subrange(start as int, end as int)) == line@.subrange(
            start as int,
            end as int,
        ));
    }
    String::from_str(line.substring_char(start, end))
}

} // verus!
