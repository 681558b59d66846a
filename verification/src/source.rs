//! Splitting the raw text of a word source into its lines.
//!
//! The index consumes a source line by line; this is the splitting step
//! between the raw text and [`crate::index::AnagramWordList::from_lines`].
//! Splitting is on line feeds alone, so a text that ends in one yields a
//! final empty line, exactly as the line feed count dictates.

use vstd::prelude::*;
use crate::index::word_views;

verus! {

/// The text that a list of lines came from: the lines themselves with a
/// line feed put back between each neighbouring pair.
pub open spec fn join_lines(pieces: Seq<Seq<char>>) -> Seq<char>
    decreases pieces.len(),
{
    if pieces.len() == 0 {
        Seq::<char>::empty()
    } else if pieces.len() == 1 {
        pieces[0]
    } else {
        pieces[0] + seq!['\n'] + join_lines(pieces.drop_first())
    }
}

/// Appending one more line puts one more line feed before it (unless
/// there was no line yet).
proof fn lemma_join_push(vs: Seq<Seq<char>>, x: Seq<char>)
    ensures
        join_lines(vs.push(x)) == if vs.len() == 0 {
            x
        } else {
            join_lines(vs) + seq!['\n'] + x
        },
    decreases vs.len(),
{
    if vs.len() == 0 {
        assert(vs.push(x) =~= seq![x]);
    } else if vs.len() == 1 {
        assert(vs.push(x).drop_first() =~= seq![x]);
        assert(join_lines(seq![x]) == seq![x][0]);
        assert(seq![x][0] == x);
        assert(vs.push(x)[0] == vs[0]);
        assert(join_lines(vs.push(x)) == vs.push(x)[0] + seq!['\n'] + join_lines(
            vs.push(x).drop_first(),
        ));
        assert(join_lines(vs) == vs[0]);
    } else {
        assert(vs.push(x).drop_first() =~= vs.drop_first().push(x));
        lemma_join_push(vs.drop_first(), x);
        assert(vs[0] + seq!['\n'] + (join_lines(vs.drop_first()) + seq!['\n'] + x) =~= (vs[0]
            + seq!['\n'] + join_lines(vs.drop_first())) + seq!['\n'] + x);
    }
}

/// Split raw text into its lines: the pieces between line feeds, in
/// order. No piece holds a line feed, and the pieces joined by line
/// feeds give the text back; an empty text yields one empty line.
pub fn split_lines(content: &str) -> (lines: Vec<String>)
    ensures
        lines@.len() >= 1,
        join_lines(word_views(lines@)) == content@,
        forall|q: int| 0 <= q < lines@.len() ==> !(#[trigger] lines@[q])@.contains('\n'),
{
    let n: usize = content.unicode_len();
    let mut lines: Vec<String> = Vec::new();
    let mut start: usize = 0;
    let mut i: usize = 0;
    proof {
        assert(word_views(lines@).push(content@.subrange(0, 0)) =~= seq![
            content@.subrange(0, 0),
        ]);
        assert(content@.take(0) =~= content@.subrange(0, 0));
    }
    while i < n
        invariant
            start <= i <= n,
            n == content@.len(),
            join_lines(word_views(lines@).push(content@.subrange(start as int, i as int)))
                == content@.take(i as int),
            forall|q: int| 0 <= q < lines@.len() ==> !(#[trigger] lines@[q])@.contains('\n'),
            forall|p: int| start <= p < i ==> content@[p] != '\n',
        decreases n - i,
    {
        let ghost vs = word_views(lines@);
        let ghost cur = content@.subrange(start as int, i as int);
        let c = content.get_char(i);
        if c == '\n' {
            let piece = String::from_str(content.substring_char(start, i));
            proof {
                lemma_join_push(vs, cur);
                assert(word_views(lines@.push(piece)) =~= vs.push(piece@));
                lemma_join_push(vs.push(piece@), content@.subrange(i + 1, i + 1));
                assert(content@.subrange(i + 1, i + 1) =~= Seq::<char>::empty());
                assert((join_lines(vs.push(cur)) + seq!['\n']) + Seq::<char>::empty()
                    =~= join_lines(vs.push(cur)) + seq!['\n']);
                assert(content@.take(i as int).push(content@[i as int]) =~= content@.take(i + 1));
                assert(content@.take(i as int) + seq!['\n'] =~= content@.take(i + 1));
                assert forall|p: int| 0 <= p < cur.len() implies cur[p] != '\n' by {
                    assert(content@[start + p] != '\n');
                }
                assert(!piece@.contains('\n'));
            }
            lines.push(piece);
            start = i + 1;
        } else {
            proof {
                lemma_join_push(vs, cur);
                let cur1 = content@.subrange(start as int, i + 1);
                assert(cur1 =~= cur.push(content@[i as int]));
                lemma_join_push(vs, cur1);
                if vs.len() == 0 {
                } else {
                    assert((join_lines(vs) + seq!['\n']) + cur.push(content@[i as int])
                        =~= ((join_lines(vs) + seq!['\n']) + cur).push(content@[i as int]));
                }
                assert(content@.take(i + 1) =~= content@.take(i as int).push(content@[i as int]));
            }
        }
        i += 1;
    }
    let last = String::from_str(content.substring_char(start, n));
    proof {
        let vs = word_views(lines@);
        let cur = content@.subrange(start as int, n as int);
        assert(word_views(lines@.push(last)) =~= vs.push(last@));
        assert(content@.take(n as int) =~= content@);
        assert forall|p: int| 0 <= p < cur.len() implies cur[p] != '\n' by {
            assert(content@[start + p] != '\n');
        }
        assert(!last@.contains('\n'));
    }
    lines.push(last);
    lines
}

} // verus!
