//! Splitting text into lines, with the line-ending rules of `str::lines`:
//! a line ends at `\n` or at `\r\n`, and a final line ending is optional.

use vstd::prelude::*;

verus! {

/// The pieces of `s` between its `\n` characters; there is always one more
/// piece than there are `\n` characters.
pub open spec fn pieces(s: Seq<char>) -> Seq<Seq<char>>
    decreases s.len(),
{
    if s.len() == 0 {
        seq![Seq::empty()]
    } else {
        let p = pieces(s.drop_last());
        if s.last() == '\n' {
            p.push(Seq::empty())
        } else {
            p.update(p.len() - 1, p.last().push(s.last()))
        }
    }
}

/// A line that was ended by `\r\n` loses its `\r`.
pub open spec fn strip_cr(l: Seq<char>) -> Seq<char> {
    if l.len() > 0 && l.last() == '\r' {
        l.drop_last()
    } else {
        l
    }
}

/// The lines of `s`: every piece that a `\n` ends, without a `\r` right
/// before that `\n`, and then the last piece unless it is empty.
pub open spec fn lines_of(s: Seq<char>) -> Seq<Seq<char>> {
    let p = pieces(s);
    let n = p.len() - 1;
    let done = Seq::new(n as nat, |k: int| strip_cr(p[k]));
    if p[n].len() == 0 {
        done
    } else {
        done.push(p[n])
    }
}

/// The views of a sequence of string slices.
pub open spec fn views_of(v: Seq<&str>) -> Seq<Seq<char>> {
    v.map_values(|l: &str| l@)
}

/// There is always at least one piece.
pub proof fn lemma_pieces_len(s: Seq<char>)
    ensures
        pieces(s).len() >= 1,
    decreases s.len(),
{
    if s.len() > 0 {
        lemma_pieces_len(s.drop_last());
    }
}

/// No line holds a `\n`.
pub proof fn lemma_lines_have_no_newline(s: Seq<char>)
    ensures
        forall|k: int, j: int|
            0 <= k < lines_of(s).len() && 0 <= j < lines_of(s)[k].len() ==> lines_of(s)[k][j]
                != '\n',
{
    lemma_pieces_no_newline(s);
    lemma_pieces_len(s);
}

proof fn lemma_pieces_no_newline(s: Seq<char>)
    ensures
        forall|k: int, j: int|
            0 <= k < pieces(s).len() && 0 <= j < pieces(s)[k].len() ==> pieces(s)[k][j] != '\n',
    decreases s.len(),
{
    if s.len() > 0 {
        lemma_pieces_no_newline(s.drop_last());
        lemma_pieces_len(s.drop_last());
    }
}

/// Splits `text` into its lines, as `lines_of` describes them.
pub fn split_lines(text: &str) -> (r: Vec<&str>)
    ensures
        views_of(r@) == lines_of(text@),
{
    let n = text.unicode_len();
    let ghost s = text@;
    let mut out: Vec<&str> = Vec::new();
    let mut start: usize = 0;
    let mut i: usize = 0;
    let mut prev: char = '\n';
    proof {
        assert(s.take(0) =~= Seq::<char>::empty());
    }
    while i < n
        invariant
            n == s.len(),
            s == text@,
            start <= i <= n,
            i > start ==> prev == s[i - 1],
            pieces(s.take(i as int)).len() == out@.len() + 1,
            pieces(s.take(i as int)).last() == s.subrange(start as int, i as int),
            forall|k: int|
                0 <= k < out@.len() ==> #[trigger] out@[k]@ == strip_cr(
                    pieces(s.take(i as int))[k],
                ),
        decreases n - i,
    {
        let c = text.get_char(i);
        proof {
            lemma_pieces_len(s.take(i as int));
            assert(s.take(i + 1).drop_last() =~= s.take(i as int));
            assert(s.take(i + 1).last() == c);
        }
        if c == '\n' {
            let end: usize = if i > start && prev == '\r' {
                i - 1
            } else {
                i
            };
            let line = text.substring_char(start, end);
            proof {
                assert(s.subrange(start as int, end as int) =~= strip_cr(
                    s.subrange(start as int, i as int),
                ));
            }
            out.push(line);
            start = i + 1;
        } else {
            proof {
                assert(s.subrange(start as int, i + 1) =~= s.subrange(start as int, i as int).push(
                    c,
                ));
            }
        }
        prev = c;
        i = i + 1;
    }
    proof {
        assert(s.take(n as int) =~= s);
        lemma_pieces_len(s);
    }
    if start < n {
        let line = text.substring_char(start, n);
        out.push(line);
    }
    proof {
        assert(views_of(out@) =~= lines_of(s));
    }
    out
}

} // verus!
