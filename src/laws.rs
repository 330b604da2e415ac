//! What holds of every parse.

use vstd::prelude::*;

use crate::block::{
    default_table, effective_lang, extension_for, extension_index, no_ext, tag_index, BlockView,
};
use crate::dispatch::{decimal, digit_char, file_path_spec};
use crate::lines::{lemma_lines_have_no_newline, lemma_pieces_len, lines_of, pieces};
use crate::parser::{
    block_at, close_from, fence_marker, join_lines, is_closing, is_opening, lemma_close_from, prefixed, scan,
    ParseError,
};

verus! {

proof fn lemma_close_from_extended(pre: Seq<Seq<char>>, all: Seq<Seq<char>>, k: int, c: int)
    requires
        0 <= k,
        pre.len() <= all.len(),
        forall|j: int| 0 <= j < pre.len() ==> all[j] == pre[j],
        close_from(pre, k) == Some(c),
    ensures
        close_from(all, k) == Some(c),
{
    lemma_close_from(pre, k);
    lemma_close_from(all, k);
    assert(all[c] == pre[c]);
    match close_from(all, k) {
        Some(c2) => {
            if c2 < c {
                assert(all[c2] == pre[c2]);
            }
        },
        None => {},
    }
}

proof fn lemma_unterminated_from(
    pre: Seq<Seq<char>>,
    open: Seq<char>,
    rest: Seq<Seq<char>>,
    i: int,
)
    requires
        0 <= i <= pre.len(),
        scan(pre, i) is Ok,
        is_opening(open),
        forall|k: int| 0 <= k < rest.len() ==> !is_closing(#[trigger] rest[k]),
    ensures
        scan(pre + seq![open] + rest, i) == Err::<Seq<crate::block::BlockView>, ParseError>(
            ParseError::Unterminated,
        ),
    decreases pre.len() - i,
{
    let all = pre + seq![open] + rest;
    assert forall|j: int| 0 <= j < pre.len() implies all[j] == pre[j] by {}
    if i == pre.len() {
        assert(all[i] == open);
        lemma_close_from(all, i + 1);
        assert forall|j: int| i + 1 <= j < all.len() implies !is_closing(#[trigger] all[j]) by {
            assert(all[j] == rest[j - i - 1]);
        }
        assert(close_from(all, i + 1) is None);
    } else if !is_opening(pre[i]) {
        lemma_unterminated_from(pre, open, rest, i + 1);
    } else {
        let c = close_from(pre, i + 1)->0;
        lemma_close_from(pre, i + 1);
        lemma_close_from_extended(pre, all, i + 1, c);
        lemma_unterminated_from(pre, open, rest, c + 1);
    }
}

/// A document whose lines are a part that parses, then an opening fence,
/// then lines none of which closes a block, fails as a whole: the blocks of
/// the first part are not returned either.
pub proof fn lemma_unterminated_fails(pre: Seq<Seq<char>>, open: Seq<char>, rest: Seq<Seq<char>>)
    requires
        scan(pre, 0) is Ok,
        is_opening(open),
        forall|k: int| 0 <= k < rest.len() ==> !is_closing(#[trigger] rest[k]),
    ensures
        scan(pre + seq![open] + rest, 0) == Err::<Seq<crate::block::BlockView>, ParseError>(
            ParseError::Unterminated,
        ),
{
    lemma_unterminated_from(pre, open, rest, 0);
}


/// The line that closes the block `b`.
pub open spec fn close_line(ls: Seq<Seq<char>>, b: BlockView) -> int {
    match close_from(ls, b.start + 1) {
        Some(c) => c,
        None => -1,
    }
}

/// Line `j` lies in one of the blocks `bs`, after its opening fence and up
/// to its closing fence.
pub open spec fn within_block(ls: Seq<Seq<char>>, bs: Seq<BlockView>, j: int) -> bool {
    exists|k: int| 0 <= k < bs.len() && #[trigger] bs[k].start < j <= close_line(ls, bs[k])
}

/// The blocks `bs` found in `ls` from line `i` on are in document order and
/// apart, each opens on an opening fence and is closed, and every opening
/// fence from `i` on that no block encloses opens one of them.
pub open spec fn blocks_match_fences(ls: Seq<Seq<char>>, bs: Seq<BlockView>, i: int) -> bool {
    &&& forall|k: int|
        0 <= k < bs.len() ==> i <= #[trigger] bs[k].start && bs[k].start < close_line(ls, bs[k])
            < ls.len() && is_opening(ls[bs[k].start])
    &&& forall|k: int|
        0 <= k < bs.len() ==> #[trigger] bs[k] == block_at(ls, bs[k].start, close_line(ls, bs[k]))
    &&& forall|a: int, b: int|
        0 <= a < b < bs.len() ==> close_line(ls, #[trigger] bs[a]) < #[trigger] bs[b].start
    &&& forall|j: int|
        i <= j < ls.len() && #[trigger] is_opening(ls[j]) && !within_block(ls, bs, j) ==> exists|
            k: int,
        |
            0 <= k < bs.len() && #[trigger] bs[k].start == j
}

proof fn lemma_scan_matches_fences(ls: Seq<Seq<char>>, i: int)
    requires
        0 <= i,
        scan(ls, i) is Ok,
    ensures
        blocks_match_fences(ls, scan(ls, i)->Ok_0, i),
    decreases ls.len() - i,
{
    if 0 <= i < ls.len() {
        if !is_opening(ls[i]) {
            lemma_scan_matches_fences(ls, i + 1);
            let bs = scan(ls, i)->Ok_0;
            assert forall|j: int|
                i <= j < ls.len() && #[trigger] is_opening(ls[j]) && !within_block(ls, bs, j)
                implies exists|k: int| 0 <= k < bs.len() && #[trigger] bs[k].start == j by {
                assert(j != i);
            }
        } else {
            lemma_close_from(ls, i + 1);
            let c = close_from(ls, i + 1)->0;
            lemma_scan_matches_fences(ls, c + 1);
            let rest = scan(ls, c + 1)->Ok_0;
            let first = block_at(ls, i, c);
            let bs = seq![first] + rest;
            assert(scan(ls, i)->Ok_0 == bs);
            assert(close_line(ls, first) == c);
            assert forall|k: int| 0 <= k < bs.len() implies i <= #[trigger] bs[k].start
                && bs[k].start < close_line(ls, bs[k]) < ls.len() && is_opening(
                ls[bs[k].start],
            ) by {
                if k > 0 {
                    assert(bs[k] == rest[k - 1]);
                }
            }
            assert forall|k: int| 0 <= k < bs.len() implies #[trigger] bs[k] == block_at(
                ls,
                bs[k].start,
                close_line(ls, bs[k]),
            ) by {
                if k > 0 {
                    assert(bs[k] == rest[k - 1]);
                }
            }
            assert forall|a: int, b: int| 0 <= a < b < bs.len() implies close_line(
                ls,
                #[trigger] bs[a],
            ) < #[trigger] bs[b].start by {
                assert(bs[b] == rest[b - 1]);
                if a > 0 {
                    assert(bs[a] == rest[a - 1]);
                }
            }
            assert forall|j: int|
                i <= j < ls.len() && #[trigger] is_opening(ls[j]) && !within_block(ls, bs, j)
                implies exists|k: int| 0 <= k < bs.len() && #[trigger] bs[k].start == j by {
                if j == i {
                    assert(bs[0].start == j);
                } else {
                    if j <= c {
                        assert(bs[0].start < j <= close_line(ls, bs[0]));
                        assert(within_block(ls, bs, j));
                    }
                    if within_block(ls, rest, j) {
                        let k = choose|k: int|
                            0 <= k < rest.len() && #[trigger] rest[k].start < j <= close_line(
                                ls,
                                rest[k],
                            );
                        assert(bs[k + 1] == rest[k]);
                        assert(within_block(ls, bs, j));
                    }
                    let k = choose|k: int| 0 <= k < rest.len() && #[trigger] rest[k].start == j;
                    assert(bs[k + 1] == rest[k]);
                }
            }
        }
    }
}

/// Of a document that parses: its blocks are in document order, each starts
/// at the 0-based index of an opening fence line and is closed after it, and
/// every opening fence that lies outside all blocks starts one of them. So
/// the blocks and the recognised opening fences correspond one to one.
pub proof fn lemma_blocks_are_fences(text: Seq<char>)
    requires
        crate::parser::parse_spec(text) is Ok,
    ensures
        blocks_match_fences(lines_of(text), crate::parser::parse_spec(text)->Ok_0, 0),
        forall|a: int, b: int|
            0 <= a < b < crate::parser::parse_spec(text)->Ok_0.len() ==> (
            #[trigger] crate::parser::parse_spec(text)->Ok_0[a]).start < (
            #[trigger] crate::parser::parse_spec(text)->Ok_0[b]).start,
{
    let ls = lines_of(text);
    lemma_scan_matches_fences(ls, 0);
    let bs = crate::parser::parse_spec(text)->Ok_0;
    assert forall|a: int, b: int| 0 <= a < b < bs.len() implies (#[trigger] bs[a]).start < (
    #[trigger] bs[b]).start by {
        assert(close_line(ls, bs[a]) < bs[b].start);
    }
}


/// The opening fence line of a block with tag `lang`.
pub open spec fn fence_line(lang: Option<Seq<char>>) -> Seq<char> {
    match lang {
        Some(t) => fence_marker() + t,
        None => fence_marker(),
    }
}

proof fn lemma_pieces_append(s: Seq<char>, b: Seq<char>)
    requires
        forall|j: int| 0 <= j < b.len() ==> b[j] != '\n',
    ensures
        pieces(s + b) == pieces(s).update(pieces(s).len() - 1, pieces(s).last() + b),
    decreases b.len(),
{
    lemma_pieces_len(s);
    let p = pieces(s);
    if b.len() == 0 {
        assert(s + b =~= s);
        assert(p.last() + b =~= p.last());
        assert(p.update(p.len() - 1, p.last()) =~= p);
    } else {
        let b2 = b.drop_last();
        lemma_pieces_append(s, b2);
        assert((s + b).drop_last() =~= s + b2);
        assert((s + b).last() == b.last());
        assert((p.last() + b2).push(b.last()) =~= p.last() + b);
        assert(pieces(s + b) =~= p.update(p.len() - 1, p.last() + b));
    }
}

proof fn lemma_pieces_of_join(xs: Seq<Seq<char>>)
    requires
        xs.len() >= 1,
        forall|k: int, j: int| 0 <= k < xs.len() && 0 <= j < xs[k].len() ==> xs[k][j] != '\n',
    ensures
        pieces(join_lines(xs)) == xs,
    decreases xs.len(),
{
    if xs.len() == 1 {
        lemma_pieces_append(Seq::empty(), xs[0]);
        assert(Seq::<char>::empty() + xs[0] =~= xs[0]);
        assert(pieces(Seq::<char>::empty()).update(0, Seq::<char>::empty() + xs[0]) =~= xs);
    } else {
        let init = xs.drop_last();
        lemma_pieces_of_join(init);
        let a = join_lines(init);
        let an = a + seq!['\n'];
        assert(an.drop_last() =~= a);
        assert(pieces(an) == init.push(Seq::empty()));
        lemma_pieces_append(an, xs.last());
        assert(Seq::<char>::empty() + xs.last() =~= xs.last());
        assert(init.push(Seq::empty()).update(init.len() as int, Seq::<char>::empty() + xs.last())
            =~= xs);
    }
}

/// Round trip: the source of a block with at least one line of body, split
/// again at its `\n`s and put after an opening fence with the block's tag,
/// gives back line for line what the document holds from the block's
/// opening fence up to its closing fence, which holds three backticks.
pub proof fn lemma_round_trip(text: Seq<char>, k: int)
    requires
        crate::parser::parse_spec(text) is Ok,
        0 <= k < crate::parser::parse_spec(text)->Ok_0.len(),
        close_line(lines_of(text), crate::parser::parse_spec(text)->Ok_0[k])
            > crate::parser::parse_spec(text)->Ok_0[k].start + 1,
    ensures
        ({
            let ls = lines_of(text);
            let b = crate::parser::parse_spec(text)->Ok_0[k];
            &&& seq![fence_line(b.lang)] + pieces(b.code) == ls.subrange(
                b.start,
                close_line(ls, b),
            )
            &&& is_closing(ls[close_line(ls, b)])
        }),
{
    let ls = lines_of(text);
    let bs = crate::parser::parse_spec(text)->Ok_0;
    let b = bs[k];
    lemma_scan_matches_fences(ls, 0);
    lemma_lines_have_no_newline(text);
    let c = close_line(ls, b);
    lemma_close_from(ls, b.start + 1);
    assert(b == block_at(ls, b.start, c));
    let body = ls.subrange(b.start + 1, c);
    lemma_pieces_of_join(body);
    let l = ls[b.start];
    assert(fence_line(b.lang) =~= l);
    assert(seq![fence_line(b.lang)] + body =~= ls.subrange(b.start, c));
}


/// With the default bindings, a block whose language has no binding is
/// skipped by both strategies: inline, no binding is found for it; written
/// out, its file is named with the `no_ext` extension, which no binding runs.
pub proof fn lemma_unbound_language_skipped(dir: Seq<char>, prefix: Seq<char>, b: BlockView)
    requires
        tag_index(default_table(), effective_lang(b.lang)) is None,
    ensures
        extension_for(default_table(), effective_lang(b.lang)) == no_ext(),
        file_path_spec(dir, prefix, b, default_table()) == dir + seq!['/'] + prefix + seq![
            '_',
            '_',
        ] + decimal((b.start + 1) as nat) + seq!['.'] + no_ext(),
        extension_index(default_table(), no_ext()) is None,
{
    reveal_strlit("js");
    reveal_strlit("py");
    let t = default_table();
    assert(t.drop_last().drop_last() =~= Seq::<crate::block::BindingView>::empty());
    assert(t[0].extension != no_ext());
    assert(t[1].extension != no_ext());
    assert(t.drop_last().last() == t[0]);
    assert(extension_index(t.drop_last().drop_last(), no_ext()) is None);
    assert(extension_index(t.drop_last(), no_ext()) is None);
}


proof fn lemma_decimal_digits(n: nat)
    ensures
        decimal(n).len() >= 1,
        n >= 10 ==> decimal(n).len() >= 2,
        forall|i: int| 0 <= i < decimal(n).len() ==> #[trigger] decimal(n)[i] != '.',
    decreases n,
{
    if n >= 10 {
        lemma_decimal_digits(n / 10);
    }
}

proof fn lemma_decimal_injective(n: nat, m: nat)
    requires
        decimal(n) == decimal(m),
    ensures
        n == m,
    decreases n,
{
    lemma_decimal_digits(n);
    lemma_decimal_digits(m);
    if n >= 10 && m >= 10 {
        assert(decimal(n).drop_last() =~= decimal(n / 10));
        assert(decimal(m).drop_last() =~= decimal(m / 10));
        lemma_decimal_injective(n / 10, m / 10);
        assert(decimal(n).last() == digit_char(n % 10));
        assert(decimal(m).last() == digit_char(m % 10));
        assert(n == (n / 10) * 10 + n % 10);
        assert(m == (m / 10) * 10 + m % 10);
    } else if n < 10 && m < 10 {
        assert(decimal(n)[0] == digit_char(n));
    } else {
        assert(decimal(n).len() != decimal(m).len());
    }
}

/// Blocks that start on different lines are written to different files,
/// whatever their languages.
pub proof fn lemma_file_paths_apart(
    dir: Seq<char>,
    prefix: Seq<char>,
    b1: BlockView,
    b2: BlockView,
    t: Seq<crate::block::BindingView>,
)
    requires
        0 <= b1.start,
        0 <= b2.start,
        b1.start != b2.start,
    ensures
        file_path_spec(dir, prefix, b1, t) != file_path_spec(dir, prefix, b2, t),
{
    let head = dir + seq!['/'] + prefix + seq!['_', '_'];
    let d1 = decimal((b1.start + 1) as nat);
    let d2 = decimal((b2.start + 1) as nat);
    let e1 = extension_for(t, effective_lang(b1.lang));
    let e2 = extension_for(t, effective_lang(b2.lang));
    let p1 = file_path_spec(dir, prefix, b1, t);
    let p2 = file_path_spec(dir, prefix, b2, t);
    assert(p1 =~= head + (d1 + seq!['.'] + e1));
    assert(p2 =~= head + (d2 + seq!['.'] + e2));
    lemma_decimal_digits((b1.start + 1) as nat);
    lemma_decimal_digits((b2.start + 1) as nat);
    if p1 == p2 {
        let r1 = d1 + seq!['.'] + e1;
        let r2 = d2 + seq!['.'] + e2;
        assert(p1.skip(head.len() as int) =~= r1);
        assert(p2.skip(head.len() as int) =~= r2);
        if d1.len() < d2.len() {
            assert(r1[d1.len() as int] == '.');
            assert(r2[d1.len() as int] == d2[d1.len() as int]);
        } else if d2.len() < d1.len() {
            assert(r2[d2.len() as int] == '.');
            assert(r1[d2.len() as int] == d1[d2.len() as int]);
        } else {
            assert(d1 =~= r1.take(d1.len() as int));
            assert(d2 =~= r2.take(d2.len() as int));
            lemma_decimal_injective((b1.start + 1) as nat, (b2.start + 1) as nat);
        }
    }
}


/// The indices, from line `i` on, of the lines that hold three backticks.
pub open spec fn fence_lines(ls: Seq<Seq<char>>, i: int) -> Seq<int>
    decreases ls.len() - i,
{
    if 0 <= i < ls.len() {
        if is_closing(ls[i]) {
            seq![i] + fence_lines(ls, i + 1)
        } else {
            fence_lines(ls, i + 1)
        }
    } else {
        Seq::empty()
    }
}

/// A well-formed document: the lines that hold three backticks come in
/// pairs, and the first line of each pair opens a block.
pub open spec fn well_formed(ls: Seq<Seq<char>>, i: int) -> bool {
    let f = fence_lines(ls, i);
    &&& f.len() % 2 == 0
    &&& forall|k: int| 0 <= k < f.len() / 2 ==> #[trigger] is_opening(ls[f[2 * k]])
}

proof fn lemma_fence_lines_close(ls: Seq<Seq<char>>, k: int)
    requires
        0 <= k,
    ensures
        match close_from(ls, k) {
            Some(c) => fence_lines(ls, k) == seq![c] + fence_lines(ls, c + 1),
            None => fence_lines(ls, k).len() == 0,
        },
    decreases ls.len() - k,
{
    if k < ls.len() && !is_closing(ls[k]) {
        lemma_fence_lines_close(ls, k + 1);
    }
}

proof fn lemma_opening_closes(l: Seq<char>)
    requires
        is_opening(l),
    ensures
        is_closing(l),
{
    assert(l.subrange(0int, 0int + fence_marker().len()) =~= l.take(3));
    assert(l.subrange(0int, 0int + fence_marker().len()) == fence_marker());
}

proof fn lemma_well_formed_scan(ls: Seq<Seq<char>>, i: int)
    requires
        0 <= i,
        well_formed(ls, i),
    ensures
        scan(ls, i) is Ok,
        scan(ls, i)->Ok_0.len() == fence_lines(ls, i).len() / 2,
        forall|k: int|
            0 <= k < scan(ls, i)->Ok_0.len() ==> #[trigger] scan(ls, i)->Ok_0[k].start
                == fence_lines(ls, i)[2 * k],
    decreases ls.len() - i,
{
    let f = fence_lines(ls, i);
    if 0 <= i < ls.len() {
        if !is_opening(ls[i]) {
            if is_closing(ls[i]) {
                assert(f[0] == i);
                assert(is_opening(ls[f[2 * 0int]]));
            }
            lemma_well_formed_scan(ls, i + 1);
        } else {
            lemma_opening_closes(ls[i]);
            lemma_fence_lines_close(ls, i + 1);
            let g = fence_lines(ls, i + 1);
            assert(f == seq![i] + g);
            match close_from(ls, i + 1) {
                Some(c) => {
                    lemma_close_from(ls, i + 1);
                    let h = fence_lines(ls, c + 1);
                    assert(f =~= seq![i, c] + h);
                    assert forall|k: int| 0 <= k < h.len() / 2 implies #[trigger] is_opening(
                        ls[h[2 * k]],
                    ) by {
                        assert(f[2 * (k + 1)] == h[2 * k]);
                    }
                    lemma_well_formed_scan(ls, c + 1);
                    let rest = scan(ls, c + 1)->Ok_0;
                    let bs = scan(ls, i)->Ok_0;
                    assert(bs == seq![block_at(ls, i, c)] + rest);
                    assert forall|k: int| 0 <= k < bs.len() implies #[trigger] bs[k].start
                        == f[2 * k] by {
                        if k > 0 {
                            assert(bs[k] == rest[k - 1]);
                            assert(f[2 * k] == h[2 * (k - 1)]);
                        }
                    }
                },
                None => {
                    assert(f.len() == 1);
                },
            }
        }
    }
}

/// A well-formed document parses: it has one block for each opening fence,
/// in order, and the `k`-th block starts at the `k`-th opening fence, which
/// is line `2k` among the lines that hold three backticks.
pub proof fn lemma_well_formed_parses(text: Seq<char>)
    requires
        well_formed(lines_of(text), 0),
    ensures
        crate::parser::parse_spec(text) is Ok,
        crate::parser::parse_spec(text)->Ok_0.len() == fence_lines(lines_of(text), 0).len() / 2,
        forall|k: int|
            0 <= k < crate::parser::parse_spec(text)->Ok_0.len() ==> (
            #[trigger] crate::parser::parse_spec(text)->Ok_0[k]).start == fence_lines(
                lines_of(text),
                0,
            )[2 * k],
{
    lemma_well_formed_scan(lines_of(text), 0);
}

} // verus!
