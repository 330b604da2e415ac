//! The fenced-block parser: one cursor over the lines of a document.

use vstd::prelude::*;

use crate::block::{BlockView, CodeBlock};
use crate::fence::{
    anchored_rest_pattern, contains, is_group_name, is_plain_literal, opt_view, starts_with,
    surely_compiles, Pattern,
};
use crate::lines::{lemma_lines_have_no_newline, lines_of, split_lines, views_of};

verus! {

/// Why a document could not be parsed.
#[derive(Debug, Clone, Copy, PartialEq, Eq, Structural)]
pub enum ParseError {
    /// An opening fence with no closing fence after it.
    Unterminated,
}

/// Three backticks.
pub open spec fn fence_marker() -> Seq<char> {
    seq!['`', '`', '`']
}

/// The name under which the opening pattern captures the tag.
pub open spec fn tag_group() -> Seq<char> {
    seq!['l', 'a', 'n', 'g', 'u', 'a', 'g', 'e']
}

/// `^```(?P<language>.*)`
pub open spec fn opening_pattern() -> Seq<char> {
    anchored_rest_pattern(fence_marker(), tag_group())
}

/// A line that opens a block: it starts with three backticks.
pub open spec fn is_opening(l: Seq<char>) -> bool {
    starts_with(l, fence_marker())
}

/// A line that closes a block: it holds three backticks anywhere.
pub open spec fn is_closing(l: Seq<char>) -> bool {
    contains(l, fence_marker())
}

/// The tag of an opening line: what follows the backticks, absent if
/// nothing does.
pub open spec fn tag_of(l: Seq<char>) -> Option<Seq<char>> {
    if l.len() > 3 {
        Some(l.skip(3))
    } else {
        None
    }
}

/// Lines joined with a single `\n` between neighbours.
pub open spec fn join_lines(ls: Seq<Seq<char>>) -> Seq<char>
    decreases ls.len(),
{
    if ls.len() == 0 {
        Seq::empty()
    } else if ls.len() == 1 {
        ls[0]
    } else {
        join_lines(ls.drop_last()) + seq!['\n'] + ls.last()
    }
}

/// The first closing line at index `k` or after it.
pub open spec fn close_from(ls: Seq<Seq<char>>, k: int) -> Option<int>
    decreases ls.len() - k,
{
    if 0 <= k < ls.len() {
        if is_closing(ls[k]) {
            Some(k)
        } else {
            close_from(ls, k + 1)
        }
    } else {
        None
    }
}

/// The block that opens at line `i` and closes at line `c`.
pub open spec fn block_at(ls: Seq<Seq<char>>, i: int, c: int) -> BlockView {
    BlockView { lang: tag_of(ls[i]), code: join_lines(ls.subrange(i + 1, c)), start: i }
}

/// `r` with the blocks `bs` in front, if `r` holds blocks at all.
pub open spec fn prefixed(bs: Seq<BlockView>, r: Result<Seq<BlockView>, ParseError>) -> Result<
    Seq<BlockView>,
    ParseError,
> {
    match r {
        Ok(rest) => Ok(bs + rest),
        Err(e) => Err(e),
    }
}

/// The blocks found by scanning `ls` from line `i` on: lines outside blocks
/// are skipped, an opening line starts a block that the next closing line
/// ends, and a block that never closes makes the whole scan fail.
pub open spec fn scan(ls: Seq<Seq<char>>, i: int) -> Result<Seq<BlockView>, ParseError>
    decreases ls.len() - i,
    via scan_decreases
{
    if 0 <= i < ls.len() {
        if is_opening(ls[i]) {
            match close_from(ls, i + 1) {
                None => Err(ParseError::Unterminated),
                Some(c) => prefixed(seq![block_at(ls, i, c)], scan(ls, c + 1)),
            }
        } else {
            scan(ls, i + 1)
        }
    } else {
        Ok(Seq::empty())
    }
}

#[via_fn]
proof fn scan_decreases(ls: Seq<Seq<char>>, i: int) {
    if 0 <= i < ls.len() {
        lemma_close_from(ls, i + 1);
    }
}

/// What `close_from` finds: the first closing line from `k` on.
pub proof fn lemma_close_from(ls: Seq<Seq<char>>, k: int)
    requires
        0 <= k,
    ensures
        match close_from(ls, k) {
            Some(c) => k <= c < ls.len() && is_closing(ls[c]) && forall|j: int|
                k <= j < c ==> !is_closing(#[trigger] ls[j]),
            None => forall|j: int| k <= j < ls.len() ==> !is_closing(#[trigger] ls[j]),
        },
    decreases ls.len() - k,
{
    if k < ls.len() && !is_closing(ls[k]) {
        lemma_close_from(ls, k + 1);
    }
}

/// The result of a parse, in mathematical terms.
pub open spec fn result_view(r: Result<Vec<CodeBlock>, ParseError>) -> Result<
    Seq<BlockView>,
    ParseError,
> {
    match r {
        Ok(v) => Ok(result_blocks(v@)),
        Err(e) => Err(e),
    }
}

/// The views of a sequence of blocks.
pub open spec fn result_blocks(v: Seq<CodeBlock>) -> Seq<BlockView> {
    v.map_values(|b: CodeBlock| b@)
}

proof fn lemma_prefixed_assoc(
    a: Seq<BlockView>,
    b: Seq<BlockView>,
    r: Result<Seq<BlockView>, ParseError>,
)
    ensures
        prefixed(a, prefixed(b, r)) == prefixed(a + b, r),
{
    if let Ok(rest) = r {
        assert(a + (b + rest) =~= (a + b) + rest);
    }
}

/// What a document parses to.
pub open spec fn parse_spec(text: Seq<char>) -> Result<Seq<BlockView>, ParseError> {
    scan(lines_of(text), 0)
}

/// A parser over the lines of one document at a time.
pub struct Parser<'a> {
    block_start: Pattern,
    block_end: Pattern,
    index: usize,
    lines: Vec<&'a str>,
}

impl<'a> Parser<'a> {
    /// The parser recognises fences with the two patterns it needs.
    pub closed spec fn wf(&self) -> bool {
        &&& self.block_start.source() == opening_pattern()
        &&& self.block_end.source() == fence_marker()
    }

    /// The lines of the document last parsed.
    pub closed spec fn lines_view(&self) -> Seq<Seq<char>> {
        views_of(self.lines@)
    }

    /// The cursor.
    pub closed spec fn cursor(&self) -> int {
        self.index as int
    }

    /// A parser with no document yet. Both of its patterns always compile,
    /// so it is always `Some`.
    pub fn new() -> (r: Option<Parser<'a>>)
        ensures
            r is Some,
            r matches Some(p) ==> p.wf() && p.lines_view().len() == 0 && p.cursor() == 0,
    {
        proof {
            reveal_strlit("^```(?P<language>.*)");
            reveal_strlit("```");
            assert("^```(?P<language>.*)"@ =~= opening_pattern());
            assert("```"@ =~= fence_marker());
            assert(is_plain_literal(fence_marker()));
            assert(is_group_name(tag_group()));
            assert(surely_compiles(opening_pattern()));
            assert(surely_compiles(fence_marker()));
        }
        let block_start = Pattern::new("^```(?P<language>.*)")?;
        let block_end = Pattern::new("```")?;
        let p = Parser { block_start, block_end, index: 0, lines: Vec::new() };
        proof {
            assert(p.lines_view() =~= Seq::<Seq<char>>::empty());
        }
        Some(p)
    }

    /// The line under the cursor, if the cursor is on a line.
    pub fn get_line(&self) -> (r: Option<&'a str>)
        ensures
            match r {
                Some(l) => 0 <= self.cursor() < self.lines_view().len() && l@ == self.lines_view()[
                    self.cursor()
                ],
                None => self.cursor() >= self.lines_view().len(),
            },
    {
        if self.index < self.lines.len() {
            Some(self.lines[self.index])
        } else {
            None
        }
    }

    /// Parses `input` into its code blocks, in document order; fails as a
    /// whole when a block is never closed.
    pub fn parse(&mut self, input: &'a str) -> (r: Result<Vec<CodeBlock>, ParseError>)
        requires
            old(self).wf(),
        ensures
            final(self).wf(),
            final(self).lines_view() == lines_of(input@),
            result_view(r) == parse_spec(input@),
    {
        self.lines = split_lines(input);
        self.index = 0;
        let ghost ls = lines_of(input@);
        proof {
            lemma_lines_have_no_newline(input@);
        }
        let mut blocks: Vec<CodeBlock> = Vec::new();
        while self.index < self.lines.len()
            invariant
                self.wf(),
                self.lines_view() == ls,
                ls == lines_of(input@),
                forall|k: int, j: int|
                    0 <= k < ls.len() && 0 <= j < ls[k].len() ==> ls[k][j] != '\n',
                self.index <= ls.len(),
                scan(ls, 0) == prefixed(result_blocks(blocks@), scan(ls, self.index as int)),
            decreases ls.len() - self.index,
        {
            proof {
                reveal_strlit("language");
                assert("language"@ =~= tag_group());
                assert(opening_pattern().subrange(1, opening_pattern().len() - 8 - 8)
                    =~= fence_marker());
                assert(is_plain_literal(fence_marker()));
                assert(is_group_name(tag_group()));
            }
            let line = self.lines[self.index];
            assert(line@ == ls[self.index as int]);
            assert(!line@.contains('\n'));
            if let Some(tag) = self.block_start.capture(line, "language") {
                let start = self.index;
                let lang = if tag.as_str().is_empty() {
                    None
                } else {
                    Some(tag)
                };
                let mut code = String::new();
                let n_lines = self.lines.len();
                self.index += 1;
                proof {
                    assert(is_opening(ls[start as int]));
                    assert(opt_view(lang) == tag_of(ls[start as int]));
                    assert(ls.subrange(start + 1, start + 1) =~= Seq::<Seq<char>>::empty());
                }
                loop
                    invariant
                        self.wf(),
                        self.lines_view() == ls,
                        ls == lines_of(input@),
                        n_lines == self.lines@.len(),
                        start < self.index <= ls.len(),
                        is_opening(ls[start as int]),
                        opt_view(lang) == tag_of(ls[start as int]),
                        scan(ls, 0) == prefixed(result_blocks(blocks@), scan(ls, start as int)),
                        code@ == join_lines(ls.subrange(start + 1, self.index as int)),
                        close_from(ls, start + 1) == close_from(ls, self.index as int),
                    ensures
                        start < self.index < ls.len(),
                        code@ == join_lines(ls.subrange(start + 1, self.index as int)),
                        close_from(ls, start + 1) == Some(self.index as int),
                    decreases ls.len() - self.index,
                {
                    proof {
                        reveal_strlit("\n");
                        assert("\n"@ =~= seq!['\n']);
                    }
                    match self.get_line() {
                        Some(l) => {
                            assert(self.index < self.lines@.len());
                            if self.block_end.is_match(l) {
                                proof {
                                    lemma_close_from(ls, self.index as int);
                                }
                                break;
                            }
                            proof {
                                let body = ls.subrange(start + 1, self.index + 1);
                                assert(body.drop_last() =~= ls.subrange(start + 1, self.index as int));
                                assert(body.last() == l@);
                            }
                            if self.index > start + 1 {
                                code.append("\n");
                            } else {
                                assert(code@ =~= Seq::<char>::empty());
                            }
                            code.append(l);
                            proof {
                                let body = ls.subrange(start + 1, self.index + 1);
                                assert(code@ =~= join_lines(body));
                            }
                            self.index += 1;
                        },
                        None => {
                            proof {
                                lemma_close_from(ls, self.index as int);
                                assert(scan(ls, start as int) == Err::<Seq<BlockView>, ParseError>(
                                    ParseError::Unterminated,
                                ));
                            }
                            return Err(ParseError::Unterminated);
                        },
                    }
                }
                let block = CodeBlock { start, lang, code };
                proof {
                    let c = self.index as int;
                    assert(block@ == block_at(ls, start as int, c));
                    assert(result_blocks(blocks@.push(block)) =~= result_blocks(blocks@) + seq![
                        block_at(ls, start as int, c),
                    ]);
                    lemma_prefixed_assoc(result_blocks(blocks@), seq![block_at(ls, start as int, c)], scan(ls, c + 1));
                }
                blocks.push(block);
            }
            self.index += 1;
        }
        proof {
            assert(result_view(Ok(blocks)) == Ok::<Seq<BlockView>, ParseError>(result_blocks(blocks@)));
            assert(result_blocks(blocks@) + Seq::<BlockView>::empty() =~= result_blocks(blocks@));
        }
        Ok(blocks)
    }
}

} // verus!
