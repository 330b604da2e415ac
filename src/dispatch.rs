//! The execution dispatcher's decisions: which program runs a block and
//! with which arguments, where a block is written out, and what a finished
//! process means for the block.

use vstd::prelude::*;

use crate::block::{
    effective_lang, extension_for, extension_index, find_by_extension, find_by_tag, no_ext,
    strings_view, table_view, tag_index, BindingView, BlockView, CodeBlock, LanguageBinding,
};

verus! {

/// What became of one block.
#[derive(Debug, PartialEq, Eq)]
pub enum Outcome {
    /// The interpreter exited with success; its standard output.
    Success(String),
    /// The interpreter ran and exited with an error; its standard error.
    Failure(String),
    /// No interpreter is bound to the block's language.
    Skipped,
    /// The interpreter could not be started; why.
    LaunchError(String),
}

/// What a process that ran to its end left behind.
pub struct ProcessOutput {
    pub success: bool,
    pub stdout: String,
    pub stderr: String,
}

/// A program and its arguments.
pub struct Invocation {
    pub program: String,
    pub args: Vec<String>,
}

/// One line of the report: the block's language, its 1-based start line,
/// and its outcome.
pub struct BlockReport {
    pub lang: String,
    pub line: usize,
    pub outcome: Outcome,
}

/// The outcome of a block whose interpreter was started (`Ok`) or could not
/// be (`Err`).
pub fn outcome_of(run: Result<ProcessOutput, String>) -> (r: Outcome)
    ensures
        match run {
            Ok(out) => if out.success {
                r == Outcome::Success(out.stdout)
            } else {
                r == Outcome::Failure(out.stderr)
            },
            Err(why) => r == Outcome::LaunchError(why),
        },
{
    match run {
        Ok(out) => if out.success {
            Outcome::Success(out.stdout)
        } else {
            Outcome::Failure(out.stderr)
        },
        Err(why) => Outcome::LaunchError(why),
    }
}

/// How the binding `b` evaluates `code` inline: its program, with its
/// inline arguments and then the code.
pub open spec fn inline_call(b: BindingView, code: Seq<char>) -> (Seq<char>, Seq<Seq<char>>) {
    (b.program, b.inline_args.push(code))
}

/// How the binding `b` runs the file at `path`.
pub open spec fn file_call(b: BindingView, path: Seq<char>) -> (Seq<char>, Seq<Seq<char>>) {
    (b.program, seq![path])
}

impl Invocation {
    pub open spec fn call(&self) -> (Seq<char>, Seq<Seq<char>>) {
        (self.program@, strings_view(self.args@))
    }
}

fn clone_strings(v: &Vec<String>) -> (r: Vec<String>)
    ensures
        strings_view(r@) == strings_view(v@),
{
    let mut r: Vec<String> = Vec::new();
    let mut i: usize = 0;
    while i < v.len()
        invariant
            i <= v.len(),
            r@.len() == i,
            forall|k: int| 0 <= k < i ==> #[trigger] r@[k]@ == v@[k]@,
        decreases v.len() - i,
    {
        r.push(v[i].clone());
        i = i + 1;
    }
    proof {
        assert(strings_view(r@) =~= strings_view(v@));
    }
    r
}

/// The invocation that evaluates `block` inline, or `None` where no binding
/// of `table` has the block's language, and the block is skipped.
pub fn inline_invocation(table: &Vec<LanguageBinding>, block: &CodeBlock) -> (r: Option<
    Invocation,
>)
    ensures
        match tag_index(table_view(table@), effective_lang(block@.lang)) {
            Some(i) => r matches Some(inv) && inv.call() == inline_call(
                table_view(table@)[i],
                block@.code,
            ),
            None => r is None,
        },
{
    let lang = block.get_lang();
    proof {
        crate::block::lemma_tag_index_found(table_view(table@), lang@);
    }
    match find_by_tag(table, &lang) {
        Some(i) => {
            let b = &table[i];
            let mut args = clone_strings(&b.inline_args);
            args.push(block.code.clone());
            let inv = Invocation { program: b.program.clone(), args };
            proof {
                assert(strings_view(args@) =~= table_view(table@)[i as int].inline_args.push(
                    block@.code,
                ));
            }
            Some(inv)
        },
        None => None,
    }
}

/// The invocation that runs the file at `path`, whose extension is `ext`,
/// or `None` where no binding of `table` has that extension.
pub fn file_invocation(table: &Vec<LanguageBinding>, path: &str, ext: &String) -> (r: Option<
    Invocation,
>)
    ensures
        match extension_index(table_view(table@), ext@) {
            Some(i) => r matches Some(inv) && inv.call() == file_call(
                table_view(table@)[i],
                path@,
            ),
            None => r is None,
        },
{
    proof {
        crate::block::lemma_extension_index_found(table_view(table@), ext@);
    }
    match find_by_extension(table, ext) {
        Some(i) => {
            let b = &table[i];
            let args = vec![path.to_owned()];
            let inv = Invocation { program: b.program.clone(), args };
            proof {
                assert(strings_view(args@) =~= seq![path@]);
            }
            Some(inv)
        },
        None => None,
    }
}

/// The report line of `block`, given its outcome.
pub fn report_for(block: &CodeBlock, outcome: Outcome) -> (r: BlockReport)
    requires
        block.start < usize::MAX,
    ensures
        r.lang@ == effective_lang(block@.lang),
        r.line == block.start + 1,
        r.outcome == outcome,
{
    BlockReport { lang: block.get_lang(), line: block.get_start_line(), outcome }
}


/// The decimal digit `d`, for `d` below ten.
pub open spec fn digit_char(d: nat) -> char {
    if d == 0 {
        '0'
    } else if d == 1 {
        '1'
    } else if d == 2 {
        '2'
    } else if d == 3 {
        '3'
    } else if d == 4 {
        '4'
    } else if d == 5 {
        '5'
    } else if d == 6 {
        '6'
    } else if d == 7 {
        '7'
    } else if d == 8 {
        '8'
    } else {
        '9'
    }
}

/// `n` written in decimal, without leading zeros.
pub open spec fn decimal(n: nat) -> Seq<char>
    decreases n,
{
    if n < 10 {
        seq![digit_char(n)]
    } else {
        decimal(n / 10).push(digit_char(n % 10))
    }
}

/// The decimal digit `d` as text.
fn digit_text(d: usize) -> (r: &'static str)
    requires
        d < 10,
    ensures
        r@ == seq![digit_char(d as nat)],
{
    proof {
        reveal_strlit("0");
        reveal_strlit("1");
        reveal_strlit("2");
        reveal_strlit("3");
        reveal_strlit("4");
        reveal_strlit("5");
        reveal_strlit("6");
        reveal_strlit("7");
        reveal_strlit("8");
        reveal_strlit("9");
    }
    if d == 0 {
        assert("0"@ =~= seq!['0']);
        "0"
    } else if d == 1 {
        assert("1"@ =~= seq!['1']);
        "1"
    } else if d == 2 {
        assert("2"@ =~= seq!['2']);
        "2"
    } else if d == 3 {
        assert("3"@ =~= seq!['3']);
        "3"
    } else if d == 4 {
        assert("4"@ =~= seq!['4']);
        "4"
    } else if d == 5 {
        assert("5"@ =~= seq!['5']);
        "5"
    } else if d == 6 {
        assert("6"@ =~= seq!['6']);
        "6"
    } else if d == 7 {
        assert("7"@ =~= seq!['7']);
        "7"
    } else if d == 8 {
        assert("8"@ =~= seq!['8']);
        "8"
    } else {
        assert("9"@ =~= seq!['9']);
        "9"
    }
}

/// `n` in decimal.
fn decimal_text(n: usize) -> (r: String)
    ensures
        r@ == decimal(n as nat),
    decreases n,
{
    if n < 10 {
        digit_text(n).to_owned()
    } else {
        let mut r = decimal_text(n / 10);
        r.append(digit_text(n % 10));
        r
    }
}

/// The path under which `block` is written out: in `dir`, named by the
/// document's `prefix`, the block's 1-based start line and its extension.
pub open spec fn file_path_spec(
    dir: Seq<char>,
    prefix: Seq<char>,
    b: BlockView,
    t: Seq<BindingView>,
) -> Seq<char> {
    dir + seq!['/'] + prefix + seq!['_', '_'] + decimal((b.start + 1) as nat) + seq!['.']
        + extension_for(t, effective_lang(b.lang))
}

/// The path under which `block` is written out.
pub fn file_path(dir: &str, prefix: &str, block: &CodeBlock, table: &Vec<LanguageBinding>) -> (r:
    String)
    requires
        block.start < usize::MAX,
    ensures
        r@ == file_path_spec(dir@, prefix@, block@, table_view(table@)),
{
    proof {
        reveal_strlit("/");
        reveal_strlit("__");
        reveal_strlit(".");
    }
    let mut r = dir.to_owned();
    r.append("/");
    r.append(prefix);
    r.append("__");
    let line = decimal_text(block.get_start_line());
    r.append(line.as_str());
    r.append(".");
    let ext = block.file_ext_in(table);
    r.append(ext.as_str());
    proof {
        assert(r@ =~= file_path_spec(dir@, prefix@, block@, table_view(table@)));
    }
    r
}

/// Every block as a file to write: its path and its source.
pub fn extraction_plan(
    dir: &str,
    prefix: &str,
    blocks: &Vec<CodeBlock>,
    table: &Vec<LanguageBinding>,
) -> (r: Vec<(String, String)>)
    requires
        forall|k: int| 0 <= k < blocks@.len() ==> #[trigger] blocks@[k].start < usize::MAX,
    ensures
        r@.len() == blocks@.len(),
        forall|k: int|
            0 <= k < blocks@.len() ==> #[trigger] r@[k].0@ == file_path_spec(
                dir@,
                prefix@,
                blocks@[k]@,
                table_view(table@),
            ) && r@[k].1@ == blocks@[k].code@,
{
    let mut r: Vec<(String, String)> = Vec::new();
    let mut i: usize = 0;
    while i < blocks.len()
        invariant
            i <= blocks@.len(),
            r@.len() == i,
            forall|k: int| 0 <= k < blocks@.len() ==> #[trigger] blocks@[k].start < usize::MAX,
            forall|k: int|
                0 <= k < i ==> #[trigger] r@[k].0@ == file_path_spec(
                    dir@,
                    prefix@,
                    blocks@[k]@,
                    table_view(table@),
                ) && r@[k].1@ == blocks@[k].code@,
        decreases blocks.len() - i,
    {
        let b = &blocks[i];
        let path = file_path(dir, prefix, b, table);
        r.push((path, b.code.clone()));
        i = i + 1;
    }
    r
}

} // verus!
