//! Code blocks and the table that binds a language tag to an interpreter.

use vstd::prelude::*;

use crate::fence::opt_view;

verus! {

/// What a code block is, in mathematical terms.
pub struct BlockView {
    pub lang: Option<Seq<char>>,
    pub code: Seq<char>,
    pub start: int,
}

/// One fenced region of a document: its tag (absent when the opening fence
/// has none), the lines between the fences joined with `\n`, and the 0-based
/// index of the opening fence line.
#[derive(Debug, PartialEq, Eq)]
pub struct CodeBlock {
    pub lang: Option<String>,
    pub code: String,
    pub start: usize,
}

impl View for CodeBlock {
    type V = BlockView;

    open spec fn view(&self) -> BlockView {
        BlockView { lang: opt_view(self.lang), code: self.code@, start: self.start as int }
    }
}

/// The language that stands for a block without a tag.
pub open spec fn no_lang() -> Seq<char> {
    seq!['n', 'o', '_', 'l', 'a', 'n', 'g']
}

/// The extension of a file whose block has no binding.
pub open spec fn no_ext() -> Seq<char> {
    seq!['n', 'o', '_', 'e', 'x', 't']
}

/// A block's effective language: its tag, or `no_lang` when the tag is
/// absent or empty.
pub open spec fn effective_lang(lang: Option<Seq<char>>) -> Seq<char> {
    match lang {
        Some(t) => if t.len() == 0 {
            no_lang()
        } else {
            t
        },
        None => no_lang(),
    }
}

/// How a language is run: its tag, the extension of its files, the program,
/// and the arguments that come before the source text in inline evaluation.
pub struct LanguageBinding {
    pub tag: String,
    pub extension: String,
    pub program: String,
    pub inline_args: Vec<String>,
}

pub struct BindingView {
    pub tag: Seq<char>,
    pub extension: Seq<char>,
    pub program: Seq<char>,
    pub inline_args: Seq<Seq<char>>,
}

/// The views of a sequence of strings.
pub open spec fn strings_view(v: Seq<String>) -> Seq<Seq<char>> {
    v.map_values(|s: String| s@)
}

impl View for LanguageBinding {
    type V = BindingView;

    open spec fn view(&self) -> BindingView {
        BindingView {
            tag: self.tag@,
            extension: self.extension@,
            program: self.program@,
            inline_args: strings_view(self.inline_args@),
        }
    }
}

/// The views of a binding table.
pub open spec fn table_view(t: Seq<LanguageBinding>) -> Seq<BindingView> {
    t.map_values(|b: LanguageBinding| b@)
}

/// The position of the first binding whose tag is `tag`.
pub open spec fn tag_index(t: Seq<BindingView>, tag: Seq<char>) -> Option<int>
    decreases t.len(),
{
    if t.len() == 0 {
        None
    } else {
        match tag_index(t.drop_last(), tag) {
            Some(i) => Some(i),
            None => if t.last().tag == tag {
                Some(t.len() - 1)
            } else {
                None
            },
        }
    }
}

/// The position of the first binding whose extension is `ext`.
pub open spec fn extension_index(t: Seq<BindingView>, ext: Seq<char>) -> Option<int>
    decreases t.len(),
{
    if t.len() == 0 {
        None
    } else {
        match extension_index(t.drop_last(), ext) {
            Some(i) => Some(i),
            None => if t.last().extension == ext {
                Some(t.len() - 1)
            } else {
                None
            },
        }
    }
}

/// The extension under which a block of effective language `lang` is
/// written out.
pub open spec fn extension_for(t: Seq<BindingView>, lang: Seq<char>) -> Seq<char> {
    match tag_index(t, lang) {
        Some(i) => t[i].extension,
        None => no_ext(),
    }
}

/// The table that holds out of the box: JavaScript through node, Python
/// through python3.
pub open spec fn default_table() -> Seq<BindingView> {
    seq![
        BindingView {
            tag: "javascript"@,
            extension: "js"@,
            program: "node"@,
            inline_args: seq![
                "--experimental-vm-modules"@,
                "--experimental-modules"@,
                "--input-type=module"@,
                "-e"@,
            ],
        },
        BindingView {
            tag: "python"@,
            extension: "py"@,
            program: "python3"@,
            inline_args: seq!["-c"@],
        },
    ]
}

fn owned(s: &str) -> (r: String)
    ensures
        r@ == s@,
{
    s.to_owned()
}

/// The bindings that hold out of the box.
pub fn default_bindings() -> (r: Vec<LanguageBinding>)
    ensures
        table_view(r@) == default_table(),
{
    let js_args = vec![
        owned("--experimental-vm-modules"),
        owned("--experimental-modules"),
        owned("--input-type=module"),
        owned("-e"),
    ];
    let py_args = vec![owned("-c")];
    let js = LanguageBinding {
        tag: owned("javascript"),
        extension: owned("js"),
        program: owned("node"),
        inline_args: js_args,
    };
    let py = LanguageBinding {
        tag: owned("python"),
        extension: owned("py"),
        program: owned("python3"),
        inline_args: py_args,
    };
    proof {
        assert(strings_view(js_args@) =~= default_table()[0].inline_args);
        assert(strings_view(py_args@) =~= default_table()[1].inline_args);
        assert(js@ == default_table()[0]);
        assert(py@ == default_table()[1]);
    }
    let r = vec![js, py];
    proof {
        assert(table_view(r@) =~= default_table());
    }
    r
}

/// The first binding whose tag is `tag`.
pub fn find_by_tag(table: &Vec<LanguageBinding>, tag: &String) -> (r: Option<usize>)
    ensures
        r matches Some(k) ==> tag_index(table_view(table@), tag@) == Some(k as int),
        r is None ==> tag_index(table_view(table@), tag@) is None,
{
    let ghost t = table_view(table@);
    let mut i: usize = 0;
    while i < table.len()
        invariant
            i <= table.len(),
            t == table_view(table@),
            tag_index(t.take(i as int), tag@) is None,
        decreases table.len() - i,
    {
        proof {
            assert(t.take(i + 1).drop_last() =~= t.take(i as int));
        }
        if table[i].tag == *tag {
            proof {
                lemma_tag_index_prefix(t, i as int + 1, tag@);
            }
            return Some(i);
        }
        i = i + 1;
    }
    proof {
        assert(t.take(i as int) =~= t);
    }
    None
}

/// Where `tag_index` points, the tag is the one asked for.
pub proof fn lemma_tag_index_found(t: Seq<BindingView>, tag: Seq<char>)
    ensures
        tag_index(t, tag) matches Some(i) ==> 0 <= i < t.len() && t[i].tag == tag,
    decreases t.len(),
{
    if t.len() > 0 {
        lemma_tag_index_found(t.drop_last(), tag);
    }
}

/// Where `extension_index` points, the extension is the one asked for.
pub proof fn lemma_extension_index_found(t: Seq<BindingView>, ext: Seq<char>)
    ensures
        extension_index(t, ext) matches Some(i) ==> 0 <= i < t.len() && t[i].extension == ext,
    decreases t.len(),
{
    if t.len() > 0 {
        lemma_extension_index_found(t.drop_last(), ext);
    }
}

proof fn lemma_tag_index_prefix(t: Seq<BindingView>, n: int, tag: Seq<char>)
    requires
        0 <= n <= t.len(),
        tag_index(t.take(n), tag) is Some,
    ensures
        tag_index(t, tag) == tag_index(t.take(n), tag),
    decreases t.len() - n,
{
    if n < t.len() {
        assert(t.take(n + 1).drop_last() =~= t.take(n));
        lemma_tag_index_prefix(t, n + 1, tag);
    } else {
        assert(t.take(n) =~= t);
    }
}

proof fn lemma_extension_index_prefix(t: Seq<BindingView>, n: int, ext: Seq<char>)
    requires
        0 <= n <= t.len(),
        extension_index(t.take(n), ext) is Some,
    ensures
        extension_index(t, ext) == extension_index(t.take(n), ext),
    decreases t.len() - n,
{
    if n < t.len() {
        assert(t.take(n + 1).drop_last() =~= t.take(n));
        lemma_extension_index_prefix(t, n + 1, ext);
    } else {
        assert(t.take(n) =~= t);
    }
}

/// The first binding whose extension is `ext`.
pub fn find_by_extension(table: &Vec<LanguageBinding>, ext: &String) -> (r: Option<usize>)
    ensures
        r matches Some(k) ==> extension_index(table_view(table@), ext@) == Some(k as int),
        r is None ==> extension_index(table_view(table@), ext@) is None,
{
    let ghost t = table_view(table@);
    let mut i: usize = 0;
    while i < table.len()
        invariant
            i <= table.len(),
            t == table_view(table@),
            extension_index(t.take(i as int), ext@) is None,
        decreases table.len() - i,
    {
        proof {
            assert(t.take(i + 1).drop_last() =~= t.take(i as int));
        }
        if table[i].extension == *ext {
            proof {
                lemma_extension_index_prefix(t, i as int + 1, ext@);
            }
            return Some(i);
        }
        i = i + 1;
    }
    proof {
        assert(t.take(i as int) =~= t);
    }
    None
}

impl CodeBlock {
    /// The block's effective language.
    pub fn get_lang(&self) -> (r: String)
        ensures
            r@ == effective_lang(self@.lang),
    {
        proof {
            reveal_strlit("no_lang");
        }
        match &self.lang {
            Some(t) => if t.as_str().is_empty() {
                owned("no_lang")
            } else {
                t.clone()
            },
            None => owned("no_lang"),
        }
    }

    /// The extension under which the block is written out with `table`.
    pub fn file_ext_in(&self, table: &Vec<LanguageBinding>) -> (r: String)
        ensures
            r@ == extension_for(table_view(table@), effective_lang(self@.lang)),
    {
        proof {
            reveal_strlit("no_ext");
        }
        let lang = self.get_lang();
        proof {
            lemma_tag_index_found(table_view(table@), lang@);
        }
        match find_by_tag(table, &lang) {
            Some(i) => {
                assert(table_view(table@)[i as int] == table@[i as int]@);
                table[i].extension.clone()
            },
            None => owned("no_ext"),
        }
    }

    /// The extension under which the block is written out with the default
    /// bindings.
    pub fn get_file_ext(&self) -> (r: String)
        ensures
            r@ == extension_for(default_table(), effective_lang(self@.lang)),
    {
        let table = default_bindings();
        self.file_ext_in(&table)
    }

    /// The 1-based line of the opening fence.
    pub fn get_start_line(&self) -> (r: usize)
        requires
            self.start < usize::MAX,
        ensures
            r == self.start + 1,
    {
        self.start + 1
    }
}

} // verus!
