//! Fence recognition through compiled regular expressions.

use vstd::prelude::*;

verus! {

#[verifier::external_type_specification]
#[verifier::external_body]
pub struct ExRegex(regex::Regex);

#[verifier::external_type_specification]
#[verifier::external_body]
pub struct ExRegexError(regex::Error);

/// The characters that have a meaning of their own in a regular expression,
/// together with the whitespace that the `x` flag would skip.
pub open spec fn is_meta(c: char) -> bool {
    c == '\\' || c == '.' || c == '+' || c == '*' || c == '?' || c == '(' || c == ')' || c
        == '|' || c == '[' || c == ']' || c == '{' || c == '}' || c == '^' || c == '$' || c
        == '#' || c == '&' || c == '-' || c == '~' || c == '\n'
}

/// A pattern made of characters that each match themselves.
pub open spec fn is_plain_literal(p: Seq<char>) -> bool {
    forall|i: int| 0 <= i < p.len() ==> !is_meta(#[trigger] p[i])
}

/// A capture-group name: letters, digits and `_`, not starting with a digit.
pub open spec fn is_group_name(n: Seq<char>) -> bool {
    &&& n.len() > 0
    &&& !('0' <= n[0] && n[0] <= '9')
    &&& forall|i: int|
        0 <= i < n.len() ==> ('a' <= #[trigger] n[i] && n[i] <= 'z') || ('A' <= n[i] && n[i]
            <= 'Z') || ('0' <= n[i] && n[i] <= '9') || n[i] == '_'
}

/// Whether `hay` holds `needle` as a contiguous run.
pub open spec fn contains(hay: Seq<char>, needle: Seq<char>) -> bool {
    exists|k: int| 0 <= k && k + needle.len() <= hay.len() && #[trigger] hay.subrange(
        k,
        k + needle.len(),
    ) == needle
}

/// Whether `hay` begins with `prefix`.
pub open spec fn starts_with(hay: Seq<char>, prefix: Seq<char>) -> bool {
    prefix.len() <= hay.len() && hay.take(prefix.len() as int) == prefix
}

/// The view of an optional string.
pub open spec fn opt_view(o: Option<String>) -> Option<Seq<char>> {
    match o {
        Some(t) => Some(t@),
        None => None,
    }
}

/// The pattern `^<lit>(?P<name>.*)`: the literal at the start of the
/// haystack, then the rest of it captured under `name`.
pub open spec fn anchored_rest_pattern(lit: Seq<char>, name: Seq<char>) -> Seq<char> {
    seq!['^'] + lit + seq!['(', '?', 'P', '<'] + name + seq!['>', '.', '*', ')']
}

/// A pattern that the regex engine always accepts: a short plain literal,
/// or a short `^<lit>(?P<name>.*)` with a plain literal and a valid group
/// name. Such a pattern is well formed and far below the default size limit.
pub open spec fn surely_compiles(p: Seq<char>) -> bool {
    p.len() <= 64 && (is_plain_literal(p) || exists|lit: Seq<char>, name: Seq<char>|
        p == anchored_rest_pattern(lit, name) && is_plain_literal(lit) && is_group_name(name))
}

/// Relies on regex::Regex::new, which compiles `pattern`, and fails only on
/// invalid syntax or when the compiled regex would exceed the size limit
/// (10 MiB by default).
#[verifier::external_body]
fn compile(pattern: &str) -> (r: Result<regex::Regex, regex::Error>)
    ensures
        surely_compiles(pattern@) ==> r is Ok,
{
    regex::Regex::new(pattern)
}

/// A compiled regular expression together with the text it was compiled
/// from. Only `Pattern::new` builds one.
pub struct Pattern {
    re: regex::Regex,
    text: Ghost<Seq<char>>,
}

impl Pattern {
    /// The text that this pattern was compiled from.
    pub closed spec fn source(&self) -> Seq<char> {
        self.text@
    }

    /// Compiles `pattern`; `None` where the regex engine refuses it.
    pub fn new(pattern: &str) -> (r: Option<Pattern>)
        ensures
            r matches Some(p) ==> p.source() == pattern@,
            surely_compiles(pattern@) ==> r is Some,
    {
        match compile(pattern) {
            Ok(re) => Some(Pattern { re, text: Ghost(pattern@) }),
            Err(_) => None,
        }
    }

    /// Relies on regex::Regex::is_match, true if and only if the pattern
    /// matches somewhere in `hay`; a plain literal matches exactly where it
    /// occurs.
    #[verifier::external_body]
    pub(crate) fn is_match(&self, hay: &str) -> (r: bool)
        ensures
            is_plain_literal(self.source()) ==> (r <==> contains(hay@, self.source())),
    {
        self.re.is_match(hay)
    }

    /// Relies on regex::Regex::captures, Captures::name and Match::as_str:
    /// the text that the group `name` took in the leftmost match, if any. For
    /// `^<lit>(?P<name>.*)` on a haystack without `\n` (which `.` does not
    /// match), that is everything after a leading `lit`.
    #[verifier::external_body]
    pub(crate) fn capture(&self, hay: &str, name: &str) -> (r: Option<String>)
        ensures
            ({
                let lit = self.source().subrange(1, self.source().len() - 8 - name@.len());
                self.source() == anchored_rest_pattern(lit, name@) && is_plain_literal(lit)
                    && is_group_name(name@) && !hay@.contains('\n') ==> opt_view(r) == (if starts_with(
                    hay@,
                    lit,
                ) {
                    Some(hay@.skip(lit.len() as int))
                } else {
                    None::<Seq<char>>
                })
            }),
    {
        let caps = self.re.captures(hay)?;
        let group = caps.name(name)?;
        Some(group.as_str().to_string())
    }
}

} // verus!
