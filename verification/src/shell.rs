//! Shell quoting, as `shell_words` does it.
use vstd::prelude::*;

verus! {

/// Characters that make `shell_words` quote a word.
pub open spec fn is_shell_special(c: char) -> bool {
    c == '\n' || c == '\'' || c == '|' || c == '&' || c == ';' || c == '<' || c == '>' || c == '('
        || c == ')' || c == '$' || c == '`' || c == '\\' || c == '"' || c == ' ' || c == '\t' || c == '*'
        || c == '?' || c == '[' || c == '#' || c == '~' || c == '=' || c == '%'
}

/// Each single quote replaced by `'\''`.
pub open spec fn escape_single_quotes(s: Seq<char>) -> Seq<char>
    decreases s.len(),
{
    if s.len() == 0 {
        Seq::empty()
    } else {
        escape_single_quotes(s.drop_last()) + if s.last() == '\'' {
            seq!['\'', '\\', '\'', '\'']
        } else {
            seq![s.last()]
        }
    }
}

/// A word quoted for the shell: `''` for the empty word, the word itself
/// when it holds no special character, and otherwise the word in single
/// quotes with its own single quotes escaped.
pub open spec fn shell_quote(s: Seq<char>) -> Seq<char> {
    if s.len() == 0 {
        seq!['\'', '\'']
    } else if !(exists|i: int| 0 <= i < s.len() && is_shell_special(#[trigger] s[i])) {
        s
    } else {
        seq!['\''] + escape_single_quotes(s) + seq!['\'']
    }
}

/// Quoted words separated by single spaces.
pub open spec fn shell_join_words(ws: Seq<Seq<char>>) -> Seq<char>
    decreases ws.len(),
{
    if ws.len() == 0 {
        Seq::empty()
    } else if ws.len() == 1 {
        shell_quote(ws[0])
    } else {
        shell_join_words(ws.drop_last()) + seq![' '] + shell_quote(ws.last())
    }
}

/// `shell_words::join`.
#[verifier::external_body]
pub(crate) fn shell_join(words: &Vec<String>) -> (r: String)
    ensures
        r@ == shell_join_words(crate::token::strings_view(words@)),
{
    shell_words::join(words)
}

} // verus!
