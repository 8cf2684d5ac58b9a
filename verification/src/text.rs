//! Tokenization: lowercasing and whitespace splitting of the training corpus.

use vstd::prelude::*;

verus! {

/// Whitespace according to Unicode's White_Space property, the set of
/// characters that `str::split_whitespace` separates words on.
pub open spec fn spec_is_space(c: char) -> bool {
    ||| c == ' '
    ||| c == '\t'
    ||| c == '\n'
    ||| c == '\r'
    ||| c == '\u{b}'
    ||| c == '\u{c}'
    ||| c == '\u{85}'
    ||| c == '\u{a0}'
    ||| c == '\u{1680}'
    ||| c == '\u{2000}'
    ||| c == '\u{2001}'
    ||| c == '\u{2002}'
    ||| c == '\u{2003}'
    ||| c == '\u{2004}'
    ||| c == '\u{2005}'
    ||| c == '\u{2006}'
    ||| c == '\u{2007}'
    ||| c == '\u{2008}'
    ||| c == '\u{2009}'
    ||| c == '\u{200a}'
    ||| c == '\u{2028}'
    ||| c == '\u{2029}'
    ||| c == '\u{202f}'
    ||| c == '\u{205f}'
    ||| c == '\u{3000}'
}

fn is_space(c: char) -> (r: bool)
    ensures
        r == spec_is_space(c),
{
    c == ' ' || c == '\t' || c == '\n' || c == '\r' || c == '\u{b}' || c == '\u{c}'
        || c == '\u{85}' || c == '\u{a0}' || c == '\u{1680}' || c == '\u{2000}'
        || c == '\u{2001}' || c == '\u{2002}' || c == '\u{2003}' || c == '\u{2004}'
        || c == '\u{2005}' || c == '\u{2006}' || c == '\u{2007}' || c == '\u{2008}'
        || c == '\u{2009}' || c == '\u{200a}' || c == '\u{2028}' || c == '\u{2029}'
        || c == '\u{202f}' || c == '\u{205f}' || c == '\u{3000}'
}

/// ASCII lowercasing of a single character, as `make_ascii_lowercase` does it:
/// the letters 'A' through 'Z' map to their lowercase forms, all else is kept.
pub open spec fn spec_lower(c: char) -> char {
    if c == 'A' { 'a' }
    else if c == 'B' { 'b' }
    else if c == 'C' { 'c' }
    else if c == 'D' { 'd' }
    else if c == 'E' { 'e' }
    else if c == 'F' { 'f' }
    else if c == 'G' { 'g' }
    else if c == 'H' { 'h' }
    else if c == 'I' { 'i' }
    else if c == 'J' { 'j' }
    else if c == 'K' { 'k' }
    else if c == 'L' { 'l' }
    else if c == 'M' { 'm' }
    else if c == 'N' { 'n' }
    else if c == 'O' { 'o' }
    else if c == 'P' { 'p' }
    else if c == 'Q' { 'q' }
    else if c == 'R' { 'r' }
    else if c == 'S' { 's' }
    else if c == 'T' { 't' }
    else if c == 'U' { 'u' }
    else if c == 'V' { 'v' }
    else if c == 'W' { 'w' }
    else if c == 'X' { 'x' }
    else if c == 'Y' { 'y' }
    else if c == 'Z' { 'z' }
    else { c }
}

fn lower(c: char) -> (r: char)
    ensures
        r == spec_lower(c),
{
    if c == 'A' { 'a' }
    else if c == 'B' { 'b' }
    else if c == 'C' { 'c' }
    else if c == 'D' { 'd' }
    else if c == 'E' { 'e' }
    else if c == 'F' { 'f' }
    else if c == 'G' { 'g' }
    else if c == 'H' { 'h' }
    else if c == 'I' { 'i' }
    else if c == 'J' { 'j' }
    else if c == 'K' { 'k' }
    else if c == 'L' { 'l' }
    else if c == 'M' { 'm' }
    else if c == 'N' { 'n' }
    else if c == 'O' { 'o' }
    else if c == 'P' { 'p' }
    else if c == 'Q' { 'q' }
    else if c == 'R' { 'r' }
    else if c == 'S' { 's' }
    else if c == 'T' { 't' }
    else if c == 'U' { 'u' }
    else if c == 'V' { 'v' }
    else if c == 'W' { 'w' }
    else if c == 'X' { 'x' }
    else if c == 'Y' { 'y' }
    else if c == 'Z' { 'z' }
    else { c }
}

/// One step of the tokenizer: fold the next character into the finished
/// tokens and the word currently being read.
pub open spec fn spec_tok_step(
    toks: Seq<Seq<char>>,
    cur: Seq<char>,
    c: char,
) -> (Seq<Seq<char>>, Seq<char>) {
    if spec_is_space(c) {
        if cur.len() > 0 {
            (toks.push(cur), Seq::<char>::empty())
        } else {
            (toks, cur)
        }
    } else {
        (toks, cur.push(spec_lower(c)))
    }
}

/// State of the tokenizer after reading the first `i` characters of `s`.
pub open spec fn spec_tok_fold(s: Seq<char>, i: int) -> (Seq<Seq<char>>, Seq<char>)
    decreases i,
{
    if i <= 0 {
        (Seq::<Seq<char>>::empty(), Seq::<char>::empty())
    } else {
        let prev = spec_tok_fold(s, i - 1);
        spec_tok_step(prev.0, prev.1, s[i - 1])
    }
}

/// The token sequence of a text: lowercased words split on whitespace.
pub open spec fn spec_tokens(s: Seq<char>) -> Seq<Seq<char>> {
    let last = spec_tok_fold(s, s.len() as int);
    if last.1.len() > 0 {
        last.0.push(last.1)
    } else {
        last.0
    }
}

/// Relies on `String::push`: appends the given character to the end of the string.
#[verifier::external_body]
fn push_char(s: &mut String, c: char)
    ensures
        final(s)@ == old(s)@.push(c),
{
    s.push(c);
}

/// Split `text` into lowercased words on runs of whitespace.
pub fn tokenize(text: &str) -> (toks: Vec<String>)
    ensures
        toks@.map_values(|t: String| t@) == spec_tokens(text@),
{
    let n = text.unicode_len();
    let mut toks: Vec<String> = Vec::new();
    let mut cur: String = String::new();
    let mut i: usize = 0;
    while i < n
        invariant
            n == text@.len(),
            i <= n,
            (toks@.map_values(|t: String| t@), cur@) == spec_tok_fold(text@, i as int),
        decreases n - i,
    {
        let ghost prev_toks = toks@.map_values(|t: String| t@);
        let ghost prev_cur = cur@;
        let c = text.get_char(i);
        if is_space(c) {
            if !cur.as_str().is_empty() {
                toks.push(cur);
                cur = String::new();
                proof {
                    assert(toks@.map_values(|t: String| t@) =~= prev_toks.push(prev_cur));
                }
            }
        } else {
            push_char(&mut cur, lower(c));
        }
        i = i + 1;
    }
    if !cur.as_str().is_empty() {
        toks.push(cur);
        proof {
            let ghost last = spec_tok_fold(text@, n as int);
            assert(toks@.map_values(|t: String| t@) =~= last.0.push(last.1));
        }
    }
    toks
}

} // verus!
