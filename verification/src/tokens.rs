//! Tokenizer: splits a raw line on a fixed set of separator characters,
//! dropping empty substrings and purely numeric tokens.

use vstd::prelude::*;

verus! {

use vstd::string::StrSliceExecFns;
use vstd::string::StringExecFns;

/// The fixed separator set: space and common punctuation.
pub open spec fn is_separator(c: char) -> bool {
    ||| c == ' '
    ||| c == '/'
    ||| c == ','
    ||| c == '.'
    ||| c == ':'
    ||| c == '"'
    ||| c == '('
    ||| c == ')'
    ||| c == '{'
    ||| c == '}'
    ||| c == '['
    ||| c == ']'
}

/// A decimal digit.
pub open spec fn is_digit_char(c: char) -> bool {
    ('0' as u32) <= (c as u32) && (c as u32) <= ('9' as u32)
}

/// Every character is a decimal digit; the empty word counts as numeric.
pub open spec fn all_numeric(w: Seq<char>) -> bool {
    forall|i: int| 0 <= i < w.len() ==> is_digit_char(#[trigger] w[i])
}

/// A token survives tokenization if it is non-empty and not purely numeric.
pub open spec fn keep_token(w: Seq<char>) -> bool {
    w.len() > 0 && !all_numeric(w)
}

/// One pass over the line: `i` is the scan position, `start` the beginning of
/// the token currently being read, `acc` the tokens already emitted.
pub open spec fn tokens_loop(s: Seq<char>, i: int, start: int, acc: Seq<Seq<char>>) -> Seq<
    Seq<char>,
>
    decreases s.len() - i,
{
    if i < 0 || i >= s.len() {
        let w = s.subrange(start, s.len() as int);
        if keep_token(w) {
            acc.push(w)
        } else {
            acc
        }
    } else if is_separator(s[i]) {
        let w = s.subrange(start, i);
        if keep_token(w) {
            tokens_loop(s, i + 1, i + 1, acc.push(w))
        } else {
            tokens_loop(s, i + 1, i + 1, acc)
        }
    } else {
        tokens_loop(s, i + 1, start, acc)
    }
}

/// The token sequence of a line.
pub open spec fn tokens_of(s: Seq<char>) -> Seq<Seq<char>> {
    tokens_loop(s, 0, 0, Seq::empty())
}

/// Each emitted token consumes at least one character, so a line of `n`
/// characters yields at most `n` tokens beyond those already accumulated.
pub proof fn lemma_tokens_loop_count(s: Seq<char>, i: int, start: int, acc: Seq<Seq<char>>)
    requires
        0 <= start <= i,
        start <= s.len(),
    ensures
        tokens_loop(s, i, start, acc).len() <= acc.len() + (s.len() - start),
    decreases s.len() - i,
{
    if i < 0 || i >= s.len() {
    } else {
        if is_separator(s[i]) {
            let w = s.subrange(start, i);
            if keep_token(w) {
                lemma_tokens_loop_count(s, i + 1, i + 1, acc.push(w));
            } else {
                lemma_tokens_loop_count(s, i + 1, i + 1, acc);
            }
        } else {
            lemma_tokens_loop_count(s, i + 1, start, acc);
        }
    }
}

/// A line never yields more tokens than it has characters.
pub proof fn lemma_tokens_count(s: Seq<char>)
    ensures
        tokens_of(s).len() <= s.len(),
{
    lemma_tokens_loop_count(s, 0, 0, Seq::empty());
}

/// Whether `c` is one of the separator characters.
pub fn is_separator_char(c: char) -> (r: bool)
    ensures
        r == is_separator(c),
{
    c == ' ' || c == '/' || c == ',' || c == '.' || c == ':' || c == '"' || c == '(' || c == ')'
        || c == '{' || c == '}' || c == '[' || c == ']'
}

/// Whether every character of `w` is a decimal digit (true for the empty
/// string).
pub fn str_all_numeric(w: &str) -> (r: bool)
    ensures
        r == all_numeric(w@),
{
    let n = w.unicode_len();
    let mut i: usize = 0;
    while i < n
        invariant
            0 <= i <= n,
            n == w@.len(),
            forall|k: int| 0 <= k < i ==> is_digit_char(#[trigger] w@[k]),
        decreases n - i,
    {
        let c = w.get_char(i);
        let cu = c as u32;
        if cu < ('0' as u32) || cu > ('9' as u32) {
            return false;
        }
        i = i + 1;
    }
    true
}

/// Splits `line` on the separator set, dropping empty and purely numeric
/// tokens.
pub fn tokenize(line: &str) -> (r: Vec<String>)
    ensures
        r.deep_view() == tokens_of(line@),
        r@.len() <= line@.len(),
{
    let n = line.unicode_len();
    let mut out: Vec<String> = Vec::new();
    let mut start: usize = 0;
    let mut i: usize = 0;
    proof {
        assert(out.deep_view() =~= Seq::<Seq<char>>::empty());
    }
    while i < n
        invariant
            0 <= start <= i <= n,
            n == line@.len(),
            tokens_of(line@) == tokens_loop(line@, i as int, start as int, out.deep_view()),
        decreases n - i,
    {
        let ghost prev = out.deep_view();
        let c = line.get_char(i);
        if is_separator_char(c) {
            let w = line.substring_char(start, i);
            if w.unicode_len() > 0 && !str_all_numeric(w) {
                out.push(String::from_str(w));
                proof {
                    assert(out.deep_view() =~= prev.push(w@));
                }
            }
            start = i + 1;
        }
        i = i + 1;
    }
    let w = line.substring_char(start, n);
    if w.unicode_len() > 0 && !str_all_numeric(w) {
        let ghost prev = out.deep_view();
        out.push(String::from_str(w));
        proof {
            assert(out.deep_view() =~= prev.push(w@));
        }
    }
    proof {
        lemma_tokens_count(line@);
        assert(out@.len() == out.deep_view().len());
    }
    out
}

} // verus!
