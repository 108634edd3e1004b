//! Escape sequences in string literals.

use crate::text::{chars_of, string_from_chars};
use vstd::prelude::*;

verus! {

/// The character that a backslash followed by `c` stands for, if the two
/// form an escape sequence: `\\`, `\n`, `\r`, `\t` or `\"`.
pub open spec fn escape_of(c: char) -> Option<char> {
    if c == '\\' {
        Some('\\')
    } else if c == 'n' {
        Some('\n')
    } else if c == 'r' {
        Some('\r')
    } else if c == 't' {
        Some('\t')
    } else if c == '"' {
        Some('"')
    } else {
        None
    }
}

/// The text that a string literal denotes.
///
/// The literal is read once from left to right. A backslash with one of
/// `\`, `n`, `r`, `t`, `"` behind it stands, together with that
/// character, for a backslash, a newline, a carriage return, a tab or a
/// quote. What a sequence has yielded is not read again. Every other
/// character, a backslash before anything else included, stands for
/// itself.
pub open spec fn unescaped(s: Seq<char>) -> Seq<char>
    decreases s.len(),
{
    if s.len() == 0 {
        s
    } else if s.len() >= 2 && s[0] == '\\' && escape_of(s[1]) is Some {
        seq![escape_of(s[1])->0] + unescaped(s.skip(2))
    } else {
        seq![s[0]] + unescaped(s.skip(1))
    }
}

/// A text without a backslash is its own decoding.
pub proof fn lemma_unescaped_plain(s: Seq<char>)
    requires
        forall|i: int| 0 <= i < s.len() ==> s[i] != '\\',
    ensures
        unescaped(s) == s,
    decreases s.len(),
{
    if s.len() > 0 {
        lemma_unescaped_plain(s.skip(1));
        assert(seq![s[0]] + s.skip(1) =~= s);
    }
}

fn escape(c: char) -> (decoded: Option<char>)
    ensures
        decoded == escape_of(c),
{
    if c == '\\' {
        Some('\\')
    } else if c == 'n' {
        Some('\n')
    } else if c == 'r' {
        Some('\r')
    } else if c == 't' {
        Some('\t')
    } else if c == '"' {
        Some('"')
    } else {
        None
    }
}

/// Decodes the escape sequences `\\`, `\n`, `\r`, `\t` and `\"` of a
/// string literal, in one pass from left to right.
pub fn unescape_string(s: &str) -> (decoded: String)
    ensures
        decoded@ == unescaped(s@),
{
    let chars = chars_of(s);
    let mut out: Vec<char> = Vec::new();
    let mut i: usize = 0;
    proof {
        assert(chars@.skip(0) =~= chars@);
        assert(out@ + unescaped(chars@) =~= unescaped(chars@));
    }
    while i < chars.len()
        invariant
            i <= chars.len(),
            unescaped(chars@) == out@ + unescaped(chars@.skip(i as int)),
        decreases chars.len() - i,
    {
        let ghost rest = chars@.skip(i as int);
        let ghost before = out@;
        let pair = if chars[i] == '\\' && i + 1 < chars.len() {
            escape(chars[i + 1])
        } else {
            None
        };
        match pair {
            Some(c) => {
                out.push(c);
                i += 2;
                proof {
                    assert(rest.skip(2) =~= chars@.skip(i as int));
                    assert(before + (seq![c] + unescaped(rest.skip(2))) =~= out@ + unescaped(
                        rest.skip(2),
                    ));
                }
            },
            None => {
                out.push(chars[i]);
                i += 1;
                proof {
                    assert(rest.skip(1) =~= chars@.skip(i as int));
                    assert(before + (seq![rest[0]] + unescaped(rest.skip(1))) =~= out@
                        + unescaped(rest.skip(1)));
                }
            },
        }
    }
    proof {
        assert(out@ + Seq::<char>::empty() =~= out@);
    }
    string_from_chars(&out)
}

} // verus!
