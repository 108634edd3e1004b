//! Characters and strings: the character classes the scanner relies on,
//! conversions between `String` and `Vec<char>`, decimal numerals and
//! whitespace trimming.

use vstd::prelude::*;

verus! {

/// A character of ASCII.
pub open spec fn ascii(c: char) -> bool {
    (c as u32) < 128
}

/// What `char::is_alphanumeric` reports for a character beyond ASCII:
/// whether it is alphabetic or numeric in the sense of Unicode.
pub uninterp spec fn char_is_alphanumeric(c: char) -> bool;

/// What `char::is_whitespace` reports for a character beyond ASCII:
/// whether it has the Unicode property `White_Space`.
pub uninterp spec fn char_is_whitespace(c: char) -> bool;

/// A letter or a digit. In ASCII these are `a` to `z`, `A` to `Z` and
/// `0` to `9`; beyond ASCII, what Unicode calls alphabetic or numeric.
pub open spec fn alphanumeric(c: char) -> bool {
    if ascii(c) {
        ('a' <= c && c <= 'z') || ('A' <= c && c <= 'Z') || ('0' <= c && c <= '9')
    } else {
        char_is_alphanumeric(c)
    }
}

/// A whitespace character. In ASCII these are the blank and the five
/// characters from the tab to the carriage return (tab, line feed,
/// vertical tab, form feed, carriage return); beyond ASCII, what has the
/// Unicode property `White_Space`.
pub open spec fn whitespace(c: char) -> bool {
    if ascii(c) {
        c == ' ' || ('\t' <= c && c <= '\r')
    } else {
        char_is_whitespace(c)
    }
}

/// `char::is_alphanumeric` tells whether the character is alphabetic or
/// numeric in the sense of Unicode. In ASCII that is so for the letters
/// and the digits and for nothing else. Beyond ASCII the result is a
/// function of the character alone and has the name
/// [`char_is_alphanumeric`]; nothing more is claimed of it.
pub assume_specification[ char::is_alphanumeric ](c: char) -> (b: bool)
    ensures
        b == alphanumeric(c),
        !ascii(c) ==> b == char_is_alphanumeric(c),
;

/// `char::is_whitespace` tells whether the character has the Unicode
/// property `White_Space`. In ASCII that is so for the blank and for the
/// characters from the tab to the carriage return, and for nothing else.
/// Beyond ASCII the result is a function of the character alone and has
/// the name [`char_is_whitespace`]; nothing more is claimed of it.
pub assume_specification[ char::is_whitespace ](c: char) -> (b: bool)
    ensures
        b == whitespace(c),
        !ascii(c) ==> b == char_is_whitespace(c),
;

/// `String::push` appends the given character to the end of the string.
pub assume_specification[ String::push ](s: &mut String, ch: char)
    ensures
        final(s)@ == old(s)@.push(ch),
;

/// A character that may stand inside a name: alphanumeric, or an underscore.
pub open spec fn is_word_char(c: char) -> bool {
    alphanumeric(c) || c == '_'
}

/// Tells whether `c` may stand inside a name.
pub fn word_char(c: char) -> (b: bool)
    ensures
        b == is_word_char(c),
{
    c.is_alphanumeric() || c == '_'
}

/// The characters of `source`, in order.
pub fn chars_of(source: &str) -> (chars: Vec<char>)
    ensures
        chars@ == source@,
{
    let mut chars: Vec<char> = Vec::new();
    for c in it: source.chars()
        invariant
            chars@ == it.seq().take(it.index() as int),
            it.seq() == source@,
    {
        chars.push(c);
    }
    chars
}

/// The string made of `chars[from..to]`.
pub fn string_from_range(chars: &Vec<char>, from: usize, to: usize) -> (s: String)
    requires
        from <= to <= chars.len(),
    ensures
        s@ == chars@.subrange(from as int, to as int),
{
    let mut s = String::new();
    let mut i: usize = from;
    while i < to
        invariant
            from <= i <= to <= chars.len(),
            s@ == chars@.subrange(from as int, i as int),
        decreases to - i,
    {
        s.push(chars[i]);
        i += 1;
        assert(s@ =~= chars@.subrange(from as int, i as int));
    }
    s
}

/// The string made of all of `chars`.
pub fn string_from_chars(chars: &Vec<char>) -> (s: String)
    ensures
        s@ == chars@,
{
    let s = string_from_range(chars, 0, chars.len());
    assert(chars@.subrange(0, chars@.len() as int) =~= chars@);
    s
}

// ---------------------------------------------------------------------
// Decimal numerals
// ---------------------------------------------------------------------

/// The numeral for a single digit `d < 10`.
pub open spec fn digit_char(d: nat) -> char {
    if d == 0 {
        '0'
    } else if d == 1 {
        '1'
    } else if d == 2 {
        '2'
    } else if d == 3 {
        '3'
    } else if d == 4 {
        '4'
    } else if d == 5 {
        '5'
    } else if d == 6 {
        '6'
    } else if d == 7 {
        '7'
    } else if d == 8 {
        '8'
    } else {
        '9'
    }
}

/// The value of an ASCII digit, `None` for any other character.
pub open spec fn digit_value(c: char) -> Option<nat> {
    if c == '0' {
        Some(0)
    } else if c == '1' {
        Some(1)
    } else if c == '2' {
        Some(2)
    } else if c == '3' {
        Some(3)
    } else if c == '4' {
        Some(4)
    } else if c == '5' {
        Some(5)
    } else if c == '6' {
        Some(6)
    } else if c == '7' {
        Some(7)
    } else if c == '8' {
        Some(8)
    } else if c == '9' {
        Some(9)
    } else {
        None
    }
}

/// The decimal numeral of `n`, without leading zeros (`"0"` for zero).
pub open spec fn decimal(n: nat) -> Seq<char>
    decreases n,
{
    if n < 10 {
        seq![digit_char(n)]
    } else {
        decimal(n / 10).push(digit_char(n % 10))
    }
}

/// Every character of `s` is an ASCII digit.
pub open spec fn all_digits(s: Seq<char>) -> bool {
    forall|i: int| 0 <= i < s.len() ==> (#[trigger] digit_value(s[i])) is Some
}

/// The number that the digits of `s` denote in base ten (zero for the
/// empty sequence; a character that is no digit counts as zero).
pub open spec fn decimal_value(s: Seq<char>) -> nat
    decreases s.len(),
{
    if s.len() == 0 {
        0
    } else {
        decimal_value(s.drop_last()) * 10 + match digit_value(s.last()) {
            Some(d) => d,
            None => 0,
        }
    }
}

/// What a run of characters denotes as an unsigned machine integer: a
/// number if the run is non-empty, holds ASCII digits only and its value
/// fits in `usize`; nothing otherwise.
pub open spec fn as_number(s: Seq<char>) -> Option<nat> {
    if s.len() > 0 && all_digits(s) && decimal_value(s) <= usize::MAX {
        Some(decimal_value(s))
    } else {
        None
    }
}

fn digit_to_char(d: usize) -> (c: char)
    requires
        d < 10,
    ensures
        c == digit_char(d as nat),
{
    if d == 0 {
        '0'
    } else if d == 1 {
        '1'
    } else if d == 2 {
        '2'
    } else if d == 3 {
        '3'
    } else if d == 4 {
        '4'
    } else if d == 5 {
        '5'
    } else if d == 6 {
        '6'
    } else if d == 7 {
        '7'
    } else if d == 8 {
        '8'
    } else {
        '9'
    }
}

fn char_to_digit(c: char) -> (d: Option<usize>)
    ensures
        match d {
            Some(v) => digit_value(c) == Some(v as nat) && v < 10,
            None => digit_value(c) is None,
        },
{
    if c == '0' {
        Some(0)
    } else if c == '1' {
        Some(1)
    } else if c == '2' {
        Some(2)
    } else if c == '3' {
        Some(3)
    } else if c == '4' {
        Some(4)
    } else if c == '5' {
        Some(5)
    } else if c == '6' {
        Some(6)
    } else if c == '7' {
        Some(7)
    } else if c == '8' {
        Some(8)
    } else if c == '9' {
        Some(9)
    } else {
        None
    }
}

/// A numeral is the numeral of the number without its last digit (nothing
/// where that is zero), followed by the last digit.
proof fn lemma_decimal_last_digit(n: nat)
    ensures
        decimal(n) == (if n / 10 == 0 {
            Seq::<char>::empty()
        } else {
            decimal(n / 10)
        }) + seq![digit_char(n % 10)],
{
    if n < 10 {
        assert(decimal(n) =~= Seq::<char>::empty() + seq![digit_char(n % 10)]);
    } else {
        assert(decimal(n) =~= decimal(n / 10) + seq![digit_char(n % 10)]);
    }
}

/// The decimal numeral of `n` as a string.
pub fn decimal_string(n: usize) -> (s: String)
    ensures
        s@ == decimal(n as nat),
{
    // digits, least significant first
    let mut digits: Vec<char> = Vec::new();
    let mut rest: usize = n;
    digits.push(digit_to_char(rest % 10));
    rest = rest / 10;
    proof {
        lemma_decimal_last_digit(n as nat);
        assert(digits@.reverse() =~= seq![digit_char((n % 10) as nat)]);
    }
    while rest > 0
        invariant
            digits.len() > 0,
            decimal_tail(n as nat, digits@.reverse(), rest as nat),
        decreases rest,
    {
        let ghost before = digits@;
        let ghost rest_before = rest as nat;
        digits.push(digit_to_char(rest % 10));
        rest = rest / 10;
        proof {
            let d = digit_char(rest_before % 10);
            let high = if rest_before / 10 == 0 {
                Seq::<char>::empty()
            } else {
                decimal(rest_before / 10)
            };
            lemma_decimal_last_digit(rest_before);
            assert(digits@.reverse() =~= seq![d] + before.reverse());
            assert((high + seq![d]) + before.reverse() =~= high + (seq![d] + before.reverse()));
        }
    }
    let mut s = String::new();
    let mut i: usize = digits.len();
    while i > 0
        invariant
            i <= digits.len(),
            s@ == digits@.reverse().subrange(0, digits.len() - i),
        decreases i,
    {
        i -= 1;
        s.push(digits[i]);
        assert(s@ =~= digits@.reverse().subrange(0, digits.len() - i));
    }
    assert(digits@.reverse().subrange(0, digits.len() as int) =~= digits@.reverse());
    s
}

/// The numeral of `n` is `low` behind the numeral of `rest` (behind
/// nothing when `rest` is zero).
spec fn decimal_tail(n: nat, low: Seq<char>, rest: nat) -> bool {
    decimal(n) == (if rest == 0 {
        Seq::<char>::empty()
    } else {
        decimal(rest)
    }) + low
}

/// A numeral holds digits only and denotes the number it was written
/// for: reading what [`decimal`] writes gives the number back.
pub proof fn lemma_decimal_round_trip(n: nat)
    ensures
        decimal(n).len() > 0,
        all_digits(decimal(n)),
        decimal_value(decimal(n)) == n,
    decreases n,
{
    let numeral = decimal(n);
    if n < 10 {
        assert(numeral.drop_last() =~= Seq::<char>::empty());
        assert(decimal_value(numeral.drop_last()) == 0);
        assert(numeral.last() == digit_char(n));
    } else {
        lemma_decimal_round_trip(n / 10);
        let front = decimal(n / 10);
        assert(numeral.drop_last() =~= front);
        assert(numeral.last() == digit_char(n % 10));
        assert forall|i: int| 0 <= i < numeral.len() implies (#[trigger] digit_value(
            numeral[i],
        )) is Some by {
            if i < front.len() {
                assert(numeral[i] == front[i]);
            }
        }
    }
}

/// A longer run of digits denotes at least as much as any of its prefixes.
proof fn lemma_decimal_value_prefix(s: Seq<char>, k: int)
    requires
        0 <= k <= s.len(),
    ensures
        decimal_value(s.subrange(0, k)) <= decimal_value(s),
    decreases s.len() - k,
{
    if k == s.len() {
        assert(s.subrange(0, k) =~= s);
    } else {
        lemma_decimal_value_prefix(s, k + 1);
        let longer = s.subrange(0, k + 1);
        assert(longer.drop_last() =~= s.subrange(0, k));
    }
}

/// Reads `chars[from..to]` as an unsigned decimal number.
pub fn parse_number(chars: &Vec<char>, from: usize, to: usize) -> (n: Option<usize>)
    requires
        from <= to <= chars.len(),
    ensures
        match n {
            Some(v) => as_number(chars@.subrange(from as int, to as int)) == Some(v as nat),
            None => as_number(chars@.subrange(from as int, to as int)) is None,
        },
{
    let ghost run = chars@.subrange(from as int, to as int);
    if from == to {
        return None;
    }
    let mut value: usize = 0;
    let mut i: usize = from;
    while i < to
        invariant
            from <= i <= to <= chars.len(),
            run == chars@.subrange(from as int, to as int),
            all_digits(run.subrange(0, i - from)),
            value == decimal_value(run.subrange(0, i - from)),
        decreases to - i,
    {
        let ghost seen = run.subrange(0, i - from);
        let ghost next = run.subrange(0, i - from + 1);
        proof {
            assert(next.drop_last() =~= seen);
            assert(next.last() == chars@[i as int]);
        }
        match char_to_digit(chars[i]) {
            None => {
                proof {
                    assert(digit_value(run[i - from]) is None);
                }
                return None;
            },
            Some(d) => {
                if value > (usize::MAX - d) / 10 {
                    proof {
                        assert(decimal_value(next) > usize::MAX);
                        lemma_decimal_value_prefix(run, i - from + 1);
                    }
                    return None;
                }
                value = value * 10 + d;
                proof {
                    assert forall|k: int| 0 <= k < next.len() implies (#[trigger] digit_value(
                        next[k],
                    )) is Some by {
                        if k < seen.len() {
                            assert(next[k] == seen[k]);
                        }
                    }
                }
            },
        }
        i += 1;
    }
    assert(run.subrange(0, to - from) =~= run);
    Some(value)
}

// ---------------------------------------------------------------------
// Trimming
// ---------------------------------------------------------------------

/// The index of the first character of `s` at or after `from` that is no
/// whitespace, or the length of `s` if there is none.
pub open spec fn skip_whitespace(s: Seq<char>, from: int) -> int
    decreases s.len() - from,
{
    if 0 <= from < s.len() && whitespace(s[from]) {
        skip_whitespace(s, from + 1)
    } else {
        from
    }
}

/// The index just past the last character of `s[from..to]` that is no
/// whitespace, or `from` if there is none.
pub open spec fn trim_end(s: Seq<char>, from: int, to: int) -> int
    decreases to - from,
{
    if 0 <= from < to <= s.len() && whitespace(s[to - 1]) {
        trim_end(s, from, to - 1)
    } else {
        to
    }
}

/// `s` without its leading and trailing whitespace.
pub open spec fn trimmed(s: Seq<char>) -> Seq<char> {
    let start = skip_whitespace(s, 0);
    s.subrange(start, trim_end(s, start, s.len() as int))
}

/// The string made of `chars[from..to]` without its leading and trailing
/// whitespace.
pub fn trimmed_string(chars: &Vec<char>, from: usize, to: usize) -> (s: String)
    requires
        from <= to <= chars.len(),
    ensures
        s@ == trimmed(chars@.subrange(from as int, to as int)),
{
    let ghost run = chars@.subrange(from as int, to as int);
    let mut start: usize = from;
    while start < to && chars[start].is_whitespace()
        invariant
            from <= start <= to <= chars.len(),
            run == chars@.subrange(from as int, to as int),
            skip_whitespace(run, 0) == skip_whitespace(run, start - from),
        decreases to - start,
    {
        assert(run[start - from] == chars@[start as int]);
        start += 1;
    }
    assert(skip_whitespace(run, 0) == start - from) by {
        if start < to {
            assert(run[start - from] == chars@[start as int]);
        }
    }
    let mut end: usize = to;
    while end > start && chars[end - 1].is_whitespace()
        invariant
            from <= start <= end <= to <= chars.len(),
            run == chars@.subrange(from as int, to as int),
            trim_end(run, start - from, to - from) == trim_end(run, start - from, end - from),
        decreases end - start,
    {
        assert(run[end - from - 1] == chars@[end - 1]);
        end -= 1;
    }
    assert(trim_end(run, start - from, to - from) == end - from) by {
        if end > start {
            assert(run[end - from - 1] == chars@[end - 1]);
        }
    }
    let s = string_from_range(chars, start, end);
    assert(chars@.subrange(start as int, end as int) =~= run.subrange(start - from, end - from));
    s
}

} // verus!
