use vstd::prelude::*;
use crate::error::ErrorKind;

verus! {

/// The mathematical value of a JSON tree.
pub enum JsonView {
    Integer(int),
    /// A decimal literal, kept as written: digits with one decimal point.
    Float(Seq<char>),
    Text(Seq<char>),
    Array(Seq<JsonView>),
    /// Members in insertion order; keys are unique in a well-formed value.
    Object(Seq<(Seq<char>, JsonView)>),
    Null,
}

pub open spec fn is_ws(c: char) -> bool {
    c == ' ' || c == '\n' || c == '\t'
}

pub open spec fn is_digit(c: char) -> bool {
    '0' <= c && c <= '9'
}

pub open spec fn is_num_char(c: char) -> bool {
    is_digit(c) || c == '.'
}

/// The first position at or after `p` that holds no insignificant whitespace.
pub open spec fn skip_ws(s: Seq<char>, p: int) -> int
    decreases s.len() - p,
{
    if 0 <= p < s.len() && is_ws(s[p]) {
        skip_ws(s, p + 1)
    } else {
        p
    }
}

pub proof fn lemma_skip_ws(s: Seq<char>, p: int)
    ensures
        skip_ws(s, p) >= p,
        p <= s.len() ==> skip_ws(s, p) <= s.len(),
        0 <= p ==> skip_ws(s, p) < s.len() ==> !is_ws(s[skip_ws(s, p)]),
        forall|i: int| p <= i < skip_ws(s, p) ==> is_ws(#[trigger] s[i]),
    decreases s.len() - p,
{
    if 0 <= p < s.len() && is_ws(s[p]) {
        lemma_skip_ws(s, p + 1);
    }
}

/// The character that a backslash escape stands for.
pub open spec fn escape_of(c: char) -> Option<char> {
    if c == 'a' {
        Some('\x07')
    } else if c == 'b' {
        Some('\x08')
    } else if c == 'f' {
        Some('\x0c')
    } else if c == 'n' {
        Some('\n')
    } else if c == 'r' {
        Some('\r')
    } else if c == 't' {
        Some('\t')
    } else if c == 'v' {
        Some('\x0b')
    } else if c == '\\' {
        Some('\\')
    } else if c == '\'' {
        Some('\'')
    } else if c == '"' {
        Some('"')
    } else if c == '?' {
        Some('?')
    } else if c == '0' {
        Some('\0')
    } else {
        None
    }
}

/// The body of a string literal from `p` (just after its opening quote),
/// appended to `acc`, and the position after its closing quote.
pub open spec fn spec_string(s: Seq<char>, p: int, acc: Seq<char>) -> Result<(Seq<char>, int), ErrorKind>
    decreases s.len() - p,
{
    if p < 0 || p >= s.len() {
        Err(ErrorKind::UnterminatedString)
    } else if s[p] == '"' {
        Ok((acc, p + 1))
    } else if s[p] == '\\' {
        if p + 1 >= s.len() {
            Err(ErrorKind::UnterminatedString)
        } else {
            match escape_of(s[p + 1]) {
                Some(c) => spec_string(s, p + 2, acc.push(c)),
                None => Err(ErrorKind::UnknownEscape),
            }
        }
    } else {
        spec_string(s, p + 1, acc.push(s[p]))
    }
}

pub proof fn lemma_string_advances(s: Seq<char>, p: int, acc: Seq<char>)
    ensures
        spec_string(s, p, acc) matches Ok((_, r)) ==> p < r <= s.len(),
    decreases s.len() - p,
{
    if 0 <= p < s.len() && s[p] != '"' {
        if s[p] == '\\' {
            if p + 1 < s.len() {
                if let Some(c) = escape_of(s[p + 1]) {
                    lemma_string_advances(s, p + 2, acc.push(c));
                }
            }
        } else {
            lemma_string_advances(s, p + 1, acc.push(s[p]));
        }
    }
}

/// The end of the run of digits and decimal points that starts at `p`.
pub open spec fn number_end(s: Seq<char>, p: int) -> int
    decreases s.len() - p,
{
    if 0 <= p < s.len() && is_num_char(s[p]) {
        number_end(s, p + 1)
    } else {
        p
    }
}

pub proof fn lemma_number_end(s: Seq<char>, p: int)
    ensures
        number_end(s, p) >= p,
        p <= s.len() ==> number_end(s, p) <= s.len(),
        0 <= p ==> number_end(s, p) < s.len() ==> !is_num_char(s[number_end(s, p)]),
        forall|i: int| p <= i < number_end(s, p) ==> is_num_char(#[trigger] s[i]),
    decreases s.len() - p,
{
    if 0 <= p < s.len() && is_num_char(s[p]) {
        lemma_number_end(s, p + 1);
    }
}

pub open spec fn dot_count(t: Seq<char>) -> nat
    decreases t.len(),
{
    if t.len() == 0 {
        0
    } else {
        dot_count(t.drop_last()) + if t.last() == '.' {
            1nat
        } else {
            0nat
        }
    }
}

pub open spec fn digit_value(c: char) -> int {
    c as int - '0' as int
}

/// The number that a run of decimal digits denotes.
pub open spec fn digits_value(t: Seq<char>) -> nat
    decreases t.len(),
{
    if t.len() == 0 {
        0
    } else {
        (digits_value(t.drop_last()) * 10 + digit_value(t.last())) as nat
    }
}

/// A number literal starting at `p`: an integer without a decimal point, a
/// decimal literal with one.
pub open spec fn spec_number(s: Seq<char>, p: int) -> Result<(JsonView, int), ErrorKind> {
    let e = number_end(s, p);
    let t = s.subrange(p, e);
    if dot_count(t) >= 2 {
        Err(ErrorKind::DoubleDecimalPoint)
    } else if dot_count(t) == 1 {
        Ok((JsonView::Float(t), e))
    } else if digits_value(t) > i64::MAX {
        Err(ErrorKind::IntegerOverflow)
    } else {
        Ok((JsonView::Integer(digits_value(t) as int), e))
    }
}

/// No two members share a key.
pub open spec fn unique_keys(es: Seq<(Seq<char>, JsonView)>) -> bool {
    forall|i: int, j: int| 0 <= i < j < es.len() ==> es[i].0 != es[j].0
}

/// A well-formed value: the keys of every object in it are unique.
pub open spec fn json_wf(v: JsonView) -> bool
    decreases v,
{
    match v {
        JsonView::Array(items) => forall|i: int| 0 <= i < items.len() ==> json_wf(#[trigger] items[i]),
        JsonView::Object(es) => unique_keys(es) && forall|i: int|
            0 <= i < es.len() ==> json_wf(#[trigger] es[i].1),
        _ => true,
    }
}

/// The index of the member with key `k`, or -1.
pub open spec fn key_index(es: Seq<(Seq<char>, JsonView)>, k: Seq<char>) -> int
    decreases es.len(),
{
    if es.len() == 0 {
        -1
    } else if es.last().0 == k {
        es.len() - 1
    } else {
        key_index(es.drop_last(), k)
    }
}

/// Members `es` after setting key `k` to `v`: in place where the key is
/// present, else at the end.
pub open spec fn put_entry(es: Seq<(Seq<char>, JsonView)>, k: Seq<char>, v: JsonView) -> Seq<(Seq<char>, JsonView)> {
    let i = key_index(es, k);
    if i >= 0 {
        es.update(i, (k, v))
    } else {
        es.push((k, v))
    }
}

/// A value that starts at or after `p`, and the position after it.
pub open spec fn spec_value(s: Seq<char>, p: int) -> Result<(JsonView, int), ErrorKind>
    decreases s.len() - p, 1int,
{
    let q = skip_ws(s, p);
    proof {
        lemma_skip_ws(s, p);
    }
    if p < 0 || q >= s.len() {
        Err(ErrorKind::InvalidValue)
    } else if s[q] == '{' {
        spec_members(s, q + 1, seq![])
    } else if s[q] == '[' {
        spec_items(s, q + 1, seq![])
    } else if s[q] == '"' {
        match spec_string(s, q + 1, seq![]) {
            Ok((t, r)) => Ok((JsonView::Text(t), r)),
            Err(e) => Err(e),
        }
    } else if s[q] == 'n' {
        if q + 4 <= s.len() && s[q + 1] == 'u' && s[q + 2] == 'l' && s[q + 3] == 'l' {
            Ok((JsonView::Null, q + 4))
        } else {
            Err(ErrorKind::InvalidNull)
        }
    } else if is_digit(s[q]) {
        spec_number(s, q)
    } else {
        Err(ErrorKind::InvalidValue)
    }
}

/// The rest of an array from `p`, its earlier items being `acc`. Commas are
/// separators that may be left out or repeated.
pub open spec fn spec_items(s: Seq<char>, p: int, acc: Seq<JsonView>) -> Result<(JsonView, int), ErrorKind>
    decreases s.len() - p, 2int,
{
    let q = skip_ws(s, p);
    proof {
        lemma_skip_ws(s, p);
    }
    if p < 0 || q >= s.len() {
        Err(ErrorKind::UnterminatedArray)
    } else if s[q] == ']' {
        Ok((JsonView::Array(acc), q + 1))
    } else if s[q] == ',' {
        spec_items(s, q + 1, acc)
    } else {
        match spec_value(s, q) {
            Err(e) => Err(e),
            Ok((v, r)) => if r <= q || r > s.len() {
                Err(ErrorKind::InvalidValue)
            } else {
                spec_items(s, r, acc.push(v))
            },
        }
    }
}

/// The rest of an object from `p`, where a key is due; its earlier members
/// being `acc`.
pub open spec fn spec_members(s: Seq<char>, p: int, acc: Seq<(Seq<char>, JsonView)>) -> Result<(JsonView, int), ErrorKind>
    decreases s.len() - p, 2int,
{
    let q = skip_ws(s, p);
    proof {
        lemma_skip_ws(s, p);
    }
    if p < 0 || q >= s.len() {
        Err(ErrorKind::UnterminatedObject)
    } else if s[q] != '"' {
        Err(ErrorKind::InvalidKeyStart)
    } else {
        match spec_string(s, q + 1, seq![]) {
            Err(e) => Err(e),
            Ok((k, r)) => {
                let c = skip_ws(s, r);
                proof {
                    lemma_string_advances(s, q + 1, seq![]);
                    lemma_skip_ws(s, r);
                }
                if c >= s.len() {
                    Err(ErrorKind::UnterminatedObject)
                } else if s[c] != ':' {
                    Err(ErrorKind::ExpectedColon)
                } else {
                    let d = skip_ws(s, c + 1);
                    proof {
                        lemma_skip_ws(s, c + 1);
                    }
                    if d >= s.len() {
                        Err(ErrorKind::UnterminatedObject)
                    } else {
                        match spec_value(s, d) {
                            Err(e) => Err(e),
                            Ok((v, r2)) => if r2 <= d || r2 > s.len() {
                                Err(ErrorKind::InvalidValue)
                            } else {
                                let acc2 = put_entry(acc, k, v);
                                let e = skip_ws(s, r2);
                                proof {
                                    lemma_skip_ws(s, r2);
                                }
                                if e >= s.len() {
                                    Err(ErrorKind::UnterminatedObject)
                                } else if s[e] == '}' {
                                    Ok((JsonView::Object(acc2), e + 1))
                                } else if s[e] == ',' {
                                    spec_members(s, e + 1, acc2)
                                } else {
                                    Err(ErrorKind::InvalidObjectEnd)
                                }
                            },
                        }
                    }
                }
            },
        }
    }
}

/// What a whole text parses to: leading and trailing whitespace allowed,
/// nothing else after the value; a text of whitespace alone is `null`.
pub open spec fn spec_parse(s: Seq<char>) -> Result<JsonView, ErrorKind> {
    let q = skip_ws(s, 0);
    if q >= s.len() {
        Ok(JsonView::Null)
    } else {
        match spec_value(s, q) {
            Err(e) => Err(e),
            Ok((v, r)) => if skip_ws(s, r) < s.len() {
                Err(ErrorKind::TrailingCharacters)
            } else {
                Ok(v)
            },
        }
    }
}

/// The decimal digits of `n`.
pub open spec fn digits_text(n: nat) -> Seq<char>
    decreases n,
{
    if n < 10 {
        seq![digit_char(n)]
    } else {
        digits_text(n / 10).push(digit_char(n % 10))
    }
}

pub open spec fn digit_char(d: nat) -> char {
    if d == 0 {
        '0'
    } else if d == 1 {
        '1'
    } else if d == 2 {
        '2'
    } else if d == 3 {
        '3'
    } else if d == 4 {
        '4'
    } else if d == 5 {
        '5'
    } else if d == 6 {
        '6'
    } else if d == 7 {
        '7'
    } else if d == 8 {
        '8'
    } else {
        '9'
    }
}

/// An integer in decimal, with a leading minus sign when negative.
pub open spec fn int_text(n: int) -> Seq<char> {
    if n < 0 {
        seq!['-'] + digits_text((-n) as nat)
    } else {
        digits_text(n as nat)
    }
}

/// How one character is written inside a string literal.
pub open spec fn escaped_char(c: char) -> Seq<char> {
    if c == '"' {
        seq!['\\', '"']
    } else if c == '\\' {
        seq!['\\', '\\']
    } else if c == '\n' {
        seq!['\\', 'n']
    } else if c == '\r' {
        seq!['\\', 'r']
    } else if c == '\t' {
        seq!['\\', 't']
    } else if c == '\0' {
        seq!['\\', '0']
    } else if c == '\x07' {
        seq!['\\', 'a']
    } else if c == '\x08' {
        seq!['\\', 'b']
    } else if c == '\x0c' {
        seq!['\\', 'f']
    } else if c == '\x0b' {
        seq!['\\', 'v']
    } else {
        seq![c]
    }
}

pub open spec fn escaped(t: Seq<char>) -> Seq<char>
    decreases t.len(),
{
    if t.len() == 0 {
        seq![]
    } else {
        escaped(t.drop_last()) + escaped_char(t.last())
    }
}

/// A string literal: the escaped text between double quotes.
pub open spec fn quoted(t: Seq<char>) -> Seq<char> {
    seq!['"'] + escaped(t) + seq!['"']
}

/// The compact text of a value.
pub open spec fn ser(v: JsonView) -> Seq<char>
    decreases v,
{
    match v {
        JsonView::Integer(n) => int_text(n),
        JsonView::Float(t) => t,
        JsonView::Text(t) => quoted(t),
        JsonView::Array(items) => seq!['['] + ser_items(items) + seq![']'],
        JsonView::Object(es) => seq!['{'] + ser_members(es) + seq!['}'],
        JsonView::Null => seq!['n', 'u', 'l', 'l'],
    }
}

/// Items joined by `", "`.
pub open spec fn ser_items(items: Seq<JsonView>) -> Seq<char>
    decreases items,
{
    if items.len() == 0 {
        seq![]
    } else if items.len() == 1 {
        ser(items[0])
    } else {
        ser_items(items.drop_last()) + seq![',', ' '] + ser(items.last())
    }
}

/// Members as `"key": value`, joined by `", "`.
pub open spec fn ser_members(es: Seq<(Seq<char>, JsonView)>) -> Seq<char>
    decreases es,
{
    if es.len() == 0 {
        seq![]
    } else if es.len() == 1 {
        quoted(es[0].0) + seq![':', ' '] + ser(es[0].1)
    } else {
        ser_members(es.drop_last()) + seq![',', ' '] + quoted(es.last().0) + seq![':', ' '] + ser(es.last().1)
    }
}

} // verus!
