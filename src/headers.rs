use vstd::prelude::*;
use crate::json_model::{digits_text, digits_value, digit_value, is_digit};
use crate::json::write_digits;
use crate::text::{chars_of, string_from, append_str};

verus! {

/// Relies on `str::to_lowercase`: the result depends on the characters alone.
pub uninterp spec fn lower_of(s: Seq<char>) -> Seq<char>;

/// Relies on `str::to_lowercase`, which maps each character to its Unicode
/// lowercase form.
#[verifier::external_body]
pub(crate) fn to_lowercase(s: &str) -> (r: String)
    ensures
        r@ == lower_of(s@),
{
    s.to_lowercase()
}

/// The index of the last header named `k`, or -1.
pub open spec fn header_index(hs: Seq<(Seq<char>, Seq<char>)>, k: Seq<char>) -> int
    decreases hs.len(),
{
    if hs.len() == 0 {
        -1
    } else if hs.last().0 == k {
        hs.len() - 1
    } else {
        header_index(hs.drop_last(), k)
    }
}

/// The value of header `k`, if present.
pub open spec fn header_value(hs: Seq<(Seq<char>, Seq<char>)>, k: Seq<char>) -> Option<Seq<char>> {
    let i = header_index(hs, k);
    if 0 <= i < hs.len() {
        Some(hs[i].1)
    } else {
        None
    }
}

/// Headers after setting `k` to `v`: in place where present, else at the end.
pub open spec fn put_header(hs: Seq<(Seq<char>, Seq<char>)>, k: Seq<char>, v: Seq<char>) -> Seq<(Seq<char>, Seq<char>)> {
    let i = header_index(hs, k);
    if 0 <= i < hs.len() {
        hs.update(i, (k, v))
    } else {
        hs.push((k, v))
    }
}

/// No two headers share a name.
pub open spec fn names_distinct(hs: Seq<(Seq<char>, Seq<char>)>) -> bool {
    forall|i: int, j: int| 0 <= i < j < hs.len() ==> hs[i].0 != hs[j].0
}

pub proof fn lemma_header_absent(hs: Seq<(Seq<char>, Seq<char>)>, k: Seq<char>)
    requires
        header_index(hs, k) == -1,
    ensures
        forall|i: int| 0 <= i < hs.len() ==> hs[i].0 != k,
    decreases hs.len(),
{
    if hs.len() > 0 {
        lemma_header_absent(hs.drop_last(), k);
        assert forall|i: int| 0 <= i < hs.len() implies hs[i].0 != k by {
            if i < hs.len() - 1 {
                assert(hs.drop_last()[i] == hs[i]);
            }
        }
    }
}

/// Setting a header keeps the names distinct.
pub proof fn lemma_put_header_distinct(hs: Seq<(Seq<char>, Seq<char>)>, k: Seq<char>, v: Seq<char>)
    requires
        names_distinct(hs),
    ensures
        names_distinct(put_header(hs, k, v)),
{
    lemma_header_index(hs, k);
    if header_index(hs, k) < 0 {
        lemma_header_absent(hs, k);
    }
}

pub open spec fn pairs_view(hs: Seq<(String, String)>) -> Seq<(Seq<char>, Seq<char>)> {
    hs.map_values(|p: (String, String)| (p.0@, p.1@))
}

pub proof fn lemma_header_index(hs: Seq<(Seq<char>, Seq<char>)>, k: Seq<char>)
    ensures
        -1 <= header_index(hs, k) < hs.len(),
        header_index(hs, k) >= 0 ==> hs[header_index(hs, k)].0 == k,
    decreases hs.len(),
{
    if hs.len() > 0 && hs.last().0 != k {
        lemma_header_index(hs.drop_last(), k);
    }
}

/// The index of the last pair whose name is `k`.
pub fn find_header(hs: &Vec<(String, String)>, k: &String) -> (r: Option<usize>)
    ensures
        match r {
            Some(i) => header_index(pairs_view(hs@), k@) == i as int && i < hs@.len(),
            None => header_index(pairs_view(hs@), k@) == -1,
        },
{
    let ghost pv = pairs_view(hs@);
    let mut j: usize = hs.len();
    proof {
        assert(pv.take(pv.len() as int) =~= pv);
    }
    while j > 0
        invariant
            j <= hs@.len(),
            pv == pairs_view(hs@),
            header_index(pv, k@) == header_index(pv.take(j as int), k@),
        decreases j,
    {
        proof {
            assert(pv.take(j as int).drop_last() =~= pv.take(j - 1));
        }
        if hs[j - 1].0 == *k {
            return Some(j - 1);
        }
        j -= 1;
    }
    None
}

/// Sets header `k` to `v`.
pub fn put_pair(hs: &mut Vec<(String, String)>, k: String, v: String)
    ensures
        pairs_view(final(hs)@) == put_header(pairs_view(old(hs)@), k@, v@),
{
    proof {
        lemma_header_index(pairs_view(hs@), k@);
    }
    match find_header(hs, &k) {
        Some(i) => {
            let ghost pre = hs@;
            hs[i] = (k, v);
            proof {
                assert(pairs_view(hs@) =~= put_header(pairs_view(pre), k@, v@));
            }
        },
        None => {
            let ghost pre = hs@;
            hs.push((k, v));
            proof {
                assert(pairs_view(hs@) =~= put_header(pairs_view(pre), k@, v@));
            }
        },
    }
}

/// The header lines of `hs`, each `name: value` and a line end.
pub open spec fn headers_text(hs: Seq<(Seq<char>, Seq<char>)>) -> Seq<char>
    decreases hs.len(),
{
    if hs.len() == 0 {
        seq![]
    } else {
        headers_text(hs.drop_last()) + hs.last().0 + ": "@ + hs.last().1 + "\r\n"@
    }
}

/// Appends the header lines of `hs`.
pub fn write_headers(out: &mut Vec<char>, hs: &Vec<(String, String)>)
    ensures
        final(out)@ == old(out)@ + headers_text(pairs_view(hs@)),
{
    let ghost hv = pairs_view(hs@);
    let mut i: usize = 0;
    proof {
        assert(hv.take(0) =~= Seq::<(Seq<char>, Seq<char>)>::empty());
        assert(out@ =~= old(out)@ + headers_text(hv.take(0)));
    }
    while i < hs.len()
        invariant
            i <= hs@.len(),
            hv == pairs_view(hs@),
            hv.len() == hs@.len(),
            out@ == old(out)@ + headers_text(hv.take(i as int)),
        decreases hs@.len() - i,
    {
        append_str(out, hs[i].0.as_str());
        append_str(out, ": ");
        append_str(out, hs[i].1.as_str());
        append_str(out, "\r\n");
        proof {
            assert(hv.take(i + 1).drop_last() =~= hv.take(i as int));
            assert(out@ =~= old(out)@ + headers_text(hv.take(i + 1)));
        }
        i += 1;
    }
    proof {
        assert(hv.take(hv.len() as int) =~= hv);
    }
}

/// The characters that `char::is_whitespace` accepts (Unicode White_Space).
pub open spec fn is_white(c: char) -> bool {
    ('\u{9}' <= c && c <= '\u{d}') || c == ' ' || c == '\u{85}' || c == '\u{a0}' || c == '\u{1680}'
        || ('\u{2000}' <= c && c <= '\u{200a}') || c == '\u{2028}' || c == '\u{2029}' || c
        == '\u{202f}' || c == '\u{205f}' || c == '\u{3000}'
}

pub open spec fn trim_start(t: Seq<char>) -> Seq<char>
    decreases t.len(),
{
    if t.len() > 0 && is_white(t[0]) {
        trim_start(t.drop_first())
    } else {
        t
    }
}

pub open spec fn trim_end(t: Seq<char>) -> Seq<char>
    decreases t.len(),
{
    if t.len() > 0 && is_white(t.last()) {
        trim_end(t.drop_last())
    } else {
        t
    }
}

/// `t` without leading and trailing whitespace.
pub open spec fn trimmed(t: Seq<char>) -> Seq<char> {
    trim_end(trim_start(t))
}

fn is_white_char(c: char) -> (r: bool)
    ensures
        r == is_white(c),
{
    ('\u{9}' <= c && c <= '\u{d}') || c == ' ' || c == '\u{85}' || c == '\u{a0}' || c == '\u{1680}'
        || ('\u{2000}' <= c && c <= '\u{200a}') || c == '\u{2028}' || c == '\u{2029}' || c
        == '\u{202f}' || c == '\u{205f}' || c == '\u{3000}'
}

/// `t` without leading and trailing whitespace.
pub fn trim_chars(t: &Vec<char>) -> (r: Vec<char>)
    ensures
        r@ == trimmed(t@),
{
    let mut a: usize = 0;
    proof {
        assert(t@.subrange(0, t@.len() as int) =~= t@);
    }
    while a < t.len() && is_white_char(t[a])
        invariant
            a <= t@.len(),
            trim_start(t@) == trim_start(t@.subrange(a as int, t@.len() as int)),
        decreases t@.len() - a,
    {
        proof {
            assert(t@.subrange(a as int, t@.len() as int).drop_first() =~= t@.subrange(a + 1, t@.len() as int));
        }
        a += 1;
    }
    let mut b: usize = t.len();
    proof {
        assert(t@.subrange(0, t@.len() as int) =~= t@);
    }
    while b > a && is_white_char(t[b - 1])
        invariant
            a <= b <= t@.len(),
            trim_start(t@) == t@.subrange(a as int, t@.len() as int),
            trimmed(t@) == trim_end(t@.subrange(a as int, b as int)),
        decreases b,
    {
        proof {
            assert(t@.subrange(a as int, b as int).drop_last() =~= t@.subrange(a as int, b - 1));
        }
        b -= 1;
    }
    let mut r: Vec<char> = Vec::new();
    let mut i: usize = a;
    while i < b
        invariant
            a <= i <= b,
            b <= t@.len(),
            r@ == t@.subrange(a as int, i as int),
        decreases b - i,
    {
        r.push(t[i]);
        proof {
            assert(t@.subrange(a as int, i + 1) =~= t@.subrange(a as int, i as int).push(t@[i as int]));
        }
        i += 1;
    }
    r
}

/// A decimal number: one or more ASCII digits.
pub open spec fn decimal_value(t: Seq<char>) -> Option<nat> {
    if t.len() > 0 && forall|i: int| 0 <= i < t.len() ==> is_digit(#[trigger] t[i]) {
        Some(digits_value(t))
    } else {
        None
    }
}

/// Reads a decimal number that fits in a `usize`.
pub fn parse_decimal(t: &str) -> (r: Option<usize>)
    ensures
        match r {
            Some(n) => decimal_value(t@) == Some(n as nat),
            None => decimal_value(t@) is None || decimal_value(t@)->0 > usize::MAX,
        },
{
    let cs = chars_of(t);
    if cs.len() == 0 {
        return None;
    }
    let mut value: usize = 0;
    let mut i: usize = 0;
    proof {
        assert(cs@.take(0) =~= Seq::<char>::empty());
    }
    while i < cs.len()
        invariant
            i <= cs@.len(),
            cs@ == t@,
            forall|k: int| 0 <= k < i ==> is_digit(#[trigger] cs@[k]),
            value as nat == digits_value(cs@.take(i as int)),
        decreases cs@.len() - i,
    {
        let c = cs[i];
        if !('0' <= c && c <= '9') {
            return None;
        }
        let d: usize = (c as u32 - '0' as u32) as usize;
        proof {
            assert(cs@.take(i + 1).drop_last() =~= cs@.take(i as int));
        }
        if value > (usize::MAX - d) / 10 {
            proof {
                assert(value * 10 + d > usize::MAX) by (nonlinear_arith)
                    requires
                        value > (usize::MAX - d) / 10,
                        d <= 9,
                ;
                if forall|k: int| 0 <= k < cs@.len() ==> is_digit(#[trigger] cs@[k]) {
                    lemma_digits_value_prefix_le(cs@, i + 1);
                }
            }
            return None;
        }
        proof {
            assert(value * 10 + d <= usize::MAX) by (nonlinear_arith)
                requires
                    value <= (usize::MAX - d) / 10,
                    d <= 9,
            ;
        }
        value = value * 10 + d;
        i += 1;
    }
    proof {
        assert(cs@.take(cs@.len() as int) =~= cs@);
    }
    Some(value)
}

/// A longer run of digits never denotes a smaller number.
pub proof fn lemma_digits_value_prefix_le(t: Seq<char>, k: int)
    requires
        0 <= k <= t.len(),
        forall|i: int| 0 <= i < t.len() ==> is_digit(#[trigger] t[i]),
    ensures
        digits_value(t.take(k)) <= digits_value(t),
    decreases t.len(),
{
    if k < t.len() {
        assert(t.drop_last().take(k) =~= t.take(k));
        lemma_digits_value_prefix_le(t.drop_last(), k);
        let x = digits_value(t.drop_last());
        let d = digit_value(t.last());
        assert(is_digit(t[t.len() - 1]));
        assert(x * 10 + d >= x) by (nonlinear_arith)
            requires
                x >= 0,
                d >= 0,
        ;
    } else {
        assert(t.take(k) =~= t);
    }
}

/// The decimal text of `n`.
pub fn decimal_string(n: usize) -> (r: String)
    ensures
        r@ == digits_text(n as nat),
{
    let mut out: Vec<char> = Vec::new();
    write_digits(n as u64, &mut out);
    assert(out@ =~= digits_text(n as nat));
    string_from(out.as_slice())
}

} // verus!
