use vstd::prelude::*;
use crate::error::{BacktraceError, ErrorKind};
use crate::json_model::{
    JsonView, ser, ser_items, ser_members, quoted, escaped, escaped_char, int_text, digits_text,
    digit_char, is_ws, is_digit, skip_ws, escape_of, spec_string,
    lemma_string_advances, number_end, lemma_number_end, dot_count, digits_value, spec_number,
    key_index, put_entry, spec_value, spec_items, spec_members, spec_parse, json_wf,
};
use crate::json_laws::{lemma_parse_wf, lemma_put_entry_wf, lemma_key_index_found};
use crate::text::{chars_of, string_from};

verus! {

/// One node of a JSON tree. A decimal number is kept as its literal text
/// (digits with one decimal point), so that no precision is lost.
///
/// The text grammar has no booleans and no signs: `true`, `false` and
/// `-1` are not read. A negative integer is written with its sign but does
/// not read back.
#[allow(non_camel_case_types)]
#[derive(PartialEq, Debug)]
pub enum JsonType {
    i64(i64),
    Float(String),
    String(String),
    Vec(Vec<Json>),
    /// Members in insertion order; keys are unique in a well-formed tree
    /// (`json_wf`), which every operation of this crate keeps.
    Object(Vec<(String, Json)>),
    Null,
}

/// A JSON tree; it owns all of its descendants.
#[derive(PartialEq, Debug)]
pub struct Json {
    pub val: Box<JsonType>,
}

pub open spec fn view_of(t: JsonType) -> JsonView
    decreases t,
{
    match t {
        JsonType::i64(n) => JsonView::Integer(n as int),
        JsonType::Float(s) => JsonView::Float(s@),
        JsonType::String(s) => JsonView::Text(s@),
        JsonType::Vec(v) => JsonView::Array(items_view(v@)),
        JsonType::Object(es) => JsonView::Object(members_view(es@)),
        JsonType::Null => JsonView::Null,
    }
}

pub open spec fn items_view(s: Seq<Json>) -> Seq<JsonView>
    decreases s,
{
    if s.len() == 0 {
        seq![]
    } else {
        items_view(s.drop_last()).push(view_of(*s.last().val))
    }
}

pub open spec fn members_view(s: Seq<(String, Json)>) -> Seq<(Seq<char>, JsonView)>
    decreases s,
{
    if s.len() == 0 {
        seq![]
    } else {
        members_view(s.drop_last()).push((s.last().0@, view_of(*s.last().1.val)))
    }
}

impl View for JsonType {
    type V = JsonView;

    open spec fn view(&self) -> JsonView {
        view_of(*self)
    }
}

impl View for Json {
    type V = JsonView;

    open spec fn view(&self) -> JsonView {
        view_of(*self.val)
    }
}

pub proof fn lemma_items_view_len(s: Seq<Json>)
    ensures
        items_view(s).len() == s.len(),
    decreases s.len(),
{
    if s.len() > 0 {
        lemma_items_view_len(s.drop_last());
    }
}

pub proof fn lemma_members_view_len(s: Seq<(String, Json)>)
    ensures
        members_view(s).len() == s.len(),
    decreases s.len(),
{
    if s.len() > 0 {
        lemma_members_view_len(s.drop_last());
    }
}

pub proof fn lemma_items_view_index(s: Seq<Json>, i: int)
    requires
        0 <= i < s.len(),
    ensures
        items_view(s)[i] == view_of(*s[i].val),
    decreases s.len(),
{
    lemma_items_view_len(s.drop_last());
    if i < s.len() - 1 {
        lemma_items_view_index(s.drop_last(), i);
    }
}

pub proof fn lemma_members_view_index(s: Seq<(String, Json)>, i: int)
    requires
        0 <= i < s.len(),
    ensures
        members_view(s)[i] == (s[i].0@, view_of(*s[i].1.val)),
    decreases s.len(),
{
    lemma_members_view_len(s.drop_last());
    if i < s.len() - 1 {
        lemma_members_view_index(s.drop_last(), i);
    }
}

proof fn lemma_items_view_step(s: Seq<Json>, i: int)
    requires
        0 <= i < s.len(),
    ensures
        items_view(s.take(i + 1)) == items_view(s.take(i)).push(view_of(*s[i].val)),
        items_view(s.take(i)).len() == i,
{
    assert(s.take(i + 1).drop_last() =~= s.take(i));
    lemma_items_view_len(s.take(i));
}

proof fn lemma_members_view_step(s: Seq<(String, Json)>, i: int)
    requires
        0 <= i < s.len(),
    ensures
        members_view(s.take(i + 1)) == members_view(s.take(i)).push(
            (s[i].0@, view_of(*s[i].1.val)),
        ),
        members_view(s.take(i)).len() == i,
{
    assert(s.take(i + 1).drop_last() =~= s.take(i));
    lemma_members_view_len(s.take(i));
}

fn digit_to_char(d: u64) -> (c: char)
    requires
        d < 10,
    ensures
        c == digit_char(d as nat),
{
    if d == 0 {
        '0'
    } else if d == 1 {
        '1'
    } else if d == 2 {
        '2'
    } else if d == 3 {
        '3'
    } else if d == 4 {
        '4'
    } else if d == 5 {
        '5'
    } else if d == 6 {
        '6'
    } else if d == 7 {
        '7'
    } else if d == 8 {
        '8'
    } else {
        '9'
    }
}

/// Appends the decimal digits of `n`.
pub fn write_digits(n: u64, out: &mut Vec<char>)
    ensures
        final(out)@ == old(out)@ + digits_text(n as nat),
    decreases n,
{
    if n >= 10 {
        write_digits(n / 10, out);
    }
    out.push(digit_to_char(n % 10));
    proof {
        if n >= 10 {
            assert(old(out)@ + digits_text(n as nat) =~= old(out)@ + digits_text((n / 10) as nat)
                + seq![digit_char((n % 10) as nat)]);
        } else {
            assert(old(out)@ + digits_text(n as nat) =~= old(out)@.push(digit_char(n as nat)));
        }
    }
}

fn write_int(n: i64, out: &mut Vec<char>)
    ensures
        final(out)@ == old(out)@ + int_text(n as int),
{
    if n < 0 {
        out.push('-');
        let m: u64 = (0 - (n as i128)) as u64;
        write_digits(m, out);
        assert(final(out)@ =~= old(out)@ + int_text(n as int));
    } else {
        write_digits(n as u64, out);
    }
}

fn write_escaped_char(c: char, out: &mut Vec<char>)
    ensures
        final(out)@ == old(out)@ + escaped_char(c),
{
    if c == '"' {
        out.push('\\');
        out.push('"');
    } else if c == '\\' {
        out.push('\\');
        out.push('\\');
    } else if c == '\n' {
        out.push('\\');
        out.push('n');
    } else if c == '\r' {
        out.push('\\');
        out.push('r');
    } else if c == '\t' {
        out.push('\\');
        out.push('t');
    } else if c == '\0' {
        out.push('\\');
        out.push('0');
    } else if c == '\x07' {
        out.push('\\');
        out.push('a');
    } else if c == '\x08' {
        out.push('\\');
        out.push('b');
    } else if c == '\x0c' {
        out.push('\\');
        out.push('f');
    } else if c == '\x0b' {
        out.push('\\');
        out.push('v');
    } else {
        out.push(c);
    }
    assert(final(out)@ =~= old(out)@ + escaped_char(c));
}

/// Appends `t` as a double-quoted string literal.
pub fn write_quoted(t: &str, out: &mut Vec<char>)
    ensures
        final(out)@ == old(out)@ + quoted(t@),
{
    let cs = chars_of(t);
    out.push('"');
    let mut i: usize = 0;
    while i < cs.len()
        invariant
            i <= cs@.len(),
            cs@ == t@,
            out@ == old(out)@ + seq!['"'] + escaped(cs@.take(i as int)),
        decreases cs@.len() - i,
    {
        write_escaped_char(cs[i], out);
        proof {
            assert(cs@.take(i as int + 1).drop_last() =~= cs@.take(i as int));
        }
        i += 1;
    }
    out.push('"');
    proof {
        assert(cs@.take(cs@.len() as int) =~= cs@);
        assert(out@ =~= old(out)@ + quoted(t@));
    }
}

/// Appends the compact text of `t`.
impl JsonType {
    /// The integer this node holds, if it is one.
    pub fn as_i64(&self) -> (r: Option<i64>)
        ensures
            match *self {
                JsonType::i64(n) => r == Some(n),
                _ => r is None,
            },
    {
        match self {
            JsonType::i64(n) => Some(*n),
            _ => None,
        }
    }

    /// The decimal literal this node holds, if it is one.
    pub fn as_decimal(&self) -> (r: Option<&String>)
        ensures
            match *self {
                JsonType::Float(t) => r matches Some(x) && x@ == t@,
                _ => r is None,
            },
    {
        match self {
            JsonType::Float(t) => Some(t),
            _ => None,
        }
    }

    /// The node as text: a string's contents, `null` for null, and empty
    /// text for anything else.
    pub fn as_string(&self) -> (r: String)
        ensures
            match *self {
                JsonType::String(t) => r@ == t@,
                JsonType::Null => r@ == "null"@,
                _ => r@.len() == 0,
            },
    {
        match self {
            JsonType::String(t) => t.clone(),
            JsonType::Null => "null".to_owned(),
            _ => String::new(),
        }
    }
}

pub fn write_value(t: &JsonType, out: &mut Vec<char>)
    ensures
        final(out)@ == old(out)@ + ser(view_of(*t)),
    decreases *t,
{
    match t {
        JsonType::i64(n) => {
            write_int(*n, out);
        },
        JsonType::Float(lit) => {
            let cs = chars_of(lit.as_str());
            let mut i: usize = 0;
            while i < cs.len()
                invariant
                    i <= cs@.len(),
                    out@ == old(out)@ + cs@.take(i as int),
                decreases cs@.len() - i,
            {
                out.push(cs[i]);
                proof {
                    assert(cs@.take(i as int + 1) =~= cs@.take(i as int).push(cs@[i as int]));
                }
                i += 1;
            }
            assert(cs@.take(cs@.len() as int) =~= cs@);
        },
        JsonType::String(st) => {
            write_quoted(st.as_str(), out);
        },
        JsonType::Vec(v) => {
            out.push('[');
            let mut i: usize = 0;
            while i < v.len()
                invariant
                    i <= v@.len(),
                    *t == JsonType::Vec(*v),
                    out@ == old(out)@ + seq!['['] + ser_items(items_view(v@.take(i as int))),
                decreases v@.len() - i,
            {
                proof {
                    lemma_items_view_step(v@, i as int);
                }
                if i > 0 {
                    out.push(',');
                    out.push(' ');
                }
                proof {
                    let vv = *v;
                    assert(decreases_to!(*t => (*t)->Vec_0));
                    assert(decreases_to!(vv => vv@));
                    assert(decreases_to!(vv@ => vv@[i as int]));
                    assert(decreases_to!(vv@[i as int] => *vv@[i as int].val));
                    assert(decreases_to!(*t => *v@[i as int].val));
                }
                write_value(&v[i].val, out);
                proof {
                    let x = items_view(v@.take(i as int));
                    let y = view_of(*v@[i as int].val);
                    assert(x.push(y).drop_last() =~= x);
                    assert(out@ =~= old(out)@ + seq!['['] + ser_items(x.push(y)));
                }
                i += 1;
            }
            out.push(']');
            proof {
                assert(v@.take(v@.len() as int) =~= v@);
                assert(out@ =~= old(out)@ + ser(view_of(*t)));
            }
        },
        JsonType::Object(es) => {
            out.push('{');
            let mut i: usize = 0;
            while i < es.len()
                invariant
                    i <= es@.len(),
                    *t == JsonType::Object(*es),
                    out@ == old(out)@ + seq!['{'] + ser_members(members_view(es@.take(i as int))),
                decreases es@.len() - i,
            {
                proof {
                    lemma_members_view_step(es@, i as int);
                }
                if i > 0 {
                    out.push(',');
                    out.push(' ');
                }
                write_quoted(es[i].0.as_str(), out);
                out.push(':');
                out.push(' ');
                proof {
                    let vv = *es;
                    assert(decreases_to!(*t => (*t)->Object_0));
                    assert(decreases_to!(vv => vv@));
                    assert(decreases_to!(vv@ => vv@[i as int]));
                    assert(decreases_to!(vv@[i as int] => vv@[i as int].1));
                    assert(decreases_to!(vv@[i as int].1 => *vv@[i as int].1.val));
                    assert(decreases_to!(*t => *es@[i as int].1.val));
                }
                write_value(&es[i].1.val, out);
                proof {
                    let x = members_view(es@.take(i as int));
                    let y = (es@[i as int].0@, view_of(*es@[i as int].1.val));
                    assert(x.push(y).drop_last() =~= x);
                    assert(out@ =~= old(out)@ + seq!['{'] + ser_members(x.push(y)));
                }
                i += 1;
            }
            out.push('}');
            proof {
                assert(es@.take(es@.len() as int) =~= es@);
                assert(out@ =~= old(out)@ + ser(view_of(*t)));
            }
        },
        JsonType::Null => {
            out.push('n');
            out.push('u');
            out.push('l');
            out.push('l');
            assert(out@ =~= old(out)@ + ser(view_of(*t)));
        },
    }
}

pub proof fn lemma_members_view_update(s: Seq<(String, Json)>, i: int, x: (String, Json))
    requires
        0 <= i < s.len(),
    ensures
        members_view(s.update(i, x)) == members_view(s).update(i, (x.0@, view_of(*x.1.val))),
    decreases s.len(),
{
    lemma_members_view_len(s);
    lemma_members_view_len(s.drop_last());
    if i == s.len() - 1 {
        assert(s.update(i, x).drop_last() =~= s.drop_last());
        assert(members_view(s.update(i, x)) =~= members_view(s).update(
            i,
            (x.0@, view_of(*x.1.val)),
        ));
    } else {
        assert(s.update(i, x).drop_last() =~= s.drop_last().update(i, x));
        lemma_members_view_update(s.drop_last(), i, x);
        assert(members_view(s.update(i, x)) =~= members_view(s).update(
            i,
            (x.0@, view_of(*x.1.val)),
        ));
    }
}

/// The index of the last member whose key is `k`, if any.
pub fn find_member(es: &Vec<(String, Json)>, k: &String) -> (r: Option<usize>)
    ensures
        match r {
            Some(i) => key_index(members_view(es@), k@) == i as int && i < es@.len(),
            None => key_index(members_view(es@), k@) == -1,
        },
{
    let mut j: usize = es.len();
    proof {
        assert(es@.take(es@.len() as int) =~= es@);
    }
    while j > 0
        invariant
            j <= es@.len(),
            key_index(members_view(es@), k@) == key_index(members_view(es@.take(j as int)), k@),
        decreases j,
    {
        proof {
            lemma_members_view_step(es@, j - 1);
            assert(es@.take(j as int - 1 + 1) =~= es@.take(j as int));
            let x = members_view(es@.take(j - 1));
            let y = (es@[j - 1].0@, view_of(*es@[j - 1].1.val));
            assert(x.push(y).drop_last() =~= x);
        }
        if es[j - 1].0 == *k {
            return Some(j - 1);
        }
        j -= 1;
    }
    None
}

/// The value of member `i`, for change in place.
fn member_value_mut(es: &mut Vec<(String, Json)>, i: usize) -> (r: &mut JsonType)
    requires
        i < old(es)@.len(),
    ensures
        *r == *old(es)@[i as int].1.val,
        final(es)@ == old(es)@.update(i as int, (old(es)@[i as int].0, Json { val: Box::new(*final(r)) })),
{
    let entry = &mut es[i];
    &mut entry.1.val
}

/// Sets member `k` to `v`: in place where the key is present, else at the end.
pub fn put_member(es: &mut Vec<(String, Json)>, k: String, v: Json)
    ensures
        members_view(final(es)@) == put_entry(members_view(old(es)@), k@, v@),
{
    match find_member(es, &k) {
        Some(i) => {
            proof {
                lemma_members_view_update(es@, i as int, (k, v));
            }
            es[i] = (k, v);
        },
        None => {
            let ghost pre = es@;
            es.push((k, v));
            proof {
                assert(es@.drop_last() =~= pre);
            }
        },
    }
}

fn is_ws_char(c: char) -> (r: bool)
    ensures
        r == is_ws(c),
{
    c == ' ' || c == '\n' || c == '\t'
}

fn is_digit_char(c: char) -> (r: bool)
    ensures
        r == is_digit(c),
{
    '0' <= c && c <= '9'
}

fn skip_ws_at(s: &Vec<char>, p: usize) -> (r: usize)
    requires
        p <= s@.len(),
    ensures
        r as int == skip_ws(s@, p as int),
        p <= r <= s@.len(),
{
    let mut i: usize = p;
    while i < s.len() && is_ws_char(s[i])
        invariant
            p <= i <= s@.len(),
            skip_ws(s@, p as int) == skip_ws(s@, i as int),
        decreases s@.len() - i,
    {
        i += 1;
    }
    i
}

fn escape_char_of(c: char) -> (r: Option<char>)
    ensures
        r == escape_of(c),
{
    if c == 'a' {
        Some('\x07')
    } else if c == 'b' {
        Some('\x08')
    } else if c == 'f' {
        Some('\x0c')
    } else if c == 'n' {
        Some('\n')
    } else if c == 'r' {
        Some('\r')
    } else if c == 't' {
        Some('\t')
    } else if c == 'v' {
        Some('\x0b')
    } else if c == '\\' {
        Some('\\')
    } else if c == '\'' {
        Some('\'')
    } else if c == '"' {
        Some('"')
    } else if c == '?' {
        Some('?')
    } else if c == '0' {
        Some('\0')
    } else {
        None
    }
}

/// Reads a string literal's body from `p`, just after its opening quote.
fn parse_string_at(s: &Vec<char>, p: usize) -> (r: Result<(Vec<char>, usize), ErrorKind>)
    requires
        p <= s@.len(),
    ensures
        match (r, spec_string(s@, p as int, seq![])) {
            (Ok((t, q)), Ok((t2, q2))) => t@ == t2 && q as int == q2,
            (Err(e), Err(e2)) => e == e2,
            _ => false,
        },
{
    let mut acc: Vec<char> = Vec::new();
    let mut i: usize = p;
    loop
        invariant
            p <= i <= s@.len(),
            spec_string(s@, p as int, seq![]) == spec_string(s@, i as int, acc@),
        decreases s@.len() - i,
    {
        if i >= s.len() {
            return Err(ErrorKind::UnterminatedString);
        }
        let c = s[i];
        if c == '"' {
            return Ok((acc, i + 1));
        } else if c == '\\' {
            if i + 1 >= s.len() {
                return Err(ErrorKind::UnterminatedString);
            }
            match escape_char_of(s[i + 1]) {
                Some(e) => {
                    acc.push(e);
                    i += 2;
                },
                None => {
                    return Err(ErrorKind::UnknownEscape);
                },
            }
        } else {
            acc.push(c);
            i += 1;
        }
    }
}

proof fn lemma_dot_count_prefix(t: Seq<char>, k: int)
    requires
        0 <= k <= t.len(),
    ensures
        dot_count(t.take(k)) <= dot_count(t),
    decreases t.len(),
{
    if k < t.len() {
        assert(t.drop_last().take(k) =~= t.take(k));
        lemma_dot_count_prefix(t.drop_last(), k);
    } else {
        assert(t.take(k) =~= t);
    }
}

/// Reads a number literal that starts with the digit at `p`.
fn parse_number_at(s: &Vec<char>, p: usize) -> (r: Result<(Json, usize), ErrorKind>)
    requires
        p < s@.len(),
        is_digit(s@[p as int]),
    ensures
        match (r, spec_number(s@, p as int)) {
            (Ok((j, q)), Ok((v, q2))) => j@ == v && q as int == q2,
            (Err(e), Err(e2)) => e == e2,
            _ => false,
        },
        r matches Ok((_, q)) ==> p < q <= s@.len(),
{
    let mut buf: Vec<char> = Vec::new();
    let mut dots: usize = 0;
    let mut value: u64 = 0;
    let mut overflow = false;
    let mut i: usize = p;
    proof {
        lemma_number_end(s@, p as int);
        assert(s@.subrange(p as int, p as int) =~= Seq::<char>::empty());
    }
    while i < s.len() && (is_digit_char(s[i]) || s[i] == '.')
        invariant
            p <= i <= s@.len(),
            number_end(s@, p as int) == number_end(s@, i as int),
            buf@ == s@.subrange(p as int, i as int),
            dots as nat == dot_count(buf@),
            dots <= 1,
            value <= i64::MAX,
            dots == 0 ==> (overflow <==> digits_value(buf@) > i64::MAX),
            dots == 0 && !overflow ==> value as nat == digits_value(buf@),
        decreases s@.len() - i,
    {
        let c = s[i];
        let ghost old_buf = buf@;
        buf.push(c);
        proof {
            assert(buf@.drop_last() =~= old_buf);
            assert(s@.subrange(p as int, i as int + 1) =~= buf@);
        }
        if c == '.' {
            if dots == 1 {
                proof {
                    lemma_number_end(s@, i as int);
                    let e = number_end(s@, p as int);
                    let t = s@.subrange(p as int, e);
                    assert(t.take(i as int + 1 - p) =~= buf@);
                    lemma_dot_count_prefix(t, i as int + 1 - p);
                }
                return Err(ErrorKind::DoubleDecimalPoint);
            }
            dots = 1;
        } else if dots == 0 {
            let d: u64 = (c as u32 - '0' as u32) as u64;
            if overflow {
                proof {
                    let x = digits_value(old_buf);
                    assert(x * 10 + d >= x) by (nonlinear_arith)
                        requires
                            x >= 0,
                            d >= 0,
                    ;
                }
            } else {
                let nv: u128 = value as u128 * 10 + d as u128;
                if nv > i64::MAX as u128 {
                    overflow = true;
                } else {
                    value = nv as u64;
                }
            }
        }
        i += 1;
    }
    proof {
        lemma_number_end(s@, i as int);
        assert(number_end(s@, i as int) == i as int);
    }
    if dots == 1 {
        let lit = string_from(buf.as_slice());
        Ok((Json { val: Box::new(JsonType::Float(lit)) }, i))
    } else if overflow {
        Err(ErrorKind::IntegerOverflow)
    } else {
        Ok((Json { val: Box::new(JsonType::i64(value as i64)) }, i))
    }
}

pub open spec fn same_result(r: Result<(Json, usize), ErrorKind>, sr: Result<(JsonView, int), ErrorKind>) -> bool {
    match (r, sr) {
        (Ok((j, q)), Ok((v, q2))) => j@ == v && q as int == q2,
        (Err(e), Err(e2)) => e == e2,
        _ => false,
    }
}

/// Reads the value that starts at or after `p`.
fn parse_value_at(s: &Vec<char>, p: usize) -> (r: Result<(Json, usize), ErrorKind>)
    requires
        p <= s@.len(),
    ensures
        same_result(r, spec_value(s@, p as int)),
        r matches Ok((_, q)) ==> p < q <= s@.len(),
    decreases s@.len() - p, 1int,
{
    let q = skip_ws_at(s, p);
    if q >= s.len() {
        return Err(ErrorKind::InvalidValue);
    }
    let c = s[q];
    if c == '{' {
        parse_members_at(s, q + 1)
    } else if c == '[' {
        parse_items_at(s, q + 1)
    } else if c == '"' {
        match parse_string_at(s, q + 1) {
            Ok((t, r)) => {
                proof {
                    lemma_string_advances(s@, q + 1, seq![]);
                }
                Ok((Json { val: Box::new(JsonType::String(string_from(t.as_slice()))) }, r))
            },
            Err(e) => Err(e),
        }
    } else if c == 'n' {
        if s.len() - q > 3 && s[q + 1] == 'u' && s[q + 2] == 'l' && s[q + 3] == 'l' {
            Ok((Json { val: Box::new(JsonType::Null) }, q + 4))
        } else {
            Err(ErrorKind::InvalidNull)
        }
    } else if is_digit_char(c) {
        parse_number_at(s, q)
    } else {
        Err(ErrorKind::InvalidValue)
    }
}

/// Reads the rest of an array from `p`, just after its opening bracket.
fn parse_items_at(s: &Vec<char>, p: usize) -> (r: Result<(Json, usize), ErrorKind>)
    requires
        p <= s@.len(),
    ensures
        same_result(r, spec_items(s@, p as int, seq![])),
        r matches Ok((_, q)) ==> p < q <= s@.len(),
    decreases s@.len() - p, 2int,
{
    let mut acc: Vec<Json> = Vec::new();
    let mut i: usize = p;
    loop
        invariant
            p <= i <= s@.len(),
            spec_items(s@, p as int, seq![]) == spec_items(s@, i as int, items_view(acc@)),
        decreases s@.len() - i,
    {
        let q = skip_ws_at(s, i);
        if q >= s.len() {
            return Err(ErrorKind::UnterminatedArray);
        }
        let c = s[q];
        if c == ']' {
            return Ok((Json { val: Box::new(JsonType::Vec(acc)) }, q + 1));
        } else if c == ',' {
            i = q + 1;
        } else {
            match parse_value_at(s, q) {
                Err(e) => {
                    return Err(e);
                },
                Ok((v, r)) => {
                    let ghost pre = acc@;
                    acc.push(v);
                    proof {
                        assert(acc@.drop_last() =~= pre);
                    }
                    i = r;
                },
            }
        }
    }
}

/// Reads the rest of an object from `p`, just after its opening brace.
fn parse_members_at(s: &Vec<char>, p: usize) -> (r: Result<(Json, usize), ErrorKind>)
    requires
        p <= s@.len(),
    ensures
        same_result(r, spec_members(s@, p as int, seq![])),
        r matches Ok((_, q)) ==> p < q <= s@.len(),
    decreases s@.len() - p, 2int,
{
    let mut acc: Vec<(String, Json)> = Vec::new();
    let mut i: usize = p;
    loop
        invariant
            p <= i <= s@.len(),
            spec_members(s@, p as int, seq![]) == spec_members(s@, i as int, members_view(acc@)),
        decreases s@.len() - i,
    {
        let q = skip_ws_at(s, i);
        if q >= s.len() {
            return Err(ErrorKind::UnterminatedObject);
        }
        if s[q] != '"' {
            return Err(ErrorKind::InvalidKeyStart);
        }
        let (k, r) = match parse_string_at(s, q + 1) {
            Err(e) => {
                return Err(e);
            },
            Ok(kr) => kr,
        };
        proof {
            lemma_string_advances(s@, q + 1, seq![]);
        }
        let c = skip_ws_at(s, r);
        if c >= s.len() {
            return Err(ErrorKind::UnterminatedObject);
        }
        if s[c] != ':' {
            return Err(ErrorKind::ExpectedColon);
        }
        let d = skip_ws_at(s, c + 1);
        if d >= s.len() {
            return Err(ErrorKind::UnterminatedObject);
        }
        let (v, r2) = match parse_value_at(s, d) {
            Err(e) => {
                return Err(e);
            },
            Ok(vr) => vr,
        };
        put_member(&mut acc, string_from(k.as_slice()), v);
        let e = skip_ws_at(s, r2);
        if e >= s.len() {
            return Err(ErrorKind::UnterminatedObject);
        }
        if s[e] == '}' {
            return Ok((Json { val: Box::new(JsonType::Object(acc)) }, e + 1));
        } else if s[e] == ',' {
            i = e + 1;
        } else {
            return Err(ErrorKind::InvalidObjectEnd);
        }
    }
}

impl Json {
    /// A tree whose root is `val`.
    pub fn new(val: JsonType) -> (r: Json)
        ensures
            *r.val == val,
            r@ == view_of(val),
    {
        Json { val: Box::new(val) }
    }

    /// The root node.
    pub fn get(&self) -> (r: &JsonType)
        ensures
            *r == *self.val,
    {
        &self.val
    }

    /// The root node, for change in place.
    pub fn get_mut(&mut self) -> (r: &mut JsonType)
        ensures
            *r == *old(self).val,
            *final(self).val == *final(r),
    {
        &mut self.val
    }

    /// Sets member `key` of an object to `val`: in place where the key is
    /// present, else at the end. Fails with `NotObject` on any other value.
    pub fn set_val(&mut self, key: &str, val: Json) -> (r: Result<(), BacktraceError>)
        ensures
            match old(self)@ {
                JsonView::Object(es) => r is Ok && final(self)@ == JsonView::Object(put_entry(es, key@, val@)),
                _ => (r matches Err(e) && e.kind == ErrorKind::NotObject) && *final(self) == *old(self),
            },
            json_wf(old(self)@) && json_wf(val@) ==> json_wf(final(self)@),
    {
        proof {
            if let JsonView::Object(es) = self@ {
                if json_wf(self@) && json_wf(val@) {
                    lemma_put_entry_wf(es, key@, val@);
                }
            }
        }
        let mut root: Box<JsonType> = Box::new(JsonType::Null);
        std::mem::swap(&mut self.val, &mut root);
        match *root {
            JsonType::Object(attr) => {
                let mut attr = attr;
                put_member(&mut attr, key.to_owned(), val);
                self.val = Box::new(JsonType::Object(attr));
                Ok(())
            },
            other => {
                self.val = Box::new(other);
                Err(BacktraceError::new(ErrorKind::NotObject))
            },
        }
    }

    /// The value of member `key` of an object; `None` where there is no such
    /// member or this is not an object.
    pub fn get_val(&self, key: &str) -> (r: Option<&JsonType>)
        ensures
            match self@ {
                JsonView::Object(es) => {
                    let i = key_index(es, key@);
                    if i >= 0 {
                        r matches Some(t) && view_of(*t) == es[i].1
                    } else {
                        r is None
                    }
                },
                _ => r is None,
            },
    {
        match &*self.val {
            JsonType::Object(attr) => {
                let k = key.to_owned();
                match find_member(attr, &k) {
                    Some(i) => {
                        proof {
                            lemma_members_view_index(attr@, i as int);
                        }
                        Some(&*attr[i].1.val)
                    },
                    None => None,
                }
            },
            _ => None,
        }
    }

    /// The value of member `key` of an object, for change in place; `None`
    /// where there is no such member or this is not an object.
    pub fn get_val_mut(&mut self, key: &str) -> (r: Option<&mut JsonType>)
        ensures
            match old(self)@ {
                JsonView::Object(es) => {
                    let i = key_index(es, key@);
                    if i >= 0 {
                        r matches Some(m) && view_of(*m) == es[i].1 && final(self)@ == JsonView::Object(
                            es.update(i, (key@, view_of(*final(m)))),
                        )
                    } else {
                        r is None && *final(self) == *old(self)
                    }
                },
                _ => r is None && *final(self) == *old(self),
            },
            r matches Some(m) ==> (json_wf(old(self)@) && json_wf(view_of(*final(m))) ==> json_wf(final(self)@)),
    {
        proof {
            if let JsonView::Object(es) = self@ {
                lemma_key_index_found(es, key@);
            }
        }
        let root: &mut JsonType = self.get_mut();
        match root {
            JsonType::Object(attr) => {
                let k = key.to_owned();
                match find_member(attr, &k) {
                    Some(i) => {
                        proof {
                            lemma_members_view_index(attr@, i as int);
                            crate::form::lemma_key_index(members_view(attr@), k@);
                        }
                        let ghost pre = attr@;
                        let m = member_value_mut(attr, i);
                        proof {
                            lemma_members_view_update(pre, i as int, (pre[i as int].0, Json { val: Box::new(*final(m)) }));
                        }
                        Some(m)
                    },
                    None => None,
                }
            },
            _ => None,
        }
    }

    /// Item `index` of an array; `None` where it is out of range or this is
    /// not an array.
    pub fn index(&self, index: usize) -> (r: Option<&Json>)
        ensures
            match self@ {
                JsonView::Array(items) => if index < items.len() {
                    r matches Some(j) && j@ == items[index as int]
                } else {
                    r is None
                },
                _ => r is None,
            },
    {
        match &*self.val {
            JsonType::Vec(items) => {
                proof {
                    lemma_items_view_len(items@);
                }
                if index < items.len() {
                    proof {
                        lemma_items_view_index(items@, index as int);
                    }
                    Some(&items[index])
                } else {
                    None
                }
            },
            _ => None,
        }
    }

    /// Appends `val` to an array. Fails with `NotArray` on any other value.
    pub fn push(&mut self, val: Json) -> (r: Result<(), BacktraceError>)
        ensures
            match old(self)@ {
                JsonView::Array(items) => r is Ok && final(self)@ == JsonView::Array(items.push(val@)),
                _ => (r matches Err(e) && e.kind == ErrorKind::NotArray) && *final(self) == *old(self),
            },
            json_wf(old(self)@) && json_wf(val@) ==> json_wf(final(self)@),
    {
        proof {
            if let JsonView::Array(xs) = self@ {
                if json_wf(self@) && json_wf(val@) {
                    assert forall|i: int| 0 <= i < xs.push(val@).len() implies json_wf(
                        #[trigger] xs.push(val@)[i],
                    ) by {
                        if i < xs.len() {
                            assert(xs.push(val@)[i] == xs[i]);
                        }
                    }
                }
            }
        }
        let mut root: Box<JsonType> = Box::new(JsonType::Null);
        std::mem::swap(&mut self.val, &mut root);
        match *root {
            JsonType::Vec(items) => {
                let mut items = items;
                let ghost pre = items@;
                items.push(val);
                proof {
                    assert(items@.drop_last() =~= pre);
                }
                self.val = Box::new(JsonType::Vec(items));
                Ok(())
            },
            other => {
                self.val = Box::new(other);
                Err(BacktraceError::new(ErrorKind::NotArray))
            },
        }
    }

    /// Parses JSON text. Whitespace is space, newline and tab (not carriage
    /// return). The text must hold one value and nothing after it but
    /// whitespace (`TrailingCharacters`), and a value that starts with `n`
    /// must be `null` in full (`InvalidNull`); text of whitespace alone is
    /// `null`. Object keys are string literals with the same escapes as
    /// values; a repeated key replaces the earlier value in place.
    pub fn parse(json_str: &str) -> (r: Result<Json, BacktraceError>)
        ensures
            match r {
                Ok(j) => spec_parse(json_str@) == Ok::<JsonView, ErrorKind>(j@),
                Err(e) => spec_parse(json_str@) == Err::<JsonView, ErrorKind>(e.kind),
            },
            r matches Ok(j) ==> json_wf(j@),
    {
        proof {
            lemma_parse_wf(json_str@);
        }
        let s = chars_of(json_str);
        let q = skip_ws_at(&s, 0);
        if q >= s.len() {
            return Ok(Json { val: Box::new(JsonType::Null) });
        }
        match parse_value_at(&s, q) {
            Err(e) => Err(BacktraceError::new(e)),
            Ok((j, r)) => {
                let t = skip_ws_at(&s, r);
                if t < s.len() {
                    Err(BacktraceError::new(ErrorKind::TrailingCharacters))
                } else {
                    Ok(j)
                }
            },
        }
    }

    /// The compact JSON text of this value.
    pub fn to_string(&self) -> (r: String)
        ensures
            r@ == ser(self@),
    {
        let mut out: Vec<char> = Vec::new();
        write_value(&self.val, &mut out);
        assert(out@ =~= ser(self@));
        string_from(out.as_slice())
    }
}

} // verus!
