use vstd::prelude::*;
use crate::error::ErrorKind;
use crate::json_model::{
    JsonView, ser, ser_items, ser_members, quoted, escaped, escaped_char, digits_text,
    is_digit, is_num_char, skip_ws, escape_of, spec_string,
    number_end, dot_count, digits_value, spec_number, key_index, put_entry, spec_value,
    spec_items, spec_members, spec_parse, unique_keys, json_wf, lemma_string_advances, lemma_skip_ws,
};

verus! {

/// `w` stands in `s` from position `p` on.
pub open spec fn occurs_at(s: Seq<char>, p: int, w: Seq<char>) -> bool {
    0 <= p && p + w.len() <= s.len() && s.subrange(p, p + w.len()) == w
}

pub proof fn lemma_occurs_split(s: Seq<char>, p: int, x: Seq<char>, y: Seq<char>)
    requires
        occurs_at(s, p, x + y),
    ensures
        occurs_at(s, p, x),
        occurs_at(s, p + x.len(), y),
{
    assert(s.subrange(p, p + x.len()) =~= (x + y).subrange(0, x.len() as int));
    assert((x + y).subrange(0, x.len() as int) =~= x);
    assert(s.subrange(p + x.len(), p + x.len() + y.len()) =~= (x + y).subrange(x.len() as int, (x + y).len() as int));
    assert((x + y).subrange(x.len() as int, (x + y).len() as int) =~= y);
}

pub proof fn lemma_occurs_index(s: Seq<char>, p: int, w: Seq<char>, k: int)
    requires
        occurs_at(s, p, w),
        0 <= k < w.len(),
    ensures
        s[p + k] == w[k],
{
    assert(s.subrange(p, p + w.len())[k] == s[p + k]);
}

pub proof fn lemma_escaped_concat(a: Seq<char>, b: Seq<char>)
    ensures
        escaped(a + b) == escaped(a) + escaped(b),
    decreases b.len(),
{
    if b.len() == 0 {
        assert(a + b =~= a);
        assert(escaped(a) + escaped(b) =~= escaped(a));
    } else {
        assert((a + b).drop_last() =~= a + b.drop_last());
        lemma_escaped_concat(a, b.drop_last());
        assert(escaped(a + b) =~= escaped(a) + escaped(b));
    }
}

/// Each escaped character reads back as itself.
pub proof fn lemma_escaped_char(c: char)
    ensures
        escaped_char(c) == seq![c] && c != '"' && c != '\\' || escaped_char(c).len() == 2
            && escaped_char(c)[0] == '\\' && escape_of(escaped_char(c)[1]) == Some(c),
{
}

/// The body of a string literal reads back as the text it escapes.
pub proof fn lemma_string_round_trip(s: Seq<char>, p: int, acc: Seq<char>, t: Seq<char>)
    requires
        occurs_at(s, p, escaped(t) + seq!['"']),
    ensures
        spec_string(s, p, acc) == Ok::<(Seq<char>, int), ErrorKind>((acc + t, p + escaped(t).len() + 1)),
    decreases t.len(),
{
    if t.len() == 0 {
        assert(escaped(t) =~= Seq::<char>::empty());
        lemma_occurs_index(s, p, escaped(t) + seq!['"'], 0);
        assert(acc + t =~= acc);
    } else {
        let c = t[0];
        let rest = t.drop_first();
        assert(t =~= seq![c] + rest);
        lemma_escaped_concat(seq![c], rest);
        assert(seq![c].drop_last() =~= Seq::<char>::empty());
        assert(escaped(Seq::<char>::empty()) =~= Seq::<char>::empty());
        assert(seq![c].last() == c);
        assert(escaped(seq![c]) =~= escaped_char(c));
        let e = escaped_char(c);
        assert(escaped(t) + seq!['"'] =~= e + (escaped(rest) + seq!['"']));
        lemma_occurs_split(s, p, e, escaped(rest) + seq!['"']);
        lemma_escaped_char(c);
        lemma_occurs_index(s, p, e, 0);
        assert(acc.push(c) + rest =~= acc + t);
        if e.len() == 2 {
            lemma_occurs_index(s, p, e, 1);
            lemma_string_round_trip(s, p + 2, acc.push(c), rest);
        } else {
            lemma_string_round_trip(s, p + 1, acc.push(c), rest);
        }
    }
}

/// A decimal literal: a digit, then digits and exactly one decimal point.
pub open spec fn decimal_literal(t: Seq<char>) -> bool {
    t.len() > 0 && is_digit(t[0]) && dot_count(t) == 1 && forall|i: int|
        0 <= i < t.len() ==> is_num_char(#[trigger] t[i])
}

/// A value that the text grammar can express: integers are not negative,
/// decimals are decimal literals, and objects are not empty and have unique
/// keys.
pub open spec fn representable(v: JsonView) -> bool
    decreases v,
{
    match v {
        JsonView::Integer(n) => 0 <= n <= i64::MAX,
        JsonView::Float(t) => decimal_literal(t),
        JsonView::Array(items) => forall|i: int| 0 <= i < items.len() ==> representable(#[trigger] items[i]),
        JsonView::Object(es) => es.len() > 0 && unique_keys(es) && forall|i: int|
            0 <= i < es.len() ==> representable(#[trigger] es[i].1),
        _ => true,
    }
}

/// Nothing at position `e` of `s` could continue a number.
pub open spec fn ends_value(s: Seq<char>, e: int) -> bool {
    e == s.len() || (0 <= e < s.len() && !is_num_char(s[e]))
}

pub proof fn lemma_digits_text(n: nat)
    ensures
        digits_text(n).len() >= 1,
        forall|i: int| 0 <= i < digits_text(n).len() ==> is_digit(#[trigger] digits_text(n)[i]),
        dot_count(digits_text(n)) == 0,
        digits_value(digits_text(n)) == n,
    decreases n,
{
    let t = digits_text(n);
    if n < 10 {
        assert(t.drop_last() =~= Seq::<char>::empty());
        assert(dot_count(Seq::<char>::empty()) == 0);
        assert(digits_value(Seq::<char>::empty()) == 0);
    } else {
        lemma_digits_text(n / 10);
        assert(t.drop_last() =~= digits_text(n / 10));
    }
}

/// A run of number characters that nothing else continues is read whole.
pub proof fn lemma_number_run(s: Seq<char>, p: int, t: Seq<char>, k: int)
    requires
        occurs_at(s, p, t),
        forall|i: int| 0 <= i < t.len() ==> is_num_char(#[trigger] t[i]),
        ends_value(s, p + t.len()),
        0 <= k <= t.len(),
    ensures
        number_end(s, p + k) == p + t.len(),
    decreases t.len() - k,
{
    if k < t.len() {
        lemma_occurs_index(s, p, t, k);
        lemma_number_run(s, p, t, k + 1);
    }
}

/// The first character of the text of a value.
pub proof fn lemma_ser_start(v: JsonView)
    requires
        representable(v),
    ensures
        ser(v).len() >= 1,
        is_digit(ser(v)[0]) || ser(v)[0] == '"' || ser(v)[0] == '[' || ser(v)[0] == '{' || ser(v)[0] == 'n',
{
    match v {
        JsonView::Integer(n) => {
            lemma_digits_text(n as nat);
        },
        _ => {},
    }
}

/// A number reads back as itself.
pub proof fn lemma_number_round_trip(s: Seq<char>, p: int, v: JsonView)
    requires
        representable(v),
        v is Integer || v is Float,
        occurs_at(s, p, ser(v)),
        ends_value(s, p + ser(v).len()),
    ensures
        spec_number(s, p) == Ok::<(JsonView, int), ErrorKind>((v, p + ser(v).len())),
{
    let t = ser(v);
    match v {
        JsonView::Integer(n) => {
            lemma_digits_text(n as nat);
            assert(forall|i: int| 0 <= i < t.len() ==> is_num_char(#[trigger] t[i]));
        },
        _ => {},
    }
    lemma_number_run(s, p, t, 0);
}

/// What stands between two items or members: nothing before the first,
/// a comma and a space before the others.
pub open spec fn sep(k: int) -> Seq<char> {
    if k == 0 {
        seq![]
    } else {
        seq![',', ' ']
    }
}

/// The text of one member.
pub open spec fn member_text(e: (Seq<char>, JsonView)) -> Seq<char> {
    quoted(e.0) + seq![':', ' '] + ser(e.1)
}

pub proof fn lemma_items_step(items: Seq<JsonView>, k: int)
    requires
        0 <= k < items.len(),
    ensures
        ser_items(items.take(k + 1)) == ser_items(items.take(k)) + sep(k) + ser(items[k]),
{
    assert(items.take(k + 1).drop_last() =~= items.take(k));
    if k == 0 {
        assert(ser_items(items.take(0)) =~= Seq::<char>::empty());
        assert(ser_items(items.take(k)) + sep(k) + ser(items[k]) =~= ser(items[k]));
    }
}

pub proof fn lemma_items_prefix(items: Seq<JsonView>, k: int, m: int)
    requires
        0 <= k <= m <= items.len(),
    ensures
        ser_items(items.take(k)).len() <= ser_items(items.take(m)).len(),
        ser_items(items.take(m)).subrange(0, ser_items(items.take(k)).len() as int) == ser_items(items.take(k)),
    decreases m - k,
{
    let tk = ser_items(items.take(k));
    if k == m {
        assert(tk.subrange(0, tk.len() as int) =~= tk);
    } else {
        lemma_items_prefix(items, k, m - 1);
        lemma_items_step(items, m - 1);
        let tm1 = ser_items(items.take(m - 1));
        assert((tm1 + sep(m - 1) + ser(items[m - 1])).subrange(0, tk.len() as int) =~= tm1.subrange(0, tk.len() as int));
    }
}

pub proof fn lemma_members_step(es: Seq<(Seq<char>, JsonView)>, k: int)
    requires
        0 <= k < es.len(),
    ensures
        ser_members(es.take(k + 1)) == ser_members(es.take(k)) + sep(k) + member_text(es[k]),
{
    assert(es.take(k + 1).drop_last() =~= es.take(k));
    if k == 0 {
        assert(ser_members(es.take(0)) =~= Seq::<char>::empty());
        assert(ser_members(es.take(k)) + sep(k) + member_text(es[k]) =~= member_text(es[k]));
    } else {
        assert(ser_members(es.take(k + 1)) =~= ser_members(es.take(k)) + sep(k) + member_text(es[k]));
    }
}

pub proof fn lemma_members_prefix(es: Seq<(Seq<char>, JsonView)>, k: int, m: int)
    requires
        0 <= k <= m <= es.len(),
    ensures
        ser_members(es.take(k)).len() <= ser_members(es.take(m)).len(),
        ser_members(es.take(m)).subrange(0, ser_members(es.take(k)).len() as int) == ser_members(es.take(k)),
    decreases m - k,
{
    let tk = ser_members(es.take(k));
    if k == m {
        assert(tk.subrange(0, tk.len() as int) =~= tk);
    } else {
        lemma_members_prefix(es, k, m - 1);
        lemma_members_step(es, m - 1);
        let tm1 = ser_members(es.take(m - 1));
        assert((tm1 + sep(m - 1) + member_text(es[m - 1])).subrange(0, tk.len() as int) =~= tm1.subrange(0, tk.len() as int));
    }
}

/// A prefix of a text that stands in `s` stands there too.
pub proof fn lemma_occurs_prefix(s: Seq<char>, p: int, w: Seq<char>, u: Seq<char>)
    requires
        occurs_at(s, p, w),
        u.len() <= w.len(),
        w.subrange(0, u.len() as int) == u,
    ensures
        occurs_at(s, p, u),
{
    assert(s.subrange(p, p + u.len()) =~= w.subrange(0, u.len() as int));
}

pub proof fn lemma_key_absent(es: Seq<(Seq<char>, JsonView)>, k: int)
    requires
        0 <= k < es.len(),
        unique_keys(es),
    ensures
        key_index(es.take(k), es[k].0) == -1,
{
    lemma_key_absent_prefix(es, k, k);
}

proof fn lemma_key_absent_prefix(es: Seq<(Seq<char>, JsonView)>, k: int, j: int)
    requires
        0 <= j <= k < es.len(),
        unique_keys(es),
    ensures
        key_index(es.take(j), es[k].0) == -1,
    decreases j,
{
    if j > 0 {
        assert(es.take(j).drop_last() =~= es.take(j - 1));
        lemma_key_absent_prefix(es, k, j - 1);
    }
}

/// A value's text reads back as the value, wherever it stands, provided
/// nothing after it continues a number.
pub proof fn lemma_value_round_trip(s: Seq<char>, p: int, v: JsonView)
    requires
        representable(v),
        occurs_at(s, p, ser(v)),
        ends_value(s, p + ser(v).len()),
    ensures
        spec_value(s, p) == Ok::<(JsonView, int), ErrorKind>((v, p + ser(v).len())),
    decreases v, 1int, 0int,
{
    lemma_ser_start(v);
    lemma_occurs_index(s, p, ser(v), 0);
    assert(skip_ws(s, p) == p);
    match v {
        JsonView::Integer(_) => {
            lemma_number_round_trip(s, p, v);
        },
        JsonView::Float(_) => {
            lemma_number_round_trip(s, p, v);
        },
        JsonView::Text(t) => {
            assert(quoted(t) =~= seq!['"'] + (escaped(t) + seq!['"']));
            lemma_occurs_split(s, p, seq!['"'], escaped(t) + seq!['"']);
            lemma_string_round_trip(s, p + 1, seq![], t);
            assert(Seq::<char>::empty() + t =~= t);
        },
        JsonView::Null => {
            lemma_occurs_index(s, p, ser(v), 1);
            lemma_occurs_index(s, p, ser(v), 2);
            lemma_occurs_index(s, p, ser(v), 3);
        },
        JsonView::Array(items) => {
            assert(items.take(0) =~= Seq::<JsonView>::empty());
            assert(ser_items(items.take(0)) =~= Seq::<char>::empty());
            lemma_items_round_trip(s, p, v, 0);
        },
        JsonView::Object(es) => {
            assert(es.take(0) =~= Seq::<(Seq<char>, JsonView)>::empty());
            assert(ser_members(es.take(0)) =~= Seq::<char>::empty());
            lemma_members_round_trip(s, p, v, 0);
        },
    }
}

/// The items of an array from item `k` on read back as the array.
pub proof fn lemma_items_round_trip(s: Seq<char>, p: int, v: JsonView, k: int)
    requires
        representable(v),
        v is Array,
        occurs_at(s, p, ser(v)),
        0 <= k <= v->Array_0.len(),
    ensures
        spec_items(s, p + 1 + ser_items(v->Array_0.take(k)).len(), v->Array_0.take(k)) == Ok::<
            (JsonView, int),
            ErrorKind,
        >((v, p + ser(v).len())),
    decreases v, 0int, v->Array_0.len() - k,
{
    let items = v->Array_0;
    let n = items.len() as int;
    let text = ser_items(items);
    assert(ser(v) == seq!['['] + text + seq![']']);
    lemma_occurs_split(s, p, seq!['['] + text, seq![']']);
    lemma_occurs_split(s, p, seq!['['], text);
    assert(items.take(n) =~= items);
    let tk = ser_items(items.take(k));
    let pos = p + 1 + tk.len();
    lemma_occurs_index(s, p + 1 + text.len(), seq![']'], 0);
    if k == n {
        assert(skip_ws(s, pos) == pos);
    } else {
        lemma_items_step(items, k);
        lemma_items_prefix(items, k + 1, n);
        let x = items[k];
        let tk1 = ser_items(items.take(k + 1));
        lemma_occurs_prefix(s, p + 1, text, tk1);
        lemma_occurs_split(s, p + 1, tk + sep(k), ser(x));
        lemma_occurs_split(s, p + 1, tk, sep(k));
        let vpos = pos + sep(k).len();
        let after = p + 1 + tk1.len();
        if k + 1 < n {
            lemma_items_step(items, k + 1);
            lemma_items_prefix(items, k + 2, n);
            let tk2 = ser_items(items.take(k + 2));
            lemma_occurs_prefix(s, p + 1, text, tk2);
            assert(tk2 =~= tk1 + (sep(k + 1) + ser(items[k + 1])));
            lemma_occurs_split(s, p + 1, tk1, sep(k + 1) + ser(items[k + 1]));
            lemma_occurs_index(s, after, sep(k + 1) + ser(items[k + 1]), 0);
        }
        assert(ends_value(s, after));
        assert(representable(x));
        assert(decreases_to!(v => v->Array_0));
        assert(decreases_to!(v->Array_0 => v->Array_0[k]));
        lemma_value_round_trip(s, vpos, x);
        lemma_ser_start(x);
        lemma_occurs_index(s, vpos, ser(x), 0);
        assert(skip_ws(s, vpos) == vpos);
        if k > 0 {
            lemma_occurs_index(s, pos, sep(k), 0);
            lemma_occurs_index(s, pos, sep(k), 1);
            assert(skip_ws(s, pos) == pos);
            assert(skip_ws(s, pos + 1) == vpos);
            assert(spec_items(s, pos, items.take(k)) == spec_items(s, pos + 1, items.take(k)));
        }
        assert(items.take(k).push(x) =~= items.take(k + 1));
        lemma_items_round_trip(s, p, v, k + 1);
    }
}

/// The members of an object from member `k` on read back as the object;
/// from the second on, reading resumes just after a comma.
pub proof fn lemma_members_round_trip(s: Seq<char>, p: int, v: JsonView, k: int)
    requires
        representable(v),
        v is Object,
        occurs_at(s, p, ser(v)),
        0 <= k < v->Object_0.len(),
    ensures
        spec_members(
            s,
            p + 1 + ser_members(v->Object_0.take(k)).len() + if k == 0 {
                0int
            } else {
                1int
            },
            v->Object_0.take(k),
        ) == Ok::<(JsonView, int), ErrorKind>((v, p + ser(v).len())),
    decreases v, 0int, v->Object_0.len() - k,
{
    let es = v->Object_0;
    let n = es.len() as int;
    let text = ser_members(es);
    assert(ser(v) == seq!['{'] + text + seq!['}']);
    lemma_occurs_split(s, p, seq!['{'] + text, seq!['}']);
    lemma_occurs_split(s, p, seq!['{'], text);
    assert(es.take(n) =~= es);
    let tk = ser_members(es.take(k));
    let pos = p + 1 + tk.len();
    let m = pos + if k == 0 {
        0int
    } else {
        1int
    };
    lemma_occurs_index(s, p + 1 + text.len(), seq!['}'], 0);
    lemma_members_step(es, k);
    lemma_members_prefix(es, k + 1, n);
    let key = es[k].0;
    let x = es[k].1;
    let tk1 = ser_members(es.take(k + 1));
    lemma_occurs_prefix(s, p + 1, text, tk1);
    lemma_occurs_split(s, p + 1, tk + sep(k), member_text(es[k]));
    lemma_occurs_split(s, p + 1, tk, sep(k));
    let q = pos + sep(k).len();
    assert(member_text(es[k]) == seq!['"'] + (escaped(key) + seq!['"']) + (seq![':', ' '] + ser(x)));
    lemma_occurs_split(s, q, seq!['"'] + (escaped(key) + seq!['"']), seq![':', ' '] + ser(x));
    lemma_occurs_split(s, q, seq!['"'], escaped(key) + seq!['"']);
    lemma_occurs_index(s, q, seq!['"'], 0);
    let r = q + quoted(key).len();
    lemma_occurs_split(s, r, seq![':', ' '], ser(x));
    lemma_occurs_index(s, r, seq![':', ' '], 0);
    lemma_occurs_index(s, r, seq![':', ' '], 1);
    let d = r + 2;
    let after = p + 1 + tk1.len();
    if k + 1 < n {
        lemma_members_step(es, k + 1);
        lemma_members_prefix(es, k + 2, n);
        let tk2 = ser_members(es.take(k + 2));
        lemma_occurs_prefix(s, p + 1, text, tk2);
        assert(tk2 =~= tk1 + (sep(k + 1) + member_text(es[k + 1])));
        lemma_occurs_split(s, p + 1, tk1, sep(k + 1) + member_text(es[k + 1]));
        lemma_occurs_index(s, after, sep(k + 1) + member_text(es[k + 1]), 0);
        lemma_occurs_index(s, after, sep(k + 1) + member_text(es[k + 1]), 1);
    }
    assert(ends_value(s, after));
    assert(representable(x));
    assert(decreases_to!(v => v->Object_0));
    assert(decreases_to!(v->Object_0 => v->Object_0[k]));
    assert(decreases_to!(v->Object_0[k] => v->Object_0[k].1));
    lemma_value_round_trip(s, d, x);
    lemma_ser_start(x);
    lemma_occurs_index(s, d, ser(x), 0);
    lemma_string_round_trip(s, q + 1, seq![], key);
    assert(Seq::<char>::empty() + key =~= key);
    assert(skip_ws(s, d) == d);
    assert(skip_ws(s, r + 1) == d);
    assert(skip_ws(s, r) == r);
    assert(skip_ws(s, after) == after);
    if k > 0 {
        lemma_occurs_index(s, pos, sep(k), 1);
        assert(skip_ws(s, q) == q);
        assert(skip_ws(s, m) == q);
    } else {
        assert(skip_ws(s, m) == q);
    }
    lemma_key_absent(es, k);
    assert(put_entry(es.take(k), key, x) =~= es.take(k + 1));
    if k + 1 < n {
        lemma_members_round_trip(s, p, v, k + 1);
    }
}

/// Round trip: the text of every representable value parses back to the
/// value.
pub proof fn lemma_round_trip(v: JsonView)
    requires
        representable(v),
    ensures
        spec_parse(ser(v)) == Ok::<JsonView, ErrorKind>(v),
{
    let s = ser(v);
    assert(s.subrange(0, s.len() as int) =~= s);
    lemma_ser_start(v);
    assert(skip_ws(s, 0) == 0);
    lemma_value_round_trip(s, 0, v);
    assert(skip_ws(s, s.len() as int) == s.len());
}

/// Every key index found in `es` holds that key.
pub proof fn lemma_key_index_found(es: Seq<(Seq<char>, JsonView)>, k: Seq<char>)
    ensures
        -1 <= key_index(es, k) < es.len(),
        key_index(es, k) >= 0 ==> es[key_index(es, k)].0 == k,
        key_index(es, k) == -1 ==> forall|i: int| 0 <= i < es.len() ==> es[i].0 != k,
    decreases es.len(),
{
    if es.len() > 0 {
        lemma_key_index_found(es.drop_last(), k);
        if key_index(es, k) == -1 {
            assert forall|i: int| 0 <= i < es.len() implies es[i].0 != k by {
                if i < es.len() - 1 {
                    assert(es.drop_last()[i] == es[i]);
                }
            }
        }
    }
}

/// Setting a member keeps keys unique and values well formed.
pub proof fn lemma_put_entry_wf(es: Seq<(Seq<char>, JsonView)>, k: Seq<char>, v: JsonView)
    requires
        unique_keys(es),
        forall|i: int| 0 <= i < es.len() ==> json_wf(#[trigger] es[i].1),
        json_wf(v),
    ensures
        unique_keys(put_entry(es, k, v)),
        forall|i: int| 0 <= i < put_entry(es, k, v).len() ==> json_wf(#[trigger] put_entry(es, k, v)[i].1),
{
    lemma_key_index_found(es, k);
}

/// Values read by the parser are well formed.
pub proof fn lemma_value_wf(s: Seq<char>, p: int)
    ensures
        spec_value(s, p) matches Ok((v, _)) ==> json_wf(v),
    decreases s.len() - p, 1int,
{
    let q = skip_ws(s, p);
    lemma_skip_ws(s, p);
    if 0 <= p && q < s.len() {
        if s[q] == '{' {
            lemma_members_wf(s, q + 1, seq![]);
        } else if s[q] == '[' {
            lemma_items_wf(s, q + 1, seq![]);
        }
    }
}

pub proof fn lemma_items_wf(s: Seq<char>, p: int, acc: Seq<JsonView>)
    requires
        forall|i: int| 0 <= i < acc.len() ==> json_wf(#[trigger] acc[i]),
    ensures
        spec_items(s, p, acc) matches Ok((v, _)) ==> json_wf(v),
    decreases s.len() - p, 2int,
{
    let q = skip_ws(s, p);
    lemma_skip_ws(s, p);
    if 0 <= p && q < s.len() && s[q] != ']' {
        if s[q] == ',' {
            lemma_items_wf(s, q + 1, acc);
        } else if let Ok((v, r)) = spec_value(s, q) {
            if q < r <= s.len() {
                lemma_value_wf(s, q);
                assert forall|i: int| 0 <= i < acc.push(v).len() implies json_wf(#[trigger] acc.push(v)[i]) by {
                    if i < acc.len() {
                        assert(acc.push(v)[i] == acc[i]);
                    }
                }
                lemma_items_wf(s, r, acc.push(v));
            }
        }
    }
}

pub proof fn lemma_members_wf(s: Seq<char>, p: int, acc: Seq<(Seq<char>, JsonView)>)
    requires
        unique_keys(acc),
        forall|i: int| 0 <= i < acc.len() ==> json_wf(#[trigger] acc[i].1),
    ensures
        spec_members(s, p, acc) matches Ok((v, _)) ==> json_wf(v),
    decreases s.len() - p, 2int,
{
    let q = skip_ws(s, p);
    lemma_skip_ws(s, p);
    if 0 <= p && q < s.len() && s[q] == '"' {
        if let Ok((k, r)) = spec_string(s, q + 1, seq![]) {
            lemma_string_advances(s, q + 1, seq![]);
            let c = skip_ws(s, r);
            lemma_skip_ws(s, r);
            if c < s.len() && s[c] == ':' {
                let d = skip_ws(s, c + 1);
                lemma_skip_ws(s, c + 1);
                if d < s.len() {
                    if let Ok((v, r2)) = spec_value(s, d) {
                        if d < r2 <= s.len() {
                            lemma_value_wf(s, d);
                            lemma_put_entry_wf(acc, k, v);
                            let e = skip_ws(s, r2);
                            lemma_skip_ws(s, r2);
                            if e < s.len() && s[e] == ',' {
                                lemma_members_wf(s, e + 1, put_entry(acc, k, v));
                            }
                        }
                    }
                }
            }
        }
    }
}

/// Whatever the parser returns is well formed.
pub proof fn lemma_parse_wf(s: Seq<char>)
    ensures
        spec_parse(s) matches Ok(v) ==> json_wf(v),
{
    let q = skip_ws(s, 0);
    if q < s.len() {
        lemma_value_wf(s, q);
    }
}

} // verus!
