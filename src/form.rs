use vstd::prelude::*;
use vstd::utf8::{valid_utf8, decode_utf8};
use crate::error::{BacktraceError, ErrorKind};
use crate::text::{chars_of, string_from, decode_bytes};
use crate::json::{Json, JsonType, members_view, find_member, put_member, lemma_members_view_update, lemma_members_view_len, lemma_members_view_index};
use crate::json_model::{JsonView, key_index, put_entry, json_wf, unique_keys};
use crate::json_laws::{lemma_put_entry_wf, lemma_key_index_found};

verus! {

/// The value of a hexadecimal digit.
pub open spec fn hex_value(c: char) -> Option<u8> {
    if '0' <= c && c <= '9' {
        Some((c as u32 - '0' as u32) as u8)
    } else if 'a' <= c && c <= 'f' {
        Some((c as u32 - 'a' as u32 + 10) as u8)
    } else if 'A' <= c && c <= 'F' {
        Some((c as u32 - 'A' as u32 + 10) as u8)
    } else {
        None
    }
}

/// `out` followed by the characters that the pending bytes encode.
pub open spec fn flush(pending: Seq<u8>, out: Seq<char>) -> Result<Seq<char>, ErrorKind> {
    if pending.len() == 0 {
        Ok(out)
    } else if valid_utf8(pending) {
        Ok(out + decode_utf8(pending))
    } else {
        Err(ErrorKind::InvalidUtf8)
    }
}

/// Percent-decoding of `s` from position `i`, with bytes of `%XX` escapes not
/// yet decoded in `pending` and the decoded text so far in `out`.
pub open spec fn spec_urldecode_from(s: Seq<char>, i: int, pending: Seq<u8>, out: Seq<char>) -> Result<Seq<char>, ErrorKind>
    decreases s.len() - i,
{
    if i < 0 || i >= s.len() {
        flush(pending, out)
    } else if s[i] == '%' {
        if i + 2 < s.len() && hex_value(s[i + 1]) is Some && hex_value(s[i + 2]) is Some {
            let b = (hex_value(s[i + 1])->0 * 16 + hex_value(s[i + 2])->0) as u8;
            spec_urldecode_from(s, i + 3, pending.push(b), out)
        } else {
            Err(ErrorKind::InvalidPercentEscape)
        }
    } else {
        match flush(pending, out) {
            Err(e) => Err(e),
            Ok(o) => spec_urldecode_from(
                s,
                i + 1,
                seq![],
                o.push(
                    if s[i] == '+' {
                        ' '
                    } else {
                        s[i]
                    },
                ),
            ),
        }
    }
}

/// Percent-decoding: `%XX` escapes give bytes, runs of which are decoded as
/// UTF-8; `+` gives a space; other characters stand for themselves.
pub open spec fn spec_urldecode(s: Seq<char>) -> Result<Seq<char>, ErrorKind> {
    spec_urldecode_from(s, 0, seq![], seq![])
}

fn hex_digit(c: char) -> (r: Option<u8>)
    ensures
        r == hex_value(c),
{
    if '0' <= c && c <= '9' {
        Some((c as u32 - '0' as u32) as u8)
    } else if 'a' <= c && c <= 'f' {
        Some((c as u32 - 'a' as u32 + 10) as u8)
    } else if 'A' <= c && c <= 'F' {
        Some((c as u32 - 'A' as u32 + 10) as u8)
    } else {
        None
    }
}

fn flush_pending(pending: &mut Vec<u8>, out: &mut Vec<char>) -> (r: Result<(), ErrorKind>)
    ensures
        match flush(old(pending)@, old(out)@) {
            Ok(o) => r is Ok && final(out)@ == o && final(pending)@.len() == 0,
            Err(e) => r == Err::<(), ErrorKind>(e),
        },
{
    if pending.len() == 0 {
        return Ok(());
    }
    match decode_bytes(pending.as_slice()) {
        Some(cs) => {
            let mut i: usize = 0;
            while i < cs.len()
                invariant
                    i <= cs@.len(),
                    out@ == old(out)@ + cs@.take(i as int),
                decreases cs@.len() - i,
            {
                out.push(cs[i]);
                proof {
                    assert(cs@.take(i as int + 1) =~= cs@.take(i as int).push(cs@[i as int]));
                }
                i += 1;
            }
            proof {
                assert(cs@.take(cs@.len() as int) =~= cs@);
            }
            pending.clear();
            Ok(())
        },
        None => Err(ErrorKind::InvalidUtf8),
    }
}

/// Percent-decodes a sequence of characters.
pub fn urldecode_chars(s: &Vec<char>) -> (r: Result<Vec<char>, ErrorKind>)
    ensures
        match (r, spec_urldecode(s@)) {
            (Ok(t), Ok(t2)) => t@ == t2,
            (Err(e), Err(e2)) => e == e2,
            _ => false,
        },
{
    let mut pending: Vec<u8> = Vec::new();
    let mut out: Vec<char> = Vec::new();
    let mut i: usize = 0;
    while i < s.len()
        invariant
            i <= s@.len(),
            spec_urldecode(s@) == spec_urldecode_from(s@, i as int, pending@, out@),
        decreases s@.len() - i,
    {
        let c = s[i];
        if c == '%' {
            if s.len() - i > 2 {
                match (hex_digit(s[i + 1]), hex_digit(s[i + 2])) {
                    (Some(h), Some(l)) => {
                        pending.push(h * 16 + l);
                        i += 3;
                    },
                    _ => {
                        return Err(ErrorKind::InvalidPercentEscape);
                    },
                }
            } else {
                return Err(ErrorKind::InvalidPercentEscape);
            }
        } else {
            match flush_pending(&mut pending, &mut out) {
                Err(e) => {
                    return Err(e);
                },
                Ok(()) => {},
            }
            proof {
                assert(pending@ =~= Seq::<u8>::empty());
            }
            if c == '+' {
                out.push(' ');
            } else {
                out.push(c);
            }
            i += 1;
        }
    }
    match flush_pending(&mut pending, &mut out) {
        Err(e) => Err(e),
        Ok(()) => Ok(out),
    }
}

/// Percent-decodes `content`: `%XX` escapes give bytes, and each run of them
/// is decoded as UTF-8; `+` gives a space.
pub fn urldecode(content: &str) -> (r: Result<String, BacktraceError>)
    ensures
        match r {
            Ok(t) => spec_urldecode(content@) == Ok::<Seq<char>, ErrorKind>(t@),
            Err(e) => spec_urldecode(content@) == Err::<Seq<char>, ErrorKind>(e.kind),
        },
{
    let cs = chars_of(content);
    match urldecode_chars(&cs) {
        Ok(t) => Ok(string_from(t.as_slice())),
        Err(e) => Err(BacktraceError::new(e)),
    }
}

/// The first position at or after `from` where `pat` occurs in `s`, or -1.
pub open spec fn find_from(s: Seq<char>, pat: Seq<char>, from: int) -> int
    decreases s.len() + 1 - from,
{
    if from < 0 || from + pat.len() > s.len() {
        -1
    } else if s.subrange(from, from + pat.len()) == pat {
        from
    } else {
        find_from(s, pat, from + 1)
    }
}

pub proof fn lemma_find_from(s: Seq<char>, pat: Seq<char>, from: int)
    ensures
        find_from(s, pat, from) >= 0 ==> from <= find_from(s, pat, from) && find_from(s, pat, from)
            + pat.len() <= s.len(),
        find_from(s, pat, from) >= -1,
    decreases s.len() + 1 - from,
{
    if !(from < 0 || from + pat.len() > s.len()) && s.subrange(from, from + pat.len()) != pat {
        lemma_find_from(s, pat, from + 1);
    }
}

/// `%5B`, a percent-encoded opening bracket.
pub open spec fn open_bracket() -> Seq<char> {
    seq!['%', '5', 'B']
}

/// `%5D`, a percent-encoded closing bracket.
pub open spec fn close_bracket() -> Seq<char> {
    seq!['%', '5', 'D']
}

/// The bracket segments of a key from `p`, just after an opening bracket:
/// each runs to the next closing bracket (or to the end of the key), and the
/// next one starts after the next opening bracket.
pub open spec fn key_segments(key: Seq<char>, p: int) -> Seq<Seq<char>>
    decreases key.len() - p,
{
    let close = find_from(key, close_bracket(), p);
    if p < 0 || p > key.len() {
        seq![]
    } else if close < 0 {
        seq![key.subrange(p, key.len() as int)]
    } else {
        let open = find_from(key, open_bracket(), close + 3);
        proof {
            lemma_find_from(key, close_bracket(), p);
            lemma_find_from(key, open_bracket(), close + 3);
        }
        if open < 0 {
            seq![key.subrange(p, close)]
        } else {
            seq![key.subrange(p, close)] + key_segments(key, open + 3)
        }
    }
}

/// The name of a form key: what comes before its first opening bracket.
pub open spec fn key_base(key: Seq<char>) -> Seq<char> {
    let o = find_from(key, open_bracket(), 0);
    if o < 0 {
        key
    } else {
        key.subrange(0, o)
    }
}

/// The bracket segments of a form key; an empty one appends to an array,
/// another names an object member.
pub open spec fn key_path(key: Seq<char>) -> Seq<Seq<char>> {
    let o = find_from(key, open_bracket(), 0);
    if o < 0 {
        seq![]
    } else {
        key_segments(key, o + 3)
    }
}

/// A new value that holds `leaf` at the end of `path`.
pub open spec fn fresh_path(path: Seq<Seq<char>>, leaf: JsonView) -> JsonView
    decreases path.len(),
{
    if path.len() == 0 {
        leaf
    } else if path[0].len() == 0 {
        JsonView::Array(seq![fresh_path(path.drop_first(), leaf)])
    } else {
        JsonView::Object(seq![(path[0], fresh_path(path.drop_first(), leaf))])
    }
}

/// The error that the first step of `path` meets on `cur`, if any.
pub open spec fn path_conflict(cur: JsonView, path: Seq<Seq<char>>) -> Option<ErrorKind> {
    if path.len() == 0 {
        None
    } else if path[0].len() == 0 {
        match cur {
            JsonView::Null | JsonView::Array(_) => None,
            _ => Some(ErrorKind::ExpectedArray),
        }
    } else {
        match cur {
            JsonView::Null | JsonView::Object(_) => None,
            _ => Some(ErrorKind::ExpectedObject),
        }
    }
}

/// `cur` after storing `leaf` at `path`: an empty segment appends a new
/// slot to an array, another (re)sets an object member to a new value.
pub open spec fn assign(cur: JsonView, path: Seq<Seq<char>>, leaf: JsonView) -> JsonView {
    if path.len() == 0 {
        leaf
    } else {
        let child = fresh_path(path.drop_first(), leaf);
        if path[0].len() == 0 {
            match cur {
                JsonView::Array(items) => JsonView::Array(items.push(child)),
                _ => JsonView::Array(seq![child]),
            }
        } else {
            match cur {
                JsonView::Object(es) => JsonView::Object(put_entry(es, path[0], child)),
                _ => JsonView::Object(seq![(path[0], child)]),
            }
        }
    }
}

/// One `key=value` assignment applied to the top-level members.
pub open spec fn form_step(top: Seq<(Seq<char>, JsonView)>, key: Seq<char>, raw: Seq<char>) -> Result<Seq<(Seq<char>, JsonView)>, ErrorKind> {
    let base = key_base(key);
    let path = key_path(key);
    let i = key_index(top, base);
    let cur = if i >= 0 {
        top[i].1
    } else {
        JsonView::Null
    };
    match path_conflict(cur, path) {
        Some(e) => Err(e),
        None => match spec_urldecode(raw) {
            Err(e) => Err(e),
            Ok(t) => Ok(put_entry(top, base, assign(cur, path, JsonView::Text(t)))),
        },
    }
}

/// One `&`-separated segment; one without `=` changes nothing.
pub open spec fn form_segment(top: Seq<(Seq<char>, JsonView)>, seg: Seq<char>) -> Result<Seq<(Seq<char>, JsonView)>, ErrorKind> {
    let eq = find_from(seg, seq!['='], 0);
    if eq < 0 {
        Ok(top)
    } else {
        form_step(top, seg.subrange(0, eq), seg.subrange(eq + 1, seg.len() as int))
    }
}

/// The segments of `s` from `p` applied in order to `top`.
pub open spec fn spec_form_from(s: Seq<char>, p: int, top: Seq<(Seq<char>, JsonView)>) -> Result<Seq<(Seq<char>, JsonView)>, ErrorKind>
    decreases s.len() - p,
{
    if p < 0 || p > s.len() {
        Ok(top)
    } else {
        let amp = find_from(s, seq!['&'], p);
        let end = if amp < 0 {
            s.len() as int
        } else {
            amp
        };
        proof {
            lemma_find_from(s, seq!['&'], p);
        }
        match form_segment(top, s.subrange(p, end)) {
            Err(e) => Err(e),
            Ok(t) => if amp < 0 {
                Ok(t)
            } else {
                spec_form_from(s, amp + 1, t)
            },
        }
    }
}

/// What a form text decodes to: the members of an object.
pub open spec fn spec_form(s: Seq<char>) -> Result<Seq<(Seq<char>, JsonView)>, ErrorKind> {
    spec_form_from(s, 0, seq![])
}

fn matches_at(s: &Vec<char>, pat: &Vec<char>, i: usize) -> (r: bool)
    requires
        i + pat@.len() <= s@.len(),
    ensures
        r == (s@.subrange(i as int, i + pat@.len()) == pat@),
{
    let mut k: usize = 0;
    while k < pat.len()
        invariant
            k <= pat@.len(),
            i + pat@.len() <= s@.len(),
            forall|m: int| 0 <= m < k ==> s@[i + m] == pat@[m],
        decreases pat@.len() - k,
    {
        assert(i + k < s.len());
        if s[i + k] != pat[k] {
            assert(s@.subrange(i as int, i + pat@.len())[k as int] != pat@[k as int]);
            return false;
        }
        k += 1;
    }
    assert(s@.subrange(i as int, i + pat@.len()) =~= pat@);
    true
}

/// The first position at or after `from` where `pat` occurs.
pub(crate) fn find_at(s: &Vec<char>, pat: &Vec<char>, from: usize) -> (r: Option<usize>)
    ensures
        match r {
            Some(i) => find_from(s@, pat@, from as int) == i as int,
            None => find_from(s@, pat@, from as int) == -1,
        },
{
    let mut i: usize = from;
    while i <= s.len() && s.len() - i >= pat.len()
        invariant
            from <= i,
            find_from(s@, pat@, from as int) == find_from(s@, pat@, i as int),
        decreases s@.len() + 1 - i,
    {
        if matches_at(s, pat, i) {
            return Some(i);
        }
        if i >= s.len() {
            assert(find_from(s@, pat@, i + 1) == -1);
            return None;
        }
        i += 1;
    }
    None
}

/// The characters of `s` from `a` to `b`.
pub(crate) fn sub_chars(s: &Vec<char>, a: usize, b: usize) -> (r: Vec<char>)
    requires
        a <= b <= s@.len(),
    ensures
        r@ == s@.subrange(a as int, b as int),
{
    let mut r: Vec<char> = Vec::new();
    let mut i: usize = a;
    while i < b
        invariant
            a <= i <= b,
            b <= s@.len(),
            r@ == s@.subrange(a as int, i as int),
        decreases b - i,
    {
        r.push(s[i]);
        proof {
            assert(s@.subrange(a as int, i + 1) =~= s@.subrange(a as int, i as int).push(s@[i as int]));
        }
        i += 1;
    }
    r
}

pub open spec fn chars_views(v: Seq<Vec<char>>) -> Seq<Seq<char>> {
    v.map_values(|x: Vec<char>| x@)
}

/// Splits a form key into its name and its bracket segments.
fn split_key(key: &Vec<char>) -> (r: (Vec<char>, Vec<Vec<char>>))
    ensures
        r.0@ == key_base(key@),
        chars_views(r.1@) == key_path(key@),
{
    let open = vec!['%', '5', 'B'];
    let close = vec!['%', '5', 'D'];
    assert(open@ == open_bracket());
    assert(close@ == close_bracket());
    let mut path: Vec<Vec<char>> = Vec::new();
    match find_at(key, &open, 0) {
        None => {
            proof {
                assert(chars_views(path@) =~= Seq::<Seq<char>>::empty());
            }
            (sub_chars(key, 0, key.len()), path)
        },
        Some(o) => {
            proof {
                lemma_find_from(key@, open_bracket(), 0);
                assert(open_bracket().len() == 3);
                assert(o + 3 <= key.len());
            }
            let base = sub_chars(key, 0, o);
            let mut p: usize = o + 3;
            loop
                invariant_except_break
                    key_path(key@) == chars_views(path@) + key_segments(key@, p as int),
                invariant
                    p <= key@.len(),
                    open@ == open_bracket(),
                    close@ == close_bracket(),
                ensures
                    key_path(key@) == chars_views(path@),
                decreases key@.len() - p,
            {
                let ghost pre = path@;
                match find_at(key, &close, p) {
                    None => {
                        path.push(sub_chars(key, p, key.len()));
                        proof {
                            assert(chars_views(path@) =~= chars_views(pre).push(key@.subrange(p as int, key@.len() as int)));
                            assert(key_path(key@) =~= chars_views(path@));
                        }
                        break;
                    },
                    Some(c) => {
                        proof {
                            lemma_find_from(key@, close_bracket(), p as int);
                            assert(close_bracket().len() == 3);
                            assert(c + 3 <= key.len());
                        }
                        path.push(sub_chars(key, p, c));
                        proof {
                            assert(chars_views(path@) =~= chars_views(pre).push(key@.subrange(p as int, c as int)));
                            lemma_find_from(key@, open_bracket(), c + 3);
                        }
                        match find_at(key, &open, c + 3) {
                            None => {
                                proof {
                                    assert(key_path(key@) =~= chars_views(path@));
                                }
                                break;
                            },
                            Some(o2) => {
                                proof {
                                    lemma_find_from(key@, open_bracket(), c + 3);
                                    assert(o2 + 3 <= key.len());
                                    assert(key_path(key@) =~= chars_views(path@) + key_segments(key@, o2 + 3));
                                }
                                p = o2 + 3;
                            },
                        }
                    },
                }
            }
            (base, path)
        },
    }
}

pub proof fn lemma_key_index(es: Seq<(Seq<char>, JsonView)>, k: Seq<char>)
    ensures
        -1 <= key_index(es, k) < es.len(),
        key_index(es, k) >= 0 ==> es[key_index(es, k)].0 == k,
    decreases es.len(),
{
    if es.len() > 0 && es.last().0 != k {
        lemma_key_index(es.drop_last(), k);
    }
}

/// Changing a member's value leaves every key where it was.
pub proof fn lemma_key_index_value_update(es: Seq<(Seq<char>, JsonView)>, i: int, w: JsonView, k: Seq<char>)
    requires
        0 <= i < es.len(),
    ensures
        key_index(es.update(i, (es[i].0, w)), k) == key_index(es, k),
    decreases es.len(),
{
    let es2 = es.update(i, (es[i].0, w));
    if i < es.len() - 1 {
        assert(es2.drop_last() =~= es.drop_last().update(i, (es[i].0, w)));
        lemma_key_index_value_update(es.drop_last(), i, w, k);
    } else {
        assert(es2.drop_last() =~= es.drop_last());
    }
}

/// Moves the value of member `i` out, leaving `null` in its place.
fn take_member_value(es: &mut Vec<(String, Json)>, i: usize) -> (r: Json)
    requires
        i < old(es)@.len(),
    ensures
        r == old(es)@[i as int].1,
        final(es)@ == old(es)@.update(i as int, (old(es)@[i as int].0, Json { val: Box::new(JsonType::Null) })),
{
    let mut tmp = Json { val: Box::new(JsonType::Null) };
    std::mem::swap(&mut es[i].1, &mut tmp);
    tmp
}

/// A new value holding `leaf` at the end of `path`, without its first step.
fn fresh_value(path: &Vec<Vec<char>>, leaf: Json) -> (r: Json)
    requires
        path@.len() >= 1,
    ensures
        r@ == fresh_path(chars_views(path@).drop_first(), leaf@),
{
    let ghost pv = chars_views(path@);
    let mut child = leaf;
    let mut j: usize = path.len();
    proof {
        assert(pv.subrange(j as int, pv.len() as int) =~= Seq::<Seq<char>>::empty());
    }
    while j > 1
        invariant
            1 <= j <= path@.len(),
            pv == chars_views(path@),
            child@ == fresh_path(pv.subrange(j as int, pv.len() as int), leaf@),
        decreases j,
    {
        j -= 1;
        let ghost rest = pv.subrange(j as int, pv.len() as int);
        proof {
            assert(rest.drop_first() =~= pv.subrange(j + 1, pv.len() as int));
            assert(rest[0] == path@[j as int]@);
        }
        let ghost inner = child@;
        if path[j].len() == 0 {
            let mut items: Vec<Json> = Vec::new();
            items.push(child);
            proof {
                assert(items@.drop_last() =~= Seq::<Json>::empty());
                assert(crate::json::items_view(Seq::<Json>::empty()) =~= Seq::<JsonView>::empty());
                assert(crate::json::items_view(items@) =~= seq![inner]);
            }
            child = Json { val: Box::new(JsonType::Vec(items)) };
        } else {
            let mut es: Vec<(String, Json)> = Vec::new();
            let key = string_from(path[j].as_slice());
            es.push((key, child));
            proof {
                assert(es@.drop_last() =~= Seq::<(String, Json)>::empty());
                assert(members_view(Seq::<(String, Json)>::empty()) =~= Seq::<(Seq<char>, JsonView)>::empty());
                assert(members_view(es@) =~= seq![(rest[0], inner)]);
            }
            child = Json { val: Box::new(JsonType::Object(es)) };
        }
    }
    proof {
        assert(pv.subrange(1, pv.len() as int) =~= pv.drop_first());
    }
    child
}

/// Stores `leaf` at `path` in `cur`.
fn assign_value(cur: Json, path: &Vec<Vec<char>>, leaf: Json) -> (r: Json)
    requires
        path_conflict(cur@, chars_views(path@)) is None,
    ensures
        r@ == assign(cur@, chars_views(path@), leaf@),
{
    if path.len() == 0 {
        return leaf;
    }
    let ghost pv = chars_views(path@);
    let child = fresh_value(path, leaf);
    let ghost cv = child@;
    assert(pv[0] == path@[0]@);
    if path[0].len() == 0 {
        match *cur.val {
            JsonType::Vec(items) => {
                let mut items = items;
                let ghost pre = items@;
                items.push(child);
                proof {
                    assert(items@.drop_last() =~= pre);
                }
                Json { val: Box::new(JsonType::Vec(items)) }
            },
            _ => {
                let mut items: Vec<Json> = Vec::new();
                items.push(child);
                proof {
                    assert(items@.drop_last() =~= Seq::<Json>::empty());
                    assert(crate::json::items_view(Seq::<Json>::empty()) =~= Seq::<JsonView>::empty());
                assert(crate::json::items_view(items@) =~= seq![cv]);
                }
                Json { val: Box::new(JsonType::Vec(items)) }
            },
        }
    } else {
        let key = string_from(path[0].as_slice());
        match *cur.val {
            JsonType::Object(es) => {
                let mut es = es;
                put_member(&mut es, key, child);
                Json { val: Box::new(JsonType::Object(es)) }
            },
            _ => {
                let mut es: Vec<(String, Json)> = Vec::new();
                put_member(&mut es, key, child);
                proof {
                    assert(put_entry(seq![], pv[0], cv) =~= seq![(pv[0], cv)]);
                }
                Json { val: Box::new(JsonType::Object(es)) }
            },
        }
    }
}

/// Applies one `key=value` assignment.
fn apply_step(top: &mut Vec<(String, Json)>, key: &Vec<char>, raw: &Vec<char>) -> (r: Result<(), ErrorKind>)
    ensures
        match form_step(members_view(old(top)@), key@, raw@) {
            Ok(t) => r is Ok && members_view(final(top)@) == t,
            Err(e) => r == Err::<(), ErrorKind>(e),
        },
{
    let ghost ms = members_view(top@);
    let (base_cs, path) = split_key(key);
    let base = string_from(base_cs.as_slice());
    let ghost pv = chars_views(path@);
    proof {
        lemma_key_index(ms, base@);
        lemma_members_view_len(top@);
    }
    let idx = find_member(top, &base);
    let cur: Json = match idx {
        Some(i) => {
            proof {
                lemma_members_view_index(top@, i as int);
            }
            let c = take_member_value(top, i);
            proof {
                lemma_members_view_update(old(top)@, i as int, (old(top)@[i as int].0, Json { val: Box::new(JsonType::Null) }));
                lemma_key_index_value_update(ms, i as int, JsonView::Null, base@);
            }
            c
        },
        None => Json { val: Box::new(JsonType::Null) },
    };
    if path.len() > 0 {
        assert(pv[0] == path@[0]@);
        if path[0].len() == 0 {
            match &*cur.val {
                JsonType::Null | JsonType::Vec(_) => {},
                _ => {
                    return Err(ErrorKind::ExpectedArray);
                },
            }
        } else {
            match &*cur.val {
                JsonType::Null | JsonType::Object(_) => {},
                _ => {
                    return Err(ErrorKind::ExpectedObject);
                },
            }
        }
    }
    let leaf_cs = match urldecode_chars(raw) {
        Ok(t) => t,
        Err(e) => {
            return Err(e);
        },
    };
    let leaf = Json { val: Box::new(JsonType::String(string_from(leaf_cs.as_slice()))) };
    let v = assign_value(cur, &path, leaf);
    let ghost mid = members_view(top@);
    put_member(top, base, v);
    proof {
        if idx is Some {
            let i = idx->0 as int;
            assert(mid.update(i, (base@, v@)) =~= ms.update(i, (base@, v@)));
        }
    }
    Ok(())
}

/// Applies one `&`-separated segment.
fn apply_segment(top: &mut Vec<(String, Json)>, seg: &Vec<char>) -> (r: Result<(), ErrorKind>)
    ensures
        match form_segment(members_view(old(top)@), seg@) {
            Ok(t) => r is Ok && members_view(final(top)@) == t,
            Err(e) => r == Err::<(), ErrorKind>(e),
        },
{
    let eq = vec!['='];
    assert(eq@ == seq!['=']);
    match find_at(seg, &eq, 0) {
        None => Ok(()),
        Some(e) => {
            proof {
                lemma_find_from(seg@, seq!['='], 0);
                assert(e + 1 <= seg.len());
            }
            let key = sub_chars(seg, 0, e);
            let raw = sub_chars(seg, e + 1, seg.len());
            apply_step(top, &key, &raw)
        },
    }
}

pub proof fn lemma_fresh_path_wf(path: Seq<Seq<char>>, leaf: JsonView)
    requires
        json_wf(leaf),
    ensures
        json_wf(fresh_path(path, leaf)),
    decreases path.len(),
{
    if path.len() > 0 {
        lemma_fresh_path_wf(path.drop_first(), leaf);
    }
}

pub proof fn lemma_assign_wf(cur: JsonView, path: Seq<Seq<char>>, leaf: JsonView)
    requires
        json_wf(cur),
        json_wf(leaf),
    ensures
        json_wf(assign(cur, path, leaf)),
{
    if path.len() > 0 {
        let child = fresh_path(path.drop_first(), leaf);
        lemma_fresh_path_wf(path.drop_first(), leaf);
        if path[0].len() == 0 {
            if let JsonView::Array(items) = cur {
                assert forall|i: int| 0 <= i < items.push(child).len() implies json_wf(
                    #[trigger] items.push(child)[i],
                ) by {
                    if i < items.len() {
                        assert(items.push(child)[i] == items[i]);
                    }
                }
            }
        } else {
            if let JsonView::Object(es) = cur {
                lemma_put_entry_wf(es, path[0], child);
            }
        }
    }
}

/// Decoding form data keeps object keys unique and values well formed.
pub proof fn lemma_form_from_wf(s: Seq<char>, p: int, top: Seq<(Seq<char>, JsonView)>)
    requires
        unique_keys(top),
        forall|i: int| 0 <= i < top.len() ==> json_wf(#[trigger] top[i].1),
    ensures
        spec_form_from(s, p, top) matches Ok(t) ==> json_wf(JsonView::Object(t)),
    decreases s.len() - p,
{
    if 0 <= p <= s.len() {
        let amp = find_from(s, seq!['&'], p);
        let end = if amp < 0 {
            s.len() as int
        } else {
            amp
        };
        lemma_find_from(s, seq!['&'], p);
        let seg = s.subrange(p, end);
        let eq = find_from(seg, seq!['='], 0);
        if eq >= 0 {
            let key = seg.subrange(0, eq);
            let base = key_base(key);
            let i = key_index(top, base);
            lemma_key_index_found(top, base);
            let cur = if i >= 0 {
                top[i].1
            } else {
                JsonView::Null
            };
            if let Ok(t) = spec_urldecode(seg.subrange(eq + 1, seg.len() as int)) {
                lemma_assign_wf(cur, key_path(key), JsonView::Text(t));
                lemma_put_entry_wf(top, base, assign(cur, key_path(key), JsonView::Text(t)));
            }
        }
        if let Ok(t) = form_segment(top, seg) {
            if amp >= 0 {
                lemma_form_from_wf(s, amp + 1, t);
            }
        }
    }
}

impl Json {
    /// Decodes form data (`a=1&b=2`) into an object. Keys may carry
    /// percent-encoded brackets: `k%5B%5D=v` appends to array `k`,
    /// `k%5Bf%5D=v` sets member `f` of object `k`. Values are percent-decoded
    /// text.
    pub fn parse_form_data(form_data: &str) -> (r: Result<Json, BacktraceError>)
        ensures
            match spec_form(form_data@) {
                Ok(es) => r matches Ok(j) && j@ == JsonView::Object(es),
                Err(e) => r matches Err(x) && x.kind == e,
            },
            r matches Ok(j) ==> json_wf(j@),
    {
        proof {
            lemma_form_from_wf(form_data@, 0, seq![]);
        }
        let s = chars_of(form_data);
        let amp = vec!['&'];
        assert(amp@ == seq!['&']);
        let mut top: Vec<(String, Json)> = Vec::new();
        let mut p: usize = 0;
        proof {
            assert(members_view(top@) =~= Seq::<(Seq<char>, JsonView)>::empty());
        }
        loop
            invariant
                p <= s@.len(),
                s@ == form_data@,
                spec_form(form_data@) matches Ok(t) ==> json_wf(JsonView::Object(t)),
                amp@ == seq!['&'],
                spec_form(s@) == spec_form_from(s@, p as int, members_view(top@)),
            decreases s@.len() - p,
        {
            let found = find_at(&s, &amp, p);
            proof {
                lemma_find_from(s@, seq!['&'], p as int);
                assert(seq!['&'].len() == 1);
            }
            let end: usize = match found {
                Some(a) => a,
                None => s.len(),
            };
            let seg = sub_chars(&s, p, end);
            let ghost t0 = members_view(top@);
            assert(spec_form_from(s@, p as int, t0) == match form_segment(t0, seg@) {
                Err(e) => Err(e),
                Ok(t) => if found is None {
                    Ok(t)
                } else {
                    spec_form_from(s@, found->0 + 1, t)
                },
            });
            let applied = apply_segment(&mut top, &seg);
            match applied {
                Err(e) => {
                    return Err(BacktraceError::new(e));
                },
                Ok(()) => {},
            }
            match found {
                None => {
                    return Ok(Json { val: Box::new(JsonType::Object(top)) });
                },
                Some(a) => {
                    assert(a + 1 <= s.len());
                    p = a + 1;
                },
            }
        }
    }
}

} // verus!
