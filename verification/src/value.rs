use crate::strutil::chars_to_string;
use crate::strutil::dec_val;
use crate::strutil::is_index;
use crate::strutil::parse_index;
use crate::strutil::push_str_chars;
use vstd::prelude::*;

verus! {

/// A structured, JSON-like value: what a materialized resource may expose to
/// its dependents beyond a flat string.
///
/// Numbers are carried as their literal text (`Num`), so the model stays
/// exact: the engine never computes with them, it only reproduces them.
pub enum Value {
    Null,
    Bool(bool),
    Num(String),
    Str(String),
    Arr(Vec<Value>),
    Obj(Vec<(String, Value)>),
}

/// Mathematical model of a `Value`.
#[verifier::ext_equal]
pub enum ValModel {
    Null,
    Bool(bool),
    Num(Seq<char>),
    Str(Seq<char>),
    Arr(Seq<ValModel>),
    Obj(Seq<(Seq<char>, ValModel)>),
}

pub open spec fn val_model(v: Value) -> ValModel
    decreases v,
{
    match v {
        Value::Null => ValModel::Null,
        Value::Bool(b) => ValModel::Bool(b),
        Value::Num(s) => ValModel::Num(s@),
        Value::Str(s) => ValModel::Str(s@),
        Value::Arr(xs) => ValModel::Arr(
            Seq::new(
                xs@.len(),
                |i: int|
                    if 0 <= i < xs@.len() {
                        val_model(xs@[i])
                    } else {
                        ValModel::Null
                    },
            ),
        ),
        Value::Obj(xs) => ValModel::Obj(
            Seq::new(
                xs@.len(),
                |i: int|
                    if 0 <= i < xs@.len() {
                        (xs@[i].0@, val_model(xs@[i].1))
                    } else {
                        (Seq::empty(), ValModel::Null)
                    },
            ),
        ),
    }
}

impl View for Value {
    type V = ValModel;

    open spec fn view(&self) -> ValModel {
        val_model(*self)
    }
}

/// The sixteen lower-case hexadecimal digits.
pub open spec fn hex_digit(n: int) -> char {
    seq!['0', '1', '2', '3', '4', '5', '6', '7', '8', '9', 'a', 'b', 'c', 'd', 'e', 'f'][n]
}

/// How one character appears inside a canonical quoted string: quote and
/// backslash are escaped, the common control characters get their short
/// escapes, the remaining control characters a `\u00XX` escape.
pub open spec fn escaped_char(c: char) -> Seq<char> {
    if c == '"' {
        seq!['\\', '"']
    } else if c == '\\' {
        seq!['\\', '\\']
    } else if c == '\n' {
        seq!['\\', 'n']
    } else if c == '\r' {
        seq!['\\', 'r']
    } else if c == '\t' {
        seq!['\\', 't']
    } else if (c as u32) < 0x20 {
        seq!['\\', 'u', '0', '0', hex_digit((c as u32) as int / 16), hex_digit((c as u32) as int % 16)]
    } else {
        seq![c]
    }
}

pub open spec fn escaped_str(s: Seq<char>) -> Seq<char>
    decreases s.len(),
{
    if s.len() == 0 {
        Seq::empty()
    } else {
        escaped_char(s[0]) + escaped_str(s.drop_first())
    }
}

pub open spec fn quoted(s: Seq<char>) -> Seq<char> {
    seq!['"'] + escaped_str(s) + seq!['"']
}

/// Canonical textual serialization of a structured value: compact JSON-style
/// text, entries in declaration order, strings quoted and escaped.
pub open spec fn val_text(m: ValModel) -> Seq<char>
    decreases m, 1int,
{
    match m {
        ValModel::Null => seq!['n', 'u', 'l', 'l'],
        ValModel::Bool(b) => if b {
            seq!['t', 'r', 'u', 'e']
        } else {
            seq!['f', 'a', 'l', 's', 'e']
        },
        ValModel::Num(s) => s,
        ValModel::Str(s) => quoted(s),
        ValModel::Arr(xs) => seq!['['] + arr_items_upto(xs, xs.len() as int) + seq![']'],
        ValModel::Obj(ps) => seq!['{'] + obj_items_upto(ps, ps.len() as int) + seq!['}'],
    }
}

/// Text of the first `i` array items, comma-separated.
pub open spec fn arr_items_upto(xs: Seq<ValModel>, i: int) -> Seq<char>
    decreases xs, 0int, i,
{
    if i <= 0 || i > xs.len() {
        Seq::empty()
    } else if i == 1 {
        val_text(xs[0])
    } else {
        arr_items_upto(xs, i - 1) + seq![','] + val_text(xs[i - 1])
    }
}

/// Text of the first `i` object properties, comma-separated.
pub open spec fn obj_items_upto(ps: Seq<(Seq<char>, ValModel)>, i: int) -> Seq<char>
    decreases ps, 0int, i,
{
    if i <= 0 || i > ps.len() {
        Seq::empty()
    } else if i == 1 {
        quoted(ps[0].0) + seq![':'] + val_text(ps[0].1)
    } else {
        obj_items_upto(ps, i - 1) + seq![','] + quoted(ps[i - 1].0) + seq![':'] + val_text(
            ps[i - 1].1,
        )
    }
}

fn hex_digit_exec(n: u8) -> (r: char)
    requires
        n < 16,
    ensures
        r == hex_digit(n as int),
{
    if n == 0 {
        '0'
    } else if n == 1 {
        '1'
    } else if n == 2 {
        '2'
    } else if n == 3 {
        '3'
    } else if n == 4 {
        '4'
    } else if n == 5 {
        '5'
    } else if n == 6 {
        '6'
    } else if n == 7 {
        '7'
    } else if n == 8 {
        '8'
    } else if n == 9 {
        '9'
    } else if n == 10 {
        'a'
    } else if n == 11 {
        'b'
    } else if n == 12 {
        'c'
    } else if n == 13 {
        'd'
    } else if n == 14 {
        'e'
    } else {
        'f'
    }
}

fn push_escaped_char(out: &mut Vec<char>, c: char)
    ensures
        final(out)@ == old(out)@ + escaped_char(c),
{
    if c == '"' {
        out.push('\\');
        out.push('"');
    } else if c == '\\' {
        out.push('\\');
        out.push('\\');
    } else if c == '\n' {
        out.push('\\');
        out.push('n');
    } else if c == '\r' {
        out.push('\\');
        out.push('r');
    } else if c == '\t' {
        out.push('\\');
        out.push('t');
    } else if (c as u32) < 0x20 {
        let n = c as u32;
        out.push('\\');
        out.push('u');
        out.push('0');
        out.push('0');
        out.push(hex_digit_exec((n / 16) as u8));
        out.push(hex_digit_exec((n % 16) as u8));
        proof {
            assert(out@ =~= old(out)@ + escaped_char(c));
        }
    } else {
        out.push(c);
    }
    proof {
        assert(out@ =~= old(out)@ + escaped_char(c));
    }
}

proof fn lemma_escaped_push(s: Seq<char>, c: char)
    ensures
        escaped_str(s.push(c)) == escaped_str(s) + escaped_char(c),
    decreases s.len(),
{
    if s.len() == 0 {
        assert(s.push(c)[0] == c);
        assert(s.push(c).drop_first() =~= Seq::<char>::empty());
        assert(escaped_str(Seq::<char>::empty()) == Seq::<char>::empty());
        assert(escaped_str(s.push(c)) == escaped_char(c) + escaped_str(s.push(c).drop_first()));
        assert(escaped_str(s.push(c)) =~= escaped_str(s) + escaped_char(c));
    } else {
        lemma_escaped_push(s.drop_first(), c);
        assert(s.push(c).drop_first() =~= s.drop_first().push(c));
        assert(escaped_str(s.push(c)) =~= escaped_str(s) + escaped_char(c));
    }
}

fn push_escaped(out: &mut Vec<char>, s: &str)
    ensures
        final(out)@ == old(out)@ + escaped_str(s@),
{
    let len = s.unicode_len();
    let mut i: usize = 0;
    while i < len
        invariant
            len == s@.len(),
            i <= len,
            out@ == old(out)@ + escaped_str(s@.subrange(0, i as int)),
        decreases len - i,
    {
        let c = s.get_char(i);
        push_escaped_char(out, c);
        proof {
            assert(s@.subrange(0, i + 1 as int) =~= s@.subrange(0, i as int).push(s@[i as int]));
            lemma_escaped_push(s@.subrange(0, i as int), s@[i as int]);
        }
        i += 1;
    }
    proof {
        assert(s@.subrange(0, len as int) =~= s@);
    }
}

fn push_quoted(out: &mut Vec<char>, s: &str)
    ensures
        final(out)@ == old(out)@ + quoted(s@),
{
    out.push('"');
    push_escaped(out, s);
    out.push('"');
    proof {
        assert(out@ =~= old(out)@ + quoted(s@));
    }
}

fn push_val(out: &mut Vec<char>, v: &Value)
    ensures
        final(out)@ == old(out)@ + val_text(v@),
    decreases *v,
{
    match v {
        Value::Null => {
            out.push('n');
            out.push('u');
            out.push('l');
            out.push('l');
            proof {
                assert(out@ =~= old(out)@ + val_text(v@));
            }
        },
        Value::Bool(b) => {
            if *b {
                out.push('t');
                out.push('r');
                out.push('u');
                out.push('e');
            } else {
                out.push('f');
                out.push('a');
                out.push('l');
                out.push('s');
                out.push('e');
            }
            proof {
                assert(out@ =~= old(out)@ + val_text(v@));
            }
        },
        Value::Num(s) => {
            push_str_chars(out, s.as_str());
        },
        Value::Str(s) => {
            push_quoted(out, s.as_str());
        },
        Value::Arr(xs) => {
            let ghost ms = arr_model(xs@);
            proof {
                assert(v@ matches ValModel::Arr(m) && m == ms);
            }
            out.push('[');
            let ghost base = out@;
            let n = xs.len();
            let mut i: usize = 0;
            while i < n
                invariant
                    *v == Value::Arr(*xs),
                    n == xs@.len(),
                    i <= n,
                    ms == arr_model(xs@),
                    ms.len() == n,
                    forall|k: int| 0 <= k < n ==> ms[k] == val_model(xs@[k]),
                    out@ == base + arr_items_upto(ms, i as int),
                decreases n - i,
            {
                if i > 0 {
                    out.push(',');
                }
                proof {
                    broadcast use vstd::std_specs::vec::group_vec_axioms;

                    assert(decreases_to!(*v => v->Arr_0));
                    assert(decreases_to!(v->Arr_0 => v->Arr_0@));
                    assert(decreases_to!(v->Arr_0@ => v->Arr_0@[i as int]));
                    assert(v->Arr_0 == *xs);
                }
                push_val(out, &xs[i]);
                i += 1;
            }
            out.push(']');
            proof {
                assert(out@ =~= old(out)@ + val_text(v@));
            }
        },
        Value::Obj(ps) => {
            let ghost ms = obj_model(ps@);
            proof {
                assert(v@ matches ValModel::Obj(m) && m == ms);
            }
            out.push('{');
            let ghost base = out@;
            let n = ps.len();
            let mut i: usize = 0;
            while i < n
                invariant
                    *v == Value::Obj(*ps),
                    n == ps@.len(),
                    i <= n,
                    ms == obj_model(ps@),
                    ms.len() == n,
                    forall|k: int| 0 <= k < n ==> ms[k] == (ps@[k].0@, val_model(ps@[k].1)),
                    out@ == base + obj_items_upto(ms, i as int),
                decreases n - i,
            {
                if i > 0 {
                    out.push(',');
                }
                push_quoted(out, ps[i].0.as_str());
                proof {
                    broadcast use vstd::std_specs::vec::group_vec_axioms;

                    assert(decreases_to!(*v => v->Obj_0));
                    assert(decreases_to!(v->Obj_0 => v->Obj_0@));
                    assert(decreases_to!(v->Obj_0@ => v->Obj_0@[i as int]));
                    assert(decreases_to!(v->Obj_0@[i as int] => v->Obj_0@[i as int].1));
                    assert(v->Obj_0 == *ps);
                }
                out.push(':');
                push_val(out, &ps[i].1);
                i += 1;
            }
            out.push('}');
            proof {
                assert(out@ =~= old(out)@ + val_text(v@));
            }
        },
    }
}

/// The element models of an array value.
pub open spec fn arr_model(xs: Seq<Value>) -> Seq<ValModel> {
    Seq::new(
        xs.len(),
        |i: int|
            if 0 <= i < xs.len() {
                val_model(xs[i])
            } else {
                ValModel::Null
            },
    )
}

/// The property models of an object value.
pub open spec fn obj_model(ps: Seq<(String, Value)>) -> Seq<(Seq<char>, ValModel)> {
    Seq::new(
        ps.len(),
        |i: int|
            if 0 <= i < ps.len() {
                (ps[i].0@, val_model(ps[i].1))
            } else {
                (Seq::empty(), ValModel::Null)
            },
    )
}

/// How a value appears when substituted into text: a plain string appears
/// bare, anything else as its canonical serialization.
pub open spec fn val_to_display(m: ValModel) -> Seq<char> {
    match m {
        ValModel::Str(s) => s,
        _ => val_text(m),
    }
}

/// The value under `key` in an object, first matching property.
pub open spec fn obj_get(ps: Seq<(Seq<char>, ValModel)>, key: Seq<char>) -> Option<ValModel>
    decreases ps.len(),
{
    if ps.len() == 0 {
        None
    } else if ps[0].0 == key {
        Some(ps[0].1)
    } else {
        obj_get(ps.drop_first(), key)
    }
}

/// One step of a dotted-path query: a field name into an object, a decimal
/// index into an array; anything else matches nothing.
pub open spec fn query_step(m: ValModel, seg: Seq<char>) -> Option<ValModel> {
    match m {
        ValModel::Obj(ps) => obj_get(ps, seg),
        ValModel::Arr(xs) => if is_index(seg) && 0 <= dec_val(seg) < xs.len() {
            Some(xs[dec_val(seg)])
        } else {
            None
        },
        _ => None,
    }
}

/// The remaining segments of a dotted-path query, applied in order.
pub open spec fn query_from(m: ValModel, segs: Seq<Seq<char>>, i: int) -> Option<ValModel>
    decreases segs.len() - i,
{
    if i < 0 || i >= segs.len() {
        Some(m)
    } else {
        match query_step(m, segs[i]) {
            None => None,
            Some(m2) => query_from(m2, segs, i + 1),
        }
    }
}

proof fn lemma_obj_get_found(ps: Seq<(Seq<char>, ValModel)>, key: Seq<char>, j: int)
    requires
        0 <= j < ps.len(),
        ps[j].0 == key,
        forall|k: int| 0 <= k < j ==> ps[k].0 != key,
    ensures
        obj_get(ps, key) == Some(ps[j].1),
    decreases j,
{
    if j > 0 {
        lemma_obj_get_found(ps.drop_first(), key, j - 1);
    }
}

proof fn lemma_obj_get_none(ps: Seq<(Seq<char>, ValModel)>, key: Seq<char>)
    requires
        forall|k: int| 0 <= k < ps.len() ==> ps[k].0 != key,
    ensures
        obj_get(ps, key) is None,
    decreases ps.len(),
{
    if ps.len() > 0 {
        lemma_obj_get_none(ps.drop_first(), key);
    }
}

fn obj_find<'a>(ps: &'a Vec<(String, Value)>, key: &String) -> (r: Option<&'a Value>)
    ensures
        match r {
            Some(v) => obj_get(obj_model(ps@), key@) == Some(v@),
            None => obj_get(obj_model(ps@), key@) is None,
        },
{
    let n = ps.len();
    let mut j: usize = 0;
    while j < n
        invariant
            j <= n,
            n == ps@.len(),
            forall|k: int| 0 <= k < j ==> obj_model(ps@)[k].0 != key@,
        decreases n - j,
    {
        if (&ps[j].0).eq(key) {
            proof {
                lemma_obj_get_found(obj_model(ps@), key@, j as int);
            }
            return Some(&ps[j].1);
        }
        j += 1;
    }
    proof {
        lemma_obj_get_none(obj_model(ps@), key@);
    }
    None
}

impl Value {
    /// The canonical serialization of this value.
    pub fn to_text(&self) -> (r: String)
        ensures
            r@ == val_text(self@),
    {
        let mut out: Vec<char> = Vec::new();
        push_val(&mut out, self);
        chars_to_string(&out)
    }

    /// The text this value contributes when substituted into a template.
    pub fn to_display(&self) -> (r: String)
        ensures
            r@ == val_to_display(self@),
    {
        match self {
            Value::Str(s) => s.clone(),
            _ => self.to_text(),
        }
    }

    /// One query step into this value.
    pub fn step<'a>(&'a self, seg: &String) -> (r: Option<&'a Value>)
        ensures
            match r {
                Some(v) => query_step(self@, seg@) == Some(v@),
                None => query_step(self@, seg@) is None,
            },
    {
        match self {
            Value::Obj(ps) => {
                proof {
                    assert(self@ matches ValModel::Obj(mm) && mm =~= obj_model(ps@));
                }
                obj_find(ps, seg)
            },
            Value::Arr(xs) => {
                match parse_index(seg.as_str()) {
                    Some(n) => {
                        if n < xs.len() {
                            proof {
                                assert(query_step(self@, seg@) == Some(arr_model(xs@)[n as int]));
                            }
                            Some(&xs[n])
                        } else {
                            None
                        }
                    },
                    None => {
                        proof {
                            vstd::std_specs::vec::axiom_spec_len(xs);
                            if is_index(seg@) {
                                assert(dec_val(seg@) > usize::MAX >= xs@.len());
                            }
                        }
                        None
                    },
                }
            },
            _ => None,
        }
    }

    /// Walks a whole dotted-path query, segment by segment.
    pub fn query<'a>(&'a self, segs: &Vec<String>) -> (r: Option<&'a Value>)
        ensures
            match r {
                Some(v) => query_from(self@, segs.deep_view(), 0) == Some(v@),
                None => query_from(self@, segs.deep_view(), 0) is None,
            },
    {
        let mut cur: &Value = self;
        let n = segs.len();
        let mut i: usize = 0;
        while i < n
            invariant
                i <= n,
                n == segs@.len(),
                query_from(self@, segs.deep_view(), 0) == query_from(
                    cur@,
                    segs.deep_view(),
                    i as int,
                ),
            decreases n - i,
        {
            match cur.step(&segs[i]) {
                Some(v) => {
                    cur = v;
                },
                None => {
                    return None;
                },
            }
            i += 1;
        }
        Some(cur)
    }
}

} // verus!
