//! The serialized form of a task list: a JSON array of objects, each with
//! the three string-valued keys "title", "description" and "completed"
//! (the flag stored as the text "true" or "false").
//!
//! The writer produces a canonical compact form. The reader accepts that
//! form back, with the three keys of an object in any order, the usual
//! string escapes, and the flag given either as a string or as a bare
//! `true`/`false` literal. It does not skip whitespace between tokens and
//! decodes `\u` escapes only for code points below 0x100, which covers
//! every escape the writer emits.

use vstd::prelude::*;
use crate::task::{Task, TaskView};
use crate::text::string_from_chars;

verus! {

pub open spec fn key_title() -> Seq<char> {
    seq!['t', 'i', 't', 'l', 'e']
}

pub open spec fn key_description() -> Seq<char> {
    seq!['d', 'e', 's', 'c', 'r', 'i', 'p', 't', 'i', 'o', 'n']
}

pub open spec fn key_completed() -> Seq<char> {
    seq!['c', 'o', 'm', 'p', 'l', 'e', 't', 'e', 'd']
}

pub open spec fn lit_true() -> Seq<char> {
    seq!['t', 'r', 'u', 'e']
}

pub open spec fn lit_false() -> Seq<char> {
    seq!['f', 'a', 'l', 's', 'e']
}

// ---------------------------------------------------------------------------
// The canonical encoding.
// ---------------------------------------------------------------------------

/// The lower-case hexadecimal digit for `n`, for `0 <= n < 16`.
pub open spec fn hex_digit(n: int) -> char {
    if n == 0 { '0' } else if n == 1 { '1' } else if n == 2 { '2' } else if n == 3 { '3' }
    else if n == 4 { '4' } else if n == 5 { '5' } else if n == 6 { '6' } else if n == 7 { '7' }
    else if n == 8 { '8' } else if n == 9 { '9' } else if n == 10 { 'a' } else if n == 11 { 'b' }
    else if n == 12 { 'c' } else if n == 13 { 'd' } else if n == 14 { 'e' } else { 'f' }
}

/// How one character appears inside a JSON string: quotes and backslashes
/// escaped, control characters as `\u00XX`, anything else as itself.
pub open spec fn escape_char(c: char) -> Seq<char> {
    if c == '"' {
        seq!['\\', '"']
    } else if c == '\\' {
        seq!['\\', '\\']
    } else if (c as u32) < 32 {
        seq!['\\', 'u', '0', '0', hex_digit((c as u32) as int / 16), hex_digit(
            (c as u32) as int % 16,
        )]
    } else {
        seq![c]
    }
}

pub open spec fn escape_seq(s: Seq<char>) -> Seq<char>
    decreases s.len(),
{
    if s.len() == 0 {
        Seq::empty()
    } else {
        escape_char(s[0]) + escape_seq(s.skip(1))
    }
}

/// A JSON string literal: the escaped text between double quotes.
pub open spec fn quoted(s: Seq<char>) -> Seq<char> {
    seq!['"'] + escape_seq(s) + seq!['"']
}

/// The canonical object for one task.
pub open spec fn encode_task(t: TaskView) -> Seq<char> {
    seq!['{'] + quoted(key_title()) + seq![':'] + quoted(t.title) + seq![','] + quoted(
        key_description(),
    ) + seq![':'] + quoted(t.description) + seq![','] + quoted(key_completed()) + seq![':']
        + quoted(if t.completed { lit_true() } else { lit_false() }) + seq!['}']
}

/// The objects after the first, each preceded by a comma.
pub open spec fn encode_rest(ts: Seq<TaskView>) -> Seq<char>
    decreases ts.len(),
{
    if ts.len() == 0 {
        Seq::empty()
    } else {
        seq![','] + encode_task(ts[0]) + encode_rest(ts.skip(1))
    }
}

/// The canonical serialized form of a whole task list.
pub open spec fn spec_encode(ts: Seq<TaskView>) -> Seq<char> {
    if ts.len() == 0 {
        seq!['[', ']']
    } else {
        seq!['['] + encode_task(ts[0]) + encode_rest(ts.skip(1)) + seq![']']
    }
}

// ---------------------------------------------------------------------------
// The executable encoder.
// ---------------------------------------------------------------------------

fn hex_digit_exec(n: u32) -> (r: char)
    requires
        n < 16,
    ensures
        r == hex_digit(n as int),
{
    if n == 0 { '0' } else if n == 1 { '1' } else if n == 2 { '2' } else if n == 3 { '3' }
    else if n == 4 { '4' } else if n == 5 { '5' } else if n == 6 { '6' } else if n == 7 { '7' }
    else if n == 8 { '8' } else if n == 9 { '9' } else if n == 10 { 'a' } else if n == 11 { 'b' }
    else if n == 12 { 'c' } else if n == 13 { 'd' } else if n == 14 { 'e' } else { 'f' }
}

fn escape_char_into(out: &mut Vec<char>, c: char)
    ensures
        final(out)@ == old(out)@ + escape_char(c),
{
    if c == '"' {
        out.push('\\');
        out.push('"');
        proof {
            assert(out@ =~= old(out)@ + escape_char(c));
        }
    } else if c == '\\' {
        out.push('\\');
        out.push('\\');
        proof {
            assert(out@ =~= old(out)@ + escape_char(c));
        }
    } else {
        let code = c as u32;
        if code < 32 {
            out.push('\\');
            out.push('u');
            out.push('0');
            out.push('0');
            out.push(hex_digit_exec(code / 16));
            out.push(hex_digit_exec(code % 16));
            proof {
                assert(out@ =~= old(out)@ + escape_char(c));
            }
        } else {
            out.push(c);
            proof {
                assert(out@ =~= old(out)@ + escape_char(c));
            }
        }
    }
}

proof fn lemma_escape_seq_snoc(s: Seq<char>, c: char)
    ensures
        escape_seq(s.push(c)) == escape_seq(s) + escape_char(c),
    decreases s.len(),
{
    if s.len() == 0 {
        assert(s.push(c) =~= seq![c]);
        assert(s.push(c).skip(1) =~= Seq::<char>::empty());
        assert(escape_seq(Seq::<char>::empty()) == Seq::<char>::empty());
        assert(escape_seq(s.push(c)) == escape_char(c) + Seq::<char>::empty());
        assert(s =~= Seq::<char>::empty());
        assert(escape_seq(s.push(c)) =~= escape_seq(s) + escape_char(c));
    } else {
        assert(s.push(c)[0] == s[0]);
        assert(s.push(c).skip(1) =~= s.skip(1).push(c));
        lemma_escape_seq_snoc(s.skip(1), c);
        assert(escape_seq(s.push(c)) == escape_char(s[0]) + escape_seq(s.skip(1).push(c)));
        assert(escape_seq(s.push(c)) == escape_char(s[0]) + (escape_seq(s.skip(1))
            + escape_char(c)));
        assert(escape_seq(s.push(c)) =~= escape_seq(s) + escape_char(c));
    }
}

fn quoted_into(out: &mut Vec<char>, s: &Vec<char>)
    ensures
        final(out)@ == old(out)@ + quoted(s@),
{
    out.push('"');
    let ghost base = out@;
    let mut i: usize = 0;
    while i < s.len()
        invariant
            i <= s.len(),
            out@ == base + escape_seq(s@.subrange(0, i as int)),
        decreases s.len() - i,
    {
        let ghost pre = s@.subrange(0, i as int);
        escape_char_into(out, s[i]);
        i = i + 1;
        proof {
            assert(s@.subrange(0, i as int) =~= pre.push(s@[i - 1]));
            lemma_escape_seq_snoc(pre, s@[i - 1]);
            assert(base + escape_seq(pre) + escape_char(s@[i - 1]) =~= base + escape_seq(
                s@.subrange(0, i as int),
            ));
        }
    }
    out.push('"');
    proof {
        assert(s@.subrange(0, s@.len() as int) =~= s@);
        assert(out@ =~= old(out)@ + quoted(s@));
    }
}

fn key_title_vec() -> (r: Vec<char>)
    ensures
        r@ == key_title(),
{
    let mut v: Vec<char> = Vec::new();
    v.push('t');
    v.push('i');
    v.push('t');
    v.push('l');
    v.push('e');
    proof {
        assert(v@ =~= key_title());
    }
    v
}

fn key_description_vec() -> (r: Vec<char>)
    ensures
        r@ == key_description(),
{
    let mut v: Vec<char> = Vec::new();
    v.push('d');
    v.push('e');
    v.push('s');
    v.push('c');
    v.push('r');
    v.push('i');
    v.push('p');
    v.push('t');
    v.push('i');
    v.push('o');
    v.push('n');
    proof {
        assert(v@ =~= key_description());
    }
    v
}

fn key_completed_vec() -> (r: Vec<char>)
    ensures
        r@ == key_completed(),
{
    let mut v: Vec<char> = Vec::new();
    v.push('c');
    v.push('o');
    v.push('m');
    v.push('p');
    v.push('l');
    v.push('e');
    v.push('t');
    v.push('e');
    v.push('d');
    proof {
        assert(v@ =~= key_completed());
    }
    v
}

fn lit_true_vec() -> (r: Vec<char>)
    ensures
        r@ == lit_true(),
{
    let mut v: Vec<char> = Vec::new();
    v.push('t');
    v.push('r');
    v.push('u');
    v.push('e');
    proof {
        assert(v@ =~= lit_true());
    }
    v
}

fn lit_false_vec() -> (r: Vec<char>)
    ensures
        r@ == lit_false(),
{
    let mut v: Vec<char> = Vec::new();
    v.push('f');
    v.push('a');
    v.push('l');
    v.push('s');
    v.push('e');
    proof {
        assert(v@ =~= lit_false());
    }
    v
}

fn encode_task_into(out: &mut Vec<char>, t: &Task)
    ensures
        final(out)@ == old(out)@ + encode_task(t@),
{
    out.push('{');
    let kt = key_title_vec();
    quoted_into(out, &kt);
    out.push(':');
    let title_chars = crate::text::chars_of(t.title.as_str());
    quoted_into(out, &title_chars);
    out.push(',');
    let kd = key_description_vec();
    quoted_into(out, &kd);
    out.push(':');
    let desc_chars = crate::text::chars_of(t.description.as_str());
    quoted_into(out, &desc_chars);
    out.push(',');
    let kc = key_completed_vec();
    quoted_into(out, &kc);
    out.push(':');
    let flag = if t.completed {
        lit_true_vec()
    } else {
        lit_false_vec()
    };
    quoted_into(out, &flag);
    out.push('}');
    proof {
        assert(out@ =~= old(out)@ + encode_task(t@));
    }
}

proof fn lemma_encode_rest_snoc(ts: Seq<TaskView>, t: TaskView)
    ensures
        encode_rest(ts.push(t)) == encode_rest(ts) + seq![','] + encode_task(t),
    decreases ts.len(),
{
    if ts.len() == 0 {
        assert(ts.push(t)[0] == t);
        assert(ts.push(t).skip(1) =~= Seq::<TaskView>::empty());
        assert(encode_rest(Seq::<TaskView>::empty()) == Seq::<char>::empty());
        assert(encode_rest(ts.push(t)) == seq![','] + encode_task(t) + Seq::<char>::empty());
        assert(ts =~= Seq::<TaskView>::empty());
        assert(encode_rest(ts.push(t)) =~= encode_rest(ts) + seq![','] + encode_task(t));
    } else {
        assert(ts.push(t)[0] == ts[0]);
        assert(ts.push(t).skip(1) =~= ts.skip(1).push(t));
        lemma_encode_rest_snoc(ts.skip(1), t);
        assert(encode_rest(ts.push(t)) == seq![','] + encode_task(ts[0]) + encode_rest(
            ts.skip(1).push(t),
        ));
        assert(encode_rest(ts.push(t)) == seq![','] + encode_task(ts[0]) + (encode_rest(ts.skip(1))
            + seq![','] + encode_task(t)));
        assert(encode_rest(ts.push(t)) =~= encode_rest(ts) + seq![','] + encode_task(t));
    }
}

/// The view of each task in a vector, in order.
pub open spec fn seq_views(ts: Seq<Task>) -> Seq<TaskView> {
    ts.map_values(|t: Task| t@)
}

// ---------------------------------------------------------------------------
// The grammar the reader accepts, as recursive spec functions. Each one
// consumes a prefix of its input and returns the parsed value together
// with the remaining text, or nothing when the input is malformed.
// ---------------------------------------------------------------------------

pub open spec fn is_hex_digit(c: char) -> bool {
    (48 <= c as u32 && c as u32 <= 57) || (97 <= c as u32 && c as u32 <= 102) || (65 <= c as u32
        && c as u32 <= 70)
}

pub open spec fn hex_val(c: char) -> int {
    if 48 <= c as u32 && c as u32 <= 57 {
        c as u32 - 48
    } else if 97 <= c as u32 && c as u32 <= 102 {
        c as u32 - 87
    } else if 65 <= c as u32 && c as u32 <= 70 {
        c as u32 - 55
    } else {
        0
    }
}

/// The character a one-letter escape stands for, if it is one.
pub open spec fn unescape_char(e: char) -> Option<char> {
    if e == '"' { Some('"') } else if e == '\\' { Some('\\') } else if e == '/' { Some('/') }
    else if e == 'n' { Some('\n') } else if e == 't' { Some('\t') } else if e == 'r' { Some('\r') }
    else if e == 'b' { Some('\u{0008}') } else if e == 'f' { Some('\u{000C}') } else { None }
}

/// Parses the inside of a string literal, after the opening quote, up to
/// and including the closing quote.
pub open spec fn sp_string_body(s: Seq<char>) -> Option<(Seq<char>, Seq<char>)>
    decreases s.len(),
{
    if s.len() == 0 {
        None
    } else if s[0] == '"' {
        Some((Seq::empty(), s.skip(1)))
    } else if s[0] == '\\' {
        if s.len() < 2 {
            None
        } else if s[1] == 'u' {
            if s.len() >= 6 && s[2] == '0' && s[3] == '0' && is_hex_digit(s[4]) && is_hex_digit(
                s[5],
            ) {
                match sp_string_body(s.skip(6)) {
                    Some(p) => Some(
                        (seq![((hex_val(s[4]) * 16 + hex_val(s[5])) as u8) as char] + p.0, p.1),
                    ),
                    None => None,
                }
            } else {
                None
            }
        } else {
            match unescape_char(s[1]) {
                Some(c) => match sp_string_body(s.skip(2)) {
                    Some(p) => Some((seq![c] + p.0, p.1)),
                    None => None,
                },
                None => None,
            }
        }
    } else {
        match sp_string_body(s.skip(1)) {
            Some(p) => Some((seq![s[0]] + p.0, p.1)),
            None => None,
        }
    }
}

pub open spec fn sp_string(s: Seq<char>) -> Option<(Seq<char>, Seq<char>)> {
    if s.len() > 0 && s[0] == '"' {
        sp_string_body(s.skip(1))
    } else {
        None
    }
}

/// A member value: its text, and whether it was a bare `true`/`false`
/// literal rather than a string.
pub open spec fn sp_value(s: Seq<char>) -> Option<((Seq<char>, bool), Seq<char>)> {
    if s.len() > 0 && s[0] == '"' {
        match sp_string_body(s.skip(1)) {
            Some(p) => Some(((p.0, false), p.1)),
            None => None,
        }
    } else if s.len() >= 4 && s.subrange(0, 4) == lit_true() {
        Some(((lit_true(), true), s.skip(4)))
    } else if s.len() >= 5 && s.subrange(0, 5) == lit_false() {
        Some(((lit_false(), true), s.skip(5)))
    } else {
        None
    }
}

/// One `"key":value` pair.
pub open spec fn sp_member(s: Seq<char>) -> Option<((Seq<char>, (Seq<char>, bool)), Seq<char>)> {
    match sp_string(s) {
        Some(kp) => {
            if kp.1.len() > 0 && kp.1[0] == ':' {
                match sp_value(kp.1.skip(1)) {
                    Some(vp) => Some(((kp.0, vp.0), vp.1)),
                    None => None,
                }
            } else {
                None
            }
        }
        None => None,
    }
}

/// The field with key `k` among three parsed members, scanned in order.
pub open spec fn field_of(
    k: Seq<char>,
    k1: Seq<char>,
    v1: (Seq<char>, bool),
    k2: Seq<char>,
    v2: (Seq<char>, bool),
    k3: Seq<char>,
    v3: (Seq<char>, bool),
) -> Option<(Seq<char>, bool)> {
    if k1 == k {
        Some(v1)
    } else if k2 == k {
        Some(v2)
    } else if k3 == k {
        Some(v3)
    } else {
        None
    }
}

/// Builds a task from three distinct members: the keys must be exactly
/// "title", "description" and "completed" in some order, title and
/// description must be strings, and the flag must read "true" or "false"
/// (as a string or as a bare literal).
pub open spec fn assemble(
    k1: Seq<char>,
    v1: (Seq<char>, bool),
    k2: Seq<char>,
    v2: (Seq<char>, bool),
    k3: Seq<char>,
    v3: (Seq<char>, bool),
) -> Option<TaskView> {
    if k1 != k2 && k1 != k3 && k2 != k3 {
        match (
            field_of(key_title(), k1, v1, k2, v2, k3, v3),
            field_of(key_description(), k1, v1, k2, v2, k3, v3),
            field_of(key_completed(), k1, v1, k2, v2, k3, v3),
        ) {
            (Some(t), Some(d), Some(c)) => {
                if !t.1 && !d.1 && (c.0 == lit_true() || c.0 == lit_false()) {
                    Some(TaskView { title: t.0, description: d.0, completed: c.0 == lit_true() })
                } else {
                    None
                }
            }
            _ => None,
        }
    } else {
        None
    }
}

/// One task object: three members between braces.
pub open spec fn sp_object(s: Seq<char>) -> Option<(TaskView, Seq<char>)> {
    if s.len() > 0 && s[0] == '{' {
        match sp_member(s.skip(1)) {
            Some(m1) => {
                if m1.1.len() > 0 && m1.1[0] == ',' {
                    match sp_member(m1.1.skip(1)) {
                        Some(m2) => {
                            if m2.1.len() > 0 && m2.1[0] == ',' {
                                match sp_member(m2.1.skip(1)) {
                                    Some(m3) => {
                                        if m3.1.len() > 0 && m3.1[0] == '}' {
                                            match assemble(
                                                m1.0.0,
                                                m1.0.1,
                                                m2.0.0,
                                                m2.0.1,
                                                m3.0.0,
                                                m3.0.1,
                                            ) {
                                                Some(t) => Some((t, m3.1.skip(1))),
                                                None => None,
                                            }
                                        } else {
                                            None
                                        }
                                    }
                                    None => None,
                                }
                            } else {
                                None
                            }
                        }
                        None => None,
                    }
                } else {
                    None
                }
            }
            None => None,
        }
    } else {
        None
    }
}

/// One or more objects separated by commas, up to and including the
/// closing bracket.
pub open spec fn sp_elems(s: Seq<char>) -> Option<(Seq<TaskView>, Seq<char>)>
    decreases s.len(),
{
    match sp_object(s) {
        Some(p) => {
            if p.1.len() > 0 && p.1[0] == ']' {
                Some((seq![p.0], p.1.skip(1)))
            } else if p.1.len() > 0 && p.1[0] == ',' && p.1.len() < s.len() {
                match sp_elems(p.1.skip(1)) {
                    Some(q) => Some((seq![p.0] + q.0, q.1)),
                    None => None,
                }
            } else {
                None
            }
        }
        None => None,
    }
}

/// The whole serialized form: a bracketed list of task objects, with
/// nothing after it.
pub open spec fn spec_parse(s: Seq<char>) -> Option<Seq<TaskView>> {
    if s.len() >= 1 && s[0] == '[' {
        if s.len() == 2 && s[1] == ']' {
            Some(Seq::empty())
        } else {
            match sp_elems(s.skip(1)) {
                Some(p) => if p.1.len() == 0 {
                    Some(p.0)
                } else {
                    None
                },
                None => None,
            }
        }
    } else {
        None
    }
}

/// Serializes a task list into its canonical JSON text.
pub fn encode_tasks(ts: &Vec<Task>) -> (r: String)
    ensures
        r@ == spec_encode(seq_views(ts@)),
{
    let ghost views = seq_views(ts@);
    let mut out: Vec<char> = Vec::new();
    out.push('[');
    if ts.len() > 0 {
        encode_task_into(&mut out, &ts[0]);
        let mut i: usize = 1;
        while i < ts.len()
            invariant
                1 <= i <= ts.len(),
                views == seq_views(ts@),
                views.len() == ts@.len(),
                out@ == seq!['['] + encode_task(views[0]) + encode_rest(views.subrange(1, i as int)),
            decreases ts.len() - i,
        {
            let ghost pre = views.subrange(1, i as int);
            out.push(',');
            encode_task_into(&mut out, &ts[i]);
            i = i + 1;
            proof {
                assert(views.subrange(1, i as int) =~= pre.push(views[i - 1]));
                lemma_encode_rest_snoc(pre, views[i - 1]);
                assert(out@ =~= seq!['['] + encode_task(views[0]) + encode_rest(
                    views.subrange(1, i as int),
                ));
            }
        }
        out.push(']');
        proof {
            assert(views.subrange(1, views.len() as int) =~= views.skip(1));
            assert(out@ =~= spec_encode(views));
        }
    } else {
        out.push(']');
        proof {
            assert(out@ =~= spec_encode(views));
        }
    }
    string_from_chars(&out)
}

// ---------------------------------------------------------------------------
// The executable parser. Each function mirrors one spec function above
// and is proved to return exactly what it does.
// ---------------------------------------------------------------------------

proof fn lemma_skip_skip(s: Seq<char>, a: int, b: int)
    requires
        0 <= a,
        0 <= b,
        a + b <= s.len(),
    ensures
        s.skip(a).skip(b) == s.skip(a + b),
{
    assert(s.skip(a).skip(b) =~= s.skip(a + b));
}

fn is_hex_exec(c: char) -> (r: bool)
    ensures
        r == is_hex_digit(c),
{
    let n = c as u32;
    (48 <= n && n <= 57) || (97 <= n && n <= 102) || (65 <= n && n <= 70)
}

fn hex_val_exec(c: char) -> (r: u32)
    requires
        is_hex_digit(c),
    ensures
        r as int == hex_val(c),
        r < 16,
{
    let n = c as u32;
    if n <= 57 {
        n - 48
    } else if 97 <= n {
        n - 87
    } else {
        n - 55
    }
}

fn unescape_exec(e: char) -> (r: Option<char>)
    ensures
        r == unescape_char(e),
{
    if e == '"' { Some('"') } else if e == '\\' { Some('\\') } else if e == '/' { Some('/') }
    else if e == 'n' { Some('\n') } else if e == 't' { Some('\t') } else if e == 'r' { Some('\r') }
    else if e == 'b' { Some('\u{0008}') } else if e == 'f' { Some('\u{000C}') } else { None }
}

fn parse_string_body(v: &Vec<char>, i: usize) -> (r: Option<(Vec<char>, usize)>)
    requires
        i <= v@.len(),
    ensures
        (match r {
            Some(p) => i < p.1 <= v@.len() && sp_string_body(v@.skip(i as int)) == Some(
                (p.0@, v@.skip(p.1 as int)),
            ),
            None => sp_string_body(v@.skip(i as int)) is None,
        }),
    decreases v@.len() - i,
{
    let ghost s = v@.skip(i as int);
    if i == v.len() {
        return None;
    }
    let c = v[i];
    proof {
        assert(s[0] == v@[i as int]);
    }
    if c == '"' {
        proof {
            lemma_skip_skip(v@, i as int, 1);
        }
        let cs: Vec<char> = Vec::new();
        proof {
            assert(cs@ =~= Seq::<char>::empty());
        }
        return Some((cs, i + 1));
    }
    if c == '\\' {
        if i + 1 == v.len() {
            return None;
        }
        let e = v[i + 1];
        proof {
            assert(s[1] == v@[i as int + 1]);
        }
        if e == 'u' {
            if v.len() - i >= 6 && v[i + 2] == '0' && v[i + 3] == '0' && is_hex_exec(v[i + 4])
                && is_hex_exec(v[i + 5]) {
                proof {
                    assert(s.len() >= 6);
                    assert(s[2] == v@[i as int + 2]);
                    assert(s[3] == v@[i as int + 3]);
                    assert(s[4] == v@[i as int + 4]);
                    assert(s[5] == v@[i as int + 5]);
                }
                let code: u32 = hex_val_exec(v[i + 4]) * 16 + hex_val_exec(v[i + 5]);
                let ch: char = (code as u8) as char;
                match parse_string_body(v, i + 6) {
                    Some(p) => {
                        let mut cs = p.0;
                        let ghost tail = cs@;
                        cs.insert(0, ch);
                        proof {
                            lemma_skip_skip(v@, i as int, 6);
                            assert(cs@ =~= seq![ch] + tail);
                        }
                        Some((cs, p.1))
                    }
                    None => {
                        proof {
                            lemma_skip_skip(v@, i as int, 6);
                        }
                        None
                    }
                }
            } else {
                proof {
                    if v.len() - i >= 6 {
                        assert(s[2] == v@[i as int + 2]);
                        assert(s[3] == v@[i as int + 3]);
                        assert(s[4] == v@[i as int + 4]);
                        assert(s[5] == v@[i as int + 5]);
                    } else {
                        assert(s.len() < 6);
                    }
                }
                None
            }
        } else {
            match unescape_exec(e) {
                Some(ch) => {
                    match parse_string_body(v, i + 2) {
                        Some(p) => {
                            let mut cs = p.0;
                            let ghost tail = cs@;
                            cs.insert(0, ch);
                            proof {
                                lemma_skip_skip(v@, i as int, 2);
                                assert(cs@ =~= seq![ch] + tail);
                            }
                            Some((cs, p.1))
                        }
                        None => {
                            proof {
                                lemma_skip_skip(v@, i as int, 2);
                            }
                            None
                        }
                    }
                }
                None => None,
            }
        }
    } else {
        match parse_string_body(v, i + 1) {
            Some(p) => {
                let mut cs = p.0;
                let ghost tail = cs@;
                cs.insert(0, c);
                proof {
                    lemma_skip_skip(v@, i as int, 1);
                    assert(cs@ =~= seq![c] + tail);
                }
                Some((cs, p.1))
            }
            None => {
                proof {
                    lemma_skip_skip(v@, i as int, 1);
                }
                None
            }
        }
    }
}

fn parse_string(v: &Vec<char>, i: usize) -> (r: Option<(Vec<char>, usize)>)
    requires
        i <= v@.len(),
    ensures
        (match r {
            Some(p) => i < p.1 <= v@.len() && sp_string(v@.skip(i as int)) == Some(
                (p.0@, v@.skip(p.1 as int)),
            ),
            None => sp_string(v@.skip(i as int)) is None,
        }),
{
    if i < v.len() && v[i] == '"' {
        proof {
            assert(v@.skip(i as int)[0] == v@[i as int]);
            lemma_skip_skip(v@, i as int, 1);
        }
        parse_string_body(v, i + 1)
    } else {
        proof {
            if i < v.len() {
                assert(v@.skip(i as int)[0] == v@[i as int]);
            }
        }
        None
    }
}

/// Whether the text at `i` begins with the bare literal `true`.
fn starts_lit_true(v: &Vec<char>, i: usize) -> (r: bool)
    requires
        i <= v@.len(),
    ensures
        r == (v@.skip(i as int).len() >= 4 && v@.skip(i as int).subrange(0, 4) == lit_true()),
{
    if v.len() - i >= 4 {
        let ghost s = v@.skip(i as int);
        proof {
            assert(s.subrange(0, 4)[0] == v@[i as int]);
            assert(s.subrange(0, 4)[1] == v@[i as int + 1]);
            assert(s.subrange(0, 4)[2] == v@[i as int + 2]);
            assert(s.subrange(0, 4)[3] == v@[i as int + 3]);
        }
        let r = v[i] == 't' && v[i + 1] == 'r' && v[i + 2] == 'u' && v[i + 3] == 'e';
        proof {
            if r {
                assert(s.subrange(0, 4) =~= lit_true());
            }
        }
        r
    } else {
        false
    }
}

/// Whether the text at `i` begins with the bare literal `false`.
fn starts_lit_false(v: &Vec<char>, i: usize) -> (r: bool)
    requires
        i <= v@.len(),
    ensures
        r == (v@.skip(i as int).len() >= 5 && v@.skip(i as int).subrange(0, 5) == lit_false()),
{
    if v.len() - i >= 5 {
        let ghost s = v@.skip(i as int);
        proof {
            assert(s.subrange(0, 5)[0] == v@[i as int]);
            assert(s.subrange(0, 5)[1] == v@[i as int + 1]);
            assert(s.subrange(0, 5)[2] == v@[i as int + 2]);
            assert(s.subrange(0, 5)[3] == v@[i as int + 3]);
            assert(s.subrange(0, 5)[4] == v@[i as int + 4]);
        }
        let r = v[i] == 'f' && v[i + 1] == 'a' && v[i + 2] == 'l' && v[i + 3] == 's' && v[i + 4]
            == 'e';
        proof {
            if r {
                assert(s.subrange(0, 5) =~= lit_false());
            }
        }
        r
    } else {
        false
    }
}

fn parse_value(v: &Vec<char>, i: usize) -> (r: Option<((Vec<char>, bool), usize)>)
    requires
        i <= v@.len(),
    ensures
        (match r {
            Some(p) => i < p.1 <= v@.len() && sp_value(v@.skip(i as int)) == Some(
                ((p.0.0@, p.0.1), v@.skip(p.1 as int)),
            ),
            None => sp_value(v@.skip(i as int)) is None,
        }),
{
    let ghost s = v@.skip(i as int);
    if i < v.len() && v[i] == '"' {
        proof {
            assert(s[0] == v@[i as int]);
            lemma_skip_skip(v@, i as int, 1);
        }
        match parse_string_body(v, i + 1) {
            Some(p) => Some(((p.0, false), p.1)),
            None => None,
        }
    } else {
        proof {
            if i < v.len() {
                assert(s[0] == v@[i as int]);
            }
        }
        if starts_lit_true(v, i) {
            proof {
                lemma_skip_skip(v@, i as int, 4);
            }
            Some(((lit_true_vec(), true), i + 4))
        } else if starts_lit_false(v, i) {
            proof {
                lemma_skip_skip(v@, i as int, 5);
            }
            Some(((lit_false_vec(), true), i + 5))
        } else {
            None
        }
    }
}

fn parse_member(v: &Vec<char>, i: usize) -> (r: Option<((Vec<char>, (Vec<char>, bool)), usize)>)
    requires
        i <= v@.len(),
    ensures
        (match r {
            Some(p) => i < p.1 <= v@.len() && sp_member(v@.skip(i as int)) == Some(
                ((p.0.0@, (p.0.1.0@, p.0.1.1)), v@.skip(p.1 as int)),
            ),
            None => sp_member(v@.skip(i as int)) is None,
        }),
{
    match parse_string(v, i) {
        Some(kp) => {
            let j = kp.1;
            if j < v.len() && v[j] == ':' {
                proof {
                    assert(v@.skip(j as int)[0] == v@[j as int]);
                    lemma_skip_skip(v@, j as int, 1);
                }
                match parse_value(v, j + 1) {
                    Some(vp) => Some(((kp.0, vp.0), vp.1)),
                    None => None,
                }
            } else {
                proof {
                    if j < v.len() {
                        assert(v@.skip(j as int)[0] == v@[j as int]);
                    }
                }
                None
            }
        }
        None => None,
    }
}

/// Whether two character vectors hold the same text.
fn chars_eq(a: &Vec<char>, b: &Vec<char>) -> (r: bool)
    ensures
        r == (a@ == b@),
{
    if a.len() != b.len() {
        return false;
    }
    let mut i: usize = 0;
    while i < a.len()
        invariant
            a@.len() == b@.len(),
            i <= a@.len(),
            forall|k: int| 0 <= k < i ==> a@[k] == b@[k],
        decreases a@.len() - i,
    {
        if a[i] != b[i] {
            return false;
        }
        i = i + 1;
    }
    proof {
        assert(a@ =~= b@);
    }
    true
}

fn clone_chars(v: &Vec<char>) -> (r: Vec<char>)
    ensures
        r@ == v@,
{
    let mut r: Vec<char> = Vec::new();
    let mut i: usize = 0;
    while i < v.len()
        invariant
            i <= v@.len(),
            r@ == v@.subrange(0, i as int),
        decreases v@.len() - i,
    {
        r.push(v[i]);
        i = i + 1;
        proof {
            assert(r@ =~= v@.subrange(0, i as int));
        }
    }
    proof {
        assert(r@ =~= v@);
    }
    r
}

fn assemble_exec(
    k1: &Vec<char>,
    v1: &(Vec<char>, bool),
    k2: &Vec<char>,
    v2: &(Vec<char>, bool),
    k3: &Vec<char>,
    v3: &(Vec<char>, bool),
) -> (r: Option<Task>)
    ensures
        (match r {
            Some(t) => assemble(k1@, (v1.0@, v1.1), k2@, (v2.0@, v2.1), k3@, (v3.0@, v3.1))
                == Some(t@),
            None => assemble(k1@, (v1.0@, v1.1), k2@, (v2.0@, v2.1), k3@, (v3.0@, v3.1)) is None,
        }),
{
    if chars_eq(k1, k2) || chars_eq(k1, k3) || chars_eq(k2, k3) {
        return None;
    }
    let kt = key_title_vec();
    let kd = key_description_vec();
    let kc = key_completed_vec();
    let tv: Option<&(Vec<char>, bool)> = if chars_eq(k1, &kt) {
        Some(v1)
    } else if chars_eq(k2, &kt) {
        Some(v2)
    } else if chars_eq(k3, &kt) {
        Some(v3)
    } else {
        None
    };
    let dv: Option<&(Vec<char>, bool)> = if chars_eq(k1, &kd) {
        Some(v1)
    } else if chars_eq(k2, &kd) {
        Some(v2)
    } else if chars_eq(k3, &kd) {
        Some(v3)
    } else {
        None
    };
    let cv: Option<&(Vec<char>, bool)> = if chars_eq(k1, &kc) {
        Some(v1)
    } else if chars_eq(k2, &kc) {
        Some(v2)
    } else if chars_eq(k3, &kc) {
        Some(v3)
    } else {
        None
    };
    match (tv, dv, cv) {
        (Some(t), Some(d), Some(c)) => {
            if !t.1 && !d.1 {
                let ltr = lit_true_vec();
                let lfa = lit_false_vec();
                let is_true = chars_eq(&c.0, &ltr);
                let is_false = chars_eq(&c.0, &lfa);
                if is_true || is_false {
                    Some(
                        Task {
                            title: string_from_chars(&t.0),
                            description: string_from_chars(&d.0),
                            completed: is_true,
                        },
                    )
                } else {
                    None
                }
            } else {
                None
            }
        }
        _ => None,
    }
}

fn parse_object(v: &Vec<char>, i: usize) -> (r: Option<(Task, usize)>)
    requires
        i <= v@.len(),
    ensures
        (match r {
            Some(p) => i < p.1 <= v@.len() && sp_object(v@.skip(i as int)) == Some(
                (p.0@, v@.skip(p.1 as int)),
            ),
            None => sp_object(v@.skip(i as int)) is None,
        }),
{
    if i < v.len() && v[i] == '{' {
        proof {
            assert(v@.skip(i as int)[0] == v@[i as int]);
            lemma_skip_skip(v@, i as int, 1);
        }
        match parse_member(v, i + 1) {
            Some(m1) => {
                let j1 = m1.1;
                if j1 < v.len() && v[j1] == ',' {
                    proof {
                        assert(v@.skip(j1 as int)[0] == v@[j1 as int]);
                        lemma_skip_skip(v@, j1 as int, 1);
                    }
                    match parse_member(v, j1 + 1) {
                        Some(m2) => {
                            let j2 = m2.1;
                            if j2 < v.len() && v[j2] == ',' {
                                proof {
                                    assert(v@.skip(j2 as int)[0] == v@[j2 as int]);
                                    lemma_skip_skip(v@, j2 as int, 1);
                                }
                                match parse_member(v, j2 + 1) {
                                    Some(m3) => {
                                        let j3 = m3.1;
                                        if j3 < v.len() && v[j3] == '}' {
                                            proof {
                                                assert(v@.skip(j3 as int)[0] == v@[j3 as int]);
                                                lemma_skip_skip(v@, j3 as int, 1);
                                            }
                                            match assemble_exec(
                                                &m1.0.0,
                                                &m1.0.1,
                                                &m2.0.0,
                                                &m2.0.1,
                                                &m3.0.0,
                                                &m3.0.1,
                                            ) {
                                                Some(t) => Some((t, j3 + 1)),
                                                None => None,
                                            }
                                        } else {
                                            proof {
                                                if j3 < v.len() {
                                                    assert(v@.skip(j3 as int)[0] == v@[
                                                        j3 as int]);
                                                }
                                            }
                                            None
                                        }
                                    }
                                    None => None,
                                }
                            } else {
                                proof {
                                    if j2 < v.len() {
                                        assert(v@.skip(j2 as int)[0] == v@[j2 as int]);
                                    }
                                }
                                None
                            }
                        }
                        None => None,
                    }
                } else {
                    proof {
                        if j1 < v.len() {
                            assert(v@.skip(j1 as int)[0] == v@[j1 as int]);
                        }
                    }
                    None
                }
            }
            None => None,
        }
    } else {
        proof {
            if i < v.len() {
                assert(v@.skip(i as int)[0] == v@[i as int]);
            }
        }
        None
    }
}

fn parse_elems(v: &Vec<char>, i: usize) -> (r: Option<(Vec<Task>, usize)>)
    requires
        i <= v@.len(),
    ensures
        (match r {
            Some(p) => i < p.1 <= v@.len() && sp_elems(v@.skip(i as int)) == Some(
                (seq_views(p.0@), v@.skip(p.1 as int)),
            ),
            None => sp_elems(v@.skip(i as int)) is None,
        }),
    decreases v@.len() - i,
{
    match parse_object(v, i) {
        Some(p) => {
            let j = p.1;
            if j < v.len() && v[j] == ']' {
                proof {
                    assert(v@.skip(j as int)[0] == v@[j as int]);
                    lemma_skip_skip(v@, j as int, 1);
                }
                let mut ts: Vec<Task> = Vec::new();
                let ghost tview = p.0@;
                ts.push(p.0);
                proof {
                    assert(seq_views(ts@) =~= seq![tview]);
                }
                Some((ts, j + 1))
            } else if j < v.len() && v[j] == ',' {
                proof {
                    assert(v@.skip(j as int)[0] == v@[j as int]);
                    lemma_skip_skip(v@, j as int, 1);
                    assert(v@.skip(j as int).len() < v@.skip(i as int).len());
                }
                match parse_elems(v, j + 1) {
                    Some(q) => {
                        let mut ts = q.0;
                        let ghost tail = ts@;
                        let ghost tview = p.0@;
                        ts.insert(0, p.0);
                        proof {
                            assert(seq_views(ts@) =~= seq![tview] + seq_views(tail));
                        }
                        Some((ts, q.1))
                    }
                    None => None,
                }
            } else {
                proof {
                    if j < v.len() {
                        assert(v@.skip(j as int)[0] == v@[j as int]);
                    }
                }
                None
            }
        }
        None => None,
    }
}

/// Parses a whole serialized task list; returns nothing when the text is
/// not in the accepted form.
pub fn parse_tasks(v: &Vec<char>) -> (r: Option<Vec<Task>>)
    ensures
        (match r {
            Some(ts) => spec_parse(v@) == Some(seq_views(ts@)),
            None => spec_parse(v@) is None,
        }),
{
    if v.len() >= 1 && v[0] == '[' {
        if v.len() == 2 && v[1] == ']' {
            let ts: Vec<Task> = Vec::new();
            proof {
                assert(seq_views(ts@) =~= Seq::<TaskView>::empty());
            }
            Some(ts)
        } else {
            match parse_elems(v, 1) {
                Some(p) => {
                    if p.1 == v.len() {
                        proof {
                            assert(v@.skip(p.1 as int).len() == 0);
                            assert(v@.skip(p.1 as int) =~= Seq::<char>::empty());
                        }
                        Some(p.0)
                    } else {
                        None
                    }
                }
                None => None,
            }
        }
    } else {
        None
    }
}

// ---------------------------------------------------------------------------
// Round trip: parsing the canonical encoding of any task list gives that
// list back.
// ---------------------------------------------------------------------------

proof fn lemma_hex_digit(n: int)
    requires
        0 <= n < 16,
    ensures
        is_hex_digit(hex_digit(n)),
        hex_val(hex_digit(n)) == n,
{
}

proof fn lemma_rt_string_body(x: Seq<char>, rest: Seq<char>)
    ensures
        sp_string_body(escape_seq(x) + seq!['"'] + rest) == Some((x, rest)),
    decreases x.len(),
{
    let s = escape_seq(x) + seq!['"'] + rest;
    if x.len() == 0 {
        assert(escape_seq(x) == Seq::<char>::empty());
        assert(s =~= seq!['"'] + rest);
        assert(s[0] == '"');
        assert(s.skip(1) =~= rest);
        assert(x =~= Seq::<char>::empty());
    } else {
        let c = x[0];
        let xs = x.skip(1);
        let tail = escape_seq(xs) + seq!['"'] + rest;
        assert(escape_seq(x) == escape_char(c) + escape_seq(xs));
        assert(s =~= escape_char(c) + tail);
        lemma_rt_string_body(xs, rest);
        assert(seq![c] + xs =~= x);
        if c == '"' {
            assert(s[0] == '\\');
            assert(s[1] == '"');
            assert(s.len() >= 2);
            assert(unescape_char(s[1]) == Some('"'));
            assert(s.skip(2) =~= tail);
        } else if c == '\\' {
            assert(s[0] == '\\');
            assert(s[1] == '\\');
            assert(unescape_char(s[1]) == Some('\\'));
            assert(s.skip(2) =~= tail);
        } else if (c as u32) < 32 {
            let cu = (c as u32) as int;
            let h1 = hex_digit(cu / 16);
            let h2 = hex_digit(cu % 16);
            assert(escape_char(c) == seq!['\\', 'u', '0', '0', h1, h2]);
            assert(s[0] == '\\');
            assert(s[1] == 'u');
            assert(s[2] == '0');
            assert(s[3] == '0');
            assert(s[4] == h1);
            assert(s[5] == h2);
            assert(s.len() >= 6);
            lemma_hex_digit(cu / 16);
            lemma_hex_digit(cu % 16);
            assert(cu == 16 * (cu / 16) + cu % 16);
            assert(hex_val(s[4]) * 16 + hex_val(s[5]) == cu);
            let ch = (cu as u8) as char;
            assert(ch as u32 == c as u32);
            vstd::utf8::char_u32_cast(c, c as u32);
            vstd::utf8::char_u32_cast(ch, ch as u32);
            assert(ch == c);
            assert(s.skip(6) =~= tail);
        } else {
            assert(s[0] == c);
            assert(s.skip(1) =~= tail);
        }
    }
}

proof fn lemma_rt_string(x: Seq<char>, rest: Seq<char>)
    ensures
        sp_string(quoted(x) + rest) == Some((x, rest)),
{
    let s = quoted(x) + rest;
    assert(s[0] == '"');
    assert(s.skip(1) =~= escape_seq(x) + seq!['"'] + rest);
    lemma_rt_string_body(x, rest);
}

proof fn lemma_rt_value(x: Seq<char>, rest: Seq<char>)
    ensures
        sp_value(quoted(x) + rest) == Some(((x, false), rest)),
{
    let s = quoted(x) + rest;
    assert(s[0] == '"');
    assert(s.skip(1) =~= escape_seq(x) + seq!['"'] + rest);
    lemma_rt_string_body(x, rest);
}

proof fn lemma_rt_member(k: Seq<char>, x: Seq<char>, rest: Seq<char>)
    ensures
        sp_member(quoted(k) + seq![':'] + quoted(x) + rest) == Some(((k, (x, false)), rest)),
{
    let s = quoted(k) + seq![':'] + quoted(x) + rest;
    let rest1 = seq![':'] + quoted(x) + rest;
    assert(s =~= quoted(k) + rest1);
    lemma_rt_string(k, rest1);
    assert(rest1[0] == ':');
    assert(rest1.skip(1) =~= quoted(x) + rest);
    lemma_rt_value(x, rest);
}

#[verifier::rlimit(80)]
proof fn lemma_rt_object(t: TaskView, rest: Seq<char>)
    ensures
        sp_object(encode_task(t) + rest) == Some((t, rest)),
{
    let s = encode_task(t) + rest;
    let vc = if t.completed { lit_true() } else { lit_false() };
    let rest_c = seq!['}'] + rest;
    let rest_b = seq![','] + quoted(key_completed()) + seq![':'] + quoted(vc) + rest_c;
    let rest_a = seq![','] + quoted(key_description()) + seq![':'] + quoted(t.description)
        + rest_b;
    assert(s[0] == '{');
    assert(s.skip(1) =~= quoted(key_title()) + seq![':'] + quoted(t.title) + rest_a);
    lemma_rt_member(key_title(), t.title, rest_a);
    assert(rest_a[0] == ',');
    assert(rest_a.skip(1) =~= quoted(key_description()) + seq![':'] + quoted(t.description)
        + rest_b);
    lemma_rt_member(key_description(), t.description, rest_b);
    assert(rest_b[0] == ',');
    assert(rest_b.skip(1) =~= quoted(key_completed()) + seq![':'] + quoted(vc) + rest_c);
    lemma_rt_member(key_completed(), vc, rest_c);
    assert(rest_c[0] == '}');
    assert(rest_c.skip(1) =~= rest);
    assert(key_title().len() == 5);
    assert(key_description().len() == 11);
    assert(key_completed().len() == 9);
    assert(lit_true().len() == 4);
    assert(lit_false().len() == 5);
    let built = assemble(
        key_title(),
        (t.title, false),
        key_description(),
        (t.description, false),
        key_completed(),
        (vc, false),
    );
    assert(built == Some(t));
}

#[verifier::rlimit(80)]
proof fn lemma_rt_elems(ts: Seq<TaskView>, rest: Seq<char>)
    requires
        ts.len() >= 1,
    ensures
        sp_elems(encode_task(ts[0]) + encode_rest(ts.skip(1)) + seq![']'] + rest) == Some(
            (ts, rest),
        ),
    decreases ts.len(),
{
    let s = encode_task(ts[0]) + encode_rest(ts.skip(1)) + seq![']'] + rest;
    let rest_e = encode_rest(ts.skip(1)) + seq![']'] + rest;
    assert(s =~= encode_task(ts[0]) + rest_e);
    lemma_rt_object(ts[0], rest_e);
    assert(encode_task(ts[0]).len() >= 1);
    if ts.len() == 1 {
        assert(ts.skip(1) =~= Seq::<TaskView>::empty());
        assert(encode_rest(ts.skip(1)) == Seq::<char>::empty());
        assert(rest_e =~= seq![']'] + rest);
        assert(rest_e[0] == ']');
        assert(rest_e.skip(1) =~= rest);
        assert(seq![ts[0]] =~= ts);
    } else {
        let ts1 = ts.skip(1);
        assert(ts1.len() >= 1);
        assert(encode_rest(ts1) == seq![','] + encode_task(ts1[0]) + encode_rest(ts1.skip(1)));
        assert(rest_e[0] == ',');
        assert(rest_e.len() < s.len());
        lemma_rt_elems(ts1, rest);
        assert(rest_e.skip(1) =~= encode_task(ts1[0]) + encode_rest(ts1.skip(1)) + seq![']']
            + rest);
        assert(seq![ts[0]] + ts1 =~= ts);
    }
}

/// Round trip: the canonical serialized form of any task list parses back
/// to exactly that list, whatever its titles and descriptions hold.
pub proof fn lemma_round_trip(ts: Seq<TaskView>)
    ensures
        spec_parse(spec_encode(ts)) == Some(ts),
{
    let s = spec_encode(ts);
    if ts.len() == 0 {
        assert(s == seq!['[', ']']);
        assert(s[0] == '[');
        assert(s[1] == ']');
    } else {
        assert(s[0] == '[');
        assert(s[1] == '{');
        assert(s.len() > 2 || s[1] != ']');
        lemma_rt_elems(ts, Seq::<char>::empty());
        assert(s.skip(1) =~= encode_task(ts[0]) + encode_rest(ts.skip(1)) + seq![']']
            + Seq::<char>::empty());
        assert(sp_elems(s.skip(1)) == Some((ts, Seq::<char>::empty())));
    }
}

} // verus!
