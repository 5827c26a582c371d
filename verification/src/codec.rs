//! The persistence format: a JSON object `{"tasks":[...]}` holding one
//! object per task, rendered and parsed character by character.

use crate::num::dec_digits;
use crate::num::digit_char;
use crate::num::digit_val;
use crate::num::is_digit;
use crate::num::push_dec_digits;
use crate::store::SpecTask;
use crate::store::Task;
use crate::store::TodoList;
use vstd::prelude::*;
use vstd::string::StrSliceExecFns;

verus! {

/// The opening of the store object, `{"tasks":[`.
pub open spec fn lit_store_open() -> Seq<char> {
    seq!['{', '"', 't', 'a', 's', 'k', 's', '"', ':', '[']
}

/// The opening of a task object, `{"id":`.
pub open spec fn lit_obj_open() -> Seq<char> {
    seq!['{', '"', 'i', 'd', '"', ':']
}

/// The title field header with its opening quote, `,"title":"`.
pub open spec fn lit_title() -> Seq<char> {
    seq![',', '"', 't', 'i', 't', 'l', 'e', '"', ':', '"']
}

/// The completion field header, `,"completed":`.
pub open spec fn lit_completed() -> Seq<char> {
    seq![',', '"', 'c', 'o', 'm', 'p', 'l', 'e', 't', 'e', 'd', '"', ':']
}

/// The characters of `true`.
pub open spec fn lit_true() -> Seq<char> {
    seq!['t', 'r', 'u', 'e']
}

/// The characters of `false`.
pub open spec fn lit_false() -> Seq<char> {
    seq!['f', 'a', 'l', 's', 'e']
}

/// Whether the characters of `lit` stand at position `i` of `s`.
pub open spec fn lit_at(s: Seq<char>, i: int, lit: Seq<char>) -> bool {
    0 <= i && i + lit.len() <= s.len() && s.subrange(i, i + lit.len() as int) == lit
}

/// Whether `c` is a hexadecimal digit character.
pub open spec fn is_hex(c: char) -> bool {
    is_digit(c) || (97 <= c as u32 && c as u32 <= 102) || (65 <= c as u32 && c as u32 <= 70)
}

/// The value of a hexadecimal digit character.
pub open spec fn hex_val(c: char) -> nat {
    if is_digit(c) {
        digit_val(c)
    } else if 97 <= c as u32 && c as u32 <= 102 {
        (c as u32 - 87) as nat
    } else {
        (c as u32 - 55) as nat
    }
}

/// The lower-case hexadecimal digit character for a value below sixteen.
pub open spec fn hex_digit_char(d: nat) -> char {
    if d < 10 {
        digit_char(d)
    } else if d == 10 {
        'a'
    } else if d == 11 {
        'b'
    } else if d == 12 {
        'c'
    } else if d == 13 {
        'd'
    } else if d == 14 {
        'e'
    } else {
        'f'
    }
}

/// The JSON escape of one character: quote and backslash get a backslash,
/// control characters become `\u00XX`, everything else stands as itself.
pub open spec fn esc_char(c: char) -> Seq<char> {
    if c == '"' {
        seq!['\\', '"']
    } else if c == '\\' {
        seq!['\\', '\\']
    } else if (c as u32) < 32 {
        seq![
            '\\',
            'u',
            '0',
            '0',
            hex_digit_char((c as u32 / 16) as nat),
            hex_digit_char((c as u32 % 16) as nat),
        ]
    } else {
        seq![c]
    }
}

/// The JSON escape of a whole string body.
pub open spec fn esc_string(t: Seq<char>) -> Seq<char>
    decreases t.len(),
{
    if t.len() == 0 {
        Seq::empty()
    } else {
        esc_char(t[0]) + esc_string(t.drop_first())
    }
}

/// The JSON object for one task.
pub open spec fn spec_render_task(t: SpecTask) -> Seq<char> {
    lit_obj_open() + dec_digits(t.id as nat) + lit_title() + esc_string(t.title) + seq!['"']
        + lit_completed() + (if t.completed {
        lit_true()
    } else {
        lit_false()
    }) + seq!['}']
}

/// The comma-separated JSON objects of a task sequence.
pub open spec fn spec_render_tasks(v: Seq<SpecTask>) -> Seq<char>
    decreases v.len(),
{
    if v.len() == 0 {
        Seq::empty()
    } else if v.len() == 1 {
        spec_render_task(v[0])
    } else {
        spec_render_tasks(v.drop_last()) + seq![','] + spec_render_task(v.last())
    }
}

/// The JSON document for a whole store.
pub open spec fn spec_render_store(v: Seq<SpecTask>) -> Seq<char> {
    lit_store_open() + spec_render_tasks(v) + seq![']', '}']
}

/// Appending one escaped character extends the escaped body.
pub proof fn lemma_esc_string_push(a: Seq<char>, c: char)
    ensures
        esc_string(a.push(c)) =~= esc_string(a) + esc_char(c),
    decreases a.len(),
{
    if a.len() == 0 {
        assert(a.push(c)[0] == c);
        assert(a.push(c).drop_first() =~= Seq::<char>::empty());
        assert(esc_string(Seq::<char>::empty()) =~= Seq::<char>::empty());
        assert(esc_string(a) =~= Seq::<char>::empty());
        assert(esc_string(a.push(c)) =~= esc_char(c) + Seq::<char>::empty());
    } else {
        lemma_esc_string_push(a.drop_first(), c);
        assert(a.push(c)[0] == a[0]);
        assert(a.push(c).drop_first() =~= a.drop_first().push(c));
        assert(esc_string(a.push(c)) =~= esc_char(a[0]) + (esc_string(a.drop_first())
            + esc_char(c)));
    }
}

/// A nonempty task sequence renders as its first task, a comma where more
/// follow, and the rendering of the rest.
pub proof fn lemma_render_tasks_cons(v: Seq<SpecTask>)
    requires
        v.len() >= 2,
    ensures
        spec_render_tasks(v) =~= spec_render_task(v[0]) + seq![','] + spec_render_tasks(
            v.drop_first(),
        ),
    decreases v.len(),
{
    if v.len() == 2 {
        assert(v.drop_last() =~= seq![v[0]]);
        assert(v.drop_first() =~= seq![v[1]]);
        assert(spec_render_tasks(seq![v[0]]) == spec_render_task(v[0]));
        assert(spec_render_tasks(seq![v[1]]) == spec_render_task(v[1]));
        assert(spec_render_tasks(v) =~= spec_render_task(v[0]) + seq![','] + spec_render_tasks(
            v.drop_first(),
        ));
    } else {
        lemma_render_tasks_cons(v.drop_last());
        assert(v.drop_last()[0] == v[0]);
        assert(v.drop_last().drop_first() =~= v.drop_first().drop_last());
        assert(v.drop_first().last() == v.last());
        assert(v.drop_first().len() >= 2);
        assert(spec_render_tasks(v.drop_first()) == spec_render_tasks(v.drop_first().drop_last())
            + seq![','] + spec_render_task(v.drop_first().last()));
        assert(spec_render_tasks(v) =~= spec_render_task(v[0]) + seq![','] + spec_render_tasks(
            v.drop_first(),
        ));
    }
}

/// Relies on String's FromIterator for char: collecting characters yields
/// the string of exactly those characters in order.
#[verifier::external_body]
pub(crate) fn chars_to_string(v: Vec<char>) -> (s: String)
    ensures
        s@ == v@,
{
    v.into_iter().collect()
}

/// Relies on char::from_u32: it returns Some exactly for Unicode scalar
/// values (codes outside the surrogate range and at most 0x10FFFF), and the
/// character returned carries that code.
pub assume_specification [ char::from_u32 ](v: u32) -> (r: Option<char>)
    ensures
        r is Some <==> (v < 0xD800 || (0xE000 <= v && v <= 0x10FFFF)),
        r matches Some(c) ==> c as u32 == v,
;

/// The lower-case hexadecimal digit character for a value below sixteen.
fn hex_digit_char_of(d: u32) -> (c: char)
    requires
        d < 16,
    ensures
        c == hex_digit_char(d as nat),
{
    if d < 10 {
        crate::num::digit_char_of(d)
    } else if d == 10 {
        'a'
    } else if d == 11 {
        'b'
    } else if d == 12 {
        'c'
    } else if d == 13 {
        'd'
    } else if d == 14 {
        'e'
    } else {
        'f'
    }
}

/// Appends the JSON escape of one character.
fn push_esc_char(c: char, out: &mut Vec<char>)
    ensures
        final(out)@ =~= old(out)@ + esc_char(c),
{
    if c == '"' {
        out.push('\\');
        out.push('"');
    } else if c == '\\' {
        out.push('\\');
        out.push('\\');
    } else {
        let u = c as u32;
        if u < 32 {
            out.push('\\');
            out.push('u');
            out.push('0');
            out.push('0');
            let h1 = hex_digit_char_of(u / 16);
            let h0 = hex_digit_char_of(u % 16);
            out.push(h1);
            out.push(h0);
        } else {
            out.push(c);
        }
    }
    proof {
        assert(out@ =~= old(out)@ + esc_char(c));
    }
}

/// Appends the JSON escape of a whole string body.
fn push_escaped(t: &str, out: &mut Vec<char>)
    ensures
        final(out)@ =~= old(out)@ + esc_string(t@),
{
    let n = t.unicode_len();
    let mut idx: usize = 0;
    while idx < n
        invariant
            idx <= n,
            n == t@.len(),
            out@ =~= old(out)@ + esc_string(t@.subrange(0, idx as int)),
        decreases n - idx,
    {
        let c = t.get_char(idx);
        push_esc_char(c, out);
        proof {
            assert(t@.subrange(0, idx as int).push(t@[idx as int]) =~= t@.subrange(
                0,
                idx + 1,
            ));
            lemma_esc_string_push(t@.subrange(0, idx as int), t@[idx as int]);
            assert(out@ =~= old(out)@ + esc_string(t@.subrange(0, idx + 1)));
        }
        idx += 1;
    }
    proof {
        assert(t@.subrange(0, n as int) =~= t@);
    }
}

/// Appends `{"id":`.
fn push_lit_obj_open(out: &mut Vec<char>)
    ensures
        final(out)@ =~= old(out)@ + lit_obj_open(),
{
    out.push('{');
    out.push('"');
    out.push('i');
    out.push('d');
    out.push('"');
    out.push(':');
    proof {
        assert(out@ =~= old(out)@ + lit_obj_open());
    }
}

/// Appends `,"title":"`.
fn push_lit_title(out: &mut Vec<char>)
    ensures
        final(out)@ =~= old(out)@ + lit_title(),
{
    out.push(',');
    out.push('"');
    out.push('t');
    out.push('i');
    out.push('t');
    out.push('l');
    out.push('e');
    out.push('"');
    out.push(':');
    out.push('"');
    proof {
        assert(out@ =~= old(out)@ + lit_title());
    }
}

/// Appends `,"completed":`.
fn push_lit_completed(out: &mut Vec<char>)
    ensures
        final(out)@ =~= old(out)@ + lit_completed(),
{
    out.push(',');
    out.push('"');
    out.push('c');
    out.push('o');
    out.push('m');
    out.push('p');
    out.push('l');
    out.push('e');
    out.push('t');
    out.push('e');
    out.push('d');
    out.push('"');
    out.push(':');
    proof {
        assert(out@ =~= old(out)@ + lit_completed());
    }
}

/// Appends `true` or `false`.
fn push_bool(b: bool, out: &mut Vec<char>)
    ensures
        final(out)@ =~= old(out)@ + (if b {
            lit_true()
        } else {
            lit_false()
        }),
{
    if b {
        out.push('t');
        out.push('r');
        out.push('u');
        out.push('e');
        proof {
            assert(out@ =~= old(out)@ + lit_true());
        }
    } else {
        out.push('f');
        out.push('a');
        out.push('l');
        out.push('s');
        out.push('e');
        proof {
            assert(out@ =~= old(out)@ + lit_false());
        }
    }
}

/// Appends the JSON object for one task.
fn push_task_json(t: &Task, out: &mut Vec<char>)
    ensures
        final(out)@ =~= old(out)@ + spec_render_task(t@),
{
    let ghost o = out@;
    let ghost a1 = lit_obj_open();
    let ghost a2 = a1 + dec_digits(t.id as nat);
    let ghost a3 = a2 + lit_title();
    let ghost a4 = a3 + esc_string(t.title@);
    let ghost a5 = a4 + seq!['"'];
    let ghost a6 = a5 + lit_completed();
    let ghost a7 = a6 + (if t.completed {
        lit_true()
    } else {
        lit_false()
    });
    let ghost a8 = a7 + seq!['}'];
    push_lit_obj_open(out);
    push_dec_digits(t.id, out);
    proof {
        assert(out@ =~= o + a2);
    }
    push_lit_title(out);
    proof {
        assert(out@ =~= o + a3);
    }
    push_escaped(t.title.as_str(), out);
    proof {
        assert(out@ =~= o + a4);
    }
    out.push('"');
    proof {
        assert(out@ =~= o + a5);
    }
    push_lit_completed(out);
    proof {
        assert(out@ =~= o + a6);
    }
    push_bool(t.completed, out);
    proof {
        assert(out@ =~= o + a7);
    }
    out.push('}');
    proof {
        assert(out@ =~= o + a8);
        assert(a8 == spec_render_task(t@));
    }
}

impl TodoList {
    /// The JSON document for this store, as `save` writes it.
    pub fn render_store(&self) -> (s: String)
        ensures
            s@ == spec_render_store(self@),
    {
        let mut out: Vec<char> = Vec::new();
        out.push('{');
        out.push('"');
        out.push('t');
        out.push('a');
        out.push('s');
        out.push('k');
        out.push('s');
        out.push('"');
        out.push(':');
        out.push('[');
        proof {
            assert(out@ =~= lit_store_open() + spec_render_tasks(self@.subrange(0, 0)));
        }
        let n = self.tasks.len();
        let mut i: usize = 0;
        while i < n
            invariant
                i <= n,
                n == self.tasks@.len(),
                n == self@.len(),
                out@ =~= lit_store_open() + spec_render_tasks(self@.subrange(0, i as int)),
            decreases n - i,
        {
            if i > 0 {
                out.push(',');
            }
            let ghost pre = out@;
            push_task_json(&self.tasks[i], &mut out);
            proof {
                let v = self@;
                let prefix = v.subrange(0, i as int);
                let prefix1 = v.subrange(0, i + 1);
                assert(self.tasks@[i as int]@ == v[i as int]);
                if i == 0 {
                    assert(prefix1.len() == 1);
                    assert(prefix1[0] == v[0]);
                    assert(spec_render_tasks(prefix1) == spec_render_task(v[0]));
                    assert(out@ =~= lit_store_open() + spec_render_tasks(prefix1));
                } else {
                    assert(prefix1.len() >= 2);
                    assert(prefix1.drop_last() =~= prefix);
                    assert(prefix1.last() == v[i as int]);
                    assert(spec_render_tasks(prefix1) == spec_render_tasks(prefix) + seq![',']
                        + spec_render_task(v[i as int]));
                    assert(pre =~= lit_store_open() + (spec_render_tasks(prefix) + seq![',']));
                    assert(out@ =~= lit_store_open() + spec_render_tasks(prefix1));
                }
            }
            i += 1;
        }
        out.push(']');
        out.push('}');
        proof {
            assert(self@.subrange(0, n as int) =~= self@);
            assert(out@ =~= spec_render_store(self@));
        }
        chars_to_string(out)
    }
}

/// Whether `c` is insignificant JSON whitespace.
pub open spec fn is_ws(c: char) -> bool {
    c == ' ' || c == '\t' || c == '\n' || c == '\r'
}

/// The first position at or after `i` that holds no whitespace (or the end).
pub open spec fn ws_end(s: Seq<char>, i: int) -> int
    decreases s.len() - i
        when 0 <= i <= s.len()
{
    if i < s.len() && is_ws(s[i]) {
        ws_end(s, i + 1)
    } else {
        i
    }
}

/// `ws_end` stays between its start and the end of the input.
pub proof fn lemma_ws_end_bounds(s: Seq<char>, i: int)
    requires
        0 <= i <= s.len(),
    ensures
        i <= ws_end(s, i) <= s.len(),
    decreases s.len() - i,
{
    if i < s.len() && is_ws(s[i]) {
        lemma_ws_end_bounds(s, i + 1);
    }
}

/// The unescaped meaning of a single-character JSON escape.
pub open spec fn short_escape(e: char) -> Option<char> {
    if e == '"' {
        Some('"')
    } else if e == '\\' {
        Some('\\')
    } else if e == '/' {
        Some('/')
    } else if e == 'n' {
        Some('\n')
    } else if e == 't' {
        Some('\t')
    } else if e == 'r' {
        Some('\r')
    } else if e == 'b' {
        Some('\u{8}')
    } else if e == 'f' {
        Some('\u{c}')
    } else {
        None
    }
}

/// Whether four hexadecimal digit characters stand at `i`.
pub open spec fn hex4_ok(s: Seq<char>, i: int) -> bool {
    0 <= i && i + 4 <= s.len() && is_hex(s[i]) && is_hex(s[i + 1]) && is_hex(s[i + 2]) && is_hex(
        s[i + 3],
    )
}

/// The value of the four hexadecimal digit characters at `i`.
pub open spec fn hex4_val(s: Seq<char>, i: int) -> nat {
    ((hex_val(s[i]) * 16 + hex_val(s[i + 1])) * 16 + hex_val(s[i + 2])) * 16 + hex_val(s[i + 3])
}

/// The key token `"id"`.
pub open spec fn key_id() -> Seq<char> {
    seq!['"', 'i', 'd', '"']
}

/// The key token `"title"`.
pub open spec fn key_title() -> Seq<char> {
    seq!['"', 't', 'i', 't', 'l', 'e', '"']
}

/// The key token `"completed"`.
pub open spec fn key_completed() -> Seq<char> {
    seq!['"', 'c', 'o', 'm', 'p', 'l', 'e', 't', 'e', 'd', '"']
}

/// The key token `"tasks"`.
pub open spec fn key_tasks() -> Seq<char> {
    seq!['"', 't', 'a', 's', 'k', 's', '"']
}

/// The JSON string body read at `i` (just past the opening quote): its
/// characters and the position just past the closing quote. Escapes cover
/// the single-character forms, `\uXXXX`, and surrogate pairs for characters
/// beyond the basic plane; unknown escapes, lone surrogates, raw control
/// characters and a missing closing quote are rejected.
pub open spec fn spec_parse_string_at(s: Seq<char>, i: int) -> Option<(Seq<char>, int)>
    decreases s.len() - i
        when 0 <= i <= s.len()
{
    if i >= s.len() {
        None
    } else if s[i] == '"' {
        Some((Seq::empty(), i + 1))
    } else if s[i] == '\\' {
        if i + 1 >= s.len() {
            None
        } else if s[i + 1] == 'u' {
            if !hex4_ok(s, i + 2) {
                None
            } else {
                let v = hex4_val(s, i + 2);
                if v < 0xD800 || 0xE000 <= v {
                    match spec_parse_string_at(s, i + 6) {
                        None => None,
                        Some(p) => Some((seq![(v as u32) as char] + p.0, p.1)),
                    }
                } else if v < 0xDC00 {
                    if i + 8 <= s.len() && s[i + 6] == '\\' && s[i + 7] == 'u' && hex4_ok(
                        s,
                        i + 8,
                    ) {
                        let w = hex4_val(s, i + 8);
                        if 0xDC00 <= w && w < 0xE000 {
                            let code = 0x10000 + (v - 0xD800) * 0x400 + (w - 0xDC00);
                            match spec_parse_string_at(s, i + 12) {
                                None => None,
                                Some(p) => Some((seq![(code as u32) as char] + p.0, p.1)),
                            }
                        } else {
                            None
                        }
                    } else {
                        None
                    }
                } else {
                    None
                }
            }
        } else {
            match short_escape(s[i + 1]) {
                None => None,
                Some(c) => match spec_parse_string_at(s, i + 2) {
                    None => None,
                    Some(p) => Some((seq![c] + p.0, p.1)),
                },
            }
        }
    } else if (s[i] as u32) < 32 {
        None
    } else {
        match spec_parse_string_at(s, i + 1) {
            None => None,
            Some(p) => Some((seq![s[i]] + p.0, p.1)),
        }
    }
}

/// A string body read at `i` ends past `i` and within the input.
pub proof fn lemma_parse_string_bounds(s: Seq<char>, i: int)
    requires
        0 <= i <= s.len(),
    ensures
        spec_parse_string_at(s, i) matches Some(p) ==> i < p.1 <= s.len(),
    decreases s.len() - i,
{
    if i >= s.len() {
    } else if s[i] == '"' {
    } else if s[i] == '\\' {
        if i + 1 >= s.len() {
        } else if s[i + 1] == 'u' {
            if hex4_ok(s, i + 2) {
                let v = hex4_val(s, i + 2);
                if v < 0xD800 || 0xE000 <= v {
                    lemma_parse_string_bounds(s, i + 6);
                } else if v < 0xDC00 {
                    if i + 8 <= s.len() && s[i + 6] == '\\' && s[i + 7] == 'u' && hex4_ok(
                        s,
                        i + 8,
                    ) {
                        lemma_parse_string_bounds(s, i + 12);
                    }
                }
            }
        } else {
            lemma_parse_string_bounds(s, i + 2);
        }
    } else if (s[i] as u32) < 32 {
    } else {
        lemma_parse_string_bounds(s, i + 1);
    }
}

/// A colon and a number, with insignificant whitespace around the colon.
pub open spec fn spec_parse_colon_u32(s: Seq<char>, i: int) -> Option<(u32, int)> {
    let c1 = ws_end(s, i);
    if c1 < s.len() && s[c1] == ':' {
        crate::num::spec_parse_u32_at(s, ws_end(s, c1 + 1))
    } else {
        None
    }
}

/// A colon and a quoted string, with insignificant whitespace around the
/// colon.
pub open spec fn spec_parse_colon_string(s: Seq<char>, i: int) -> Option<(Seq<char>, int)> {
    let c1 = ws_end(s, i);
    if c1 < s.len() && s[c1] == ':' {
        let q = ws_end(s, c1 + 1);
        if q < s.len() && s[q] == '"' {
            spec_parse_string_at(s, q + 1)
        } else {
            None
        }
    } else {
        None
    }
}

/// A colon and a boolean literal, with insignificant whitespace around the
/// colon.
pub open spec fn spec_parse_colon_bool(s: Seq<char>, i: int) -> Option<(bool, int)> {
    let c1 = ws_end(s, i);
    if c1 < s.len() && s[c1] == ':' {
        let b = ws_end(s, c1 + 1);
        if lit_at(s, b, lit_true()) {
            Some((true, b + 4))
        } else if lit_at(s, b, lit_false()) {
            Some((false, b + 5))
        } else {
            None
        }
    } else {
        None
    }
}

/// A field value read at `i` ends past `i` and within the input.
pub proof fn lemma_parse_colon_bounds(s: Seq<char>, i: int)
    requires
        0 <= i <= s.len(),
    ensures
        spec_parse_colon_u32(s, i) matches Some(p) ==> i < p.1 <= s.len(),
        spec_parse_colon_string(s, i) matches Some(p) ==> i < p.1 <= s.len(),
        spec_parse_colon_bool(s, i) matches Some(p) ==> i < p.1 <= s.len(),
{
    lemma_ws_end_bounds(s, i);
    let c1 = ws_end(s, i);
    if c1 < s.len() && s[c1] == ':' {
        lemma_ws_end_bounds(s, c1 + 1);
        let d0 = ws_end(s, c1 + 1);
        crate::num::lemma_digits_end_bounds(s, d0);
        if d0 < s.len() {
            lemma_parse_string_bounds(s, d0 + 1);
        }
    }
}

/// The fields of a task object read at `i` (inside the braces, standing at
/// a key): the three fields `id`, `title`, `completed` in any order, each
/// exactly once, separated by commas, with insignificant whitespace between
/// tokens, up to and including the closing brace.
pub open spec fn spec_parse_fields_at(
    s: Seq<char>,
    i: int,
    id: Option<u32>,
    title: Option<Seq<char>>,
    completed: Option<bool>,
) -> Option<(SpecTask, int)>
    decreases s.len() - i
        when 0 <= i <= s.len()
        via spec_parse_fields_at_decreases
{
    if lit_at(s, i, key_id()) {
        if id is Some {
            None
        } else {
            match spec_parse_colon_u32(s, i + 4) {
                None => None,
                Some((v, j)) => {
                    let e = ws_end(s, j);
                    if e < s.len() && s[e] == ',' {
                        spec_parse_fields_at(s, ws_end(s, e + 1), Some(v), title, completed)
                    } else if e < s.len() && s[e] == '}' {
                        match (title, completed) {
                            (Some(t), Some(c)) => Some(
                                (SpecTask { id: v, title: t, completed: c }, e + 1),
                            ),
                            _ => None,
                        }
                    } else {
                        None
                    }
                },
            }
        }
    } else if lit_at(s, i, key_title()) {
        if title is Some {
            None
        } else {
            match spec_parse_colon_string(s, i + 7) {
                None => None,
                Some((t, j)) => {
                    let e = ws_end(s, j);
                    if e < s.len() && s[e] == ',' {
                        spec_parse_fields_at(s, ws_end(s, e + 1), id, Some(t), completed)
                    } else if e < s.len() && s[e] == '}' {
                        match (id, completed) {
                            (Some(v), Some(c)) => Some(
                                (SpecTask { id: v, title: t, completed: c }, e + 1),
                            ),
                            _ => None,
                        }
                    } else {
                        None
                    }
                },
            }
        }
    } else if lit_at(s, i, key_completed()) {
        if completed is Some {
            None
        } else {
            match spec_parse_colon_bool(s, i + 11) {
                None => None,
                Some((c, j)) => {
                    let e = ws_end(s, j);
                    if e < s.len() && s[e] == ',' {
                        spec_parse_fields_at(s, ws_end(s, e + 1), id, title, Some(c))
                    } else if e < s.len() && s[e] == '}' {
                        match (id, title) {
                            (Some(v), Some(t)) => Some(
                                (SpecTask { id: v, title: t, completed: c }, e + 1),
                            ),
                            _ => None,
                        }
                    } else {
                        None
                    }
                },
            }
        }
    } else {
        None
    }
}

#[via_fn]
proof fn spec_parse_fields_at_decreases(
    s: Seq<char>,
    i: int,
    id: Option<u32>,
    title: Option<Seq<char>>,
    completed: Option<bool>,
) {
    if lit_at(s, i, key_id()) {
        lemma_parse_colon_bounds(s, i + 4);
        if let Some((v, j)) = spec_parse_colon_u32(s, i + 4) {
            lemma_ws_end_bounds(s, j);
            let e = ws_end(s, j);
            if e < s.len() && s[e] == ',' {
                lemma_ws_end_bounds(s, e + 1);
            }
        }
    } else if lit_at(s, i, key_title()) {
        lemma_parse_colon_bounds(s, i + 7);
        if let Some((t, j)) = spec_parse_colon_string(s, i + 7) {
            lemma_ws_end_bounds(s, j);
            let e = ws_end(s, j);
            if e < s.len() && s[e] == ',' {
                lemma_ws_end_bounds(s, e + 1);
            }
        }
    } else if lit_at(s, i, key_completed()) {
        lemma_parse_colon_bounds(s, i + 11);
        if let Some((c, j)) = spec_parse_colon_bool(s, i + 11) {
            lemma_ws_end_bounds(s, j);
            let e = ws_end(s, j);
            if e < s.len() && s[e] == ',' {
                lemma_ws_end_bounds(s, e + 1);
            }
        }
    }
}

/// A field run read at `i` ends past `i` and within the input.
pub proof fn lemma_parse_fields_bounds(
    s: Seq<char>,
    i: int,
    id: Option<u32>,
    title: Option<Seq<char>>,
    completed: Option<bool>,
)
    requires
        0 <= i <= s.len(),
    ensures
        spec_parse_fields_at(s, i, id, title, completed) matches Some(p) ==> i < p.1 <= s.len(),
    decreases s.len() - i,
{
    if lit_at(s, i, key_id()) {
        lemma_parse_colon_bounds(s, i + 4);
        if let Some((v, j)) = spec_parse_colon_u32(s, i + 4) {
            lemma_ws_end_bounds(s, j);
            let e = ws_end(s, j);
            if e < s.len() && s[e] == ',' {
                lemma_ws_end_bounds(s, e + 1);
                lemma_parse_fields_bounds(s, ws_end(s, e + 1), Some(v), title, completed);
            }
        }
    } else if lit_at(s, i, key_title()) {
        lemma_parse_colon_bounds(s, i + 7);
        if let Some((t, j)) = spec_parse_colon_string(s, i + 7) {
            lemma_ws_end_bounds(s, j);
            let e = ws_end(s, j);
            if e < s.len() && s[e] == ',' {
                lemma_ws_end_bounds(s, e + 1);
                lemma_parse_fields_bounds(s, ws_end(s, e + 1), id, Some(t), completed);
            }
        }
    } else if lit_at(s, i, key_completed()) {
        lemma_parse_colon_bounds(s, i + 11);
        if let Some((c, j)) = spec_parse_colon_bool(s, i + 11) {
            lemma_ws_end_bounds(s, j);
            let e = ws_end(s, j);
            if e < s.len() && s[e] == ',' {
                lemma_ws_end_bounds(s, e + 1);
                lemma_parse_fields_bounds(s, ws_end(s, e + 1), id, title, Some(c));
            }
        }
    }
}

/// The task object read at `i`: an opening brace, then its three fields in
/// any order, and the position just past the closing brace.
pub open spec fn spec_parse_task_at(s: Seq<char>, i: int) -> Option<(SpecTask, int)> {
    if 0 <= i && i < s.len() && s[i] == '{' {
        spec_parse_fields_at(s, ws_end(s, i + 1), None, None, None)
    } else {
        None
    }
}

/// A task object read at `i` ends past `i` and within the input.
pub proof fn lemma_parse_task_bounds(s: Seq<char>, i: int)
    requires
        0 <= i <= s.len(),
    ensures
        spec_parse_task_at(s, i) matches Some(p) ==> i < p.1 <= s.len(),
{
    if 0 <= i && i < s.len() && s[i] == '{' {
        lemma_ws_end_bounds(s, i + 1);
        lemma_parse_fields_bounds(s, ws_end(s, i + 1), None, None, None);
    }
}

/// The task objects read at `i` up to and including the closing bracket:
/// one or more task objects separated by commas, then `]`, with
/// insignificant whitespace between tokens.
pub open spec fn spec_parse_tasks_at(s: Seq<char>, i: int) -> Option<(Seq<SpecTask>, int)>
    decreases s.len() - i
        when 0 <= i <= s.len()
        via spec_parse_tasks_at_decreases
{
    match spec_parse_task_at(s, i) {
        None => None,
        Some((t, j)) => {
            let e = ws_end(s, j);
            if e < s.len() && s[e] == ',' {
                match spec_parse_tasks_at(s, ws_end(s, e + 1)) {
                    None => None,
                    Some((ts, k)) => Some((seq![t] + ts, k)),
                }
            } else if e < s.len() && s[e] == ']' {
                Some((seq![t], e + 1))
            } else {
                None
            }
        },
    }
}

#[via_fn]
proof fn spec_parse_tasks_at_decreases(s: Seq<char>, i: int) {
    lemma_parse_task_bounds(s, i);
    if let Some((t, j)) = spec_parse_task_at(s, i) {
        lemma_ws_end_bounds(s, j);
        let e = ws_end(s, j);
        if e < s.len() && s[e] == ',' {
            lemma_ws_end_bounds(s, e + 1);
        }
    }
}

/// A task list read at `i` ends past `i` and within the input.
pub proof fn lemma_parse_tasks_bounds(s: Seq<char>, i: int)
    requires
        0 <= i <= s.len(),
    ensures
        spec_parse_tasks_at(s, i) matches Some(p) ==> i < p.1 <= s.len(),
    decreases s.len() - i,
{
    lemma_parse_task_bounds(s, i);
    if let Some((t, j)) = spec_parse_task_at(s, i) {
        lemma_ws_end_bounds(s, j);
        let e = ws_end(s, j);
        if e < s.len() && s[e] == ',' {
            lemma_ws_end_bounds(s, e + 1);
            lemma_parse_tasks_bounds(s, ws_end(s, e + 1));
        }
    }
}

/// The whole store document: a JSON object whose one field `tasks` holds an
/// array of task objects, with insignificant whitespace between tokens and
/// nothing but whitespace after the closing brace.
pub open spec fn spec_parse_store(s: Seq<char>) -> Option<Seq<SpecTask>> {
    let i0 = ws_end(s, 0);
    if i0 < s.len() && s[i0] == '{' {
        let i1 = ws_end(s, i0 + 1);
        if lit_at(s, i1, key_tasks()) {
            let i2 = ws_end(s, i1 + 7);
            if i2 < s.len() && s[i2] == ':' {
                let i3 = ws_end(s, i2 + 1);
                if i3 < s.len() && s[i3] == '[' {
                    let i4 = ws_end(s, i3 + 1);
                    if i4 < s.len() && s[i4] == ']' {
                        let i5 = ws_end(s, i4 + 1);
                        if i5 < s.len() && s[i5] == '}' && ws_end(s, i5 + 1) == s.len() {
                            Some(Seq::empty())
                        } else {
                            None
                        }
                    } else {
                        match spec_parse_tasks_at(s, i4) {
                            None => None,
                            Some((ts, j)) => {
                                let j1 = ws_end(s, j);
                                if j1 < s.len() && s[j1] == '}' && ws_end(s, j1 + 1) == s.len() {
                                    Some(ts)
                                } else {
                                    None
                                }
                            },
                        }
                    }
                } else {
                    None
                }
            } else {
                None
            }
        } else {
            None
        }
    } else {
        None
    }
}

/// The characters of a string slice, in order.
pub fn str_to_chars(t: &str) -> (v: Vec<char>)
    ensures
        v@ == t@,
{
    let n = t.unicode_len();
    let mut v: Vec<char> = Vec::new();
    let mut i: usize = 0;
    while i < n
        invariant
            i <= n,
            n == t@.len(),
            v@ =~= t@.subrange(0, i as int),
        decreases n - i,
    {
        let c = t.get_char(i);
        v.push(c);
        proof {
            assert(v@ =~= t@.subrange(0, i + 1));
        }
        i += 1;
    }
    proof {
        assert(t@.subrange(0, n as int) =~= t@);
    }
    v
}

/// Whether the characters of `lit` stand at position `i` of `s`.
fn lit_matches(s: &Vec<char>, i: usize, lit: &Vec<char>) -> (b: bool)
    requires
        i <= s@.len(),
    ensures
        b == lit_at(s@, i as int, lit@),
{
    let m = lit.len();
    if s.len() - i < m {
        return false;
    }
    let mut k: usize = 0;
    while k < m
        invariant
            k <= m,
            m == lit@.len(),
            i + m <= s@.len(),
            s@.len() <= usize::MAX,
            forall|q: int| 0 <= q < k ==> s@[i + q] == lit@[q],
        decreases m - k,
    {
        if s[i + k] != lit[k] {
            proof {
                assert(s@.subrange(i as int, i + m as int)[k as int] == s@[i + k]);
            }
            return false;
        }
        k += 1;
    }
    proof {
        assert(s@.subrange(i as int, i + m as int) =~= lit@);
    }
    true
}

/// Whether `c` is insignificant JSON whitespace.
fn is_ws_exec(c: char) -> (b: bool)
    ensures
        b == is_ws(c),
{
    c == ' ' || c == '\t' || c == '\n' || c == '\r'
}

/// The first position at or after `i` that holds no whitespace.
fn skip_ws(s: &Vec<char>, i: usize) -> (r: usize)
    requires
        i <= s@.len(),
    ensures
        r == ws_end(s@, i as int),
        i <= r <= s@.len(),
{
    let n = s.len();
    let mut j = i;
    while j < n && is_ws_exec(s[j])
        invariant
            i <= j <= n,
            n == s@.len(),
            ws_end(s@, i as int) == ws_end(s@, j as int),
        decreases n - j,
    {
        j += 1;
    }
    j
}

/// The characters of `"id"`.
fn key_id_vec() -> (v: Vec<char>)
    ensures
        v@ == key_id(),
{
    let mut v: Vec<char> = Vec::new();
    v.push('"');
    v.push('i');
    v.push('d');
    v.push('"');
    proof {
        assert(v@ =~= key_id());
    }
    v
}

/// The characters of `"title"`.
fn key_title_vec() -> (v: Vec<char>)
    ensures
        v@ == key_title(),
{
    let mut v: Vec<char> = Vec::new();
    v.push('"');
    v.push('t');
    v.push('i');
    v.push('t');
    v.push('l');
    v.push('e');
    v.push('"');
    proof {
        assert(v@ =~= key_title());
    }
    v
}

/// The characters of `"completed"`.
fn key_completed_vec() -> (v: Vec<char>)
    ensures
        v@ == key_completed(),
{
    let mut v: Vec<char> = Vec::new();
    v.push('"');
    v.push('c');
    v.push('o');
    v.push('m');
    v.push('p');
    v.push('l');
    v.push('e');
    v.push('t');
    v.push('e');
    v.push('d');
    v.push('"');
    proof {
        assert(v@ =~= key_completed());
    }
    v
}

/// The characters of `"tasks"`.
fn key_tasks_vec() -> (v: Vec<char>)
    ensures
        v@ == key_tasks(),
{
    let mut v: Vec<char> = Vec::new();
    v.push('"');
    v.push('t');
    v.push('a');
    v.push('s');
    v.push('k');
    v.push('s');
    v.push('"');
    proof {
        assert(v@ =~= key_tasks());
    }
    v
}

/// The characters of `true`.
fn lit_true_vec() -> (v: Vec<char>)
    ensures
        v@ == lit_true(),
{
    let mut v: Vec<char> = Vec::new();
    v.push('t');
    v.push('r');
    v.push('u');
    v.push('e');
    proof {
        assert(v@ =~= lit_true());
    }
    v
}

/// The characters of `false`.
fn lit_false_vec() -> (v: Vec<char>)
    ensures
        v@ == lit_false(),
{
    let mut v: Vec<char> = Vec::new();
    v.push('f');
    v.push('a');
    v.push('l');
    v.push('s');
    v.push('e');
    proof {
        assert(v@ =~= lit_false());
    }
    v
}

/// Whether `c` is a hexadecimal digit character.
fn is_hex_exec(c: char) -> (b: bool)
    ensures
        b == is_hex(c),
{
    let u = c as u32;
    (48 <= u && u <= 57) || (97 <= u && u <= 102) || (65 <= u && u <= 70)
}

/// The value of a hexadecimal digit character.
fn hex_val_exec(c: char) -> (d: u32)
    requires
        is_hex(c),
    ensures
        d == hex_val(c),
        d < 16,
{
    let u = c as u32;
    if 48 <= u && u <= 57 {
        u - 48
    } else if 97 <= u && u <= 102 {
        u - 87
    } else {
        u - 55
    }
}

/// The value of the four hexadecimal digit characters at `i`, if they stand
/// there.
fn hex4_at_exec(s: &Vec<char>, i: usize) -> (r: Option<u32>)
    requires
        i <= s@.len(),
    ensures
        match r {
            Some(v) => hex4_ok(s@, i as int) && v == hex4_val(s@, i as int) && v <= 0xFFFF,
            None => !hex4_ok(s@, i as int),
        },
{
    if s.len() - i < 4 {
        return None;
    }
    let c0 = s[i];
    let c1 = s[i + 1];
    let c2 = s[i + 2];
    let c3 = s[i + 3];
    if !(is_hex_exec(c0) && is_hex_exec(c1) && is_hex_exec(c2) && is_hex_exec(c3)) {
        return None;
    }
    let v = ((hex_val_exec(c0) * 16 + hex_val_exec(c1)) * 16 + hex_val_exec(c2)) * 16
        + hex_val_exec(c3);
    Some(v)
}

/// Reads the string body at `i`, as `spec_parse_string_at` describes.
fn parse_string_at(s: &Vec<char>, i: usize) -> (r: Option<(Vec<char>, usize)>)
    requires
        i <= s@.len(),
    ensures
        ({
            let sp = spec_parse_string_at(s@, i as int);
            match sp {
                None => r is None,
                Some(p) => r matches Some(q) && q.0@ == p.0 && q.1 == p.1,
            }
        }),
{
    let mut acc: Vec<char> = Vec::new();
    let mut cur = i;
    loop
        invariant
            i <= cur <= s@.len(),
            ({
                let orig = spec_parse_string_at(s@, i as int);
                let now = spec_parse_string_at(s@, cur as int);
                &&& (now is None ==> orig is None)
                &&& (now matches Some(q) ==> orig matches Some(p) && p.0 == acc@ + q.0 && p.1
                    == q.1)
            }),
        decreases s@.len() - cur,
    {
        if cur >= s.len() {
            return None;
        }
        let ghost cur0 = cur as int;
        let ghost acc0 = acc@;
        let c = s[cur];
        if c == '"' {
            proof {
                assert(acc0 + Seq::<char>::empty() =~= acc0);
            }
            return Some((acc, cur + 1));
        }
        if c == '\\' {
            if cur + 1 >= s.len() {
                return None;
            }
            let e = s[cur + 1];
            if e == 'u' {
                let v = match hex4_at_exec(s, cur + 2) {
                    None => {
                        return None;
                    },
                    Some(v) => v,
                };
                if v < 0xD800 || 0xE000 <= v {
                    let ch = char::from_u32(v).unwrap();
                    acc.push(ch);
                    cur = cur + 6;
                    proof {
                        vstd::utf8::char_u32_cast(ch, v);
                        let now1 = spec_parse_string_at(s@, cur as int);
                        if let Some(q) = now1 {
                            assert(spec_parse_string_at(s@, cur0) == Some(
                                (seq![ch] + q.0, q.1),
                            ));
                            assert(acc0 + (seq![ch] + q.0) =~= acc@ + q.0);
                        }
                    }
                } else if v < 0xDC00 {
                    if s.len() - cur < 8 {
                        return None;
                    }
                    if !(s[cur + 6] == '\\' && s[cur + 7] == 'u') {
                        return None;
                    }
                    let w = match hex4_at_exec(s, cur + 8) {
                        None => {
                            return None;
                        },
                        Some(w) => w,
                    };
                    if !(0xDC00 <= w && w < 0xE000) {
                        return None;
                    }
                    let code = 0x10000 + (v - 0xD800) * 0x400 + (w - 0xDC00);
                    let ch = char::from_u32(code).unwrap();
                    acc.push(ch);
                    cur = cur + 12;
                    proof {
                        vstd::utf8::char_u32_cast(ch, code);
                        let now1 = spec_parse_string_at(s@, cur as int);
                        if let Some(q) = now1 {
                            assert(spec_parse_string_at(s@, cur0) == Some(
                                (seq![ch] + q.0, q.1),
                            ));
                            assert(acc0 + (seq![ch] + q.0) =~= acc@ + q.0);
                        }
                    }
                } else {
                    return None;
                }
            } else {
                let c2: char;
                if e == '"' {
                    c2 = '"';
                } else if e == '\\' {
                    c2 = '\\';
                } else if e == '/' {
                    c2 = '/';
                } else if e == 'n' {
                    c2 = '\n';
                } else if e == 't' {
                    c2 = '\t';
                } else if e == 'r' {
                    c2 = '\r';
                } else if e == 'b' {
                    c2 = '\u{8}';
                } else if e == 'f' {
                    c2 = '\u{c}';
                } else {
                    return None;
                }
                acc.push(c2);
                cur = cur + 2;
                proof {
                    assert(short_escape(e) == Some(c2));
                    let now1 = spec_parse_string_at(s@, cur as int);
                    if let Some(q) = now1 {
                        assert(spec_parse_string_at(s@, cur0) == Some((seq![c2] + q.0, q.1)));
                        assert(acc0 + (seq![c2] + q.0) =~= acc@ + q.0);
                    }
                }
            }
        } else {
            let u = c as u32;
            if u < 32 {
                return None;
            }
            acc.push(c);
            cur = cur + 1;
            proof {
                let now1 = spec_parse_string_at(s@, cur as int);
                if let Some(q) = now1 {
                    assert(spec_parse_string_at(s@, cur0) == Some((seq![c] + q.0, q.1)));
                    assert(acc0 + (seq![c] + q.0) =~= acc@ + q.0);
                }
            }
        }
    }
}

/// Reads a colon and a number, as `spec_parse_colon_u32` describes.
fn parse_colon_u32(s: &Vec<char>, i: usize) -> (r: Option<(u32, usize)>)
    requires
        i <= s@.len(),
    ensures
        ({
            let sp = spec_parse_colon_u32(s@, i as int);
            match sp {
                None => r is None,
                Some(p) => r == Some((p.0, p.1 as usize)) && i < p.1 <= s@.len(),
            }
        }),
{
    proof {
        lemma_parse_colon_bounds(s@, i as int);
    }
    let c1 = skip_ws(s, i);
    if !(c1 < s.len() && s[c1] == ':') {
        return None;
    }
    let d0 = skip_ws(s, c1 + 1);
    crate::num::parse_u32_at(s, d0)
}

/// Reads a colon and a quoted string, as `spec_parse_colon_string`
/// describes.
fn parse_colon_string(s: &Vec<char>, i: usize) -> (r: Option<(Vec<char>, usize)>)
    requires
        i <= s@.len(),
    ensures
        ({
            let sp = spec_parse_colon_string(s@, i as int);
            match sp {
                None => r is None,
                Some(p) => r matches Some(q) && q.0@ == p.0 && q.1 == p.1 && i < p.1 <= s@.len(),
            }
        }),
{
    proof {
        lemma_parse_colon_bounds(s@, i as int);
    }
    let c1 = skip_ws(s, i);
    if !(c1 < s.len() && s[c1] == ':') {
        return None;
    }
    let q = skip_ws(s, c1 + 1);
    if !(q < s.len() && s[q] == '"') {
        return None;
    }
    parse_string_at(s, q + 1)
}

/// Reads a colon and a boolean literal, as `spec_parse_colon_bool`
/// describes.
fn parse_colon_bool(s: &Vec<char>, i: usize) -> (r: Option<(bool, usize)>)
    requires
        i <= s@.len(),
    ensures
        ({
            let sp = spec_parse_colon_bool(s@, i as int);
            match sp {
                None => r is None,
                Some(p) => r == Some((p.0, p.1 as usize)) && i < p.1 <= s@.len(),
            }
        }),
{
    proof {
        lemma_parse_colon_bounds(s@, i as int);
    }
    let c1 = skip_ws(s, i);
    if !(c1 < s.len() && s[c1] == ':') {
        return None;
    }
    let b = skip_ws(s, c1 + 1);
    let ktrue = lit_true_vec();
    if lit_matches(s, b, &ktrue) {
        return Some((true, b + 4));
    }
    let kfalse = lit_false_vec();
    if lit_matches(s, b, &kfalse) {
        return Some((false, b + 5));
    }
    None
}

/// Reads the task object at `i`, as `spec_parse_task_at` describes.
fn parse_task_at(s: &Vec<char>, i: usize) -> (r: Option<(Task, usize)>)
    requires
        i <= s@.len(),
    ensures
        ({
            let sp = spec_parse_task_at(s@, i as int);
            match sp {
                None => r is None,
                Some(p) => r matches Some(q) && q.0@ == p.0 && q.1 == p.1,
            }
        }),
{
    let n = s.len();
    if !(i < n && s[i] == '{') {
        return None;
    }
    let kid = key_id_vec();
    let ktitle = key_title_vec();
    let kcompleted = key_completed_vec();
    let mut cur = skip_ws(s, i + 1);
    let mut id_acc: Option<u32> = None;
    let mut title_acc: Option<Vec<char>> = None;
    let mut completed_acc: Option<bool> = None;
    loop
        invariant
            cur <= s@.len(),
            n == s@.len(),
            kid@ == key_id(),
            ktitle@ == key_title(),
            kcompleted@ == key_completed(),
            ({
                let tv = match &title_acc {
                    Some(t) => Some(t@),
                    None => None::<Seq<char>>,
                };
                spec_parse_task_at(s@, i as int) == spec_parse_fields_at(
                    s@,
                    cur as int,
                    id_acc,
                    tv,
                    completed_acc,
                )
            }),
        decreases s@.len() - cur,
    {
        let ghost cur0 = cur as int;
        let j: usize;
        if lit_matches(s, cur, &kid) {
            if id_acc.is_some() {
                return None;
            }
            match parse_colon_u32(s, cur + 4) {
                None => {
                    return None;
                },
                Some((v, jj)) => {
                    id_acc = Some(v);
                    j = jj;
                },
            }
        } else if lit_matches(s, cur, &ktitle) {
            if title_acc.is_some() {
                return None;
            }
            match parse_colon_string(s, cur + 7) {
                None => {
                    return None;
                },
                Some((tc, jj)) => {
                    title_acc = Some(tc);
                    j = jj;
                },
            }
        } else if lit_matches(s, cur, &kcompleted) {
            if completed_acc.is_some() {
                return None;
            }
            match parse_colon_bool(s, cur + 11) {
                None => {
                    return None;
                },
                Some((cv, jj)) => {
                    completed_acc = Some(cv);
                    j = jj;
                },
            }
        } else {
            return None;
        }
        let e = skip_ws(s, j);
        if e < n && s[e] == ',' {
            cur = skip_ws(s, e + 1);
        } else if e < n && s[e] == '}' {
            match (id_acc, title_acc, completed_acc) {
                (Some(v), Some(tc), Some(cb)) => {
                    let ghost expected = SpecTask { id: v, title: tc@, completed: cb };
                    let t = Task { id: v, title: chars_to_string(tc), completed: cb };
                    proof {
                        assert(t@ =~= expected);
                    }
                    return Some((t, e + 1));
                },
                _ => {
                    return None;
                },
            }
        } else {
            return None;
        }
    }
}

/// Reads the task list at `i`, as `spec_parse_tasks_at` describes.
fn parse_tasks_at(s: &Vec<char>, i: usize) -> (r: Option<(Vec<Task>, usize)>)
    requires
        i <= s@.len(),
    ensures
        ({
            let sp = spec_parse_tasks_at(s@, i as int);
            match sp {
                None => r is None,
                Some(p) => r matches Some(q) && crate::store::view_tasks(q.0@) == p.0 && q.1
                    == p.1,
            }
        }),
{
    let n = s.len();
    let mut acc: Vec<Task> = Vec::new();
    let mut cur = i;
    loop
        invariant
            i <= cur <= s@.len(),
            n == s@.len(),
            ({
                let orig = spec_parse_tasks_at(s@, i as int);
                let now = spec_parse_tasks_at(s@, cur as int);
                &&& (now is None ==> orig is None)
                &&& (now matches Some(q) ==> orig matches Some(p) && p.0
                    == crate::store::view_tasks(acc@) + q.0 && p.1 == q.1)
            }),
        decreases s@.len() - cur,
    {
        let ghost cur0 = cur as int;
        let ghost acc0 = acc@;
        match parse_task_at(s, cur) {
            None => {
                return None;
            },
            Some((task, j)) => {
                proof {
                    lemma_parse_task_bounds(s@, cur0);
                }
                let e = skip_ws(s, j);
                if e < n && s[e] == ',' {
                    acc.push(task);
                    cur = skip_ws(s, e + 1);
                    proof {
                        let now1 = spec_parse_tasks_at(s@, cur as int);
                        if let Some(q) = now1 {
                            assert(spec_parse_tasks_at(s@, cur0) == Some(
                                (seq![task@] + q.0, q.1),
                            ));
                            assert(crate::store::view_tasks(acc0) + (seq![task@] + q.0)
                                =~= crate::store::view_tasks(acc@) + q.0);
                        }
                    }
                } else if e < n && s[e] == ']' {
                    proof {
                        assert(spec_parse_tasks_at(s@, cur0) == Some((seq![task@], e + 1)));
                        assert(crate::store::view_tasks(acc0) + seq![task@]
                            =~= crate::store::view_tasks(acc0.push(task)));
                    }
                    acc.push(task);
                    return Some((acc, e + 1));
                } else {
                    return None;
                }
            },
        }
    }
}

/// Reads a whole store document, as `spec_parse_store` describes.
pub fn parse_store(content: &str) -> (r: Option<TodoList>)
    ensures
        ({
            let sp = spec_parse_store(content@);
            match sp {
                None => r is None,
                Some(v) => r matches Some(l) && l@ == v,
            }
        }),
{
    let s = str_to_chars(content);
    let n = s.len();
    let i0 = skip_ws(&s, 0);
    if !(i0 < n && s[i0] == '{') {
        return None;
    }
    let ktasks = key_tasks_vec();
    let i1 = skip_ws(&s, i0 + 1);
    if !lit_matches(&s, i1, &ktasks) {
        return None;
    }
    let i2 = skip_ws(&s, i1 + 7);
    if !(i2 < n && s[i2] == ':') {
        return None;
    }
    let i3 = skip_ws(&s, i2 + 1);
    if !(i3 < n && s[i3] == '[') {
        return None;
    }
    let i4 = skip_ws(&s, i3 + 1);
    if i4 < n && s[i4] == ']' {
        let i5 = skip_ws(&s, i4 + 1);
        if i5 < n && s[i5] == '}' && skip_ws(&s, i5 + 1) == n {
            let l = TodoList { tasks: Vec::new() };
            proof {
                assert(l@ =~= Seq::<SpecTask>::empty());
            }
            return Some(l);
        }
        return None;
    }
    match parse_tasks_at(&s, i4) {
        None => None,
        Some((tasks, j)) => {
            proof {
                lemma_parse_tasks_bounds(s@, i4 as int);
            }
            let j1 = skip_ws(&s, j);
            if j1 < n && s[j1] == '}' && skip_ws(&s, j1 + 1) == n {
                Some(TodoList { tasks })
            } else {
                None
            }
        },
    }
}

/// A hexadecimal digit character reads back as its value.
pub proof fn lemma_hex_digit_char(d: nat)
    requires
        d < 16,
    ensures
        is_hex(hex_digit_char(d)),
        hex_val(hex_digit_char(d)) == d,
{
}

/// A subrange equal to a concatenation splits at the boundary.
pub proof fn lemma_subrange_split(s: Seq<char>, i: int, a: Seq<char>, b: Seq<char>)
    requires
        0 <= i,
        i + a.len() + b.len() <= s.len(),
        s.subrange(i, i + a.len() + b.len()) == a + b,
    ensures
        s.subrange(i, i + a.len() as int) == a,
        s.subrange(i + a.len(), i + a.len() + b.len()) == b,
{
    let whole = s.subrange(i, i + a.len() + b.len());
    assert forall|k: int| 0 <= k < a.len() implies #[trigger] s.subrange(
        i,
        i + a.len() as int,
    )[k] == a[k] by {
        assert(whole[k] == (a + b)[k]);
    }
    assert(s.subrange(i, i + a.len() as int) =~= a);
    assert forall|k: int| 0 <= k < b.len() implies #[trigger] s.subrange(
        i + a.len(),
        i + a.len() + b.len(),
    )[k] == b[k] by {
        assert(whole[a.len() + k] == (a + b)[a.len() + k]);
    }
    assert(s.subrange(i + a.len(), i + a.len() + b.len()) =~= b);
}

/// The character at a position inside a known subrange.
pub proof fn lemma_subrange_index(s: Seq<char>, i: int, a: Seq<char>, k: int)
    requires
        0 <= i,
        0 <= k < a.len(),
        i + a.len() <= s.len(),
        s.subrange(i, i + a.len() as int) == a,
    ensures
        s[i + k] == a[k],
{
    assert(s.subrange(i, i + a.len() as int)[k] == a[k]);
}

/// Reading a string body at the start of an escaped title followed by its
/// closing quote yields the title back.
pub proof fn lemma_parse_string_esc(s: Seq<char>, i: int, t: Seq<char>)
    requires
        0 <= i,
        i + esc_string(t).len() + 1 <= s.len(),
        s.subrange(i, i + esc_string(t).len() + 1) == esc_string(t) + seq!['"'],
    ensures
        spec_parse_string_at(s, i) == Some((t, i + esc_string(t).len() + 1)),
    decreases t.len(),
{
    let e = esc_string(t);
    let q = seq!['"'];
    if t.len() == 0 {
        assert(e =~= Seq::<char>::empty());
        assert(s.subrange(i, i + 1) == e + q);
        assert(s[i] == (e + q)[0]) by {
            lemma_subrange_index(s, i, e + q, 0);
        }
        assert(s[i] == '"');
        assert(t =~= Seq::<char>::empty());
    } else {
        let c = t[0];
        let t1 = t.drop_first();
        let ec = esc_char(c);
        let e1 = esc_string(t1);
        assert(e == ec + e1);
        let rest = e1 + q;
        assert(e + q =~= ec + rest);
        assert(i + ec.len() + rest.len() == i + e.len() + 1);
        assert(s.subrange(i, i + ec.len() + rest.len()) == ec + rest);
        lemma_subrange_split(s, i, ec, rest);
        lemma_parse_string_esc(s, i + ec.len(), t1);
        assert(seq![c] + t1 =~= t);
        if c == '"' {
            lemma_subrange_index(s, i, ec, 0);
            lemma_subrange_index(s, i, ec, 1);
            assert(s[i] == '\\' && s[i + 1] == '"');
            assert(short_escape(s[i + 1]) == Some('"'));
        } else if c == '\\' {
            lemma_subrange_index(s, i, ec, 0);
            lemma_subrange_index(s, i, ec, 1);
            assert(s[i] == '\\' && s[i + 1] == '\\');
            assert(short_escape(s[i + 1]) == Some('\\'));
        } else if (c as u32) < 32 {
            let u = c as u32;
            lemma_subrange_index(s, i, ec, 0);
            lemma_subrange_index(s, i, ec, 1);
            lemma_subrange_index(s, i, ec, 2);
            lemma_subrange_index(s, i, ec, 3);
            lemma_subrange_index(s, i, ec, 4);
            lemma_subrange_index(s, i, ec, 5);
            assert(s[i] == '\\' && s[i + 1] == 'u');
            assert(s[i + 2] == '0' && s[i + 3] == '0');
            assert(s[i + 4] == hex_digit_char((u / 16) as nat));
            assert(s[i + 5] == hex_digit_char((u % 16) as nat));
            assert(is_hex('0') && hex_val('0') == 0) by {
                assert('0' as u32 == 48);
            }
            lemma_hex_digit_char((u / 16) as nat);
            lemma_hex_digit_char((u % 16) as nat);
            vstd::arithmetic::div_mod::lemma_fundamental_div_mod(u as int, 16);
            assert(hex4_ok(s, i + 2));
            assert(hex4_val(s, i + 2) == u);
            vstd::utf8::char_u32_cast(c, u);
            assert((hex4_val(s, i + 2) as u32) as char == c);
        } else {
            lemma_subrange_index(s, i, ec, 0);
            assert(s[i] == c);
        }
    }
}

/// A decimal digit is not whitespace.
proof fn lemma_digit_not_ws(c: char)
    requires
        is_digit(c),
    ensures
        !is_ws(c),
{
    if is_ws(c) {
        assert(c as u32 == 32 || c as u32 == 9 || c as u32 == 10 || c as u32 == 13);
    }
}

/// Reading a task object at the start of a rendered task yields the task
/// back.
#[verifier::rlimit(100)]
pub proof fn lemma_parse_task_render(s: Seq<char>, i: int, t: SpecTask)
    requires
        0 <= i,
        i + spec_render_task(t).len() <= s.len(),
        s.subrange(i, i + spec_render_task(t).len() as int) == spec_render_task(t),
    ensures
        spec_parse_task_at(s, i) == Some((t, i + spec_render_task(t).len() as int)),
{
    let r = spec_render_task(t);
    let d = dec_digits(t.id as nat);
    let e = esc_string(t.title);
    let b = if t.completed {
        lit_true()
    } else {
        lit_false()
    };
    crate::num::lemma_dec_digits(t.id as nat);
    let cb = seq!['}'];
    let q = seq!['"'];
    let r7 = b + cb;
    let r6 = lit_completed() + r7;
    let r5 = q + r6;
    let r4 = e + r5;
    let r3 = lit_title() + r4;
    let r2 = d + r3;
    assert(r =~= lit_obj_open() + r2);
    assert(s.subrange(i, i + 6 + r2.len()) == lit_obj_open() + r2);
    lemma_subrange_split(s, i, lit_obj_open(), r2);
    // lit_obj_open splits into '{', the id key, and ':'
    assert(lit_obj_open() =~= seq!['{'] + (key_id() + seq![':']));
    assert(s.subrange(i, i + 1 + 5) == seq!['{'] + (key_id() + seq![':']));
    lemma_subrange_split(s, i, seq!['{'], key_id() + seq![':']);
    assert(s[i] == '{') by {
        lemma_subrange_index(s, i, seq!['{'], 0);
    }
    assert(s.subrange(i + 1, i + 1 + 4 + 1) == key_id() + seq![':']);
    lemma_subrange_split(s, i + 1, key_id(), seq![':']);
    assert(lit_at(s, i + 1, key_id()));
    assert(s[i + 5] == ':') by {
        lemma_subrange_index(s, i + 5, seq![':'], 0);
    }
    assert(s[i + 1] == '"') by {
        lemma_subrange_index(s, i + 1, key_id(), 0);
    }
    assert(ws_end(s, i + 1) == i + 1);
    assert(ws_end(s, i + 5) == i + 5);
    let o1 = i + 6;
    assert(s.subrange(o1, o1 + d.len() + r3.len()) == d + r3);
    lemma_subrange_split(s, o1, d, r3);
    assert(s[o1] == d[0]) by {
        lemma_subrange_index(s, o1, d, 0);
    }
    assert(is_digit(d[0]));
    lemma_digit_not_ws(d[0]);
    assert(ws_end(s, o1) == o1);
    let o2 = o1 + d.len();
    assert(s[o2] == ',') by {
        lemma_subrange_index(s, o2, r3, 0);
    }
    assert(!is_digit(',')) by {
        assert(',' as u32 == 44);
    }
    crate::num::lemma_parse_u32_dec(s, o1, t.id as nat);
    assert(ws_end(s, o2) == o2);
    // lit_title splits into ',', the title key, and ':' '"'
    assert(s.subrange(o2, o2 + 10 + r4.len()) == lit_title() + r4);
    lemma_subrange_split(s, o2, lit_title(), r4);
    assert(lit_title() =~= seq![','] + (key_title() + seq![':', '"']));
    assert(s.subrange(o2, o2 + 1 + 9) == seq![','] + (key_title() + seq![':', '"']));
    lemma_subrange_split(s, o2, seq![','], key_title() + seq![':', '"']);
    assert(s.subrange(o2 + 1, o2 + 1 + 7 + 2) == key_title() + seq![':', '"']);
    lemma_subrange_split(s, o2 + 1, key_title(), seq![':', '"']);
    assert(lit_at(s, o2 + 1, key_title()));
    assert(s[o2 + 8] == ':') by {
        lemma_subrange_index(s, o2 + 8, seq![':', '"'], 0);
    }
    assert(s[o2 + 9] == '"') by {
        lemma_subrange_index(s, o2 + 8, seq![':', '"'], 1);
    }
    assert(s[o2 + 1] == '"') by {
        lemma_subrange_index(s, o2 + 1, key_title(), 0);
    }
    assert(ws_end(s, o2 + 1) == o2 + 1);
    assert(ws_end(s, o2 + 8) == o2 + 8);
    assert(ws_end(s, o2 + 9) == o2 + 9);
    assert(!lit_at(s, o2 + 1, key_id())) by {
        assert(s[o2 + 2] == 't') by {
            lemma_subrange_index(s, o2 + 1, key_title(), 1);
        }
        if lit_at(s, o2 + 1, key_id()) {
            lemma_subrange_index(s, o2 + 1, key_id(), 1);
        }
    }
    let o3 = o2 + 10;
    assert(e + r5 =~= (e + q) + r6);
    assert(s.subrange(o3, o3 + (e.len() + 1) + r6.len()) == (e + q) + r6);
    lemma_subrange_split(s, o3, e + q, r6);
    lemma_parse_string_esc(s, o3, t.title);
    let o4 = o3 + e.len() + 1;
    assert(s[o4] == ',') by {
        lemma_subrange_index(s, o4, r6, 0);
    }
    assert(ws_end(s, o4) == o4);
    // lit_completed splits into ',', the completed key, and ':'
    assert(s.subrange(o4, o4 + 13 + r7.len()) == lit_completed() + r7);
    lemma_subrange_split(s, o4, lit_completed(), r7);
    assert(lit_completed() =~= seq![','] + (key_completed() + seq![':']));
    assert(s.subrange(o4, o4 + 1 + 12) == seq![','] + (key_completed() + seq![':']));
    lemma_subrange_split(s, o4, seq![','], key_completed() + seq![':']);
    assert(s.subrange(o4 + 1, o4 + 1 + 11 + 1) == key_completed() + seq![':']);
    lemma_subrange_split(s, o4 + 1, key_completed(), seq![':']);
    assert(lit_at(s, o4 + 1, key_completed()));
    assert(s[o4 + 12] == ':') by {
        lemma_subrange_index(s, o4 + 12, seq![':'], 0);
    }
    assert(s[o4 + 1] == '"') by {
        lemma_subrange_index(s, o4 + 1, key_completed(), 0);
    }
    assert(s[o4 + 2] == 'c') by {
        lemma_subrange_index(s, o4 + 1, key_completed(), 1);
    }
    assert(ws_end(s, o4 + 1) == o4 + 1);
    assert(ws_end(s, o4 + 12) == o4 + 12);
    assert(!lit_at(s, o4 + 1, key_id())) by {
        if lit_at(s, o4 + 1, key_id()) {
            lemma_subrange_index(s, o4 + 1, key_id(), 1);
        }
    }
    assert(!lit_at(s, o4 + 1, key_title())) by {
        if lit_at(s, o4 + 1, key_title()) {
            lemma_subrange_index(s, o4 + 1, key_title(), 1);
        }
    }
    let o5 = o4 + 13;
    assert(s.subrange(o5, o5 + b.len() + 1) == b + cb);
    lemma_subrange_split(s, o5, b, cb);
    assert(s[o5] == b[0]) by {
        lemma_subrange_index(s, o5, b, 0);
    }
    assert(ws_end(s, o5) == o5);
    let o6 = o5 + b.len();
    assert(s[o6] == '}') by {
        lemma_subrange_index(s, o6, cb, 0);
    }
    assert(ws_end(s, o6) == o6);
    if t.completed {
        assert(lit_at(s, o5, lit_true()));
        assert(spec_parse_fields_at(s, o4 + 1, Some(t.id), Some(t.title), None) == Some(
            (SpecTask { id: t.id, title: t.title, completed: true }, o6 + 1),
        ));
    } else {
        assert(!lit_at(s, o5, lit_true())) by {
            if lit_at(s, o5, lit_true()) {
                lemma_subrange_index(s, o5, lit_true(), 0);
            }
        }
        assert(lit_at(s, o5, lit_false()));
        assert(spec_parse_fields_at(s, o4 + 1, Some(t.id), Some(t.title), None) == Some(
            (SpecTask { id: t.id, title: t.title, completed: false }, o6 + 1),
        ));
    }
    assert(spec_parse_fields_at(s, o2 + 1, Some(t.id), None, None) == Some(
        (SpecTask { id: t.id, title: t.title, completed: t.completed }, o6 + 1),
    ));
    assert(spec_parse_fields_at(s, i + 1, None, None, None) == Some(
        (SpecTask { id: t.id, title: t.title, completed: t.completed }, o6 + 1),
    ));
    assert(SpecTask { id: t.id, title: t.title, completed: t.completed } =~= t);
}

/// Reading a task list at the start of a rendered nonempty task sequence,
/// closed by its bracket, yields the sequence back.
pub proof fn lemma_parse_tasks_render(s: Seq<char>, i: int, v: Seq<SpecTask>)
    requires
        v.len() >= 1,
        0 <= i,
        i + spec_render_tasks(v).len() + 1 <= s.len(),
        s.subrange(i, i + spec_render_tasks(v).len() + 1) == spec_render_tasks(v) + seq![']'],
    ensures
        spec_parse_tasks_at(s, i) == Some((v, i + spec_render_tasks(v).len() + 1)),
    decreases v.len(),
{
    let rt = spec_render_tasks(v);
    let r0 = spec_render_task(v[0]);
    let br = seq![']'];
    if v.len() == 1 {
        assert(rt == r0);
        assert(s.subrange(i, i + r0.len() + 1) == r0 + br);
        lemma_subrange_split(s, i, r0, br);
        lemma_parse_task_render(s, i, v[0]);
        let j = i + r0.len();
        assert(s[j] == ']') by {
            lemma_subrange_index(s, j, br, 0);
        }
        assert(ws_end(s, j) == j);
        assert(seq![v[0]] =~= v);
    } else {
        lemma_render_tasks_cons(v);
        let v1 = v.drop_first();
        let rt1 = spec_render_tasks(v1);
        let rest = seq![','] + (rt1 + br);
        assert(rt + br =~= r0 + rest);
        assert(s.subrange(i, i + r0.len() + rest.len()) == r0 + rest);
        lemma_subrange_split(s, i, r0, rest);
        lemma_parse_task_render(s, i, v[0]);
        let j = i + r0.len();
        assert(s.subrange(j, j + 1 + (rt1.len() + 1)) == seq![','] + (rt1 + br));
        lemma_subrange_split(s, j, seq![','], rt1 + br);
        assert(s[j] == ',') by {
            lemma_subrange_index(s, j, seq![','], 0);
        }
        assert(ws_end(s, j) == j);
        assert(s.subrange(j + 1, j + 1 + rt1.len() + 1) == rt1 + br);
        assert(rt1[0] == '{') by {
            let r10 = spec_render_task(v1[0]);
            if v1.len() >= 2 {
                lemma_render_tasks_cons(v1);
                assert(rt1[0] == (r10 + seq![','])[0]);
            }
            assert(r10[0] == '{');
        }
        assert(s[j + 1] == '{') by {
            lemma_subrange_index(s, j + 1, rt1 + br, 0);
        }
        assert(ws_end(s, j + 1) == j + 1);
        lemma_parse_tasks_render(s, j + 1, v1);
        assert(seq![v[0]] + v1 =~= v);
    }
}

/// Round trip of persistence: parsing the rendered document of any task
/// sequence yields exactly that sequence, whatever numbers, titles and
/// completion flags its tasks hold.
pub proof fn lemma_render_parse_round_trip(v: Seq<SpecTask>)
    ensures
        spec_parse_store(spec_render_store(v)) == Some(v),
{
    let s = spec_render_store(v);
    let rt = spec_render_tasks(v);
    let tail = seq![']', '}'];
    assert(s.len() == 10 + rt.len() + 2);
    assert(s.subrange(0, s.len() as int) =~= s);
    assert(s =~= lit_store_open() + (rt + tail));
    assert(s.subrange(0, 0 + 10 + (rt.len() as int + 2)) == lit_store_open() + (rt + tail));
    lemma_subrange_split(s, 0, lit_store_open(), rt + tail);
    // lit_store_open splits into '{', the tasks key, and ':' '['
    assert(lit_store_open() =~= seq!['{'] + (key_tasks() + seq![':', '[']));
    assert(s.subrange(0, 10) == seq!['{'] + (key_tasks() + seq![':', '[']));
    lemma_subrange_split(s, 0, seq!['{'], key_tasks() + seq![':', '[']);
    assert(s[0] == '{') by {
        lemma_subrange_index(s, 0, seq!['{'], 0);
    }
    assert(s.subrange(1, 10) == key_tasks() + seq![':', '[']);
    lemma_subrange_split(s, 1, key_tasks(), seq![':', '[']);
    assert(lit_at(s, 1, key_tasks()));
    assert(s[8] == ':') by {
        lemma_subrange_index(s, 8, seq![':', '['], 0);
    }
    assert(s[9] == '[') by {
        lemma_subrange_index(s, 8, seq![':', '['], 1);
    }
    assert(s[1] == '"') by {
        lemma_subrange_index(s, 1, key_tasks(), 0);
    }
    assert(ws_end(s, 0) == 0);
    assert(ws_end(s, 1) == 1);
    assert(ws_end(s, 8) == 8);
    assert(ws_end(s, 9) == 9);
    if v.len() == 0 {
        assert(rt.len() == 0);
        assert(s.len() == 12);
        assert(rt + tail =~= tail);
        assert(s.subrange(10, 12) == tail);
        assert(s[10] == ']') by {
            lemma_subrange_index(s, 10, tail, 0);
        }
        assert(s[11] == '}') by {
            lemma_subrange_index(s, 10, tail, 1);
        }
        assert(ws_end(s, 10) == 10);
        assert(ws_end(s, 11) == 11);
        assert(ws_end(s, 12) == 12);
        assert(spec_parse_store(s) == Some(Seq::<SpecTask>::empty()));
        assert(Seq::<SpecTask>::empty() =~= v);
    } else {
        let r0 = spec_render_task(v[0]);
        let cb = seq!['}'];
        assert(rt + tail =~= (rt + seq![']']) + cb);
        assert(s.subrange(10, 10 + (rt.len() as int + 1) + 1) == (rt + seq![']']) + cb);
        lemma_subrange_split(s, 10, rt + seq![']'], cb);
        let j: int = 10 + rt.len() as int + 1;
        assert(s.subrange(10, j) == rt + seq![']']);
        assert(s[j] == '}') by {
            lemma_subrange_index(s, j, cb, 0);
        }
        assert(rt[0] == r0[0]) by {
            if v.len() >= 2 {
                lemma_render_tasks_cons(v);
                assert(rt[0] == (r0 + seq![','])[0]);
            }
        }
        assert(r0[0] == '{');
        assert(s[10] == '{') by {
            lemma_subrange_index(s, 10, rt + seq![']'], 0);
        }
        assert(ws_end(s, 10) == 10);
        lemma_parse_tasks_render(s, 10, v);
        assert(ws_end(s, j) == j);
        assert(j + 1 == s.len());
        assert(ws_end(s, j + 1) == s.len());
    }
}

/// The store read back from a saved document, if any: a missing document,
/// one that does not parse, and one whose numbers are not exactly `1..=N`
/// in order all fall back silently to an empty store.
pub fn load_from_content(content: Option<&str>) -> (store: TodoList)
    ensures
        store.wf(),
        match content {
            None => store@ == Seq::<SpecTask>::empty(),
            Some(c) => match spec_parse_store(c@) {
                Some(v) => if crate::store::ids_contiguous(v) {
                    store@ == v
                } else {
                    store@ == Seq::<SpecTask>::empty()
                },
                None => store@ == Seq::<SpecTask>::empty(),
            },
        },
{
    match content {
        None => TodoList::new(),
        Some(c) => {
            match parse_store(c) {
                None => TodoList::new(),
                Some(list) => {
                    if list.check_ids() {
                        list
                    } else {
                        TodoList::new()
                    }
                },
            }
        },
    }
}

} // verus!
