//! The persisted file format: a JSON array of task objects.
//!
//! The renderer writes each task canonically as
//! `{"id":N,"description":S,"created_at":S,"updated_at":S,"completed":B}`
//! with no whitespace, the fields in that order, numbers in decimal without
//! leading zeros, and strings escaped minimally (`\"` and `\\`, and `\u00XX`
//! for control characters). The parser accepts more: whitespace between
//! tokens, and the JSON escapes `\/` `\n` `\t` `\r` `\b` `\f` and `\uXXXX`
//! inside strings. The fields must come in their fixed order. Whatever the
//! renderer writes parses back to the same task list, so a load-save cycle
//! never changes what a file means, and leaves a file the tool itself wrote
//! byte for byte as it was.

use vstd::prelude::*;

use crate::task::Task;
use crate::task::TaskView;

verus! {

// ---------------------------------------------------------------------------
// Characters and digits
// ---------------------------------------------------------------------------

/// The decimal digit characters, `0` through `9`.
pub open spec fn digit_char(d: int) -> char {
    if d == 0 { '0' }
    else if d == 1 { '1' }
    else if d == 2 { '2' }
    else if d == 3 { '3' }
    else if d == 4 { '4' }
    else if d == 5 { '5' }
    else if d == 6 { '6' }
    else if d == 7 { '7' }
    else if d == 8 { '8' }
    else { '9' }
}

pub open spec fn is_digit(c: char) -> bool {
    48 <= c as u32 <= 57
}

/// The value of a decimal digit character.
pub open spec fn digit_val(c: char) -> int {
    c as u32 - 48
}

/// The lowercase hexadecimal digit characters, `0` through `f`.
pub open spec fn hex_char(d: int) -> char {
    if d < 10 { digit_char(d) }
    else if d == 10 { 'a' }
    else if d == 11 { 'b' }
    else if d == 12 { 'c' }
    else if d == 13 { 'd' }
    else if d == 14 { 'e' }
    else { 'f' }
}

/// The value of a hexadecimal digit character, either case, or -1 for any
/// other character.
pub open spec fn hex_val(c: char) -> int {
    if is_digit(c) { digit_val(c) }
    else if c == 'a' || c == 'A' { 10 }
    else if c == 'b' || c == 'B' { 11 }
    else if c == 'c' || c == 'C' { 12 }
    else if c == 'd' || c == 'D' { 13 }
    else if c == 'e' || c == 'E' { 14 }
    else if c == 'f' || c == 'F' { 15 }
    else { -1 }
}

// ---------------------------------------------------------------------------
// Rendering, at the specification level
// ---------------------------------------------------------------------------

/// The decimal digits of `n`, most significant first, without leading zeros.
pub open spec fn spec_dec(n: nat) -> Seq<char>
    decreases n,
{
    if n < 10 {
        seq![digit_char(n as int)]
    } else {
        spec_dec(n / 10).push(digit_char((n % 10) as int))
    }
}

/// How one character appears inside a JSON string: itself, unless it is a
/// quote, a backslash, or a control character.
pub open spec fn esc_char(c: char) -> Seq<char> {
    if c == '"' {
        seq!['\\', '"']
    } else if c == '\\' {
        seq!['\\', '\\']
    } else if (c as u32) < 32 {
        seq!['\\', 'u', '0', '0', hex_char((c as u32 / 16) as int), hex_char((c as u32 % 16) as int)]
    } else {
        seq![c]
    }
}

/// The body of a JSON string: each character escaped as needed.
pub open spec fn esc(s: Seq<char>) -> Seq<char>
    decreases s.len(),
{
    if s.len() == 0 {
        Seq::empty()
    } else {
        esc_char(s[0]) + esc(s.drop_first())
    }
}

/// A JSON string: the escaped body between double quotes.
pub open spec fn spec_json_string(s: Seq<char>) -> Seq<char> {
    seq!['"'] + esc(s) + seq!['"']
}

/// `"id"` - the first field's key, quotes included.
pub open spec fn lit_key_id() -> Seq<char> {
    seq!['"', 'i', 'd', '"']
}

/// `"description"`
pub open spec fn lit_key_description() -> Seq<char> {
    seq!['"', 'd', 'e', 's', 'c', 'r', 'i', 'p', 't', 'i', 'o', 'n', '"']
}

/// `"created_at"`
pub open spec fn lit_key_created_at() -> Seq<char> {
    seq!['"', 'c', 'r', 'e', 'a', 't', 'e', 'd', '_', 'a', 't', '"']
}

/// `"updated_at"`
pub open spec fn lit_key_updated_at() -> Seq<char> {
    seq!['"', 'u', 'p', 'd', 'a', 't', 'e', 'd', '_', 'a', 't', '"']
}

/// `"completed"`
pub open spec fn lit_key_completed() -> Seq<char> {
    seq!['"', 'c', 'o', 'm', 'p', 'l', 'e', 't', 'e', 'd', '"']
}

/// `{"id":` - opens a task object.
pub open spec fn lit_open_id() -> Seq<char> {
    seq!['{'] + lit_key_id() + seq![':']
}

/// `,"description":`
pub open spec fn lit_description() -> Seq<char> {
    seq![','] + lit_key_description() + seq![':']
}

/// `,"created_at":`
pub open spec fn lit_created_at() -> Seq<char> {
    seq![','] + lit_key_created_at() + seq![':']
}

/// `,"updated_at":`
pub open spec fn lit_updated_at() -> Seq<char> {
    seq![','] + lit_key_updated_at() + seq![':']
}

/// `,"completed":`
pub open spec fn lit_completed() -> Seq<char> {
    seq![','] + lit_key_completed() + seq![':']
}

pub open spec fn lit_true() -> Seq<char> {
    seq!['t', 'r', 'u', 'e']
}

pub open spec fn lit_false() -> Seq<char> {
    seq!['f', 'a', 'l', 's', 'e']
}

/// One task as a JSON object.
pub open spec fn spec_task(v: TaskView) -> Seq<char> {
    lit_open_id() + spec_dec(v.id as nat)
        + lit_description() + spec_json_string(v.description)
        + lit_created_at() + spec_json_string(v.created_at)
        + lit_updated_at() + spec_json_string(v.updated_at)
        + lit_completed() + (if v.completed { lit_true() } else { lit_false() })
        + seq!['}']
}

/// The comma-separated task objects of a non-empty list.
pub open spec fn spec_items(vs: Seq<TaskView>) -> Seq<char>
    decreases vs.len(),
{
    if vs.len() <= 1 {
        if vs.len() == 0 { Seq::empty() } else { spec_task(vs[0]) }
    } else {
        spec_task(vs[0]) + seq![','] + spec_items(vs.drop_first())
    }
}

/// A whole task list as a JSON array. This is the file's entire contents.
pub open spec fn spec_render(vs: Seq<TaskView>) -> Seq<char> {
    seq!['['] + spec_items(vs) + seq![']']
}

// ---------------------------------------------------------------------------
// Rendering, executable
// ---------------------------------------------------------------------------

/// Relies on `String::push`: appends the given character to the string.
#[verifier::external_body]
fn push_char(out: &mut String, c: char)
    ensures
        final(out)@ == old(out)@ + seq![c],
{
    out.push(c);
}

fn push_digit(out: &mut String, d: u32)
    requires
        d < 10,
    ensures
        final(out)@ == old(out)@ + seq![digit_char(d as int)],
{
    let c: char = match d {
        0 => '0',
        1 => '1',
        2 => '2',
        3 => '3',
        4 => '4',
        5 => '5',
        6 => '6',
        7 => '7',
        8 => '8',
        _ => '9',
    };
    push_char(out, c);
}

fn push_hex(out: &mut String, d: u32)
    requires
        d < 16,
    ensures
        final(out)@ == old(out)@ + seq![hex_char(d as int)],
{
    if d < 10 {
        push_digit(out, d);
    } else {
        let c: char = match d {
            10 => 'a',
            11 => 'b',
            12 => 'c',
            13 => 'd',
            14 => 'e',
            _ => 'f',
        };
        push_char(out, c);
    }
}

pub(crate) fn push_dec(out: &mut String, n: u32)
    ensures
        final(out)@ == old(out)@ + spec_dec(n as nat),
    decreases n,
{
    if n >= 10 {
        push_dec(out, n / 10);
    }
    push_digit(out, n % 10);
    proof {
        if n >= 10 {
            assert(out@ =~= old(out)@ + spec_dec(n as nat));
        }
    }
}

fn push_json_string(out: &mut String, s: &str)
    ensures
        final(out)@ == old(out)@ + spec_json_string(s@),
{
    push_char(out, '"');
    let n = s.unicode_len();
    let mut i: usize = 0;
    while i < n
        invariant
            n == s@.len(),
            i <= n,
            out@ == old(out)@ + seq!['"'] + esc(s@.take(i as int)),
        decreases n - i,
    {
        let c = s.get_char(i);
        if c == '"' {
            push_char(out, '\\');
            push_char(out, '"');
        } else if c == '\\' {
            push_char(out, '\\');
            push_char(out, '\\');
        } else if (c as u32) < 32 {
            push_char(out, '\\');
            push_char(out, 'u');
            push_char(out, '0');
            push_char(out, '0');
            push_hex(out, (c as u32) / 16);
            push_hex(out, (c as u32) % 16);
        } else {
            push_char(out, c);
        }
        proof {
            lemma_esc_push(s@.take(i as int), s@[i as int]);
            assert(s@.take(i + 1) =~= s@.take(i as int).push(s@[i as int]));
            assert(out@ =~= old(out)@ + seq!['"'] + esc(s@.take(i + 1)));
        }
        i = i + 1;
    }
    push_char(out, '"');
    proof {
        assert(s@.take(n as int) =~= s@);
        assert(out@ =~= old(out)@ + spec_json_string(s@));
    }
}

/// Escaping a sequence one character longer appends that character's escape.
proof fn lemma_esc_push(s: Seq<char>, c: char)
    ensures
        esc(s.push(c)) == esc(s) + esc_char(c),
    decreases s.len(),
{
    let sp = s.push(c);
    if s.len() == 0 {
        assert(sp[0] == c);
        assert(sp.drop_first() =~= Seq::<char>::empty());
        assert(esc(sp.drop_first()) == Seq::<char>::empty());
        assert(esc(sp) == esc_char(c) + Seq::<char>::empty());
        assert(esc_char(c) + Seq::<char>::empty() =~= esc(s) + esc_char(c));
    } else {
        lemma_esc_push(s.drop_first(), c);
        assert(sp.drop_first() =~= s.drop_first().push(c));
        assert(sp[0] == s[0]);
        assert(esc(sp) == esc_char(s[0]) + esc(s.drop_first().push(c)));
        assert(esc(sp) == esc_char(s[0]) + (esc(s.drop_first()) + esc_char(c)));
        assert(esc(s) == esc_char(s[0]) + esc(s.drop_first()));
        assert(esc_char(s[0]) + (esc(s.drop_first()) + esc_char(c)) =~= (esc_char(s[0]) + esc(
            s.drop_first(),
        )) + esc_char(c));
    }
}

fn push_open_id(out: &mut String)
    ensures
        final(out)@ == old(out)@ + lit_open_id(),
{
    push_char(out, '{');
    push_char(out, '"');
    push_char(out, 'i');
    push_char(out, 'd');
    push_char(out, '"');
    push_char(out, ':');
    proof {
        assert(out@ =~= old(out)@ + lit_open_id());
    }
}

fn push_key_description(out: &mut String)
    ensures
        final(out)@ == old(out)@ + lit_description(),
{
    push_char(out, ',');
    push_char(out, '"');
    push_char(out, 'd');
    push_char(out, 'e');
    push_char(out, 's');
    push_char(out, 'c');
    push_char(out, 'r');
    push_char(out, 'i');
    push_char(out, 'p');
    push_char(out, 't');
    push_char(out, 'i');
    push_char(out, 'o');
    push_char(out, 'n');
    push_char(out, '"');
    push_char(out, ':');
    proof {
        assert(out@ =~= old(out)@ + lit_description());
    }
}

fn push_key_created_at(out: &mut String)
    ensures
        final(out)@ == old(out)@ + lit_created_at(),
{
    push_char(out, ',');
    push_char(out, '"');
    push_char(out, 'c');
    push_char(out, 'r');
    push_char(out, 'e');
    push_char(out, 'a');
    push_char(out, 't');
    push_char(out, 'e');
    push_char(out, 'd');
    push_char(out, '_');
    push_char(out, 'a');
    push_char(out, 't');
    push_char(out, '"');
    push_char(out, ':');
    proof {
        assert(out@ =~= old(out)@ + lit_created_at());
    }
}

fn push_key_updated_at(out: &mut String)
    ensures
        final(out)@ == old(out)@ + lit_updated_at(),
{
    push_char(out, ',');
    push_char(out, '"');
    push_char(out, 'u');
    push_char(out, 'p');
    push_char(out, 'd');
    push_char(out, 'a');
    push_char(out, 't');
    push_char(out, 'e');
    push_char(out, 'd');
    push_char(out, '_');
    push_char(out, 'a');
    push_char(out, 't');
    push_char(out, '"');
    push_char(out, ':');
    proof {
        assert(out@ =~= old(out)@ + lit_updated_at());
    }
}

fn push_key_completed(out: &mut String)
    ensures
        final(out)@ == old(out)@ + lit_completed(),
{
    push_char(out, ',');
    push_char(out, '"');
    push_char(out, 'c');
    push_char(out, 'o');
    push_char(out, 'm');
    push_char(out, 'p');
    push_char(out, 'l');
    push_char(out, 'e');
    push_char(out, 't');
    push_char(out, 'e');
    push_char(out, 'd');
    push_char(out, '"');
    push_char(out, ':');
    proof {
        assert(out@ =~= old(out)@ + lit_completed());
    }
}

fn push_bool(out: &mut String, b: bool)
    ensures
        final(out)@ == old(out)@ + (if b { lit_true() } else { lit_false() }),
{
    if b {
        push_char(out, 't');
        push_char(out, 'r');
        push_char(out, 'u');
        push_char(out, 'e');
        proof {
            assert(out@ =~= old(out)@ + lit_true());
        }
    } else {
        push_char(out, 'f');
        push_char(out, 'a');
        push_char(out, 'l');
        push_char(out, 's');
        push_char(out, 'e');
        proof {
            assert(out@ =~= old(out)@ + lit_false());
        }
    }
}

fn push_task(out: &mut String, t: &Task)
    ensures
        final(out)@ == old(out)@ + spec_task(t@),
{
    push_open_id(out);
    push_dec(out, t.id);
    push_key_description(out);
    push_json_string(out, t.description.as_str());
    push_key_created_at(out);
    push_json_string(out, t.created_at.as_str());
    push_key_updated_at(out);
    push_json_string(out, t.updated_at.as_str());
    push_key_completed(out);
    push_bool(out, t.completed);
    push_char(out, '}');
    proof {
        assert(out@ =~= old(out)@ + spec_task(t@));
    }
}

/// Renders the whole task list as the file's contents.
pub fn render_tasks(tasks: &Vec<Task>) -> (r: String)
    ensures
        r@ == spec_render(tasks.deep_view()),
{
    let mut out = String::new();
    push_char(&mut out, '[');
    let ghost vs = tasks.deep_view();
    let mut i: usize = 0;
    while i < tasks.len()
        invariant
            vs == tasks.deep_view(),
            vs.len() == tasks.len(),
            i <= tasks.len(),
            out@ == seq!['['] + spec_items(vs.take(i as int)),
        decreases tasks.len() - i,
    {
        if i > 0 {
            push_char(&mut out, ',');
        }
        push_task(&mut out, &tasks[i]);
        proof {
            assert(tasks[i as int]@ == vs[i as int]);
            lemma_items_take_next(vs, i as int);
            assert(out@ =~= seq!['['] + spec_items(vs.take(i + 1)));
        }
        i = i + 1;
    }
    push_char(&mut out, ']');
    proof {
        assert(vs.take(vs.len() as int) =~= vs);
        assert(out@ =~= spec_render(tasks.deep_view()));
    }
    out
}

/// Growing a non-empty prefix of a task list by one task appends a comma and
/// the task's object; growing the empty prefix appends just the object.
proof fn lemma_items_take_next(vs: Seq<TaskView>, i: int)
    requires
        0 <= i < vs.len(),
    ensures
        i == 0 ==> spec_items(vs.take(i + 1)) == spec_task(vs[0]),
        i > 0 ==> spec_items(vs.take(i + 1)) == spec_items(vs.take(i)) + seq![','] + spec_task(
            vs[i],
        ),
{
    lemma_items_snoc(vs.take(i), vs[i]);
    assert(vs.take(i + 1) =~= vs.take(i).push(vs[i]));
    if i == 0 {
        assert(vs.take(1) =~= seq![vs[0]]);
        assert(spec_items(seq![vs[0]]) == spec_task(vs[0]));
    }
}

/// Appending a task to a non-empty list appends a comma and its object to
/// the rendered items.
proof fn lemma_items_snoc(vs: Seq<TaskView>, v: TaskView)
    ensures
        vs.len() == 0 ==> spec_items(vs.push(v)) == spec_task(v),
        vs.len() > 0 ==> spec_items(vs.push(v)) == spec_items(vs) + seq![','] + spec_task(v),
    decreases vs.len(),
{
    if vs.len() == 0 {
        assert(vs.push(v) =~= seq![v]);
        assert(spec_items(seq![v]) == spec_task(v));
    } else if vs.len() == 1 {
        assert(vs.push(v)[0] == vs[0]);
        assert(vs.push(v).drop_first() =~= seq![v]);
        assert(seq![v][0] == v);
        assert(spec_items(seq![v]) == spec_task(v));
        assert(spec_items(vs.push(v)) == spec_task(vs[0]) + seq![','] + spec_task(v));
        assert(vs =~= seq![vs[0]]);
    } else {
        lemma_items_snoc(vs.drop_first(), v);
        assert(vs.push(v).drop_first() =~= vs.drop_first().push(v));
        assert(vs.push(v)[0] == vs[0]);
        assert(spec_items(vs) + seq![','] + spec_items(vs.drop_first().push(v)) =~= spec_items(
            vs,
        ) + seq![','] + spec_items(vs.drop_first()) + seq![','] + spec_task(v));
        assert(spec_items(vs.push(v)) =~= spec_items(vs) + seq![','] + spec_task(v));
    }
}

} // verus!

verus! {

// ---------------------------------------------------------------------------
// Parsing, at the specification level
// ---------------------------------------------------------------------------

/// Recognizes the fixed sequence `l` at position `i`.
pub open spec fn sp_lit(s: Seq<char>, i: int, l: Seq<char>) -> Option<int> {
    if 0 <= i && i + l.len() <= s.len() && s.subrange(i, i + l.len()) == l {
        Some(i + l.len())
    } else {
        None
    }
}

/// The end of the run of digit characters starting at `i`.
pub open spec fn digits_end(s: Seq<char>, i: int) -> int
    decreases s.len() - i when 0 <= i <= s.len()
{
    if i < s.len() && is_digit(s[i]) {
        digits_end(s, i + 1)
    } else {
        i
    }
}

/// A whitespace character of the file format: space, tab, line feed or
/// carriage return.
pub open spec fn is_json_ws(c: char) -> bool {
    c == ' ' || c == '\t' || c == '\n' || c == '\r'
}

/// The end of the run of whitespace characters starting at `i`.
pub open spec fn ws_end(s: Seq<char>, i: int) -> int
    decreases s.len() - i when 0 <= i <= s.len()
{
    if i < s.len() && is_json_ws(s[i]) {
        ws_end(s, i + 1)
    } else {
        i
    }
}

/// The value of a sequence of decimal digit characters.
pub open spec fn digits_val(ds: Seq<char>) -> int
    decreases ds.len(),
{
    if ds.len() == 0 {
        0
    } else {
        digits_val(ds.drop_last()) * 10 + digit_val(ds.last())
    }
}

/// Parses a decimal number at `i`: at least one digit, no leading zero,
/// value within `u32`.
pub open spec fn sp_u32(s: Seq<char>, i: int) -> Option<(u32, int)> {
    let e = digits_end(s, i);
    if e == i {
        None
    } else if digit_val(s[i]) == 0 && e > i + 1 {
        None
    } else if digits_val(s.subrange(i, e)) > u32::MAX as int {
        None
    } else {
        Some((digits_val(s.subrange(i, e)) as u32, e))
    }
}

/// What a two-character escape denotes: `\n`, `\t`, `\r`, `\b` or `\f`.
pub open spec fn short_escape_char(c: char) -> char {
    if c == 'n' { '\n' }
    else if c == 't' { '\t' }
    else if c == 'r' { '\r' }
    else if c == 'b' { '\u{0008}' }
    else { '\u{000C}' }
}

/// Whether `c` names a two-character escape with a value of its own.
pub open spec fn is_short_escape(c: char) -> bool {
    c == 'n' || c == 't' || c == 'r' || c == 'b' || c == 'f'
}

/// The value of the four hexadecimal digits of a `\u` escape at `i + 2`.
pub open spec fn u_escape_val(s: Seq<char>, i: int) -> int {
    hex_val(s[i + 2]) * 4096 + hex_val(s[i + 3]) * 256 + hex_val(s[i + 4]) * 16 + hex_val(
        s[i + 5],
    )
}

/// Parses the body of a JSON string after the opening quote: plain
/// characters, the escapes `\"` `\\` `\/` `\n` `\t` `\r` `\b` `\f`, and
/// `\uXXXX` for any scalar value outside the surrogate range. `acc` holds
/// the characters decoded so far; the result is the decoded string and the
/// position just after the closing quote.
pub open spec fn sp_str_body(s: Seq<char>, i: int, acc: Seq<char>) -> Option<(Seq<char>, int)>
    decreases s.len() - i when 0 <= i <= s.len()
{
    if i >= s.len() {
        None
    } else if s[i] == '"' {
        Some((acc, i + 1))
    } else if s[i] == '\\' {
        if i + 1 < s.len() && (s[i + 1] == '"' || s[i + 1] == '\\' || s[i + 1] == '/') {
            sp_str_body(s, i + 2, acc.push(s[i + 1]))
        } else if i + 1 < s.len() && is_short_escape(s[i + 1]) {
            sp_str_body(s, i + 2, acc.push(short_escape_char(s[i + 1])))
        } else if i + 1 < s.len() && s[i + 1] == 'u' {
            if i + 5 < s.len() && 0 <= hex_val(s[i + 2]) && 0 <= hex_val(s[i + 3]) && 0 <= hex_val(
                s[i + 4],
            ) && 0 <= hex_val(s[i + 5]) && !(0xD800 <= u_escape_val(s, i) < 0xE000) {
                sp_str_body(s, i + 6, acc.push(((u_escape_val(s, i) as u32) as char)))
            } else {
                None
            }
        } else {
            None
        }
    } else if (s[i] as u32) < 32 {
        None
    } else {
        sp_str_body(s, i + 1, acc.push(s[i]))
    }
}

/// Parses a JSON string at `i`: opening quote, body, closing quote.
pub open spec fn sp_string(s: Seq<char>, i: int) -> Option<(Seq<char>, int)> {
    if 0 <= i < s.len() && s[i] == '"' {
        sp_str_body(s, i + 1, Seq::empty())
    } else {
        None
    }
}

/// Parses `true` or `false` at `i`.
pub open spec fn sp_bool(s: Seq<char>, i: int) -> Option<(bool, int)> {
    if sp_lit(s, i, lit_true()) is Some {
        Some((true, i + 4))
    } else if sp_lit(s, i, lit_false()) is Some {
        Some((false, i + 5))
    } else {
        None
    }
}

/// Parses one field key at `i`: optional whitespace, the quoted key `l`,
/// optional whitespace, a colon, optional whitespace.
pub open spec fn sp_key(s: Seq<char>, i: int, l: Seq<char>) -> Option<int>
    recommends
        0 <= i <= s.len(),
{
    let a = ws_end(s, i);
    match sp_lit(s, a, l) {
        None => None,
        Some(b) => {
            let c2 = ws_end(s, b);
            if c2 < s.len() && s[c2] == ':' {
                Some(ws_end(s, c2 + 1))
            } else {
                None
            }
        },
    }
}

/// Parses a comma followed by a field key, whitespace allowed around both.
pub open spec fn sp_sep_key(s: Seq<char>, i: int, l: Seq<char>) -> Option<int>
    recommends
        0 <= i <= s.len(),
{
    let a = ws_end(s, i);
    if a < s.len() && s[a] == ',' {
        sp_key(s, a + 1, l)
    } else {
        None
    }
}

/// Parses one task object at `i`: the five fields in their fixed order,
/// whitespace allowed between tokens.
pub open spec fn sp_task(s: Seq<char>, i: int) -> Option<(TaskView, int)>
    recommends
        0 <= i <= s.len(),
{
    if !(i < s.len() && s[i] == '{') {
        None
    } else {
        let r1 = sp_key(s, i + 1, lit_key_id());
        if r1 is None {
            None
        } else {
            let r2 = sp_u32(s, r1->Some_0);
            if r2 is None {
                None
            } else {
                let r3 = sp_sep_key(s, r2->Some_0.1, lit_key_description());
                if r3 is None {
                    None
                } else {
                    let r4 = sp_string(s, r3->Some_0);
                    if r4 is None {
                        None
                    } else {
                        let r5 = sp_sep_key(s, r4->Some_0.1, lit_key_created_at());
                        if r5 is None {
                            None
                        } else {
                            let r6 = sp_string(s, r5->Some_0);
                            if r6 is None {
                                None
                            } else {
                                let r7 = sp_sep_key(s, r6->Some_0.1, lit_key_updated_at());
                                if r7 is None {
                                    None
                                } else {
                                    let r8 = sp_string(s, r7->Some_0);
                                    if r8 is None {
                                        None
                                    } else {
                                        let r9 = sp_sep_key(s, r8->Some_0.1, lit_key_completed());
                                        if r9 is None {
                                            None
                                        } else {
                                            let r10 = sp_bool(s, r9->Some_0);
                                            if r10 is None {
                                                None
                                            } else {
                                                let a = ws_end(s, r10->Some_0.1);
                                                if a < s.len() && s[a] == '}' {
                                                    Some(
                                                        (
                                                            TaskView {
                                                                id: r2->Some_0.0,
                                                                description: r4->Some_0.0,
                                                                created_at: r6->Some_0.0,
                                                                updated_at: r8->Some_0.0,
                                                                completed: r10->Some_0.0,
                                                            },
                                                            a + 1,
                                                        ),
                                                    )
                                                } else {
                                                    None
                                                }
                                            }
                                        }
                                    }
                                }
                            }
                        }
                    }
                }
            }
        }
    }
}

/// Parses the task objects of a non-empty list, including the closing
/// bracket, whitespace allowed between tokens.
pub open spec fn sp_items(s: Seq<char>, i: int) -> Option<(Seq<TaskView>, int)>
    decreases s.len() - i when 0 <= i <= s.len()
{
    let a = ws_end(s, i);
    if !(i <= a <= s.len()) {
        None  // ws_end never lands here; this guards the recursion
    } else {
        match sp_task(s, a) {
            None => None,
            Some((v, j)) => {
                if !(a < j && j <= s.len()) {
                    None  // sp_task never lands here; this guards the recursion
                } else {
                    let b = ws_end(s, j);
                    if !(j <= b <= s.len()) {
                        None  // ws_end never lands here either
                    } else if b < s.len() && s[b] == ',' {
                        match sp_items(s, b + 1) {
                            None => None,
                            Some((vs, k)) => Some((seq![v] + vs, k)),
                        }
                    } else if b < s.len() && s[b] == ']' {
                        Some((seq![v], b + 1))
                    } else {
                        None
                    }
                }
            },
        }
    }
}

/// Parses a whole file: a JSON array of task objects with nothing but
/// whitespace after it.
pub open spec fn sp_parse(s: Seq<char>) -> Option<Seq<TaskView>> {
    let a = ws_end(s, 0);
    if a < s.len() && s[a] == '[' {
        let b = ws_end(s, a + 1);
        if b < s.len() && s[b] == ']' {
            if ws_end(s, b + 1) == s.len() {
                Some(Seq::empty())
            } else {
                None
            }
        } else {
            match sp_items(s, a + 1) {
                None => None,
                Some((vs, k)) => if 0 <= k <= s.len() && ws_end(s, k) == s.len() {
                    Some(vs)
                } else {
                    None
                },
            }
        }
    } else {
        None
    }
}

// ---------------------------------------------------------------------------
// Bounds of the specification-level parser
// ---------------------------------------------------------------------------

/// The digit run starting at `i` ends within the sequence, covers only
/// digits, and stops at the first non-digit.
pub proof fn lemma_digits_end_props(s: Seq<char>, i: int)
    requires
        0 <= i <= s.len(),
    ensures
        i <= digits_end(s, i) <= s.len(),
        forall|k: int| i <= k < digits_end(s, i) ==> is_digit(s[k]),
        digits_end(s, i) == s.len() || !is_digit(s[digits_end(s, i)]),
    decreases s.len() - i,
{
    if i < s.len() && is_digit(s[i]) {
        lemma_digits_end_props(s, i + 1);
    }
}

/// The whitespace run starting at `i` ends within the sequence, covers
/// only whitespace, and stops at the first other character.
pub proof fn lemma_ws_end_props(s: Seq<char>, i: int)
    requires
        0 <= i <= s.len(),
    ensures
        i <= ws_end(s, i) <= s.len(),
        forall|k: int| i <= k < ws_end(s, i) ==> is_json_ws(s[k]),
        ws_end(s, i) == s.len() || !is_json_ws(s[ws_end(s, i)]),
    decreases s.len() - i,
{
    if i < s.len() && is_json_ws(s[i]) {
        lemma_ws_end_props(s, i + 1);
    }
}

/// A parsed string body ends strictly after where it began, within the
/// sequence.
proof fn lemma_sp_str_body_bounds(s: Seq<char>, i: int, acc: Seq<char>)
    requires
        0 <= i <= s.len(),
    ensures
        sp_str_body(s, i, acc) matches Some((t, j)) ==> i < j <= s.len(),
    decreases s.len() - i,
{
    if i >= s.len() {
    } else if s[i] == '"' {
    } else if s[i] == '\\' {
        if i + 1 < s.len() && (s[i + 1] == '"' || s[i + 1] == '\\' || s[i + 1] == '/') {
            lemma_sp_str_body_bounds(s, i + 2, acc.push(s[i + 1]));
        } else if i + 1 < s.len() && is_short_escape(s[i + 1]) {
            lemma_sp_str_body_bounds(s, i + 2, acc.push(short_escape_char(s[i + 1])));
        } else if i + 1 < s.len() && s[i + 1] == 'u' {
            if i + 5 < s.len() && 0 <= hex_val(s[i + 2]) && 0 <= hex_val(s[i + 3]) && 0 <= hex_val(
                s[i + 4],
            ) && 0 <= hex_val(s[i + 5]) && !(0xD800 <= u_escape_val(s, i) < 0xE000) {
                lemma_sp_str_body_bounds(s, i + 6, acc.push(((u_escape_val(s, i) as u32) as char)));
            }
        }
    } else if (s[i] as u32) < 32 {
    } else {
        lemma_sp_str_body_bounds(s, i + 1, acc.push(s[i]));
    }
}

/// A parsed field key ends at or after where it began, within the sequence.
pub proof fn lemma_sp_key_bounds(s: Seq<char>, i: int, l: Seq<char>)
    requires
        0 <= i <= s.len(),
    ensures
        sp_key(s, i, l) matches Some(j) ==> i <= j <= s.len(),
{
    lemma_ws_end_props(s, i);
    if sp_key(s, i, l) is Some {
        let a = ws_end(s, i);
        let b = sp_lit(s, a, l)->Some_0;
        lemma_ws_end_props(s, b);
        let c2 = ws_end(s, b);
        lemma_ws_end_props(s, c2 + 1);
    }
}

/// A parsed comma-and-key ends strictly after where it began, within the
/// sequence.
pub proof fn lemma_sp_sep_key_bounds(s: Seq<char>, i: int, l: Seq<char>)
    requires
        0 <= i <= s.len(),
    ensures
        sp_sep_key(s, i, l) matches Some(j) ==> i < j <= s.len(),
{
    lemma_ws_end_props(s, i);
    if sp_sep_key(s, i, l) is Some {
        let a = ws_end(s, i);
        lemma_sp_key_bounds(s, a + 1, l);
    }
}

/// A parsed task object ends strictly after where it began, within the
/// sequence.
pub proof fn lemma_sp_task_bounds(s: Seq<char>, i: int)
    requires
        0 <= i <= s.len(),
    ensures
        sp_task(s, i) matches Some((v, j)) ==> i < j <= s.len(),
{
    if sp_task(s, i) is Some {
        lemma_sp_key_bounds(s, i + 1, lit_key_id());
        let i1 = sp_key(s, i + 1, lit_key_id())->Some_0;
        lemma_digits_end_props(s, i1);
        let i2 = sp_u32(s, i1)->Some_0.1;
        lemma_sp_sep_key_bounds(s, i2, lit_key_description());
        let i3 = sp_sep_key(s, i2, lit_key_description())->Some_0;
        lemma_sp_str_body_bounds(s, i3 + 1, Seq::empty());
        let i4 = sp_string(s, i3)->Some_0.1;
        lemma_sp_sep_key_bounds(s, i4, lit_key_created_at());
        let i5 = sp_sep_key(s, i4, lit_key_created_at())->Some_0;
        lemma_sp_str_body_bounds(s, i5 + 1, Seq::empty());
        let i6 = sp_string(s, i5)->Some_0.1;
        lemma_sp_sep_key_bounds(s, i6, lit_key_updated_at());
        let i7 = sp_sep_key(s, i6, lit_key_updated_at())->Some_0;
        lemma_sp_str_body_bounds(s, i7 + 1, Seq::empty());
        let i8 = sp_string(s, i7)->Some_0.1;
        lemma_sp_sep_key_bounds(s, i8, lit_key_completed());
        let i9 = sp_sep_key(s, i8, lit_key_completed())->Some_0;
        let i10 = sp_bool(s, i9)->Some_0.1;
        lemma_ws_end_props(s, i10);
    }
}

} // verus!

verus! {

// ---------------------------------------------------------------------------
// Parsing, executable
// ---------------------------------------------------------------------------

/// Compares the characters at `i` against the fixed text `l`.
fn parse_lit(s: &str, i: usize, l: &str) -> (r: Option<usize>)
    requires
        i <= s@.len(),
    ensures
        r is None ==> sp_lit(s@, i as int, l@) is None,
        r matches Some(j) ==> sp_lit(s@, i as int, l@) == Some(j as int),
{
    let n = s.unicode_len();
    let m = l.unicode_len();
    if n - i < m {
        return None;
    }
    let mut k: usize = 0;
    while k < m
        invariant
            n == s@.len(),
            m == l@.len(),
            i + m <= n,
            k <= m,
            forall|t: int| 0 <= t < k ==> s@[i + t] == l@[t],
        decreases m - k,
    {
        if s.get_char(i + k) != l.get_char(k) {
            proof {
                if sp_lit(s@, i as int, l@) is Some {
                    assert(s@.subrange(i as int, i + l@.len())[k as int] == l@[k as int]);
                    assert(false);
                }
            }
            return None;
        }
        k = k + 1;
    }
    proof {
        assert(s@.subrange(i as int, i + m) =~= l@);
    }
    Some(i + m)
}

/// Whether position `e` holds a decimal digit.
fn at_digit(s: &str, e: usize, n: usize) -> (r: bool)
    requires
        n == s@.len(),
        e <= n,
    ensures
        r == (e < s@.len() && is_digit(s@[e as int])),
{
    if e < n {
        let u = s.get_char(e) as u32;
        48 <= u && u <= 57
    } else {
        false
    }
}

/// Ten to the power `k`.
spec fn pow10(k: nat) -> int
    decreases k,
{
    if k == 0 {
        1
    } else {
        10 * pow10((k - 1) as nat)
    }
}

/// A sequence of digits is worth less than ten to its length.
proof fn lemma_digits_val_upper(ds: Seq<char>)
    requires
        forall|k: int| 0 <= k < ds.len() ==> is_digit(ds[k]),
    ensures
        0 <= digits_val(ds) < pow10(ds.len() as nat),
    decreases ds.len(),
{
    if ds.len() > 0 {
        lemma_digits_val_upper(ds.drop_last());
    }
}

/// A sequence of digits without a leading zero is worth at least ten to
/// one less than its length.
proof fn lemma_digits_val_lower(ds: Seq<char>)
    requires
        ds.len() >= 1,
        forall|k: int| 0 <= k < ds.len() ==> is_digit(ds[k]),
        digit_val(ds[0]) != 0,
    ensures
        digits_val(ds) >= pow10((ds.len() - 1) as nat),
    decreases ds.len(),
{
    if ds.len() == 1 {
        assert(ds.last() == ds[0]);
        assert(is_digit(ds[0]));
        assert(ds.drop_last().len() == 0);
        assert(digits_val(ds.drop_last()) == 0);
        assert(digits_val(ds) == digit_val(ds[0]));
        assert(digit_val(ds[0]) >= 1);
        assert(pow10(0) == 1);
    } else {
        let dl = ds.drop_last();
        assert forall|k: int| 0 <= k < dl.len() implies is_digit(dl[k]) by {
            assert(dl[k] == ds[k]);
        }
        assert(dl[0] == ds[0]);
        lemma_digits_val_lower(dl);
        assert(is_digit(ds.last()));
        assert(digit_val(ds.last()) >= 0);
        assert(digits_val(ds) == digits_val(dl) * 10 + digit_val(ds.last()));
        assert(pow10((ds.len() - 1) as nat) == 10 * pow10((ds.len() - 2) as nat));
        assert((ds.len() - 2) as nat == (dl.len() - 1) as nat);
        assert(digits_val(dl) * 10 >= pow10((dl.len() - 1) as nat) * 10) by (nonlinear_arith)
            requires
                digits_val(dl) >= pow10((dl.len() - 1) as nat),
        ;
    }
}

/// Parses a decimal number at `i`.
fn parse_u32(s: &str, i: usize) -> (r: Option<(u32, usize)>)
    requires
        i <= s@.len(),
    ensures
        r is None ==> sp_u32(s@, i as int) is None,
        r matches Some((v, j)) ==> sp_u32(s@, i as int) == Some((v, j as int)),
{
    let n = s.unicode_len();
    let mut e: usize = i;
    while at_digit(s, e, n)
        invariant
            n == s@.len(),
            i <= e <= n,
            digits_end(s@, i as int) == digits_end(s@, e as int),
        decreases n - e,
    {
        e = e + 1;
    }
    proof {
        lemma_digits_end_props(s@, i as int);
    }
    if e == i {
        return None;
    }
    let ghost ds = s@.subrange(i as int, e as int);
    proof {
        assert(forall|k: int| 0 <= k < ds.len() ==> is_digit(ds[k]));
        lemma_digits_val_upper(ds);
    }
    let c0 = s.get_char(i);
    if (c0 as u32) == 48 && e > i + 1 {
        return None;
    }
    if e - i > 10 {
        proof {
            if digit_val(s@[i as int]) == 0 {
            } else {
                lemma_digits_val_lower(ds);
                assert(pow10(10) == 10000000000) by {
                    reveal_with_fuel(pow10, 11);
                }
                assert(pow10((ds.len() - 1) as nat) >= pow10(10)) by {
                    lemma_pow10_increases(10, (ds.len() - 1) as nat);
                }
            }
        }
        return None;
    }
    let mut acc: u64 = 0;
    let mut j: usize = i;
    while j < e
        invariant
            n == s@.len(),
            i <= j <= e <= n,
            e - i <= 10,
            ds == s@.subrange(i as int, e as int),
            e as int == digits_end(s@, i as int),
            forall|k: int| i <= k < e ==> is_digit(s@[k]),
            acc as int == digits_val(s@.subrange(i as int, j as int)),
            (acc as int) < pow10((j - i) as nat),
        decreases e - j,
    {
        let c = s.get_char(j);
        let d = (c as u32) - 48;
        proof {
            assert(pow10((j - i) as nat) <= pow10(9)) by {
                lemma_pow10_increases((j - i) as nat, 9);
            }
            assert(pow10(9) == 1000000000) by {
                reveal_with_fuel(pow10, 10);
            }
            assert(s@.subrange(i as int, j + 1).drop_last() =~= s@.subrange(i as int, j as int));
            assert(s@.subrange(i as int, j + 1).last() == s@[j as int]);
        }
        acc = acc * 10 + (d as u64);
        j = j + 1;
    }
    proof {
        assert(s@.subrange(i as int, j as int) == ds);
    }
    if acc > 0xFFFF_FFFFu64 {
        return None;
    }
    Some((acc as u32, e))
}

/// One power of ten is at most another with a larger exponent.
proof fn lemma_pow10_increases(a: nat, b: nat)
    requires
        a <= b,
    ensures
        pow10(a) <= pow10(b),
        pow10(a) >= 1,
    decreases b,
{
    if a == b {
        if a == 0 {
        } else {
            lemma_pow10_increases((a - 1) as nat, (b - 1) as nat);
        }
    } else {
        lemma_pow10_increases(a, (b - 1) as nat);
    }
}

/// The value of one hexadecimal digit character, either case.
fn hex_digit(c: char) -> (r: Option<u32>)
    ensures
        r is None ==> hex_val(c) == -1,
        r matches Some(v) ==> hex_val(c) == v as int && v < 16,
{
    let u = c as u32;
    if 48 <= u && u <= 57 {
        Some(u - 48)
    } else if 97 <= u && u <= 102 {
        Some(u - 87)
    } else if 65 <= u && u <= 70 {
        Some(u - 55)
    } else {
        None
    }
}

/// Relies on `char::from_u32`: a Unicode scalar value - in range and not a
/// surrogate - converts to the character with exactly that value.
#[verifier::external_body]
fn char_from_scalar(v: u32) -> (r: char)
    requires
        v < 0xD800 || (0xE000 <= v && v <= 0x10FFFF),
    ensures
        r as u32 == v,
{
    char::from_u32(v).unwrap_or(' ')
}

/// Skips whitespace from `i` on.
fn skip_ws(s: &str, i: usize, n: usize) -> (r: usize)
    requires
        n == s@.len(),
        i <= n,
    ensures
        r as int == ws_end(s@, i as int),
        i <= r <= n,
{
    let mut j: usize = i;
    while at_ws(s, j, n)
        invariant
            n == s@.len(),
            i <= j <= n,
            ws_end(s@, i as int) == ws_end(s@, j as int),
        decreases n - j,
    {
        j = j + 1;
    }
    proof {
        lemma_ws_end_props(s@, i as int);
    }
    j
}

/// Whether position `e` holds a whitespace character.
fn at_ws(s: &str, e: usize, n: usize) -> (r: bool)
    requires
        n == s@.len(),
        e <= n,
    ensures
        r == (e < s@.len() && is_json_ws(s@[e as int])),
{
    if e < n {
        let c = s.get_char(e);
        c == ' ' || c == '\t' || c == '\n' || c == '\r'
    } else {
        false
    }
}

/// Parses a JSON string at `i`, returning the decoded text.
fn parse_string(s: &str, i: usize) -> (r: Option<(String, usize)>)
    requires
        i <= s@.len(),
    ensures
        r is None ==> sp_string(s@, i as int) is None,
        r matches Some((t, j)) ==> sp_string(s@, i as int) == Some((t@, j as int)),
{
    let n = s.unicode_len();
    if i >= n {
        return None;
    }
    if s.get_char(i) != '"' {
        return None;
    }
    let mut out = String::new();
    let mut j: usize = i + 1;
    loop
        invariant
            n == s@.len(),
            i + 1 <= j <= n,
            sp_string(s@, i as int) == sp_str_body(s@, j as int, out@),
        decreases n - j,
    {
        if j >= n {
            return None;
        }
        let ghost out0 = out@;
        let c = s.get_char(j);
        if c == '"' {
            return Some((out, j + 1));
        }
        if c == '\\' {
            if n - j < 2 {
                return None;
            }
            let c2 = s.get_char(j + 1);
            if c2 == '"' || c2 == '\\' || c2 == '/' {
                push_char(&mut out, c2);
                proof {
                    assert(out@ =~= out0.push(c2));
                }
                j = j + 2;
            } else if c2 == 'n' || c2 == 't' || c2 == 'r' || c2 == 'b' || c2 == 'f' {
                let d: char = match c2 {
                    'n' => '\n',
                    't' => '\t',
                    'r' => '\r',
                    'b' => '\u{0008}',
                    _ => '\u{000C}',
                };
                push_char(&mut out, d);
                proof {
                    assert(d == short_escape_char(c2));
                    assert(out@ =~= out0.push(d));
                }
                j = j + 2;
            } else if c2 == 'u' {
                if n - j < 6 {
                    return None;
                }
                let h1 = match hex_digit(s.get_char(j + 2)) {
                    Some(v) => v,
                    None => {
                        return None;
                    },
                };
                let h2 = match hex_digit(s.get_char(j + 3)) {
                    Some(v) => v,
                    None => {
                        return None;
                    },
                };
                let h3 = match hex_digit(s.get_char(j + 4)) {
                    Some(v) => v,
                    None => {
                        return None;
                    },
                };
                let h4 = match hex_digit(s.get_char(j + 5)) {
                    Some(v) => v,
                    None => {
                        return None;
                    },
                };
                let v = h1 * 4096 + h2 * 256 + h3 * 16 + h4;
                proof {
                    assert(v as int == u_escape_val(s@, j as int));
                }
                if 0xD800 <= v && v < 0xE000 {
                    return None;
                }
                let ch = char_from_scalar(v);
                push_char(&mut out, ch);
                proof {
                    assert(((ch as u32) as char) == ch);
                    assert(((u_escape_val(s@, j as int) as u32) as char) == ch);
                    assert(out@ =~= out0.push(ch));
                }
                j = j + 6;
            } else {
                return None;
            }
        } else if (c as u32) < 32 {
            return None;
        } else {
            push_char(&mut out, c);
            proof {
                assert(out@ =~= out0.push(c));
            }
            j = j + 1;
        }
    }
}

/// Parses `true` or `false` at `i`.
fn parse_bool(s: &str, i: usize) -> (r: Option<(bool, usize)>)
    requires
        i <= s@.len(),
    ensures
        r is None ==> sp_bool(s@, i as int) is None,
        r matches Some((b, j)) ==> sp_bool(s@, i as int) == Some((b, j as int)),
{
    proof {
        lemma_lit_strings();
    }
    match parse_lit(s, i, "true") {
        Some(j) => Some((true, j)),
        None => match parse_lit(s, i, "false") {
            Some(j) => Some((false, j)),
            None => None,
        },
    }
}

/// The string literals of the format, as character sequences.
proof fn lemma_lit_strings()
    ensures
        "\"id\""@ == lit_key_id(),
        "\"description\""@ == lit_key_description(),
        "\"created_at\""@ == lit_key_created_at(),
        "\"updated_at\""@ == lit_key_updated_at(),
        "\"completed\""@ == lit_key_completed(),
        "true"@ == lit_true(),
        "false"@ == lit_false(),
{
    reveal_strlit("\"id\"");
    reveal_strlit("\"description\"");
    reveal_strlit("\"created_at\"");
    reveal_strlit("\"updated_at\"");
    reveal_strlit("\"completed\"");
    reveal_strlit("true");
    reveal_strlit("false");
    assert("\"id\""@ =~= lit_key_id());
    assert("\"description\""@ =~= lit_key_description());
    assert("\"created_at\""@ =~= lit_key_created_at());
    assert("\"updated_at\""@ =~= lit_key_updated_at());
    assert("\"completed\""@ =~= lit_key_completed());
    assert("true"@ =~= lit_true());
    assert("false"@ =~= lit_false());
}

/// Parses one field key at `i`: whitespace, the quoted key `l`, whitespace,
/// a colon, whitespace.
fn parse_key(s: &str, i: usize, l: &str) -> (r: Option<usize>)
    requires
        i <= s@.len(),
    ensures
        r is None ==> sp_key(s@, i as int, l@) is None,
        r matches Some(j) ==> sp_key(s@, i as int, l@) == Some(j as int) && j <= s@.len(),
{
    let n = s.unicode_len();
    let a = skip_ws(s, i, n);
    let b = match parse_lit(s, a, l) {
        Some(x) => x,
        None => {
            return None;
        },
    };
    let c2 = skip_ws(s, b, n);
    if c2 < n && s.get_char(c2) == ':' {
        Some(skip_ws(s, c2 + 1, n))
    } else {
        None
    }
}

/// Parses a comma followed by a field key, whitespace allowed around both.
fn parse_sep_key(s: &str, i: usize, l: &str) -> (r: Option<usize>)
    requires
        i <= s@.len(),
    ensures
        r is None ==> sp_sep_key(s@, i as int, l@) is None,
        r matches Some(j) ==> sp_sep_key(s@, i as int, l@) == Some(j as int) && j <= s@.len(),
{
    let n = s.unicode_len();
    let a = skip_ws(s, i, n);
    if a < n && s.get_char(a) == ',' {
        parse_key(s, a + 1, l)
    } else {
        None
    }
}

/// Parses one task object at `i`.
fn parse_task(s: &str, i: usize) -> (r: Option<(Task, usize)>)
    requires
        i <= s@.len(),
    ensures
        r is None ==> sp_task(s@, i as int) is None,
        r matches Some((t, j)) ==> sp_task(s@, i as int) == Some((t@, j as int)),
{
    proof {
        lemma_lit_strings();
    }
    let n = s.unicode_len();
    if !(i < n) {
        return None;
    }
    if s.get_char(i) != '{' {
        return None;
    }
    let i1 = match parse_key(s, i + 1, "\"id\"") {
        Some(x) => x,
        None => {
            return None;
        },
    };
    let (id, i2) = match parse_u32(s, i1) {
        Some(x) => x,
        None => {
            return None;
        },
    };
    proof {
        lemma_digits_end_props(s@, i1 as int);
    }
    let i3 = match parse_sep_key(s, i2, "\"description\"") {
        Some(x) => x,
        None => {
            return None;
        },
    };
    let (description, i4) = match parse_string(s, i3) {
        Some(x) => x,
        None => {
            return None;
        },
    };
    proof {
        lemma_sp_str_body_bounds(s@, i3 + 1, Seq::empty());
    }
    let i5 = match parse_sep_key(s, i4, "\"created_at\"") {
        Some(x) => x,
        None => {
            return None;
        },
    };
    let (created_at, i6) = match parse_string(s, i5) {
        Some(x) => x,
        None => {
            return None;
        },
    };
    proof {
        lemma_sp_str_body_bounds(s@, i5 + 1, Seq::empty());
    }
    let i7 = match parse_sep_key(s, i6, "\"updated_at\"") {
        Some(x) => x,
        None => {
            return None;
        },
    };
    let (updated_at, i8) = match parse_string(s, i7) {
        Some(x) => x,
        None => {
            return None;
        },
    };
    proof {
        lemma_sp_str_body_bounds(s@, i7 + 1, Seq::empty());
    }
    let i9 = match parse_sep_key(s, i8, "\"completed\"") {
        Some(x) => x,
        None => {
            return None;
        },
    };
    let (completed, i10) = match parse_bool(s, i9) {
        Some(x) => x,
        None => {
            return None;
        },
    };
    let a = skip_ws(s, i10, n);
    if a < n && s.get_char(a) == '}' {
        let t = Task { id, description, created_at, updated_at, completed };
        Some((t, a + 1))
    } else {
        None
    }
}

/// Parses the task objects of a non-empty list, including the closing
/// bracket.
fn parse_items(s: &str, i: usize) -> (r: Option<(Vec<Task>, usize)>)
    requires
        i <= s@.len(),
    ensures
        r is None ==> sp_items(s@, i as int) is None,
        r matches Some((ts, j)) ==> sp_items(s@, i as int) == Some((ts.deep_view(), j as int)) && j
            <= s@.len(),
    decreases s@.len() - i,
{
    let n = s.unicode_len();
    let a = skip_ws(s, i, n);
    let (t, j) = match parse_task(s, a) {
        Some(x) => x,
        None => {
            return None;
        },
    };
    proof {
        lemma_sp_task_bounds(s@, a as int);
    }
    let b = skip_ws(s, j, n);
    if b < n {
        let c = s.get_char(b);
        if c == ',' {
            match parse_items(s, b + 1) {
                Some((mut ts, k)) => {
                    let ghost ts0 = ts.deep_view();
                    ts.insert(0, t);
                    proof {
                        assert(ts.deep_view() =~= seq![t@] + ts0);
                    }
                    Some((ts, k))
                },
                None => None,
            }
        } else if c == ']' {
            let mut ts: Vec<Task> = Vec::new();
            ts.push(t);
            proof {
                assert(ts.deep_view() =~= seq![t@]);
            }
            Some((ts, b + 1))
        } else {
            None
        }
    } else {
        None
    }
}

/// Parses a whole file; `None` means the text is not a well-formed task
/// list.
pub fn parse_tasks(s: &str) -> (r: Option<Vec<Task>>)
    ensures
        r is None <==> sp_parse(s@) is None,
        r matches Some(ts) ==> sp_parse(s@) == Some(ts.deep_view()),
{
    let n = s.unicode_len();
    let a = skip_ws(s, 0, n);
    if !(a < n) {
        return None;
    }
    if s.get_char(a) != '[' {
        return None;
    }
    let b = skip_ws(s, a + 1, n);
    if b < n && s.get_char(b) == ']' {
        if skip_ws(s, b + 1, n) == n {
            let ts: Vec<Task> = Vec::new();
            proof {
                assert(ts.deep_view() =~= Seq::<TaskView>::empty());
            }
            return Some(ts);
        } else {
            return None;
        }
    }
    match parse_items(s, a + 1) {
        Some((ts, k)) => {
            if skip_ws(s, k, n) == n {
                Some(ts)
            } else {
                None
            }
        },
        None => None,
    }
}

} // verus!

verus! {

// ---------------------------------------------------------------------------
// Round trip: whatever a stored file parses to, its rendering parses back
// to the same task list.
// ---------------------------------------------------------------------------

/// Splitting a subrange at an interior point splits its contents.
proof fn lemma_subrange_split(s: Seq<char>, a: int, b: int, c: int)
    requires
        0 <= a <= b <= c <= s.len(),
    ensures
        s.subrange(a, c) == s.subrange(a, b) + s.subrange(b, c),
{
    assert(s.subrange(a, c) =~= s.subrange(a, b) + s.subrange(b, c));
}

/// A load-save cycle keeps the records: text the parser accepts renders to
/// contents that parse back to the very same task list.
pub proof fn lemma_reload_keeps_records(s: Seq<char>)
    ensures
        sp_parse(s) matches Some(vs) ==> sp_parse(spec_render(vs)) == Some(vs),
{
    if sp_parse(s) is Some {
        lemma_render_parses(sp_parse(s)->Some_0);
    }
}

} // verus!

verus! {

// ---------------------------------------------------------------------------
// The parser accepts everything the renderer writes.
// ---------------------------------------------------------------------------

/// A subrange equal to a concatenation splits into subranges equal to the
/// parts.
proof fn lemma_peel(s: Seq<char>, a: int, b: int, x: Seq<char>, y: Seq<char>)
    requires
        0 <= a <= b <= s.len(),
        s.subrange(a, b) == x + y,
    ensures
        b == a + x.len() + y.len(),
        s.subrange(a, a + x.len() as int) == x,
        s.subrange(a + x.len() as int, b) == y,
{
    assert(s.subrange(a, b).len() == b - a);
    assert((x + y).len() == x.len() + y.len());
    assert(b == a + x.len() + y.len());
    assert forall|k: int| 0 <= k < x.len() implies s.subrange(a, a + x.len() as int)[k] == x[k] by {
        assert(s.subrange(a, b)[k] == (x + y)[k]);
    }
    assert(s.subrange(a, a + x.len() as int) =~= x);
    assert forall|k: int| 0 <= k < y.len() implies s.subrange(a + x.len() as int, b)[k] == y[k] by {
        let m = k + x.len() as int;
        assert(s.subrange(a + x.len() as int, b)[k] == s[a + x.len() + k]);
        assert(s.subrange(a, b)[m] == s[a + m]);
        assert((x + y)[m] == y[k]);
        assert(s.subrange(a, b)[m] == (x + y)[m]);
    }
    assert(s.subrange(a + x.len() as int, b) =~= y);
}

/// The value of a hexadecimal digit character built from a value.
proof fn lemma_hex_val_of_char(d: int)
    requires
        0 <= d < 16,
    ensures
        hex_val(hex_char(d)) == d,
{
}

/// A character survives the round trip through its scalar value.
proof fn lemma_char_scalar_round(c: char)
    ensures
        ((c as u32) as char) == c,
{
}

/// The whitespace run is empty where no whitespace stands.
proof fn lemma_ws_end_here(s: Seq<char>, i: int)
    requires
        0 <= i <= s.len(),
        i == s.len() || !is_json_ws(s[i]),
    ensures
        ws_end(s, i) == i,
{
}

/// The digit run ends exactly where the digits stop.
proof fn lemma_digits_end_value(s: Seq<char>, i: int, e: int)
    requires
        0 <= i <= e <= s.len(),
        forall|k: int| i <= k < e ==> is_digit(s[k]),
        e == s.len() || !is_digit(s[e]),
    ensures
        digits_end(s, i) == e,
    decreases e - i,
{
    if i < e {
        assert(is_digit(s[i]));
        lemma_digits_end_value(s, i + 1, e);
    }
}

/// The canonical digits of a number: non-empty, all digits, no leading zero
/// unless the number is zero, and worth the number itself.
proof fn lemma_spec_dec_props(n: nat)
    ensures
        spec_dec(n).len() >= 1,
        forall|k: int| 0 <= k < spec_dec(n).len() ==> is_digit(#[trigger] spec_dec(n)[k]),
        digits_val(spec_dec(n)) == n,
        n >= 10 ==> spec_dec(n).len() >= 2,
        digit_val(spec_dec(n)[0]) == 0 ==> n == 0,
    decreases n,
{
    if n < 10 {
        let ds = spec_dec(n);
        assert(ds == seq![digit_char(n as int)]);
        assert(ds[0] == digit_char(n as int));
        assert(ds.drop_last() =~= Seq::<char>::empty());
        assert(digits_val(ds.drop_last()) == 0);
        assert(ds.last() == ds[0]);
    } else {
        lemma_spec_dec_props(n / 10);
        let dl = spec_dec(n / 10);
        let d = digit_char((n % 10) as int);
        let ds = dl.push(d);
        assert(ds.drop_last() =~= dl);
        assert(ds.last() == d);
        assert(is_digit(d) && digit_val(d) == n % 10);
        assert forall|k: int| 0 <= k < ds.len() implies is_digit(ds[k]) by {
            if k < dl.len() {
                assert(ds[k] == dl[k]);
            }
        }
        assert(digits_val(ds) == digits_val(dl) * 10 + digit_val(d));
        assert(digits_val(ds) == (n / 10) * 10 + n % 10);
        assert(ds[0] == dl[0]);
        assert(n / 10 >= 1);
    }
}

/// The canonical digits of a number, followed by anything but a digit,
/// parse back to that number.
proof fn lemma_sp_u32_complete(s: Seq<char>, i: int, n: u32)
    requires
        0 <= i,
        i + spec_dec(n as nat).len() <= s.len(),
        s.subrange(i, i + spec_dec(n as nat).len() as int) == spec_dec(n as nat),
        i + spec_dec(n as nat).len() == s.len() || !is_digit(s[i + spec_dec(n as nat).len()]),
    ensures
        sp_u32(s, i) == Some((n, i + spec_dec(n as nat).len() as int)),
{
    lemma_spec_dec_props(n as nat);
    let ds = spec_dec(n as nat);
    let e = i + ds.len() as int;
    assert forall|k: int| i <= k < e implies is_digit(s[k]) by {
        assert(s.subrange(i, e)[k - i] == s[k]);
        assert(is_digit(ds[k - i]));
    }
    lemma_digits_end_value(s, i, e);
    assert(s[i] == ds[0]);
    assert(digits_val(s.subrange(i, e)) == n);
    if digit_val(s[i]) == 0 && e > i + 1 {
        assert(n == 0);
        assert(ds.len() == 1);
        assert(false);
    }
}

/// The escaped body of a string, followed by the closing quote, parses
/// back to that string appended to the accumulator.
proof fn lemma_sp_str_body_complete(s: Seq<char>, i: int, u: Seq<char>, acc: Seq<char>)
    requires
        0 <= i,
        i + esc(u).len() + 1 <= s.len(),
        s.subrange(i, i + esc(u).len() as int + 1) == esc(u) + seq!['"'],
    ensures
        sp_str_body(s, i, acc) == Some((acc + u, i + esc(u).len() as int + 1)),
    decreases u.len(),
{
    let e = i + esc(u).len() as int + 1;
    if u.len() == 0 {
        assert(esc(u) == Seq::<char>::empty());
        assert(s.subrange(i, e)[0] == s[i]);
        assert((esc(u) + seq!['"'])[0] == '"');
        assert(s[i] == '"');
        assert(acc + u =~= acc);
    } else {
        let c = u[0];
        let u2 = u.drop_first();
        assert(esc(u) == esc_char(c) + esc(u2));
        assert((esc_char(c) + esc(u2)) + seq!['"'] =~= esc_char(c) + (esc(u2) + seq!['"']));
        lemma_peel(s, i, e, esc_char(c), esc(u2) + seq!['"']);
        let d = esc_char(c).len() as int;
        assert(s.subrange(i + d, e) == esc(u2) + seq!['"']);
        assert(acc.push(c) + u2 =~= acc + u);
        if c == '"' || c == '\\' {
            assert(esc_char(c) =~= seq!['\\', c]);
            assert(esc(u).len() == 2 + esc(u2).len());
            assert(i + 2 <= s.len());
            assert(s.subrange(i, i + 2) == esc_char(c));
            assert(s.subrange(i, i + 2)[0] == s[i]);
            assert(s.subrange(i, i + 2)[1] == s[i + 1]);
            assert(s[i] == '\\' && s[i + 1] == c);
            lemma_sp_str_body_complete(s, i + 2, u2, acc.push(c));
        } else if (c as u32) < 32 {
            let cv = c as u32;
            assert(esc_char(c) =~= seq!['\\', 'u', '0', '0', hex_char((cv / 16) as int), hex_char(
                (cv % 16) as int,
            )]);
            assert(esc(u).len() == 6 + esc(u2).len());
            assert(i + 6 <= s.len());
            assert(s.subrange(i, i + 6) == esc_char(c));
            assert(s.subrange(i, i + 6)[0] == s[i]);
            assert(s.subrange(i, i + 6)[1] == s[i + 1]);
            assert(s.subrange(i, i + 6)[2] == s[i + 2]);
            assert(s.subrange(i, i + 6)[3] == s[i + 3]);
            assert(s.subrange(i, i + 6)[4] == s[i + 4]);
            assert(s.subrange(i, i + 6)[5] == s[i + 5]);
            assert(s[i] == '\\' && s[i + 1] == 'u' && s[i + 2] == '0' && s[i + 3] == '0');
            assert(s[i + 4] == hex_char((cv / 16) as int));
            assert(s[i + 5] == hex_char((cv % 16) as int));
            lemma_hex_val_of_char(0);
            lemma_hex_val_of_char((cv / 16) as int);
            lemma_hex_val_of_char((cv % 16) as int);
            assert(hex_val(s[i + 2]) == 0 && hex_val(s[i + 3]) == 0);
            assert(hex_val(s[i + 4]) == cv / 16);
            assert(hex_val(s[i + 5]) == cv % 16);
            assert((cv / 16) * 16 + cv % 16 == cv) by (nonlinear_arith)
                requires
                    cv < 32,
            ;
            assert(u_escape_val(s, i) == cv);
            lemma_char_scalar_round(c);
            assert(((u_escape_val(s, i) as u32) as char) == c);
            lemma_sp_str_body_complete(s, i + 6, u2, acc.push(c));
        } else {
            assert(esc_char(c) =~= seq![c]);
            assert(esc(u).len() == 1 + esc(u2).len());
            assert(i + 1 <= s.len());
            assert(s.subrange(i, i + 1) == esc_char(c));
            assert(s.subrange(i, i + 1)[0] == s[i]);
            assert(s[i] == c);
            lemma_sp_str_body_complete(s, i + 1, u2, acc.push(c));
        }
    }
}

/// The canonical JSON rendering of a string parses back to that string.
proof fn lemma_sp_string_complete(s: Seq<char>, i: int, t: Seq<char>)
    requires
        0 <= i,
        i + spec_json_string(t).len() <= s.len(),
        s.subrange(i, i + spec_json_string(t).len() as int) == spec_json_string(t),
    ensures
        sp_string(s, i) == Some((t, i + spec_json_string(t).len() as int)),
{
    let body = esc(t);
    let e = i + spec_json_string(t).len() as int;
    assert(spec_json_string(t) == (seq!['"'] + body) + seq!['"']);
    lemma_peel(s, i, e, seq!['"'] + body, seq!['"']);
    lemma_peel(s, i, i + 1 + body.len() as int, seq!['"'], body);
    assert(s.subrange(i, i + 1)[0] == s[i]);
    assert(s[i] == '"');
    lemma_subrange_split(s, i + 1, i + 1 + body.len() as int, e);
    assert(s.subrange(i + 1, e) == body + seq!['"']);
    lemma_sp_str_body_complete(s, i + 1, t, Seq::empty());
    assert(Seq::<char>::empty() + t =~= t);
}

/// The rendering of a boolean parses back to it.
proof fn lemma_sp_bool_complete(s: Seq<char>, i: int, b: bool)
    requires
        0 <= i,
        i + (if b { lit_true() } else { lit_false() }).len() <= s.len(),
        s.subrange(i, i + (if b { lit_true() } else { lit_false() }).len() as int) == (if b {
            lit_true()
        } else {
            lit_false()
        }),
    ensures
        sp_bool(s, i) == Some((b, i + (if b { lit_true() } else { lit_false() }).len() as int)),
{
    if b {
    } else {
        if sp_lit(s, i, lit_true()) is Some {
            assert(s.subrange(i, i + 4)[0] == s[i]);
            assert(s[i] == 't');
            assert(s.subrange(i, i + 5)[0] == s[i]);
            assert(s[i] == 'f');
            assert(false);
        }
    }
}

/// In canonical text - the quoted key and colon with no whitespace - the
/// key parser accepts and stops right after the colon.
proof fn lemma_sp_key_canonical(s: Seq<char>, i: int, l: Seq<char>)
    requires
        0 <= i,
        l.len() >= 1,
        l[0] == '"',
        i + l.len() + 1 <= s.len(),
        s.subrange(i, i + l.len() as int + 1) == l + seq![':'],
        i + l.len() + 1 == s.len() || !is_json_ws(s[i + l.len() + 1]),
    ensures
        sp_key(s, i, l) == Some(i + l.len() as int + 1),
{
    let e = i + l.len() as int + 1;
    lemma_peel(s, i, e, l, seq![':']);
    assert(s.subrange(i, i + l.len() as int)[0] == s[i]);
    assert(s[i] == '"');
    lemma_ws_end_here(s, i);
    assert(sp_lit(s, i, l) == Some(i + l.len() as int));
    assert(s.subrange(i + l.len() as int, e)[0] == s[i + l.len()]);
    assert(s[i + l.len()] == ':');
    lemma_ws_end_here(s, i + l.len() as int);
    lemma_ws_end_here(s, e);
}

/// In canonical text - comma, quoted key, colon, no whitespace - the
/// separator-and-key parser accepts and stops right after the colon.
proof fn lemma_sp_sep_key_canonical(s: Seq<char>, i: int, l: Seq<char>)
    requires
        0 <= i,
        l.len() >= 1,
        l[0] == '"',
        i + l.len() + 2 <= s.len(),
        s.subrange(i, i + l.len() as int + 2) == (seq![','] + l) + seq![':'],
        i + l.len() + 2 == s.len() || !is_json_ws(s[i + l.len() + 2]),
    ensures
        sp_sep_key(s, i, l) == Some(i + l.len() as int + 2),
{
    let e = i + l.len() as int + 2;
    assert((seq![','] + l) + seq![':'] =~= seq![','] + (l + seq![':']));
    lemma_peel(s, i, e, seq![','], l + seq![':']);
    assert(s.subrange(i, i + 1)[0] == s[i]);
    assert(s[i] == ',');
    lemma_ws_end_here(s, i);
    lemma_sp_key_canonical(s, i + 1, l);
}

/// The canonical rendering of a task object parses back to it.
#[verifier::rlimit(100)]
proof fn lemma_sp_task_complete(s: Seq<char>, i: int, v: TaskView)
    requires
        0 <= i,
        i + spec_task(v).len() <= s.len(),
        s.subrange(i, i + spec_task(v).len() as int) == spec_task(v),
    ensures
        sp_task(s, i) == Some((v, i + spec_task(v).len() as int)),
{
    let la = lit_open_id();
    let dg = spec_dec(v.id as nat);
    let lb = lit_description();
    let sa = spec_json_string(v.description);
    let lc = lit_created_at();
    let sb = spec_json_string(v.created_at);
    let ld = lit_updated_at();
    let sc = spec_json_string(v.updated_at);
    let le = lit_completed();
    let bl = if v.completed { lit_true() } else { lit_false() };
    let rb = seq!['}'];
    let w1 = la;
    let w2 = w1 + dg;
    let w3 = w2 + lb;
    let w4 = w3 + sa;
    let w5 = w4 + lc;
    let w6 = w5 + sb;
    let w7 = w6 + ld;
    let w8 = w7 + sc;
    let w9 = w8 + le;
    let w10 = w9 + bl;
    let e = i + spec_task(v).len() as int;
    assert(spec_task(v) == w10 + rb);
    lemma_peel(s, i, e, w10, rb);
    lemma_peel(s, i, i + w10.len() as int, w9, bl);
    lemma_peel(s, i, i + w9.len() as int, w8, le);
    lemma_peel(s, i, i + w8.len() as int, w7, sc);
    lemma_peel(s, i, i + w7.len() as int, w6, ld);
    lemma_peel(s, i, i + w6.len() as int, w5, sb);
    lemma_peel(s, i, i + w5.len() as int, w4, lc);
    lemma_peel(s, i, i + w4.len() as int, w3, sa);
    lemma_peel(s, i, i + w3.len() as int, w2, lb);
    lemma_peel(s, i, i + w2.len() as int, w1, dg);
    let p1 = i + w1.len() as int;
    let p2 = i + w2.len() as int;
    let p3 = i + w3.len() as int;
    let p4 = i + w4.len() as int;
    let p5 = i + w5.len() as int;
    let p6 = i + w6.len() as int;
    let p7 = i + w7.len() as int;
    let p8 = i + w8.len() as int;
    let p9 = i + w9.len() as int;
    let p10 = i + w10.len() as int;
    // the object opens with a brace, and the id key follows it at once
    assert(la =~= seq!['{'] + (lit_key_id() + seq![':']));
    lemma_peel(s, i, p1, seq!['{'], lit_key_id() + seq![':']);
    assert(s.subrange(i, i + 1)[0] == s[i]);
    assert(s[i] == '{');
    // the first digit of the id stands right after the id key's colon
    assert(s.subrange(p1, p2)[0] == s[p1]);
    lemma_spec_dec_props(v.id as nat);
    assert(is_digit(s[p1]));
    lemma_sp_key_canonical(s, i + 1, lit_key_id());
    assert(sp_key(s, i + 1, lit_key_id()) == Some(p1));
    // the id's digits end at the comma of the description key
    assert(s.subrange(p2, p3)[0] == s[p2]);
    assert(lb[0] == ',');
    assert(s[p2] == ',');
    assert(!is_digit(s[p2]));
    lemma_sp_u32_complete(s, p1, v.id);
    assert(sp_u32(s, p1) == Some((v.id, p2)));
    // each key is followed at once by its value's first character
    assert(s.subrange(p3, p4)[0] == s[p3]);
    assert(s[p3] == '"');
    lemma_sp_sep_key_canonical(s, p2, lit_key_description());
    assert(sp_sep_key(s, p2, lit_key_description()) == Some(p3));
    lemma_sp_string_complete(s, p3, v.description);
    assert(s.subrange(p5, p6)[0] == s[p5]);
    assert(s[p5] == '"');
    lemma_sp_sep_key_canonical(s, p4, lit_key_created_at());
    assert(sp_sep_key(s, p4, lit_key_created_at()) == Some(p5));
    lemma_sp_string_complete(s, p5, v.created_at);
    assert(s.subrange(p7, p8)[0] == s[p7]);
    assert(s[p7] == '"');
    lemma_sp_sep_key_canonical(s, p6, lit_key_updated_at());
    assert(sp_sep_key(s, p6, lit_key_updated_at()) == Some(p7));
    lemma_sp_string_complete(s, p7, v.updated_at);
    assert(s.subrange(p9, p10)[0] == s[p9]);
    assert(s[p9] == 't' || s[p9] == 'f');
    lemma_sp_sep_key_canonical(s, p8, lit_key_completed());
    assert(sp_sep_key(s, p8, lit_key_completed()) == Some(p9));
    lemma_sp_bool_complete(s, p9, v.completed);
    // the closing brace stands right after the boolean
    assert(s.subrange(p10, e)[0] == s[p10]);
    assert(s[p10] == '}');
    lemma_ws_end_here(s, p10);
    assert(sp_task(s, i) == Some(
        (
            TaskView {
                id: v.id,
                description: v.description,
                created_at: v.created_at,
                updated_at: v.updated_at,
                completed: v.completed,
            },
            e,
        ),
    ));
    assert(TaskView {
        id: v.id,
        description: v.description,
        created_at: v.created_at,
        updated_at: v.updated_at,
        completed: v.completed,
    } == v);
}

/// The canonical rendering of a non-empty task list, followed by the
/// closing bracket, parses back to that list.
#[verifier::rlimit(100)]
proof fn lemma_sp_items_complete(s: Seq<char>, i: int, vs: Seq<TaskView>)
    requires
        vs.len() >= 1,
        0 <= i,
        i + spec_items(vs).len() + 1 <= s.len(),
        s.subrange(i, i + spec_items(vs).len() as int + 1) == spec_items(vs) + seq![']'],
    ensures
        sp_items(s, i) == Some((vs, i + spec_items(vs).len() as int + 1)),
    decreases vs.len(),
{
    let e = i + spec_items(vs).len() as int + 1;
    let v = vs[0];
    if vs.len() == 1 {
        assert(spec_items(vs) == spec_task(v));
        lemma_peel(s, i, e, spec_task(v), seq![']']);
        let j = i + spec_task(v).len() as int;
        lemma_sp_task_complete(s, i, v);
        assert(s.subrange(i, j)[0] == s[i]);
        assert(spec_task(v)[0] == '{');
        assert(s[i] == '{');
        lemma_ws_end_here(s, i);
        assert(s.subrange(j, e)[0] == s[j]);
        assert(s[j] == ']');
        lemma_ws_end_here(s, j);
        assert(seq![v] =~= vs);
    } else {
        let vs2 = vs.drop_first();
        assert(spec_items(vs) == spec_task(v) + seq![','] + spec_items(vs2));
        assert((spec_task(v) + seq![','] + spec_items(vs2)) + seq![']'] =~= spec_task(v) + (seq![
            ',',
        ] + (spec_items(vs2) + seq![']'])));
        lemma_peel(s, i, e, spec_task(v), seq![','] + (spec_items(vs2) + seq![']']));
        let j = i + spec_task(v).len() as int;
        lemma_peel(s, j, e, seq![','], spec_items(vs2) + seq![']']);
        lemma_sp_task_complete(s, i, v);
        assert(s.subrange(i, j)[0] == s[i]);
        assert(spec_task(v)[0] == '{');
        assert(s[i] == '{');
        lemma_ws_end_here(s, i);
        assert(s.subrange(j, j + 1)[0] == s[j]);
        assert(s[j] == ',');
        lemma_ws_end_here(s, j);
        lemma_sp_items_complete(s, j + 1, vs2);
        assert(seq![v] + vs2 =~= vs);
    }
}

/// Whatever the renderer writes, the parser reads back unchanged.
pub proof fn lemma_render_parses(vs: Seq<TaskView>)
    ensures
        sp_parse(spec_render(vs)) == Some(vs),
{
    let s = spec_render(vs);
    if vs.len() == 0 {
        assert(spec_items(vs) == Seq::<char>::empty());
        assert(s =~= seq!['[', ']']);
        assert(s[0] == '[' && s[1] == ']');
        lemma_ws_end_here(s, 0);
        lemma_ws_end_here(s, 1);
        lemma_ws_end_here(s, 2);
    } else {
        assert(s == (seq!['['] + spec_items(vs)) + seq![']']);
        assert(s[0] == (seq!['['] + spec_items(vs))[0]);
        assert(s[0] == '[');
        lemma_ws_end_here(s, 0);
        assert(s.subrange(0, s.len() as int) =~= s);
        assert(s =~= seq!['['] + (spec_items(vs) + seq![']']));
        lemma_peel(s, 0, s.len() as int, seq!['['], spec_items(vs) + seq![']']);
        lemma_sp_items_complete(s, 1, vs);
        // the first task's opening brace stands right after the bracket,
        // so the list is not taken for the empty one
        assert(s.subrange(1, s.len() as int)[0] == s[1]);
        assert(spec_items(vs)[0] == spec_task(vs[0])[0]);
        assert(spec_task(vs[0])[0] == '{');
        assert(s[1] == '{');
        lemma_ws_end_here(s, 1);
        lemma_ws_end_here(s, s.len() as int);
    }
}

} // verus!
