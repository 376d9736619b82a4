//! The persisted document: a JSON array of task records, each with the
//! fields `id`, `description`, `completed`, `priority` and `creation_time`,
//! in that order.  The writer emits a compact document; the reader tolerates
//! whitespace between tokens, the usual string escapes, and is otherwise
//! lenient only in accepting unescaped control characters inside strings.

use vstd::prelude::*;

use crate::task::{Priority, TaskV};

verus! {

broadcast use vstd::utf8::char_is_scalar;

// ---------------------------------------------------------------------------
// The document the writer produces, character by character.
// ---------------------------------------------------------------------------

/// The lowercase hex digit for a value below sixteen.
pub open spec fn hex_digit(n: int) -> char {
    if n < 10 {
        ((48 + n) as u8) as char
    } else {
        ((87 + n) as u8) as char
    }
}

/// How one character of string content is written: quote and backslash are
/// escaped, control characters become a four-digit escape, the rest stand
/// as they are.
pub open spec fn esc_char(c: char) -> Seq<char> {
    if c == '"' {
        seq!['\\', '"']
    } else if c == '\\' {
        seq!['\\', '\\']
    } else if (c as u32) < 32 {
        seq!['\\', 'u', '0', '0', hex_digit(c as u32 as int / 16), hex_digit(c as u32 as int % 16)]
    } else {
        seq![c]
    }
}

/// String content as written between the quotes.
pub open spec fn esc_str(s: Seq<char>) -> Seq<char>
    decreases s.len(),
{
    if s.len() == 0 {
        Seq::empty()
    } else {
        esc_char(s[0]) + esc_str(s.drop_first())
    }
}

/// The digits of `n`, most significant first; empty for zero.
pub open spec fn dec_rec(n: nat) -> Seq<char>
    decreases n,
{
    if n == 0 {
        Seq::empty()
    } else {
        dec_rec(n / 10).push(((48 + n % 10) as u8) as char)
    }
}

/// The decimal rendering of `n`.
pub open spec fn dec(n: nat) -> Seq<char> {
    if n == 0 {
        seq!['0']
    } else {
        dec_rec(n)
    }
}

pub open spec fn key_id() -> Seq<char> {
    seq!['i', 'd']
}

pub open spec fn key_description() -> Seq<char> {
    seq!['d', 'e', 's', 'c', 'r', 'i', 'p', 't', 'i', 'o', 'n']
}

pub open spec fn key_completed() -> Seq<char> {
    seq!['c', 'o', 'm', 'p', 'l', 'e', 't', 'e', 'd']
}

pub open spec fn key_priority() -> Seq<char> {
    seq!['p', 'r', 'i', 'o', 'r', 'i', 't', 'y']
}

pub open spec fn key_creation_time() -> Seq<char> {
    seq!['c', 'r', 'e', 'a', 't', 'i', 'o', 'n', '_', 't', 'i', 'm', 'e']
}

/// The textual tag of a priority class, part of the compatibility surface.
pub open spec fn pri_tag(p: Priority) -> Seq<char> {
    match p {
        Priority::High => seq!['H', 'i', 'g', 'h'],
        Priority::Medium => seq!['M', 'e', 'd', 'i', 'u', 'm'],
        Priority::Low => seq!['L', 'o', 'w'],
    }
}

pub open spec fn ser_bool(b: bool) -> Seq<char> {
    if b {
        seq!['t', 'r', 'u', 'e']
    } else {
        seq!['f', 'a', 'l', 's', 'e']
    }
}

/// `k` between quotes.
pub open spec fn quoted(k: Seq<char>) -> Seq<char> {
    seq!['"'] + k + seq!['"']
}

/// `d` escaped, between quotes.
pub open spec fn quoted_esc(d: Seq<char>) -> Seq<char> {
    seq!['"'] + esc_str(d) + seq!['"']
}

/// One task record.
pub open spec fn ser_task(t: TaskV) -> Seq<char> {
    seq!['{'] + quoted(key_id()) + seq![':'] + dec(t.id as nat) + seq![','] + quoted(
        key_description(),
    ) + seq![':'] + quoted_esc(t.description) + seq![','] + quoted(key_completed()) + seq![':']
        + ser_bool(t.completed) + seq![','] + quoted(key_priority()) + seq![':'] + quoted(
        pri_tag(t.priority),
    ) + seq![','] + quoted(key_creation_time()) + seq![':'] + quoted_esc(t.creation_time)
        + seq!['}']
}

/// The records, comma-separated.
pub open spec fn ser_items(s: Seq<TaskV>) -> Seq<char>
    decreases s.len(),
{
    if s.len() == 0 {
        Seq::empty()
    } else if s.len() == 1 {
        ser_task(s[0])
    } else {
        ser_task(s[0]) + seq![','] + ser_items(s.drop_first())
    }
}

/// The whole document.
pub open spec fn ser_tasks(s: Seq<TaskV>) -> Seq<char> {
    seq!['['] + ser_items(s) + seq![']']
}

// ---------------------------------------------------------------------------
// What the reader accepts.
// ---------------------------------------------------------------------------

pub open spec fn is_ws(c: char) -> bool {
    c == ' ' || c == '\n' || c == '\r' || c == '\t'
}

/// The first index at or after `i` holding a non-blank character.
pub open spec fn skip_ws(s: Seq<char>, i: int) -> int
    decreases s.len() - i,
{
    if 0 <= i && i < s.len() && is_ws(s[i]) {
        skip_ws(s, i + 1)
    } else {
        i
    }
}

pub open spec fn is_digit(c: char) -> bool {
    48 <= c as u32 <= 57
}

/// The value of a hex digit; negative for any other character.
pub open spec fn hex_val(c: char) -> int {
    if 48 <= c as u32 <= 57 {
        c as u32 - 48
    } else if 97 <= c as u32 <= 102 {
        c as u32 - 87
    } else if 65 <= c as u32 <= 70 {
        c as u32 - 55
    } else {
        -1
    }
}

/// What a one-letter escape stands for; `None` for an unknown letter.
pub open spec fn unescape_short(c: char) -> Option<char> {
    if c == '"' {
        Some('"')
    } else if c == '\\' {
        Some('\\')
    } else if c == '/' {
        Some('/')
    } else if c == 'n' {
        Some('\n')
    } else if c == 't' {
        Some('\t')
    } else if c == 'r' {
        Some('\r')
    } else if c == 'b' {
        Some('\u{0008}')
    } else if c == 'f' {
        Some('\u{000c}')
    } else {
        None
    }
}

/// String content read from just inside the opening quote to just past the
/// closing one.  Four-digit escapes are accepted for control characters,
/// the ones the writer emits.
pub open spec fn parse_str_body(s: Seq<char>, i: int) -> Option<(Seq<char>, int)>
    decreases s.len() - i,
{
    if i < 0 || i >= s.len() {
        None
    } else if s[i] == '"' {
        Some((Seq::empty(), i + 1))
    } else if s[i] == '\\' {
        if i + 1 < s.len() && s[i + 1] == 'u' {
            if i + 5 < s.len() {
                let h0 = hex_val(s[i + 2]);
                let h1 = hex_val(s[i + 3]);
                let h2 = hex_val(s[i + 4]);
                let h3 = hex_val(s[i + 5]);
                let code = h0 * 4096 + h1 * 256 + h2 * 16 + h3;
                if h0 >= 0 && h1 >= 0 && h2 >= 0 && h3 >= 0 && code < 32 {
                    match parse_str_body(s, i + 6) {
                        Some((rest, j)) => Some((seq![((code as u8) as char)] + rest, j)),
                        None => None,
                    }
                } else {
                    None
                }
            } else {
                None
            }
        } else if i + 1 < s.len() {
            match unescape_short(s[i + 1]) {
                Some(c) => match parse_str_body(s, i + 2) {
                    Some((rest, j)) => Some((seq![c] + rest, j)),
                    None => None,
                },
                None => None,
            }
        } else {
            None
        }
    } else {
        match parse_str_body(s, i + 1) {
            Some((rest, j)) => Some((seq![s[i]] + rest, j)),
            None => None,
        }
    }
}

/// The first index at or after `i` holding a non-digit.
pub open spec fn digit_run_end(s: Seq<char>, i: int) -> int
    decreases s.len() - i,
{
    if 0 <= i && i < s.len() && is_digit(s[i]) {
        digit_run_end(s, i + 1)
    } else {
        i
    }
}

/// The number a run of digits denotes.
pub open spec fn digits_val(s: Seq<char>) -> nat
    decreases s.len(),
{
    if s.len() == 0 {
        0
    } else {
        digits_val(s.drop_last()) * 10 + (s.last() as u32 - 48) as nat
    }
}

/// An id: a nonempty digit run whose value fits in `u32`.
pub open spec fn parse_u32(s: Seq<char>, i: int) -> Option<(u32, int)> {
    let j = digit_run_end(s, i);
    if j == i {
        None
    } else {
        let v = digits_val(s.subrange(i, j));
        if v <= u32::MAX {
            Some(((v as u32), j))
        } else {
            None
        }
    }
}

/// Blanks, then a quoted string.
pub open spec fn parse_string(s: Seq<char>, i: int) -> Option<(Seq<char>, int)> {
    let i1 = skip_ws(s, i);
    if i1 < s.len() && s[i1] == '"' {
        parse_str_body(s, i1 + 1)
    } else {
        None
    }
}

/// Blanks, then `true` or `false`.
pub open spec fn parse_bool(s: Seq<char>, i: int) -> Option<(bool, int)> {
    let i1 = skip_ws(s, i);
    if i1 + 4 <= s.len() && s[i1] == 't' && s[i1 + 1] == 'r' && s[i1 + 2] == 'u' && s[i1 + 3]
        == 'e' {
        Some((true, i1 + 4))
    } else if i1 + 5 <= s.len() && s[i1] == 'f' && s[i1 + 1] == 'a' && s[i1 + 2] == 'l' && s[i1 + 3]
        == 's' && s[i1 + 4] == 'e' {
        Some((false, i1 + 5))
    } else {
        None
    }
}

/// The class a tag names.
pub open spec fn priority_of_tag(k: Seq<char>) -> Option<Priority> {
    if k == pri_tag(Priority::High) {
        Some(Priority::High)
    } else if k == pri_tag(Priority::Medium) {
        Some(Priority::Medium)
    } else if k == pri_tag(Priority::Low) {
        Some(Priority::Low)
    } else {
        None
    }
}

/// Blanks, then one of the three quoted priority tags.
pub open spec fn parse_priority(s: Seq<char>, i: int) -> Option<(Priority, int)> {
    match parse_string(s, i) {
        Some((k, j)) => match priority_of_tag(k) {
            Some(p) => Some((p, j)),
            None => None,
        },
        None => None,
    }
}

/// Blanks, the given quoted key, blanks, a colon.
pub open spec fn parse_key(s: Seq<char>, i: int, key: Seq<char>) -> Option<int> {
    match parse_string(s, i) {
        Some((k, j)) => if k == key {
            let j1 = skip_ws(s, j);
            if j1 < s.len() && s[j1] == ':' {
                Some(j1 + 1)
            } else {
                None
            }
        } else {
            None
        },
        None => None,
    }
}

/// Blanks, then a comma.
pub open spec fn parse_comma(s: Seq<char>, i: int) -> Option<int> {
    let i1 = skip_ws(s, i);
    if i1 < s.len() && s[i1] == ',' {
        Some(i1 + 1)
    } else {
        None
    }
}

/// One task record: the five fields, in the order the writer emits them.
pub open spec fn parse_task(s: Seq<char>, i: int) -> Option<(TaskV, int)> {
    let i0 = skip_ws(s, i);
    if i0 < s.len() && s[i0] == '{' {
        match parse_key(s, i0 + 1, key_id()) {
            Some(a) => match parse_u32(s, skip_ws(s, a)) {
                Some((id, b)) => match parse_comma(s, b) {
                    Some(c) => match parse_key(s, c, key_description()) {
                        Some(d0) => match parse_string(s, d0) {
                            Some((desc, e)) => match parse_comma(s, e) {
                                Some(f) => match parse_key(s, f, key_completed()) {
                                    Some(g) => match parse_bool(s, g) {
                                        Some((done, h)) => match parse_comma(s, h) {
                                            Some(k0) => match parse_key(s, k0, key_priority()) {
                                                Some(l) => match parse_priority(s, l) {
                                                    Some((pri, m)) => match parse_comma(s, m) {
                                                        Some(n0) => match parse_key(
                                                            s,
                                                            n0,
                                                            key_creation_time(),
                                                        ) {
                                                            Some(o) => match parse_string(s, o) {
                                                                Some((ts, q)) => {
                                                                    let q1 = skip_ws(s, q);
                                                                    if q1 < s.len() && s[q1]
                                                                        == '}' {
                                                                        Some(
                                                                            (
                                                                                TaskV {
                                                                                    id,
                                                                                    description:
                                                                                        desc,
                                                                                    completed: done,
                                                                                    priority: pri,
                                                                                    creation_time:
                                                                                        ts,
                                                                                },
                                                                                q1 + 1,
                                                                            ),
                                                                        )
                                                                    } else {
                                                                        None
                                                                    }
                                                                },
                                                                None => None,
                                                            },
                                                            None => None,
                                                        },
                                                        None => None,
                                                    },
                                                    None => None,
                                                },
                                                None => None,
                                            },
                                            None => None,
                                        },
                                        None => None,
                                    },
                                    None => None,
                                },
                                None => None,
                            },
                            None => None,
                        },
                        None => None,
                    },
                    None => None,
                },
                None => None,
            },
            None => None,
        }
    } else {
        None
    }
}

/// Records after the opening bracket: at least one, comma-separated, up to
/// and including the closing bracket.
pub open spec fn parse_items(s: Seq<char>, i: int) -> Option<(Seq<TaskV>, int)>
    decreases s.len() - i,
{
    match parse_task(s, i) {
        Some((t, j)) => {
            if i < j && j <= s.len() {
                let j1 = skip_ws(s, j);
                if j <= j1 && j1 < s.len() && s[j1] == ',' {
                    match parse_items(s, j1 + 1) {
                        Some((rest, k)) => Some((seq![t] + rest, k)),
                        None => None,
                    }
                } else if j <= j1 && j1 < s.len() && s[j1] == ']' {
                    Some((seq![t], j1 + 1))
                } else {
                    None
                }
            } else {
                None
            }
        },
        None => None,
    }
}

/// The whole document: one array of records, nothing but blanks after it.
pub open spec fn parse_tasks(s: Seq<char>) -> Option<Seq<TaskV>> {
    let i = skip_ws(s, 0);
    if i < s.len() && s[i] == '[' {
        let j = skip_ws(s, i + 1);
        if j < s.len() && s[j] == ']' {
            if skip_ws(s, j + 1) == s.len() {
                Some(Seq::empty())
            } else {
                None
            }
        } else {
            match parse_items(s, i + 1) {
                Some((ts, k)) => if skip_ws(s, k) == s.len() {
                    Some(ts)
                } else {
                    None
                },
                None => None,
            }
        }
    } else {
        None
    }
}

// ---------------------------------------------------------------------------
// The writer.
// ---------------------------------------------------------------------------

/// Relies on std's `FromIterator<char> for String`: the string holds
/// exactly the given characters, in order.
#[verifier::external_body]
fn chars_to_string(v: &Vec<char>) -> (r: String)
    ensures
        r@ == v@,
{
    v.iter().collect()
}

/// The characters of `s`, in order.
fn str_to_chars(s: &str) -> (v: Vec<char>)
    ensures
        v@ == s@,
{
    let n = s.unicode_len();
    let mut v: Vec<char> = Vec::new();
    let mut i: usize = 0;
    while i < n
        invariant
            n == s@.len(),
            i <= n,
            v@ == s@.take(i as int),
        decreases n - i,
    {
        let c = s.get_char(i);
        v.push(c);
        proof {
            assert(v@ =~= s@.take(i as int + 1));
        }
        i += 1;
    }
    proof {
        assert(s@.take(n as int) =~= s@);
    }
    v
}

/// The executable image of [`hex_digit`].
fn hex_digit_exec(n: u8) -> (r: char)
    requires
        n < 16,
    ensures
        r == hex_digit(n as int),
{
    if n < 10 {
        (48 + n) as char
    } else {
        (87 + n) as char
    }
}

fn push_esc_char(out: &mut Vec<char>, c: char)
    ensures
        final(out)@ == old(out)@ + esc_char(c),
{
    if c == '"' {
        out.push('\\');
        out.push('"');
        proof {
            assert(final(out)@ =~= old(out)@ + esc_char(c));
        }
    } else if c == '\\' {
        out.push('\\');
        out.push('\\');
        proof {
            assert(final(out)@ =~= old(out)@ + esc_char(c));
        }
    } else if (c as u32) < 32 {
        let code = c as u32;
        out.push('\\');
        out.push('u');
        out.push('0');
        out.push('0');
        out.push(hex_digit_exec((code / 16) as u8));
        out.push(hex_digit_exec((code % 16) as u8));
        proof {
            assert(final(out)@ =~= old(out)@ + esc_char(c));
        }
    } else {
        out.push(c);
        proof {
            assert(final(out)@ =~= old(out)@ + esc_char(c));
        }
    }
}

proof fn lemma_esc_str_push(s: Seq<char>, c: char)
    ensures
        esc_str(s.push(c)) == esc_str(s) + esc_char(c),
    decreases s.len(),
{
    if s.len() == 0 {
        assert(s.push(c).drop_first() =~= Seq::<char>::empty());
        assert(s.push(c)[0] == c);
        assert(esc_str(s.push(c)) == esc_char(c) + esc_str(Seq::<char>::empty()));
        assert(esc_char(c) + esc_str(Seq::<char>::empty()) =~= esc_str(s) + esc_char(c));
    } else {
        lemma_esc_str_push(s.drop_first(), c);
        assert(s.push(c).drop_first() =~= s.drop_first().push(c));
        assert(s.push(c)[0] == s[0]);
        assert(esc_str(s.push(c)) == esc_char(s[0]) + (esc_str(s.drop_first()) + esc_char(c)));
        assert(esc_char(s[0]) + (esc_str(s.drop_first()) + esc_char(c)) =~= (esc_char(s[0])
            + esc_str(s.drop_first())) + esc_char(c));
    }
}

fn push_esc_of_str(out: &mut Vec<char>, s: &str)
    ensures
        final(out)@ == old(out)@ + esc_str(s@),
{
    let n = s.unicode_len();
    let mut i: usize = 0;
    while i < n
        invariant
            n == s@.len(),
            i <= n,
            out@ == old(out)@ + esc_str(s@.take(i as int)),
        decreases n - i,
    {
        let c = s.get_char(i);
        push_esc_char(out, c);
        proof {
            assert(s@.take(i as int).push(c) =~= s@.take(i as int + 1));
            lemma_esc_str_push(s@.take(i as int), c);
        }
        i += 1;
    }
    proof {
        assert(s@.take(n as int) =~= s@);
    }
}

fn push_dec_rec(out: &mut Vec<char>, n: u32)
    ensures
        final(out)@ == old(out)@ + dec_rec(n as nat),
    decreases n,
{
    if n == 0 {
        proof {
            assert(final(out)@ =~= old(out)@ + dec_rec(0));
        }
        return ;
    }
    push_dec_rec(out, n / 10);
    out.push((48 + (n % 10) as u8) as char);
    proof {
        assert(final(out)@ =~= old(out)@ + dec_rec(n as nat));
    }
}

fn push_dec(out: &mut Vec<char>, n: u32)
    ensures
        final(out)@ == old(out)@ + dec(n as nat),
{
    if n == 0 {
        out.push('0');
        proof {
            assert(final(out)@ =~= old(out)@ + dec(0));
        }
    } else {
        push_dec_rec(out, n);
    }
}

fn push_key_id(out: &mut Vec<char>)
    ensures
        final(out)@ == old(out)@ + quoted(key_id()) + seq![':'],
{
    out.push('"');
    out.push('i');
    out.push('d');
    out.push('"');
    out.push(':');
    proof {
        assert(final(out)@ =~= old(out)@ + quoted(key_id()) + seq![':']);
    }
}

fn push_key_description(out: &mut Vec<char>)
    ensures
        final(out)@ == old(out)@ + quoted(key_description()) + seq![':'],
{
    out.push('"');
    out.push('d');
    out.push('e');
    out.push('s');
    out.push('c');
    out.push('r');
    out.push('i');
    out.push('p');
    out.push('t');
    out.push('i');
    out.push('o');
    out.push('n');
    out.push('"');
    out.push(':');
    proof {
        assert(final(out)@ =~= old(out)@ + quoted(key_description()) + seq![':']);
    }
}

fn push_key_completed(out: &mut Vec<char>)
    ensures
        final(out)@ == old(out)@ + quoted(key_completed()) + seq![':'],
{
    out.push('"');
    out.push('c');
    out.push('o');
    out.push('m');
    out.push('p');
    out.push('l');
    out.push('e');
    out.push('t');
    out.push('e');
    out.push('d');
    out.push('"');
    out.push(':');
    proof {
        assert(final(out)@ =~= old(out)@ + quoted(key_completed()) + seq![':']);
    }
}

fn push_key_priority(out: &mut Vec<char>)
    ensures
        final(out)@ == old(out)@ + quoted(key_priority()) + seq![':'],
{
    out.push('"');
    out.push('p');
    out.push('r');
    out.push('i');
    out.push('o');
    out.push('r');
    out.push('i');
    out.push('t');
    out.push('y');
    out.push('"');
    out.push(':');
    proof {
        assert(final(out)@ =~= old(out)@ + quoted(key_priority()) + seq![':']);
    }
}

fn push_key_creation_time(out: &mut Vec<char>)
    ensures
        final(out)@ == old(out)@ + quoted(key_creation_time()) + seq![':'],
{
    out.push('"');
    out.push('c');
    out.push('r');
    out.push('e');
    out.push('a');
    out.push('t');
    out.push('i');
    out.push('o');
    out.push('n');
    out.push('_');
    out.push('t');
    out.push('i');
    out.push('m');
    out.push('e');
    out.push('"');
    out.push(':');
    proof {
        assert(final(out)@ =~= old(out)@ + quoted(key_creation_time()) + seq![':']);
    }
}

fn push_bool(out: &mut Vec<char>, b: bool)
    ensures
        final(out)@ == old(out)@ + ser_bool(b),
{
    if b {
        out.push('t');
        out.push('r');
        out.push('u');
        out.push('e');
    } else {
        out.push('f');
        out.push('a');
        out.push('l');
        out.push('s');
        out.push('e');
    }
    proof {
        assert(final(out)@ =~= old(out)@ + ser_bool(b));
    }
}

fn push_pri_tag(out: &mut Vec<char>, p: Priority)
    ensures
        final(out)@ == old(out)@ + quoted(pri_tag(p)),
{
    out.push('"');
    match p {
        Priority::High => {
            out.push('H');
            out.push('i');
            out.push('g');
            out.push('h');
        },
        Priority::Medium => {
            out.push('M');
            out.push('e');
            out.push('d');
            out.push('i');
            out.push('u');
            out.push('m');
        },
        Priority::Low => {
            out.push('L');
            out.push('o');
            out.push('w');
        },
    }
    out.push('"');
    proof {
        assert(final(out)@ =~= old(out)@ + quoted(pri_tag(p)));
    }
}

#[verifier::rlimit(100)]
fn push_task(out: &mut Vec<char>, t: &crate::task::Task)
    ensures
        final(out)@ == old(out)@ + ser_task(t@),
{
    let ghost base = old(out)@;
    out.push('{');
    push_key_id(out);
    proof {
        assert(out@ =~= base + seq!['{'] + quoted(key_id()) + seq![':']);
    }
    push_dec(out, t.id);
    out.push(',');
    push_key_description(out);
    out.push('"');
    push_esc_of_str(out, t.description.as_str());
    out.push('"');
    proof {
        assert(out@ =~= base + seq!['{'] + quoted(key_id()) + seq![':'] + dec(t.id as nat)
            + seq![','] + quoted(key_description()) + seq![':'] + quoted_esc(t@.description));
    }
    out.push(',');
    push_key_completed(out);
    push_bool(out, t.completed);
    out.push(',');
    push_key_priority(out);
    push_pri_tag(out, t.priority);
    proof {
        assert(out@ =~= base + seq!['{'] + quoted(key_id()) + seq![':'] + dec(t.id as nat)
            + seq![','] + quoted(key_description()) + seq![':'] + quoted_esc(t@.description)
            + seq![','] + quoted(key_completed()) + seq![':'] + ser_bool(t.completed) + seq![',']
            + quoted(key_priority()) + seq![':'] + quoted(pri_tag(t.priority)));
    }
    out.push(',');
    push_key_creation_time(out);
    out.push('"');
    push_esc_of_str(out, t.creation_time.as_str());
    out.push('"');
    out.push('}');
    proof {
        assert(out@ =~= base + ser_task(t@));
    }
}

impl crate::task::TaskManager {
    /// The whole collection as one JSON document, fit to be written to the
    /// backing file and read back by [`Self::restore`].
    pub fn persist(&self) -> (r: String)
        ensures
            r@ == ser_tasks(self@),
    {
        let mut out: Vec<char> = Vec::new();
        out.push('[');
        let mut i: usize = 0;
        proof {
            assert(self@.take(0) =~= Seq::<TaskV>::empty());
            assert(out@ =~= seq!['['] + ser_items(self@.take(0)));
        }
        while i < self.tasks.len()
            invariant
                i <= self.tasks@.len(),
                self@.len() == self.tasks@.len(),
                out@ == seq!['['] + ser_items(self@.take(i as int)),
            decreases self.tasks@.len() - i,
        {
            if i > 0 {
                out.push(',');
            }
            let ghost mid = out@;
            push_task(&mut out, &self.tasks[i]);
            proof {
                assert(self.tasks@[i as int]@ == self@[i as int]);
                lemma_ser_items_push(self@.take(i as int), self@[i as int]);
                assert(self@.take(i as int).push(self@[i as int]) =~= self@.take(i as int + 1));
                if i == 0 {
                    assert(out@ =~= seq!['['] + ser_items(self@.take(i as int + 1)));
                } else {
                    assert(mid =~= (seq!['['] + ser_items(self@.take(i as int))) + seq![',']);
                    assert(out@ =~= seq!['['] + (ser_items(self@.take(i as int)) + seq![',']
                        + ser_task(self@[i as int])));
                }
            }
            i += 1;
        }
        out.push(']');
        proof {
            assert(self@.take(self@.len() as int) =~= self@);
            assert(out@ =~= ser_tasks(self@));
        }
        chars_to_string(&out)
    }
}

proof fn lemma_ser_items_push(s: Seq<TaskV>, t: TaskV)
    ensures
        s.len() == 0 ==> ser_items(s.push(t)) == ser_task(t),
        s.len() > 0 ==> ser_items(s.push(t)) == ser_items(s) + seq![','] + ser_task(t),
    decreases s.len(),
{
    if s.len() == 0 {
        assert(s.push(t)[0] == t);
        assert(ser_items(s.push(t)) == ser_task(t));
    } else {
        lemma_ser_items_push(s.drop_first(), t);
        assert(s.push(t).drop_first() =~= s.drop_first().push(t));
        assert(s.push(t)[0] == s[0]);
        if s.len() == 1 {
            assert(ser_items(s.push(t)) =~= ser_items(s) + seq![','] + ser_task(t));
        } else {
            assert(ser_items(s.push(t)) =~= ser_items(s) + seq![','] + ser_task(t));
        }
    }
}

// ---------------------------------------------------------------------------
// The reader.
// ---------------------------------------------------------------------------

fn eq_chars(a: &Vec<char>, b: &Vec<char>) -> (r: bool)
    ensures
        r == (a@ == b@),
{
    if a.len() != b.len() {
        proof {
            assert(a@ != b@);
        }
        return false;
    }
    let mut i: usize = 0;
    while i < a.len()
        invariant
            i <= a@.len(),
            a@.len() == b@.len(),
            forall|j: int| 0 <= j < i ==> a@[j] == b@[j],
        decreases a@.len() - i,
    {
        if a[i] != b[i] {
            proof {
                assert(a@[i as int] != b@[i as int]);
            }
            return false;
        }
        i += 1;
    }
    proof {
        assert(a@ =~= b@);
    }
    true
}

fn key_id_chars() -> (v: Vec<char>)
    ensures
        v@ == key_id(),
{
    let mut v: Vec<char> = Vec::new();
    v.push('i');
    v.push('d');
    proof {
        assert(v@ =~= key_id());
    }
    v
}

fn key_description_chars() -> (v: Vec<char>)
    ensures
        v@ == key_description(),
{
    let mut v: Vec<char> = Vec::new();
    v.push('d');
    v.push('e');
    v.push('s');
    v.push('c');
    v.push('r');
    v.push('i');
    v.push('p');
    v.push('t');
    v.push('i');
    v.push('o');
    v.push('n');
    proof {
        assert(v@ =~= key_description());
    }
    v
}

fn key_completed_chars() -> (v: Vec<char>)
    ensures
        v@ == key_completed(),
{
    let mut v: Vec<char> = Vec::new();
    v.push('c');
    v.push('o');
    v.push('m');
    v.push('p');
    v.push('l');
    v.push('e');
    v.push('t');
    v.push('e');
    v.push('d');
    proof {
        assert(v@ =~= key_completed());
    }
    v
}

fn key_priority_chars() -> (v: Vec<char>)
    ensures
        v@ == key_priority(),
{
    let mut v: Vec<char> = Vec::new();
    v.push('p');
    v.push('r');
    v.push('i');
    v.push('o');
    v.push('r');
    v.push('i');
    v.push('t');
    v.push('y');
    proof {
        assert(v@ =~= key_priority());
    }
    v
}

fn key_creation_time_chars() -> (v: Vec<char>)
    ensures
        v@ == key_creation_time(),
{
    let mut v: Vec<char> = Vec::new();
    v.push('c');
    v.push('r');
    v.push('e');
    v.push('a');
    v.push('t');
    v.push('i');
    v.push('o');
    v.push('n');
    v.push('_');
    v.push('t');
    v.push('i');
    v.push('m');
    v.push('e');
    proof {
        assert(v@ =~= key_creation_time());
    }
    v
}

fn tag_chars(p: Priority) -> (v: Vec<char>)
    ensures
        v@ == pri_tag(p),
{
    let mut v: Vec<char> = Vec::new();
    match p {
        Priority::High => {
            v.push('H');
            v.push('i');
            v.push('g');
            v.push('h');
        },
        Priority::Medium => {
            v.push('M');
            v.push('e');
            v.push('d');
            v.push('i');
            v.push('u');
            v.push('m');
        },
        Priority::Low => {
            v.push('L');
            v.push('o');
            v.push('w');
        },
    }
    proof {
        assert(v@ =~= pri_tag(p));
    }
    v
}

fn skip_ws_exec(s: &Vec<char>, i: usize) -> (j: usize)
    requires
        i <= s@.len(),
    ensures
        j as int == skip_ws(s@, i as int),
        i <= j <= s@.len(),
{
    let mut j = i;
    while j < s.len()
        invariant
            i <= j <= s@.len(),
            skip_ws(s@, i as int) == skip_ws(s@, j as int),
        decreases s@.len() - j,
    {
        let c = s[j];
        if !(c == ' ' || c == '\n' || c == '\r' || c == '\t') {
            return j;
        }
        j += 1;
    }
    j
}

fn hex_val_exec(c: char) -> (r: i32)
    ensures
        r as int == hex_val(c),
{
    let u = c as u32;
    if 48 <= u && u <= 57 {
        (u - 48) as i32
    } else if 97 <= u && u <= 102 {
        (u - 87) as i32
    } else if 65 <= u && u <= 70 {
        (u - 55) as i32
    } else {
        -1
    }
}

#[verifier::rlimit(60)]
fn parse_str_body_exec(s: &Vec<char>, i: usize) -> (r: Option<(Vec<char>, usize)>)
    requires
        i <= s@.len(),
    ensures
        r is None ==> parse_str_body(s@, i as int) is None,
        r is Some ==> parse_str_body(s@, i as int) == Some(
            (r.unwrap().0@, r.unwrap().1 as int),
        ),
        r is Some ==> i < r.unwrap().1 <= s@.len(),
    decreases s@.len() - i,
{
    if i >= s.len() {
        return None;
    }
    let c = s[i];
    if c == '"' {
        return Some((Vec::new(), i + 1));
    }
    if c == '\\' {
        if s.len() - i > 1 && s[i + 1] == 'u' {
            if s.len() - i > 5 {
                let h0 = hex_val_exec(s[i + 2]);
                let h1 = hex_val_exec(s[i + 3]);
                let h2 = hex_val_exec(s[i + 4]);
                let h3 = hex_val_exec(s[i + 5]);
                let code = h0 * 4096 + h1 * 256 + h2 * 16 + h3;
                if h0 >= 0 && h1 >= 0 && h2 >= 0 && h3 >= 0 && code < 32 {
                    let ch = (code as u8) as char;
                    match parse_str_body_exec(s, i + 6) {
                        Some((mut v, j)) => {
                            v.insert(0, ch);
                            proof {
                                assert(v@ =~= seq![ch] + v@.drop_first());
                            }
                            Some((v, j))
                        },
                        None => None,
                    }
                } else {
                    None
                }
            } else {
                None
            }
        } else if s.len() - i > 1 {
            let e = s[i + 1];
            let dec_c: Option<char> = if e == '"' {
                Some('"')
            } else if e == '\\' {
                Some('\\')
            } else if e == '/' {
                Some('/')
            } else if e == 'n' {
                Some('\n')
            } else if e == 't' {
                Some('\t')
            } else if e == 'r' {
                Some('\r')
            } else if e == 'b' {
                Some('\u{0008}')
            } else if e == 'f' {
                Some('\u{000c}')
            } else {
                None
            };
            match dec_c {
                Some(ch) => match parse_str_body_exec(s, i + 2) {
                    Some((mut v, j)) => {
                        v.insert(0, ch);
                        proof {
                            assert(v@ =~= seq![ch] + v@.drop_first());
                        }
                        Some((v, j))
                    },
                    None => None,
                },
                None => None,
            }
        } else {
            None
        }
    } else {
        match parse_str_body_exec(s, i + 1) {
            Some((mut v, j)) => {
                v.insert(0, c);
                proof {
                    assert(v@ =~= seq![c] + v@.drop_first());
                }
                Some((v, j))
            },
            None => None,
        }
    }
}

fn digit_run_end_exec(s: &Vec<char>, i: usize) -> (j: usize)
    requires
        i <= s@.len(),
    ensures
        j as int == digit_run_end(s@, i as int),
        i <= j <= s@.len(),
{
    let mut j = i;
    while j < s.len()
        invariant
            i <= j <= s@.len(),
            digit_run_end(s@, i as int) == digit_run_end(s@, j as int),
        decreases s@.len() - j,
    {
        let u = s[j] as u32;
        if !(48 <= u && u <= 57) {
            return j;
        }
        proof {
            assert(is_digit(s@[j as int]));
        }
        j += 1;
    }
    j
}

proof fn lemma_digit_run_end(s: Seq<char>, i: int)
    requires
        0 <= i <= s.len(),
    ensures
        i <= digit_run_end(s, i) <= s.len(),
        forall|m: int| i <= m < digit_run_end(s, i) ==> is_digit(s[m]),
    decreases s.len() - i,
{
    if i < s.len() && is_digit(s[i]) {
        lemma_digit_run_end(s, i + 1);
    }
}

fn parse_u32_exec(s: &Vec<char>, i: usize) -> (r: Option<(u32, usize)>)
    requires
        i <= s@.len(),
    ensures
        r is None ==> parse_u32(s@, i as int) is None,
        r is Some ==> parse_u32(s@, i as int) == Some((r.unwrap().0, r.unwrap().1 as int)),
        r is Some ==> i < r.unwrap().1 <= s@.len(),
{
    let j = digit_run_end_exec(s, i);
    proof {
        lemma_digit_run_end(s@, i as int);
    }
    if j == i {
        return None;
    }
    let mut acc: u64 = 0;
    let mut over = false;
    let mut k = i;
    while k < j
        invariant
            i <= k <= j <= s@.len(),
            j as int == digit_run_end(s@, i as int),
            forall|m: int| i <= m < j ==> is_digit(s@[m]),
            !over ==> acc as nat == digits_val(s@.subrange(i as int, k as int)) && acc <= u32::MAX,
            over ==> digits_val(s@.subrange(i as int, k as int)) > u32::MAX,
        decreases j - k,
    {
        let d = (s[k] as u32) - 48;
        proof {
            assert(is_digit(s@[k as int]));
            assert(s@.subrange(i as int, k as int + 1).drop_last() =~= s@.subrange(
                i as int,
                k as int,
            ));
            assert(s@.subrange(i as int, k as int + 1).last() == s@[k as int]);
        }
        if !over {
            acc = acc * 10 + (d as u64);
            if acc > 0xffff_ffff {
                over = true;
            }
        } else {
            proof {
                let v = digits_val(s@.subrange(i as int, k as int));
                let v2 = digits_val(s@.subrange(i as int, k as int + 1));
                assert(v2 == v * 10 + (s@[k as int] as u32 - 48) as nat);
                assert(v * 10 >= v) by (nonlinear_arith)
                    requires
                        v >= 0,
                ;
            }
        }
        k += 1;
    }
    if over {
        return None;
    }
    proof {
        assert(digit_run_end(s@, i as int) != i as int);
    }
    Some((acc as u32, j))
}

fn parse_string_exec(s: &Vec<char>, i: usize) -> (r: Option<(Vec<char>, usize)>)
    requires
        i <= s@.len(),
    ensures
        r is None ==> parse_string(s@, i as int) is None,
        r is Some ==> parse_string(s@, i as int) == Some((r.unwrap().0@, r.unwrap().1 as int)),
        r is Some ==> i < r.unwrap().1 <= s@.len(),
{
    let i1 = skip_ws_exec(s, i);
    if i1 < s.len() && s[i1] == '"' {
        parse_str_body_exec(s, i1 + 1)
    } else {
        None
    }
}

fn parse_bool_exec(s: &Vec<char>, i: usize) -> (r: Option<(bool, usize)>)
    requires
        i <= s@.len(),
    ensures
        r is None ==> parse_bool(s@, i as int) is None,
        r is Some ==> parse_bool(s@, i as int) == Some((r.unwrap().0, r.unwrap().1 as int)),
        r is Some ==> i < r.unwrap().1 <= s@.len(),
{
    let i1 = skip_ws_exec(s, i);
    if s.len() - i1 >= 4 && s[i1] == 't' && s[i1 + 1] == 'r' && s[i1 + 2] == 'u' && s[i1 + 3]
        == 'e' {
        Some((true, i1 + 4))
    } else if s.len() - i1 >= 5 && s[i1] == 'f' && s[i1 + 1] == 'a' && s[i1 + 2] == 'l' && s[i1
        + 3] == 's' && s[i1 + 4] == 'e' {
        Some((false, i1 + 5))
    } else {
        None
    }
}

fn parse_priority_exec(s: &Vec<char>, i: usize) -> (r: Option<(Priority, usize)>)
    requires
        i <= s@.len(),
    ensures
        r is None ==> parse_priority(s@, i as int) is None,
        r is Some ==> parse_priority(s@, i as int) == Some((r.unwrap().0, r.unwrap().1 as int)),
        r is Some ==> i < r.unwrap().1 <= s@.len(),
{
    match parse_string_exec(s, i) {
        Some((k, j)) => {
            let high = tag_chars(Priority::High);
            let medium = tag_chars(Priority::Medium);
            let low = tag_chars(Priority::Low);
            if eq_chars(&k, &high) {
                Some((Priority::High, j))
            } else if eq_chars(&k, &medium) {
                Some((Priority::Medium, j))
            } else if eq_chars(&k, &low) {
                Some((Priority::Low, j))
            } else {
                None
            }
        },
        None => None,
    }
}

fn parse_key_exec(s: &Vec<char>, i: usize, key: &Vec<char>) -> (r: Option<usize>)
    requires
        i <= s@.len(),
    ensures
        r is None ==> parse_key(s@, i as int, key@) is None,
        r is Some ==> parse_key(s@, i as int, key@) == Some(r.unwrap() as int),
        r is Some ==> i < r.unwrap() <= s@.len(),
{
    match parse_string_exec(s, i) {
        Some((k, j)) => {
            if eq_chars(&k, key) {
                let j1 = skip_ws_exec(s, j);
                if j1 < s.len() && s[j1] == ':' {
                    Some(j1 + 1)
                } else {
                    None
                }
            } else {
                None
            }
        },
        None => None,
    }
}

fn parse_comma_exec(s: &Vec<char>, i: usize) -> (r: Option<usize>)
    requires
        i <= s@.len(),
    ensures
        r is None ==> parse_comma(s@, i as int) is None,
        r is Some ==> parse_comma(s@, i as int) == Some(r.unwrap() as int),
        r is Some ==> i < r.unwrap() <= s@.len(),
{
    let i1 = skip_ws_exec(s, i);
    if i1 < s.len() && s[i1] == ',' {
        Some(i1 + 1)
    } else {
        None
    }
}
#[verifier::rlimit(100)]
fn parse_task_exec(s: &Vec<char>, i: usize) -> (r: Option<(crate::task::Task, usize)>)
    requires
        i <= s@.len(),
    ensures
        r is None ==> parse_task(s@, i as int) is None,
        r is Some ==> parse_task(s@, i as int) == Some((r.unwrap().0@, r.unwrap().1 as int)),
        r is Some ==> i < r.unwrap().1 <= s@.len(),
{
    let i0 = skip_ws_exec(s, i);
    if !(i0 < s.len() && s[i0] == '{') {
        return None;
    }
    let kid = key_id_chars();
    let a = match parse_key_exec(s, i0 + 1, &kid) {
        Some(a) => a,
        None => {
            return None;
        },
    };
    let a1 = skip_ws_exec(s, a);
    let (id, b) = match parse_u32_exec(s, a1) {
        Some(p) => p,
        None => {
            return None;
        },
    };
    let c = match parse_comma_exec(s, b) {
        Some(c) => c,
        None => {
            return None;
        },
    };
    let kdesc = key_description_chars();
    let d0 = match parse_key_exec(s, c, &kdesc) {
        Some(d0) => d0,
        None => {
            return None;
        },
    };
    let (desc, e) = match parse_string_exec(s, d0) {
        Some(p) => p,
        None => {
            return None;
        },
    };
    let f = match parse_comma_exec(s, e) {
        Some(f) => f,
        None => {
            return None;
        },
    };
    let kcomp = key_completed_chars();
    let g = match parse_key_exec(s, f, &kcomp) {
        Some(g) => g,
        None => {
            return None;
        },
    };
    let (done, h) = match parse_bool_exec(s, g) {
        Some(p) => p,
        None => {
            return None;
        },
    };
    let k0 = match parse_comma_exec(s, h) {
        Some(k0) => k0,
        None => {
            return None;
        },
    };
    let kpri = key_priority_chars();
    let l = match parse_key_exec(s, k0, &kpri) {
        Some(l) => l,
        None => {
            return None;
        },
    };
    let (pri, m) = match parse_priority_exec(s, l) {
        Some(p) => p,
        None => {
            return None;
        },
    };
    let n0 = match parse_comma_exec(s, m) {
        Some(n0) => n0,
        None => {
            return None;
        },
    };
    let kct = key_creation_time_chars();
    let o = match parse_key_exec(s, n0, &kct) {
        Some(o) => o,
        None => {
            return None;
        },
    };
    let (ts, q) = match parse_string_exec(s, o) {
        Some(p) => p,
        None => {
            return None;
        },
    };
    let q1 = skip_ws_exec(s, q);
    if !(q1 < s.len() && s[q1] == '}') {
        return None;
    }
    let task = crate::task::Task {
        id,
        description: chars_to_string(&desc),
        completed: done,
        priority: pri,
        creation_time: chars_to_string(&ts),
    };
    Some((task, q1 + 1))
}

#[verifier::rlimit(100)]
fn parse_items_exec(s: &Vec<char>, i: usize) -> (r: Option<(Vec<crate::task::Task>, usize)>)
    requires
        i <= s@.len(),
    ensures
        r is None ==> parse_items(s@, i as int) is None,
        r is Some ==> parse_items(s@, i as int) == Some(
            (crate::task::views(r.unwrap().0@), r.unwrap().1 as int),
        ),
        r is Some ==> i < r.unwrap().1 <= s@.len(),
    decreases s@.len() - i,
{
    match parse_task_exec(s, i) {
        Some((t, j)) => {
            let j1 = skip_ws_exec(s, j);
            if j1 < s.len() && s[j1] == ',' {
                match parse_items_exec(s, j1 + 1) {
                    Some((mut ts, k)) => {
                        let ghost rest = ts@;
                        ts.insert(0, t);
                        proof {
                            crate::task::lemma_views_insert(rest, 0, t);
                            assert(crate::task::views(ts@) =~= seq![t@] + crate::task::views(
                                rest,
                            ));
                        }
                        Some((ts, k))
                    },
                    None => None,
                }
            } else if j1 < s.len() && s[j1] == ']' {
                let mut ts: Vec<crate::task::Task> = Vec::new();
                let ghost empty = ts@;
                ts.push(t);
                proof {
                    crate::task::lemma_views_push(empty, t);
                    assert(crate::task::views(ts@) =~= seq![t@]);
                }
                Some((ts, j1 + 1))
            } else {
                None
            }
        },
        None => None,
    }
}

fn parse_tasks_exec(s: &Vec<char>) -> (r: Option<Vec<crate::task::Task>>)
    ensures
        r is None ==> parse_tasks(s@) is None,
        r is Some ==> parse_tasks(s@) == Some(crate::task::views(r.unwrap()@)),
{
    let i = skip_ws_exec(s, 0);
    if !(i < s.len() && s[i] == '[') {
        return None;
    }
    let j = skip_ws_exec(s, i + 1);
    if j < s.len() && s[j] == ']' {
        if skip_ws_exec(s, j + 1) == s.len() {
            let ts: Vec<crate::task::Task> = Vec::new();
            proof {
                assert(crate::task::views(ts@) =~= Seq::<TaskV>::empty());
            }
            Some(ts)
        } else {
            None
        }
    } else {
        match parse_items_exec(s, i + 1) {
            Some((ts, k)) => {
                if skip_ws_exec(s, k) == s.len() {
                    Some(ts)
                } else {
                    None
                }
            },
            None => None,
        }
    }
}

/// What a restore reports: the collection was replaced, there was nothing
/// saved to read, or the saved text did not parse and nothing changed.
#[derive(Clone, Copy, PartialEq, Eq, Structural, Debug)]
pub enum RestoreOutcome {
    Restored,
    NoSavedState,
    ParseError,
}

impl crate::task::TaskManager {
    /// Replaces the collection with what the saved document holds.  Absence
    /// of a document and unparsable text are both normal outcomes; in either
    /// case the collection in memory stays exactly as it was.
    pub fn restore(&mut self, content: Option<&str>) -> (r: RestoreOutcome)
        ensures
            content is None ==> r == RestoreOutcome::NoSavedState && final(self)@ == old(self)@,
            content is Some ==> (match parse_tasks(content.unwrap()@) {
                Some(ts) => r == RestoreOutcome::Restored && final(self)@ == ts,
                None => r == RestoreOutcome::ParseError && final(self)@ == old(self)@,
            }),
    {
        match content {
            None => RestoreOutcome::NoSavedState,
            Some(text) => {
                let chars = str_to_chars(text);
                match parse_tasks_exec(&chars) {
                    Some(ts) => {
                        self.tasks = ts;
                        RestoreOutcome::Restored
                    },
                    None => RestoreOutcome::ParseError,
                }
            },
        }
    }
}

// ---------------------------------------------------------------------------
// The round trip: what the writer emits, the reader parses back, unchanged.
// ---------------------------------------------------------------------------

/// `frag` stands in `s` at position `i`.
pub open spec fn matches_at(s: Seq<char>, i: int, frag: Seq<char>) -> bool {
    0 <= i && i + frag.len() <= s.len() && s.subrange(i, i + frag.len()) == frag
}

/// No character of `k` needs escaping, and none is blank.
pub open spec fn plain(k: Seq<char>) -> bool {
    forall|j: int|
        0 <= j < k.len() ==> k[j] != '"' && k[j] != '\\' && k[j] as u32 >= 32 && !is_ws(k[j])
}

proof fn lemma_matches_index(s: Seq<char>, i: int, f: Seq<char>)
    requires
        matches_at(s, i, f),
    ensures
        forall|m: int| 0 <= m < f.len() ==> s[i + m] == #[trigger] f[m],
{
    assert forall|m: int| 0 <= m < f.len() implies s[i + m] == #[trigger] f[m] by {
        assert(s.subrange(i, i + f.len())[m] == s[i + m]);
    }
}

proof fn lemma_matches_split(s: Seq<char>, i: int, a: Seq<char>, b: Seq<char>)
    requires
        matches_at(s, i, a + b),
    ensures
        matches_at(s, i, a),
        matches_at(s, i + a.len(), b),
{
    let ab = a + b;
    lemma_matches_index(s, i, ab);
    assert forall|m: int| 0 <= m < a.len() implies s.subrange(i, i + a.len())[m] == a[m] by {
        assert(s.subrange(i, i + a.len())[m] == s[i + m]);
        assert(ab[m] == a[m]);
    }
    assert(s.subrange(i, i + a.len()) =~= a);
    let ib = i + a.len();
    assert forall|m: int| 0 <= m < b.len() implies s.subrange(ib, ib + b.len())[m] == b[m] by {
        assert(s.subrange(ib, ib + b.len())[m] == s[ib + m]);
        assert(s[i + (a.len() + m)] == ab[a.len() + m]);
        assert(ab[a.len() + m] == b[m]);
    }
    assert(s.subrange(ib, ib + b.len()) =~= b);
}

proof fn lemma_skip_ws_noop(s: Seq<char>, i: int)
    requires
        0 <= i < s.len(),
        !is_ws(s[i]),
    ensures
        skip_ws(s, i) == i,
{
}

proof fn lemma_parse_str_body_plain(s: Seq<char>, i: int, k: Seq<char>)
    requires
        plain(k),
        matches_at(s, i, k + seq!['"']),
    ensures
        parse_str_body(s, i) == Some((k, i + k.len() + 1)),
    decreases k.len(),
{
    if k.len() == 0 {
        lemma_matches_index(s, i, k + seq!['"']);
        assert((k + seq!['"'])[0] == '"');
        assert(s[i] == '"');
        assert(k =~= Seq::<char>::empty());
    } else {
        let c = k[0];
        let rest = k.drop_first();
        assert(k + seq!['"'] == seq![c] + (rest + seq!['"'])) by {
            assert(k + seq!['"'] =~= seq![c] + (rest + seq!['"']));
        }
        lemma_matches_split(s, i, seq![c], rest + seq!['"']);
        lemma_matches_index(s, i, seq![c]);
        assert(seq![c][0] == c);
        assert(s[i] == c);
        assert(c != '"' && c != '\\');
        assert(plain(rest)) by {
            assert(forall|j: int| 0 <= j < rest.len() ==> rest[j] == #[trigger] k[j + 1]);
        }
        lemma_parse_str_body_plain(s, i + 1, rest);
        assert(seq![c] + rest =~= k);
    }
}

proof fn lemma_hex_digit_val(n: int)
    requires
        0 <= n < 16,
    ensures
        hex_val(hex_digit(n)) == n,
{
}

proof fn lemma_low_char_cast(c: char)
    requires
        (c as u32) < 32,
    ensures
        ((((c as u32) as u8) as char) == c),
{
    broadcast use vstd::utf8::char_u32_cast;

}

proof fn lemma_parse_str_body_esc(s: Seq<char>, i: int, d: Seq<char>)
    requires
        matches_at(s, i, esc_str(d) + seq!['"']),
    ensures
        parse_str_body(s, i) == Some((d, i + esc_str(d).len() + 1)),
    decreases d.len(),
{
    if d.len() == 0 {
        lemma_matches_index(s, i, esc_str(d) + seq!['"']);
        assert((esc_str(d) + seq!['"'])[0] == '"');
        assert(s[i] == '"');
        assert(d =~= Seq::<char>::empty());
    } else {
        let c = d[0];
        let ec = esc_char(c);
        let rest = d.drop_first();
        let erest = esc_str(rest);
        assert(esc_str(d) == ec + erest);
        assert(esc_str(d) + seq!['"'] == ec + (erest + seq!['"'])) by {
            assert(esc_str(d) + seq!['"'] =~= ec + (erest + seq!['"']));
        }
        lemma_matches_split(s, i, ec, erest + seq!['"']);
        lemma_matches_index(s, i, ec);
        lemma_parse_str_body_esc(s, i + ec.len(), rest);
        if c == '"' {
            assert(s[i] == ec[0] && s[i + 1] == ec[1]);
            assert(s[i] == '\\' && s[i + 1] == '"');
            assert(seq!['"'] + rest =~= d);
        } else if c == '\\' {
            assert(s[i] == ec[0] && s[i + 1] == ec[1]);
            assert(s[i] == '\\' && s[i + 1] == '\\');
            assert(seq!['\\'] + rest =~= d);
        } else if (c as u32) < 32 {
            assert(s[i] == ec[0] && s[i + 1] == ec[1] && s[i + 2] == ec[2] && s[i + 3] == ec[3]
                && s[i + 4] == ec[4] && s[i + 5] == ec[5]);
            let hi = c as u32 as int / 16;
            let lo = c as u32 as int % 16;
            assert(0 <= hi < 16 && 0 <= lo < 16);
            assert(s[i + 4] == hex_digit(hi) && s[i + 5] == hex_digit(lo));
            lemma_hex_digit_val(hi);
            lemma_hex_digit_val(lo);
            assert(hex_val(s[i + 2]) == 0 && hex_val(s[i + 3]) == 0);
            let code = hex_val(s[i + 2]) * 4096 + hex_val(s[i + 3]) * 256 + hex_val(s[i + 4]) * 16
                + hex_val(s[i + 5]);
            assert(code == c as u32) by {
                vstd::arithmetic::div_mod::lemma_fundamental_div_mod(c as u32 as int, 16);
            }
            lemma_low_char_cast(c);
            assert(((code as u8) as char) == c);
            assert(seq![c] + rest =~= d);
        } else {
            assert(s[i] == ec[0] && ec[0] == c);
            assert(seq![c] + rest =~= d);
        }
    }
}

proof fn lemma_dec_rec_digits(n: nat)
    ensures
        forall|j: int| 0 <= j < dec_rec(n).len() ==> is_digit(dec_rec(n)[j]),
        digits_val(dec_rec(n)) == n,
        n > 0 ==> dec_rec(n).len() >= 1,
    decreases n,
{
    if n > 0 {
        lemma_dec_rec_digits(n / 10);
        let prefix = dec_rec(n / 10);
        let c = ((48 + n % 10) as u8) as char;
        assert(c as u32 == 48 + n % 10);
        assert(is_digit(c));
        assert(prefix.push(c).drop_last() =~= prefix);
        assert(prefix.push(c).last() == c);
        assert(digits_val(dec_rec(n)) == digits_val(prefix) * 10 + (c as u32 - 48) as nat);
        assert((n / 10) * 10 + n % 10 == n) by {
            vstd::arithmetic::div_mod::lemma_fundamental_div_mod(n as int, 10);
        }
        assert(forall|j: int|
            0 <= j < prefix.len() ==> dec_rec(n)[j] == prefix[j] && is_digit(prefix[j]));
    }
}

proof fn lemma_dec_digits(n: nat)
    ensures
        dec(n).len() >= 1,
        forall|j: int| 0 <= j < dec(n).len() ==> is_digit(dec(n)[j]),
        digits_val(dec(n)) == n,
{
    if n == 0 {
        let z = seq!['0'];
        assert(dec(0) == z);
        assert(z.drop_last() =~= Seq::<char>::empty());
        assert(z.last() == '0');
        assert(digits_val(Seq::<char>::empty()) == 0);
        assert(digits_val(z) == digits_val(z.drop_last()) * 10 + (z.last() as u32 - 48) as nat);
        assert(digits_val(z) == 0);
    } else {
        lemma_dec_rec_digits(n);
    }
}

proof fn lemma_digit_run_end_is(s: Seq<char>, i: int, j: int)
    requires
        0 <= i <= j <= s.len(),
        forall|m: int| i <= m < j ==> is_digit(s[m]),
        j == s.len() || !is_digit(s[j]),
    ensures
        digit_run_end(s, i) == j,
    decreases j - i,
{
    if i < j {
        lemma_digit_run_end_is(s, i + 1, j);
    }
}

proof fn lemma_parse_u32_at(s: Seq<char>, i: int, n: u32)
    requires
        matches_at(s, i, dec(n as nat)),
        i + dec(n as nat).len() == s.len() || !is_digit(s[i + dec(n as nat).len()]),
    ensures
        parse_u32(s, i) == Some((n, i + dec(n as nat).len())),
{
    let f = dec(n as nat);
    lemma_dec_digits(n as nat);
    assert(forall|m: int| i <= m < i + f.len() ==> s[m] == f[m - i] && is_digit(f[m - i]));
    lemma_digit_run_end_is(s, i, i + f.len());
    assert(s.subrange(i, i + f.len()) == f);
    assert(digits_val(s.subrange(i, i + f.len())) == n);
}

proof fn lemma_parse_string_at(s: Seq<char>, i: int, d: Seq<char>)
    requires
        matches_at(s, i, quoted_esc(d)),
    ensures
        parse_string(s, i) == Some((d, i + esc_str(d).len() + 2)),
{
    assert(s[i] == quoted_esc(d)[0]);
    assert(s[i] == '"');
    lemma_skip_ws_noop(s, i);
    assert(matches_at(s, i + 1, esc_str(d) + seq!['"'])) by {
        assert(s.subrange(i + 1, i + 1 + esc_str(d).len() + 1) =~= esc_str(d) + seq!['"']) by {
            assert(forall|m: int|
                0 <= m < esc_str(d).len() + 1 ==> (esc_str(d) + seq!['"'])[m] == quoted_esc(d)[m
                    + 1]);
        }
    }
    lemma_parse_str_body_esc(s, i + 1, d);
}

proof fn lemma_parse_key_at(s: Seq<char>, i: int, key: Seq<char>)
    requires
        plain(key),
        matches_at(s, i, quoted(key) + seq![':']),
    ensures
        parse_key(s, i, key) == Some(i + key.len() + 3),
{
    let q = quoted(key) + seq![':'];
    assert(s[i] == q[0] && s[i] == '"');
    lemma_skip_ws_noop(s, i);
    assert(matches_at(s, i + 1, key + seq!['"'])) by {
        assert(s.subrange(i + 1, i + 1 + key.len() + 1) =~= key + seq!['"']) by {
            assert(forall|m: int| 0 <= m < key.len() + 1 ==> (key + seq!['"'])[m] == q[m + 1]);
        }
    }
    lemma_parse_str_body_plain(s, i + 1, key);
    let j = i + key.len() + 2;
    assert(s[j] == q[key.len() as int + 2] && s[j] == ':');
    lemma_skip_ws_noop(s, j);
}

proof fn lemma_parse_bool_at(s: Seq<char>, i: int, b: bool)
    requires
        matches_at(s, i, ser_bool(b)),
    ensures
        parse_bool(s, i) == Some((b, i + ser_bool(b).len())),
{
    let f = ser_bool(b);
    assert(forall|m: int| 0 <= m < f.len() ==> s[i + m] == f[m]);
    lemma_skip_ws_noop(s, i);
}

proof fn lemma_parse_priority_at(s: Seq<char>, i: int, p: Priority)
    requires
        matches_at(s, i, quoted(pri_tag(p))),
    ensures
        parse_priority(s, i) == Some((p, i + pri_tag(p).len() + 2)),
{
    let k = pri_tag(p);
    assert(plain(k)) by {
        match p {
            Priority::High => assert(plain(seq!['H', 'i', 'g', 'h'])),
            Priority::Medium => assert(plain(seq!['M', 'e', 'd', 'i', 'u', 'm'])),
            Priority::Low => assert(plain(seq!['L', 'o', 'w'])),
        }
    }
    assert(quoted(k) == seq!['"'] + (k + seq!['"'])) by {
        assert(quoted(k) =~= seq!['"'] + (k + seq!['"']));
    }
    lemma_matches_split(s, i, seq!['"'], k + seq!['"']);
    lemma_matches_index(s, i, seq!['"']);
    assert(seq!['"'][0] == '"');
    assert(s[i] == '"');
    lemma_skip_ws_noop(s, i);
    lemma_parse_str_body_plain(s, i + 1, k);
    assert(priority_of_tag(k) == Some(p));
}

proof fn lemma_parse_comma_at(s: Seq<char>, i: int)
    requires
        0 <= i < s.len(),
        s[i] == ',',
    ensures
        parse_comma(s, i) == Some(i + 1),
{
    lemma_skip_ws_noop(s, i);
}


proof fn lemma_matches_join(s: Seq<char>, i: int, a: Seq<char>, b: Seq<char>)
    requires
        matches_at(s, i, a),
        matches_at(s, i + a.len(), b),
    ensures
        matches_at(s, i, a + b),
{
    lemma_matches_index(s, i, a);
    lemma_matches_index(s, i + a.len(), b);
    let ab = a + b;
    assert forall|m: int| 0 <= m < ab.len() implies s.subrange(i, i + ab.len())[m] == ab[m] by {
        assert(s.subrange(i, i + ab.len())[m] == s[i + m]);
        if m < a.len() {
            assert(ab[m] == a[m]);
        } else {
            assert(ab[m] == b[m - a.len()]);
            assert(s[i + a.len() + (m - a.len())] == b[m - a.len()]);
        }
    }
    assert(s.subrange(i, i + ab.len()) =~= ab);
}


proof fn lemma_char_at(s: Seq<char>, i: int, c: char)
    requires
        matches_at(s, i, seq![c]),
    ensures
        0 <= i < s.len(),
        s[i] == c,
{
    lemma_matches_index(s, i, seq![c]);
    assert(seq![c][0] == c);
}

proof fn lemma_ser_task_first(t: TaskV)
    ensures
        ser_task(t).len() >= 2,
        ser_task(t)[0] == '{',
{
    lemma_matches_index(ser_task(t), 0, ser_task(t));
    assert(ser_task(t).subrange(0, ser_task(t).len() as int) =~= ser_task(t));
}

#[verifier::rlimit(100)]
proof fn lemma_parse_task_at(s: Seq<char>, i: int, t: TaskV)
    requires
        matches_at(s, i, ser_task(t)),
    ensures
        parse_task(s, i) == Some((t, i + ser_task(t).len())),
{
    let f_dec = dec(t.id as nat);
    let f_desc = quoted_esc(t.description);
    let f_bool = ser_bool(t.completed);
    let f_pri = quoted(pri_tag(t.priority));
    let f_ct = quoted_esc(t.creation_time);
    let p1 = seq!['{'];
    let p2 = p1 + quoted(key_id());
    let p3 = p2 + seq![':'];
    let p4 = p3 + f_dec;
    let p5 = p4 + seq![','];
    let p6 = p5 + quoted(key_description());
    let p7 = p6 + seq![':'];
    let p8 = p7 + f_desc;
    let p9 = p8 + seq![','];
    let p10 = p9 + quoted(key_completed());
    let p11 = p10 + seq![':'];
    let p12 = p11 + f_bool;
    let p13 = p12 + seq![','];
    let p14 = p13 + quoted(key_priority());
    let p15 = p14 + seq![':'];
    let p16 = p15 + f_pri;
    let p17 = p16 + seq![','];
    let p18 = p17 + quoted(key_creation_time());
    let p19 = p18 + seq![':'];
    let p20 = p19 + f_ct;
    let p21 = p20 + seq!['}'];
    assert(ser_task(t) == p21);
    lemma_matches_split(s, i, p20, seq!['}']);
    lemma_matches_split(s, i, p19, f_ct);
    lemma_matches_split(s, i, p18, seq![':']);
    lemma_matches_split(s, i, p17, quoted(key_creation_time()));
    lemma_matches_split(s, i, p16, seq![',']);
    lemma_matches_split(s, i, p15, f_pri);
    lemma_matches_split(s, i, p14, seq![':']);
    lemma_matches_split(s, i, p13, quoted(key_priority()));
    lemma_matches_split(s, i, p12, seq![',']);
    lemma_matches_split(s, i, p11, f_bool);
    lemma_matches_split(s, i, p10, seq![':']);
    lemma_matches_split(s, i, p9, quoted(key_completed()));
    lemma_matches_split(s, i, p8, seq![',']);
    lemma_matches_split(s, i, p7, f_desc);
    lemma_matches_split(s, i, p6, seq![':']);
    lemma_matches_split(s, i, p5, quoted(key_description()));
    lemma_matches_split(s, i, p4, seq![',']);
    lemma_matches_split(s, i, p3, f_dec);
    lemma_matches_split(s, i, p2, seq![':']);
    lemma_matches_split(s, i, p1, quoted(key_id()));
    lemma_matches_index(s, i, p1);
    assert(p1[0] == '{');
    assert(s[i] == '{');
    lemma_skip_ws_noop(s, i);
    // the id field
    lemma_matches_join(s, i + 1, quoted(key_id()), seq![':']);
    assert(plain(key_id()));
    lemma_parse_key_at(s, i + 1, key_id());
    let a = i + 1 + key_id().len() + 3;
    assert(a == i + p3.len());
    lemma_dec_digits(t.id as nat);
    lemma_matches_index(s, i + p3.len(), f_dec);
    assert(is_digit(f_dec[0]) && !is_ws(f_dec[0])) by {
        assert(is_digit(f_dec[0]));
        assert(48 <= f_dec[0] as u32 <= 57);
    }
    lemma_skip_ws_noop(s, a);
    lemma_char_at(s, i + p4.len(), ',');
    assert(s[i + p4.len()] == ',');
    assert(!is_digit(',')) by {
        assert(',' as u32 == 44);
    }
    lemma_parse_u32_at(s, a, t.id);
    let b = a + f_dec.len();
    assert(b == i + p4.len());
    lemma_parse_comma_at(s, b);
    let c = b + 1;
    assert(c == i + p5.len());
    // the description field
    lemma_matches_join(s, c, quoted(key_description()), seq![':']);
    assert(plain(key_description()));
    lemma_parse_key_at(s, c, key_description());
    let d0 = c + key_description().len() + 3;
    assert(d0 == i + p7.len());
    lemma_parse_string_at(s, d0, t.description);
    let e = d0 + esc_str(t.description).len() + 2;
    assert(e == i + p8.len());
    lemma_char_at(s, i + p8.len(), ',');
    lemma_parse_comma_at(s, e);
    let f = e + 1;
    assert(f == i + p9.len());
    // the completed field
    lemma_matches_join(s, f, quoted(key_completed()), seq![':']);
    assert(plain(key_completed()));
    lemma_parse_key_at(s, f, key_completed());
    let g = f + key_completed().len() + 3;
    assert(g == i + p11.len());
    lemma_parse_bool_at(s, g, t.completed);
    let h = g + f_bool.len();
    assert(h == i + p12.len());
    lemma_char_at(s, i + p12.len(), ',');
    lemma_parse_comma_at(s, h);
    let k0 = h + 1;
    assert(k0 == i + p13.len());
    // the priority field
    lemma_matches_join(s, k0, quoted(key_priority()), seq![':']);
    assert(plain(key_priority()));
    lemma_parse_key_at(s, k0, key_priority());
    let l = k0 + key_priority().len() + 3;
    assert(l == i + p15.len());
    lemma_parse_priority_at(s, l, t.priority);
    let m = l + pri_tag(t.priority).len() + 2;
    assert(m == i + p16.len());
    lemma_char_at(s, i + p16.len(), ',');
    lemma_parse_comma_at(s, m);
    let n0 = m + 1;
    assert(n0 == i + p17.len());
    // the creation_time field
    lemma_matches_join(s, n0, quoted(key_creation_time()), seq![':']);
    assert(plain(key_creation_time()));
    lemma_parse_key_at(s, n0, key_creation_time());
    let o = n0 + key_creation_time().len() + 3;
    assert(o == i + p19.len());
    lemma_parse_string_at(s, o, t.creation_time);
    let q = o + esc_str(t.creation_time).len() + 2;
    assert(q == i + p20.len());
    lemma_char_at(s, i + p20.len(), '}');
    assert(s[q] == '}');
    lemma_skip_ws_noop(s, q);
    assert(parse_task(s, i) == Some(
        (
            TaskV {
                id: t.id,
                description: t.description,
                completed: t.completed,
                priority: t.priority,
                creation_time: t.creation_time,
            },
            q + 1,
        ),
    ));
    assert(TaskV {
        id: t.id,
        description: t.description,
        completed: t.completed,
        priority: t.priority,
        creation_time: t.creation_time,
    } =~= t);
}

#[verifier::rlimit(100)]
proof fn lemma_parse_items_at(s: Seq<char>, i: int, ts: Seq<TaskV>)
    requires
        ts.len() >= 1,
        matches_at(s, i, ser_items(ts) + seq![']']),
    ensures
        parse_items(s, i) == Some((ts, i + ser_items(ts).len() + 1)),
    decreases ts.len(),
{
    lemma_ser_task_first(ts[0]);
    if ts.len() == 1 {
        assert(ser_items(ts) == ser_task(ts[0]));
        lemma_matches_split(s, i, ser_task(ts[0]), seq![']']);
        lemma_parse_task_at(s, i, ts[0]);
        let j = i + ser_task(ts[0]).len();
        lemma_char_at(s, j, ']');
        assert(s[j] == ']');
        lemma_skip_ws_noop(s, j);
        assert(seq![ts[0]] =~= ts);
    } else {
        let rest = ts.drop_first();
        assert(ser_items(ts) == ser_task(ts[0]) + seq![','] + ser_items(rest));
        assert(ser_items(ts) + seq![']'] == (ser_task(ts[0]) + seq![',']) + (ser_items(rest)
            + seq![']'])) by {
            assert(ser_items(ts) + seq![']'] =~= (ser_task(ts[0]) + seq![',']) + (ser_items(rest)
                + seq![']']));
        }
        lemma_matches_split(s, i, ser_task(ts[0]) + seq![','], ser_items(rest) + seq![']']);
        lemma_matches_split(s, i, ser_task(ts[0]), seq![',']);
        lemma_parse_task_at(s, i, ts[0]);
        let j = i + ser_task(ts[0]).len();
        lemma_char_at(s, j, ',');
        assert(s[j] == ',');
        lemma_skip_ws_noop(s, j);
        lemma_parse_items_at(s, j + 1, rest);
        assert(seq![ts[0]] + rest =~= ts);
    }
}

/// The round-trip law: the reader yields back exactly the collection the
/// writer was given, field for field and in the same order.
pub proof fn lemma_persist_restore_round_trip(ts: Seq<TaskV>)
    ensures
        parse_tasks(ser_tasks(ts)) == Some(ts),
{
    let s = ser_tasks(ts);
    assert(matches_at(s, 0, s)) by {
        assert(s.subrange(0, s.len() as int) =~= s);
    }
    if ts.len() == 0 {
        assert(ser_items(ts) == Seq::<char>::empty());
        assert(s =~= seq!['[', ']']);
        assert(s[0] == '[' && s[1] == ']' && s.len() == 2);
        lemma_skip_ws_noop(s, 0);
        lemma_skip_ws_noop(s, 1);
        assert(skip_ws(s, 2) == 2);
        assert(ts =~= Seq::<TaskV>::empty());
    } else {
        lemma_ser_task_first(ts[0]);
        lemma_matches_split(s, 0, seq!['['] + ser_items(ts), seq![']']);
        lemma_matches_split(s, 0, seq!['['], ser_items(ts));
        lemma_matches_index(s, 0, seq!['[']);
        assert(s[0] == '[');
        lemma_skip_ws_noop(s, 0);
        lemma_matches_index(s, 1, ser_items(ts));
        assert(ser_items(ts)[0] == ser_task(ts[0])[0]);
        assert(s[1] == '{');
        lemma_skip_ws_noop(s, 1);
        lemma_matches_join(s, 1, ser_items(ts), seq![']']);
        lemma_parse_items_at(s, 1, ts);
        assert(1 + ser_items(ts).len() + 1 == s.len());
        assert(skip_ws(s, s.len() as int) == s.len());
    }
}

} // verus!
