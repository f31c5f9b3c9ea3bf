use vstd::prelude::*;
use vstd::string::StrSliceExecFns;

use crate::note::Note;
use crate::note::NoteView;
use crate::note::views_of;

verus! {

// ---------------------------------------------------------------------------
// Characters
// ---------------------------------------------------------------------------
/// The four whitespace characters that the text form may carry between tokens.
pub open spec fn is_ws(c: char) -> bool {
    c == ' ' || c == '\n' || c == '\r' || c == '\t'
}

pub open spec fn is_digit(c: char) -> bool {
    '0' <= c && c <= '9'
}

pub open spec fn digit_val(c: char) -> int {
    c as int - '0' as int
}

/// The character for a decimal digit value.
pub open spec fn digit_char(d: int) -> char {
    ((48 + d) as u8) as char
}

/// The lower-case character for a hexadecimal digit value.
pub open spec fn hex_digit_char(d: int) -> char {
    if d < 10 {
        digit_char(d)
    } else {
        ((87 + d) as u8) as char
    }
}

pub open spec fn is_hex_digit(c: char) -> bool {
    is_digit(c) || ('a' <= c && c <= 'f') || ('A' <= c && c <= 'F')
}

pub open spec fn hex_val(c: char) -> int {
    if is_digit(c) {
        digit_val(c)
    } else if 'a' <= c && c <= 'f' {
        c as int - 'a' as int + 10
    } else {
        c as int - 'A' as int + 10
    }
}

// ---------------------------------------------------------------------------
// String escaping
// ---------------------------------------------------------------------------
/// How one character is written inside a quoted string: quote and backslash
/// get a backslash escape, the common control characters their short names,
/// the remaining control characters a four-digit hexadecimal escape, and
/// every other character stands as itself.
pub open spec fn escape_char(c: char) -> Seq<char> {
    if c == '"' {
        seq!['\\', '"']
    } else if c == '\\' {
        seq!['\\', '\\']
    } else if c == '\n' {
        seq!['\\', 'n']
    } else if c == '\r' {
        seq!['\\', 'r']
    } else if c == '\t' {
        seq!['\\', 't']
    } else if (c as int) < 32 {
        seq!['\\', 'u', '0', '0', hex_digit_char(c as int / 16), hex_digit_char(c as int % 16)]
    } else {
        seq![c]
    }
}

pub open spec fn escape_string(s: Seq<char>) -> Seq<char>
    decreases s.len(),
{
    if s.len() == 0 {
        Seq::empty()
    } else {
        escape_char(s[0]) + escape_string(s.skip(1))
    }
}

/// A string as it stands in the text form: quoted and escaped.
pub open spec fn quoted(s: Seq<char>) -> Seq<char> {
    seq!['"'] + escape_string(s) + seq!['"']
}

// ---------------------------------------------------------------------------
// Numbers
// ---------------------------------------------------------------------------
/// The decimal digits of a non-negative integer, most significant first.
pub open spec fn dec_digits(n: int) -> Seq<char>
    decreases n,
{
    if n < 10 {
        seq![digit_char(n)]
    } else {
        dec_digits(n / 10).push(digit_char(n % 10))
    }
}

/// The decimal text of an integer, with a leading minus sign when negative.
pub open spec fn int_text(n: int) -> Seq<char> {
    if n < 0 {
        seq!['-'] + dec_digits(-n)
    } else {
        dec_digits(n)
    }
}

/// The value of a digit sequence, most significant first.
pub open spec fn digits_val(ds: Seq<char>) -> int
    decreases ds.len(),
{
    if ds.len() == 0 {
        0
    } else {
        digits_val(ds.drop_last()) * 10 + digit_val(ds.last())
    }
}

pub open spec fn pow10(k: nat) -> int
    decreases k,
{
    if k == 0 {
        1
    } else {
        10 * pow10((k - 1) as nat)
    }
}

pub proof fn lemma_pow10_pos(k: nat)
    ensures
        pow10(k) >= 1,
    decreases k,
{
    if k > 0 {
        lemma_pow10_pos((k - 1) as nat);
    }
}

pub proof fn lemma_pow10_mono(a: nat, b: nat)
    requires
        a <= b,
    ensures
        pow10(a) <= pow10(b),
    decreases b,
{
    if a < b {
        lemma_pow10_mono(a, (b - 1) as nat);
        lemma_pow10_pos((b - 1) as nat);
    }
}

// ---------------------------------------------------------------------------
// The serialized collection
// ---------------------------------------------------------------------------
/// The text of one note entry as the serializer writes it: a two-space
/// indented object with the four fields in fixed order.
pub open spec fn note_text(n: NoteView) -> Seq<char> {
    seq![' ', ' ', '{', '\n']
        + seq![' ', ' ', ' ', ' ', '"', 'i', 'd', '"', ':', ' '] + quoted(n.id) + seq![',', '\n']
        + seq![' ', ' ', ' ', ' ', '"', 't', 'i', 't', 'l', 'e', '"', ':', ' '] + quoted(n.title)
        + seq![',', '\n'] + seq![' ', ' ', ' ', ' ', '"', 'c', 'o', 'n', 't', 'e', 'n', 't', '"', ':', ' ']
        + quoted(n.content) + seq![',', '\n']
        + seq![' ', ' ', ' ', ' ', '"', 't', 'i', 'm', 'e', 's', 't', 'a', 'm', 'p', '"', ':', ' ']
        + int_text(n.timestamp) + seq!['\n', ' ', ' ', '}']
}

/// The entries joined by a comma and a line break.
pub open spec fn notes_body(ns: Seq<NoteView>) -> Seq<char>
    decreases ns.len(),
{
    if ns.len() == 0 {
        Seq::empty()
    } else if ns.len() == 1 {
        note_text(ns[0])
    } else {
        note_text(ns[0]) + seq![',', '\n'] + notes_body(ns.skip(1))
    }
}

/// The full text of a collection: the pretty-printed array of its entries.
pub open spec fn collection_text(ns: Seq<NoteView>) -> Seq<char> {
    if ns.len() == 0 {
        seq!['[', ']']
    } else {
        seq!['[', '\n'] + notes_body(ns) + seq!['\n', ']']
    }
}

// ---------------------------------------------------------------------------
// The parser, as a mathematical function on character sequences
// ---------------------------------------------------------------------------
pub open spec fn skip_ws(s: Seq<char>) -> Seq<char>
    decreases s.len(),
{
    if s.len() > 0 && is_ws(s[0]) {
        skip_ws(s.skip(1))
    } else {
        s
    }
}

/// The character that a short backslash escape stands for.
pub open spec fn unescape_simple(e: char) -> Option<char> {
    if e == '"' {
        Some('"')
    } else if e == '\\' {
        Some('\\')
    } else if e == '/' {
        Some('/')
    } else if e == 'n' {
        Some('\n')
    } else if e == 'r' {
        Some('\r')
    } else if e == 't' {
        Some('\t')
    } else if e == 'b' {
        Some('\u{8}')
    } else if e == 'f' {
        Some('\u{c}')
    } else {
        None
    }
}

/// Parse the body of a quoted string, starting after the opening quote;
/// on success the decoded text and the rest after the closing quote.
/// Hexadecimal escapes are accepted for the control range, the only range
/// the writer ever needs them for; raw control characters are refused.
pub open spec fn parse_string_body(s: Seq<char>) -> Option<(Seq<char>, Seq<char>)>
    decreases s.len(),
{
    if s.len() == 0 {
        None
    } else if s[0] == '"' {
        Some((Seq::empty(), s.skip(1)))
    } else if s[0] == '\\' {
        if s.len() >= 2 && s[1] == 'u' {
            if s.len() >= 6 && is_hex_digit(s[2]) && is_hex_digit(s[3]) && is_hex_digit(s[4])
                && is_hex_digit(s[5]) {
                let v = ((hex_val(s[2]) * 16 + hex_val(s[3])) * 16 + hex_val(s[4])) * 16 + hex_val(
                    s[5],
                );
                if v < 32 {
                    match parse_string_body(s.skip(6)) {
                        Some((t, r)) => Some((seq![(v as u8) as char] + t, r)),
                        None => None,
                    }
                } else {
                    None
                }
            } else {
                None
            }
        } else if s.len() >= 2 {
            match unescape_simple(s[1]) {
                Some(c) => match parse_string_body(s.skip(2)) {
                    Some((t, r)) => Some((seq![c] + t, r)),
                    None => None,
                },
                None => None,
            }
        } else {
            None
        }
    } else if (s[0] as int) < 32 {
        None
    } else {
        match parse_string_body(s.skip(1)) {
            Some((t, r)) => Some((seq![s[0]] + t, r)),
            None => None,
        }
    }
}

/// The length of the run of decimal digits at the head of the input.
pub open spec fn digit_run_len(s: Seq<char>) -> int
    decreases s.len(),
{
    if s.len() > 0 && is_digit(s[0]) {
        1 + digit_run_len(s.skip(1))
    } else {
        0
    }
}

/// Parse an unsigned decimal integer: a non-empty digit run without a
/// leading zero (except the single digit zero itself) and short enough
/// that its value can still lie in machine range.
pub open spec fn parse_nat(s: Seq<char>) -> Option<(int, Seq<char>)> {
    let k = digit_run_len(s);
    if k == 0 {
        None
    } else if k > 1 && s[0] == '0' {
        None
    } else if k > 19 {
        None
    } else {
        Some((digits_val(s.take(k)), s.skip(k)))
    }
}

/// Parse a decimal integer with optional minus sign, refusing values
/// outside the signed 64-bit range.
pub open spec fn parse_int(s: Seq<char>) -> Option<(int, Seq<char>)> {
    if s.len() > 0 && s[0] == '-' {
        match parse_nat(s.skip(1)) {
            Some((v, r)) => if -v >= i64::MIN as int {
                Some((-v, r))
            } else {
                None
            },
            None => None,
        }
    } else {
        match parse_nat(s) {
            Some((v, r)) => if v <= i64::MAX as int {
                Some((v, r))
            } else {
                None
            },
            None => None,
        }
    }
}

/// Skip whitespace, then require one fixed character.
pub open spec fn expect(s: Seq<char>, c: char) -> Option<Seq<char>> {
    let t = skip_ws(s);
    if t.len() > 0 && t[0] == c {
        Some(t.skip(1))
    } else {
        None
    }
}

/// Skip whitespace, then parse one quoted string.
pub open spec fn parse_quoted(s: Seq<char>) -> Option<(Seq<char>, Seq<char>)> {
    let t = skip_ws(s);
    if t.len() > 0 && t[0] == '"' {
        parse_string_body(t.skip(1))
    } else {
        None
    }
}

/// Parse a field whose value is a string: the named key, a colon, the value.
pub open spec fn parse_field_string(s: Seq<char>, name: Seq<char>) -> Option<
    (Seq<char>, Seq<char>),
> {
    match parse_quoted(s) {
        Some((k, r)) => if k == name {
            match expect(r, ':') {
                Some(r2) => parse_quoted(r2),
                None => None,
            }
        } else {
            None
        },
        None => None,
    }
}

/// Parse a field whose value is an integer: the named key, a colon, the value.
pub open spec fn parse_field_int(s: Seq<char>, name: Seq<char>) -> Option<(int, Seq<char>)> {
    match parse_quoted(s) {
        Some((k, r)) => if k == name {
            match expect(r, ':') {
                Some(r2) => parse_int(skip_ws(r2)),
                None => None,
            }
        } else {
            None
        },
        None => None,
    }
}

/// Parse one note object: the four fields in fixed order.
pub open spec fn parse_note(s: Seq<char>) -> Option<(NoteView, Seq<char>)> {
    match expect(s, '{') {
        Some(r0) => match parse_field_string(r0, seq!['i', 'd']) {
            Some((id, r1)) => match expect(r1, ',') {
                Some(r1b) => match parse_field_string(r1b, seq!['t', 'i', 't', 'l', 'e']) {
                    Some((title, r2)) => match expect(r2, ',') {
                        Some(r2b) => match parse_field_string(
                            r2b,
                            seq!['c', 'o', 'n', 't', 'e', 'n', 't'],
                        ) {
                            Some((content, r3)) => match expect(r3, ',') {
                                Some(r3b) => match parse_field_int(
                                    r3b,
                                    seq!['t', 'i', 'm', 'e', 's', 't', 'a', 'm', 'p'],
                                ) {
                                    Some((ts, r4)) => match expect(r4, '}') {
                                        Some(r5) => Some(
                                            (
                                                NoteView {
                                                    id,
                                                    title,
                                                    content,
                                                    timestamp: ts,
                                                },
                                                r5,
                                            ),
                                        ),
                                        None => None,
                                    },
                                    None => None,
                                },
                                None => None,
                            },
                            None => None,
                        },
                        None => None,
                    },
                    None => None,
                },
                None => None,
            },
            None => None,
        },
        None => None,
    }
}

/// Parse one or more note objects separated by commas, up to and including
/// the closing bracket of the array.
pub open spec fn parse_items(s: Seq<char>) -> Option<(Seq<NoteView>, Seq<char>)>
    decreases s.len(),
{
    match parse_note(s) {
        Some((n, r)) => {
            let t = skip_ws(r);
            if t.len() > 0 && t[0] == ',' {
                if t.skip(1).len() < s.len() {
                    match parse_items(t.skip(1)) {
                        Some((ns, r2)) => Some((seq![n] + ns, r2)),
                        None => None,
                    }
                } else {
                    None
                }
            } else if t.len() > 0 && t[0] == ']' {
                Some((seq![n], t.skip(1)))
            } else {
                None
            }
        },
        None => None,
    }
}

/// Parse a whole collection: an array of note objects followed by nothing
/// but whitespace. This is the meaning of the persisted file.
///
/// The accepted grammar is exactly what `collection_text` writes, loosened
/// by arbitrary whitespace between tokens — so both the pretty and the
/// compact layout load. It is deliberately no wider: the four fields stand
/// in their fixed order with no others beside them, strings carry the
/// short escapes and hexadecimal escapes for the control range only, and
/// integers lie in machine range with no leading zeros. Text this store
/// never writes — another field order, an unknown field, a hexadecimal
/// escape for a printable character — is refused.
pub open spec fn parse_collection(s: Seq<char>) -> Option<Seq<NoteView>> {
    match expect(s, '[') {
        Some(r) => {
            let t = skip_ws(r);
            if t.len() > 0 && t[0] == ']' {
                if skip_ws(t.skip(1)).len() == 0 {
                    Some(Seq::empty())
                } else {
                    None
                }
            } else {
                match parse_items(r) {
                    Some((ns, r2)) => if skip_ws(r2).len() == 0 {
                        Some(ns)
                    } else {
                        None
                    },
                    None => None,
                }
            }
        },
        None => None,
    }
}

// ---------------------------------------------------------------------------
// Lemmas on the spec functions
// ---------------------------------------------------------------------------
/// Escaping distributes over concatenation.
pub proof fn lemma_escape_append(a: Seq<char>, b: Seq<char>)
    ensures
        escape_string(a + b) == escape_string(a) + escape_string(b),
    decreases a.len(),
{
    if a.len() == 0 {
        assert(a + b =~= b);
        assert(escape_string(a) + escape_string(b) =~= escape_string(b));
    } else {
        assert((a + b).skip(1) =~= a.skip(1) + b);
        lemma_escape_append(a.skip(1), b);
        assert(escape_char(a[0]) + (escape_string(a.skip(1)) + escape_string(b)) =~= (escape_char(
            a[0],
        ) + escape_string(a.skip(1))) + escape_string(b));
    }
}

/// Escaping one more character extends the escaped prefix.
pub proof fn lemma_escape_take_step(s: Seq<char>, i: int)
    requires
        0 <= i < s.len(),
    ensures
        escape_string(s.take(i + 1)) == escape_string(s.take(i)) + escape_char(s[i]),
{
    assert(s.take(i + 1) =~= s.take(i) + seq![s[i]]);
    lemma_escape_append(s.take(i), seq![s[i]]);
    assert(seq![s[i]].skip(1) =~= Seq::<char>::empty());
    assert(escape_string(Seq::<char>::empty()) == Seq::<char>::empty());
    assert(escape_string(seq![s[i]]) == escape_char(s[i]) + escape_string(seq![s[i]].skip(1)));
    assert(escape_string(seq![s[i]]) =~= escape_char(s[i]));
}

/// Joining one more entry onto a non-empty body appends a separator and
/// the entry's text.
pub proof fn lemma_notes_body_push(vs: Seq<NoteView>, x: NoteView)
    requires
        vs.len() >= 1,
    ensures
        notes_body(vs.push(x)) == notes_body(vs) + seq![',', '\n'] + note_text(x),
    decreases vs.len(),
{
    if vs.len() == 1 {
        assert(vs.push(x).skip(1) =~= seq![x]);
        assert(vs.push(x)[0] == vs[0]);
        assert(notes_body(seq![x]) == note_text(x));
        assert(note_text(vs[0]) + seq![',', '\n'] + note_text(x) =~= note_text(vs[0]) + (seq![
            ',',
            '\n',
        ] + note_text(x)));
    } else {
        assert(vs.push(x).skip(1) =~= vs.skip(1).push(x));
        lemma_notes_body_push(vs.skip(1), x);
        assert(vs.push(x)[0] == vs[0]);
        assert(note_text(vs[0]) + seq![',', '\n'] + (notes_body(vs.skip(1)) + seq![',', '\n']
            + note_text(x)) =~= (note_text(vs[0]) + seq![',', '\n'] + notes_body(vs.skip(1)))
            + seq![',', '\n'] + note_text(x));
    }
}

// ---------------------------------------------------------------------------
// The executable serializer
// ---------------------------------------------------------------------------
/// Relies on String's FromIterator instance over characters: collecting
/// characters yields the string of exactly those characters in order.
#[verifier::external_body]
fn chars_to_string(v: Vec<char>) -> (r: String)
    ensures
        r@ == v@,
{
    String::from_iter(v)
}

/// Append the escape form of one character.
fn push_escaped_char(out: &mut Vec<char>, c: char)
    ensures
        final(out)@ == old(out)@ + escape_char(c),
{
    let ghost prev = out@;
    if c == '"' {
        out.push('\\');
        out.push('"');
    } else if c == '\\' {
        out.push('\\');
        out.push('\\');
    } else if c == '\n' {
        out.push('\\');
        out.push('n');
    } else if c == '\r' {
        out.push('\\');
        out.push('r');
    } else if c == '\t' {
        out.push('\\');
        out.push('t');
    } else if (c as u32) < 32 {
        let v = c as u32;
        let hi: u32 = v / 16;
        let lo: u32 = v % 16;
        out.push('\\');
        out.push('u');
        out.push('0');
        out.push('0');
        out.push((48 + hi as u8) as char);
        out.push(if lo < 10 {
            (48 + lo as u8) as char
        } else {
            (87 + lo as u8) as char
        });
        assert(hi < 10 && hex_digit_char(v as int / 16) == (48 + hi as u8) as char);
        assert(out@ =~= prev + escape_char(c));
    } else {
        out.push(c);
        assert(out@ =~= prev + escape_char(c));
    }
    assert(out@ =~= prev + escape_char(c));
}

/// Append the escaped form of a whole string.
fn push_escaped(out: &mut Vec<char>, s: &str)
    ensures
        final(out)@ == old(out)@ + escape_string(s@),
{
    let ghost prev = out@;
    let n = s.unicode_len();
    let mut i: usize = 0;
    while i < n
        invariant
            n == s@.len(),
            0 <= i <= n,
            out@ == prev + escape_string(s@.take(i as int)),
        decreases n - i,
    {
        let c = s.get_char(i);
        push_escaped_char(out, c);
        proof {
            lemma_escape_take_step(s@, i as int);
            assert((prev + escape_string(s@.take(i as int))) + escape_char(s@[i as int]) =~= prev
                + (escape_string(s@.take(i as int)) + escape_char(s@[i as int])));
        }
        i = i + 1;
    }
    assert(s@.take(n as int) =~= s@);
}

/// Append a string in its quoted, escaped text form.
fn push_quoted(out: &mut Vec<char>, s: &str)
    ensures
        final(out)@ == old(out)@ + quoted(s@),
{
    let ghost prev = out@;
    out.push('"');
    push_escaped(out, s);
    out.push('"');
    assert(out@ =~= prev + quoted(s@));
}

/// Append the decimal digits of a non-negative number.
fn push_dec(out: &mut Vec<char>, n: u64)
    ensures
        final(out)@ == old(out)@ + dec_digits(n as int),
    decreases n,
{
    if n < 10 {
        out.push((48 + n as u8) as char);
        assert(out@ =~= old(out)@ + dec_digits(n as int));
    } else {
        push_dec(out, n / 10);
        out.push((48 + (n % 10) as u8) as char);
        assert(out@ =~= old(out)@ + dec_digits(n as int));
    }
}

/// Append the decimal text of a signed number.
fn push_int(out: &mut Vec<char>, n: i64)
    ensures
        final(out)@ == old(out)@ + int_text(n as int),
{
    let ghost prev = out@;
    if n < 0 {
        out.push('-');
        let m: u64 = if n == i64::MIN {
            9223372036854775808
        } else {
            (-n) as u64
        };
        push_dec(out, m);
        assert(out@ =~= prev + int_text(n as int));
    } else {
        push_dec(out, n as u64);
    }
}

/// Append the text of one note entry.
fn push_note(out: &mut Vec<char>, n: &Note)
    ensures
        final(out)@ == old(out)@ + note_text(n@),
{
    let ghost prev = out@;
    let mut f1: Vec<char> = vec![' ', ' ', '{', '\n'];
    out.append(&mut f1);
    let mut f2: Vec<char> = vec![' ', ' ', ' ', ' ', '"', 'i', 'd', '"', ':', ' '];
    out.append(&mut f2);
    push_quoted(out, n.id.as_str());
    let mut f3: Vec<char> = vec![',', '\n'];
    out.append(&mut f3);
    let mut f4: Vec<char> = vec![' ', ' ', ' ', ' ', '"', 't', 'i', 't', 'l', 'e', '"', ':', ' '];
    out.append(&mut f4);
    push_quoted(out, n.title.as_str());
    let mut f5: Vec<char> = vec![',', '\n'];
    out.append(&mut f5);
    let mut f6: Vec<char> = vec![
        ' ',
        ' ',
        ' ',
        ' ',
        '"',
        'c',
        'o',
        'n',
        't',
        'e',
        'n',
        't',
        '"',
        ':',
        ' ',
    ];
    out.append(&mut f6);
    push_quoted(out, n.content.as_str());
    let mut f7: Vec<char> = vec![',', '\n'];
    out.append(&mut f7);
    let mut f8: Vec<char> = vec![
        ' ',
        ' ',
        ' ',
        ' ',
        '"',
        't',
        'i',
        'm',
        'e',
        's',
        't',
        'a',
        'm',
        'p',
        '"',
        ':',
        ' ',
    ];
    out.append(&mut f8);
    push_int(out, n.timestamp);
    let mut f9: Vec<char> = vec!['\n', ' ', ' ', '}'];
    out.append(&mut f9);
    assert(out@ =~= prev + note_text(n@));
}

/// Write a whole collection in its persisted text form.
pub fn serialize_notes(notes: &Vec<Note>) -> (r: String)
    ensures
        r@ == collection_text(views_of(notes@)),
{
    let ghost vs = views_of(notes@);
    let mut out: Vec<char> = Vec::new();
    if notes.len() == 0 {
        out.push('[');
        out.push(']');
        assert(out@ =~= collection_text(vs));
    } else {
        out.push('[');
        out.push('\n');
        let mut i: usize = 0;
        while i < notes.len()
            invariant
                vs == views_of(notes@),
                vs.len() == notes@.len(),
                0 <= i <= notes@.len(),
                i == 0 ==> out@ == seq!['[', '\n'],
                i >= 1 ==> out@ == seq!['[', '\n'] + notes_body(vs.take(i as int)),
            decreases notes@.len() - i,
        {
            let ghost before = out@;
            if i > 0 {
                let mut sep: Vec<char> = vec![',', '\n'];
                out.append(&mut sep);
            }
            push_note(&mut out, &notes[i]);
            proof {
                assert(vs[i as int] == notes@[i as int]@);
                if i == 0 {
                    assert(vs.take(1) =~= seq![vs[0]]);
                    assert(notes_body(seq![vs[0]]) == note_text(vs[0]));
                    assert(out@ =~= seq!['[', '\n'] + notes_body(vs.take(1)));
                } else {
                    assert(vs.take(i + 1) =~= vs.take(i as int).push(vs[i as int]));
                    lemma_notes_body_push(vs.take(i as int), vs[i as int]);
                    assert(out@ =~= seq!['[', '\n'] + notes_body(vs.take(i + 1)));
                }
            }
            i = i + 1;
        }
        out.push('\n');
        out.push(']');
        proof {
            assert(vs.take(vs.len() as int) =~= vs);
            assert(out@ =~= collection_text(vs));
        }
    }
    chars_to_string(out)
}

// ---------------------------------------------------------------------------
// Round trip: the parser inverts the serializer
// ---------------------------------------------------------------------------
pub open spec fn ws_all(w: Seq<char>) -> bool {
    forall|i: int| 0 <= i < w.len() ==> is_ws(#[trigger] w[i])
}

/// A character's code point is never negative.
pub proof fn lemma_char_nonneg(c: char)
    ensures
        c as int >= 0,
{
}

/// Skipping whitespace passes over any all-whitespace prefix.
pub proof fn lemma_skip_ws_prefix(w: Seq<char>, x: Seq<char>)
    requires
        ws_all(w),
    ensures
        skip_ws(w + x) == skip_ws(x),
    decreases w.len(),
{
    if w.len() == 0 {
        assert(w + x =~= x);
    } else {
        assert((w + x)[0] == w[0] && is_ws(w[0]));
        assert((w + x).skip(1) =~= w.skip(1) + x);
        assert(ws_all(w.skip(1)));
        lemma_skip_ws_prefix(w.skip(1), x);
    }
}

/// A string of plain characters is its own escape form.
pub proof fn lemma_escape_plain(s: Seq<char>)
    requires
        forall|i: int| 0 <= i < s.len() ==> #[trigger] s[i] != '"' && s[i] != '\\' && (s[i] as int)
            >= 32,
    ensures
        escape_string(s) == s,
    decreases s.len(),
{
    if s.len() == 0 {
    } else {
        lemma_escape_plain(s.skip(1));
        assert(escape_char(s[0]) =~= seq![s[0]]);
        assert(seq![s[0]] + s.skip(1) =~= s);
    }
}

/// Parsing a string body from the escaped text recovers the unescaped
/// text and stops exactly at the closing quote.
pub proof fn lemma_parse_escaped(t: Seq<char>, rest: Seq<char>)
    ensures
        parse_string_body(escape_string(t) + seq!['"'] + rest) == Some::<(Seq<char>, Seq<char>)>(
            (t, rest),
        ),
    decreases t.len(),
{
    let s = escape_string(t) + seq!['"'] + rest;
    if t.len() == 0 {
        assert(escape_string(t) =~= Seq::<char>::empty());
        assert(s =~= seq!['"'] + rest);
        assert(s[0] == '"');
        assert(s.skip(1) =~= rest);
    } else {
        let c = t[0];
        let e = escape_char(c);
        lemma_parse_escaped(t.skip(1), rest);
        let inner = escape_string(t.skip(1)) + seq!['"'] + rest;
        assert(s =~= e + inner);
        if c == '"' || c == '\\' {
            assert(e =~= seq!['\\', if c == '"' {
                '"'
            } else {
                '\\'
            }]);
            assert(s[0] == '\\' && s[1] == e[1]);
            assert(s.len() >= 2);
            assert(s[1] != 'u');
            assert(unescape_simple(s[1]) == Some(c));
            assert(s.skip(2) =~= inner);
            assert(seq![c] + t.skip(1) =~= t);
        } else if c == '\n' || c == '\r' || c == '\t' {
            assert(s[0] == '\\' && s[1] == e[1]);
            assert(s[1] == 'n' || s[1] == 'r' || s[1] == 't');
            assert(s[1] != 'u');
            assert(unescape_simple(s[1]) == Some(c));
            assert(s.skip(2) =~= inner);
            assert(seq![c] + t.skip(1) =~= t);
        } else if (c as int) < 32 {
            let hi = c as int / 16;
            let lo = c as int % 16;
            assert(e =~= seq!['\\', 'u', '0', '0', hex_digit_char(hi), hex_digit_char(lo)]);
            assert(s[0] == '\\' && s[1] == 'u' && s[2] == '0' && s[3] == '0' && s[4]
                == hex_digit_char(hi) && s[5] == hex_digit_char(lo));
            assert(s.len() >= 6);
            assert(hex_val('0') == 0);
            lemma_char_nonneg(c);
            assert(0 <= hi < 2 && 0 <= lo < 16);
            assert(hex_digit_char(hi) == ((48 + hi) as u8) as char);
            assert(is_hex_digit(hex_digit_char(hi)) && hex_val(hex_digit_char(hi)) == hi);
            if lo < 10 {
                assert(is_hex_digit(hex_digit_char(lo)) && hex_val(hex_digit_char(lo)) == lo);
            } else {
                assert(hex_digit_char(lo) == ((87 + lo) as u8) as char);
                assert(is_hex_digit(hex_digit_char(lo)) && hex_val(hex_digit_char(lo)) == lo);
            }
            let v = ((hex_val(s[2]) * 16 + hex_val(s[3])) * 16 + hex_val(s[4])) * 16 + hex_val(
                s[5],
            );
            assert(v == hi * 16 + lo);
            assert(v == c as int);
            assert(v < 32);
            assert(s.skip(6) =~= inner);
            assert((v as u8) as char == c);
            assert(seq![c] + t.skip(1) =~= t);
        } else {
            assert(e =~= seq![c]);
            assert(s[0] == c);
            assert(s.skip(1) =~= inner);
            assert(seq![c] + t.skip(1) =~= t);
        }
    }
}

/// Every character the decimal writer emits is a digit, and only the
/// number zero starts with the zero digit.
pub proof fn lemma_dec_digits_shape(n: int)
    requires
        n >= 0,
    ensures
        dec_digits(n).len() >= 1,
        forall|i: int| 0 <= i < dec_digits(n).len() ==> is_digit(#[trigger] dec_digits(n)[i]),
        dec_digits(n)[0] == '0' <==> n == 0,
    decreases n,
{
    if n < 10 {
        assert(dec_digits(n) =~= seq![digit_char(n)]);
        assert(digit_char(n) as int == 48 + n);
        assert(is_digit(digit_char(n)));
        assert(digit_char(n) == '0' <==> n == 0);
    } else {
        lemma_dec_digits_shape(n / 10);
        let ds = dec_digits(n / 10);
        assert(dec_digits(n) =~= ds.push(digit_char(n % 10)));
        assert(digit_char(n % 10) as int == 48 + n % 10);
        assert(is_digit(digit_char(n % 10)));
        assert(dec_digits(n)[0] == ds[0]);
        assert(n / 10 > 0);
    }
}

/// The decimal writer's output is no longer than the power bound allows.
pub proof fn lemma_dec_digits_len(n: int, k: nat)
    requires
        0 <= n < pow10(k),
        k >= 1,
    ensures
        dec_digits(n).len() <= k,
    decreases n,
{
    if n < 10 {
    } else {
        assert(pow10(k) == 10 * pow10((k - 1) as nat));
        if n / 10 >= pow10((k - 1) as nat) {
            assert(n >= 10 * pow10((k - 1) as nat)) by (nonlinear_arith)
                requires
                    n / 10 >= pow10((k - 1) as nat),
                    n >= 0,
            ;
        }
        assert(k >= 2) by {
            if k == 1 {
                assert(pow10(1) == 10);
            }
        }
        lemma_dec_digits_len(n / 10, (k - 1) as nat);
    }
}

/// Reading back the decimal digits gives the number itself.
pub proof fn lemma_digits_val_dec(n: int)
    requires
        n >= 0,
    ensures
        digits_val(dec_digits(n)) == n,
    decreases n,
{
    if n < 10 {
        let ds = seq![digit_char(n)];
        assert(dec_digits(n) =~= ds);
        assert(ds.drop_last() =~= Seq::<char>::empty());
        assert(digits_val(Seq::<char>::empty()) == 0);
        assert(digits_val(ds) == digits_val(ds.drop_last()) * 10 + digit_val(ds.last()));
        assert(digits_val(ds) == digit_val(digit_char(n)));
        assert(digit_char(n) as int == 48 + n);
        assert('0' as int == 48);
    } else {
        lemma_digits_val_dec(n / 10);
        let ds = dec_digits(n / 10);
        let whole = ds.push(digit_char(n % 10));
        assert(dec_digits(n) =~= whole);
        assert(whole.drop_last() =~= ds);
        assert(whole.last() == digit_char(n % 10));
        assert(digit_val(digit_char(n % 10)) == n % 10);
        assert(digits_val(whole) == digits_val(ds) * 10 + n % 10);
    }
}

/// The digit run of a digit sequence followed by a non-digit is exactly
/// that sequence.
pub proof fn lemma_digit_run(ds: Seq<char>, rest: Seq<char>)
    requires
        forall|i: int| 0 <= i < ds.len() ==> is_digit(#[trigger] ds[i]),
        rest.len() == 0 || !is_digit(rest[0]),
    ensures
        digit_run_len(ds + rest) == ds.len(),
    decreases ds.len(),
{
    if ds.len() == 0 {
        assert(ds + rest =~= rest);
    } else {
        assert((ds + rest)[0] == ds[0]);
        assert((ds + rest).skip(1) =~= ds.skip(1) + rest);
        lemma_digit_run(ds.skip(1), rest);
    }
}

/// Parsing the decimal text of a machine-range integer, followed by
/// anything that is not a digit, gives back the integer.
pub proof fn lemma_parse_int_text(n: int, rest: Seq<char>)
    requires
        i64::MIN <= n <= i64::MAX,
        rest.len() == 0 || !is_digit(rest[0]),
    ensures
        parse_int(int_text(n) + rest) == Some::<(int, Seq<char>)>((n, rest)),
{
    let m = if n < 0 {
        -n
    } else {
        n
    };
    let ds = dec_digits(m);
    lemma_dec_digits_shape(m);
    reveal_with_fuel(pow10, 21);
    assert(pow10(19) == 10000000000000000000);
    lemma_dec_digits_len(m, 19);
    lemma_digits_val_dec(m);
    lemma_digit_run(ds, rest);
    assert((ds + rest).take(ds.len() as int) =~= ds);
    assert((ds + rest).skip(ds.len() as int) =~= rest);
    assert((ds + rest)[0] == ds[0]);
    assert(is_digit(ds[0]));
    assert(parse_nat(ds + rest) == Some::<(int, Seq<char>)>((m, rest)));
    if n < 0 {
        let s = int_text(n) + rest;
        assert(int_text(n) =~= seq!['-'] + ds);
        assert(s =~= seq!['-'] + (ds + rest));
        assert(s[0] == '-');
        assert(s.skip(1) =~= ds + rest);
        assert(!is_digit('-'));
    } else {
        assert(int_text(n) =~= ds);
        assert(ds[0] != '-') by {
            assert(is_digit(ds[0]));
            assert(!is_digit('-'));
        }
    }
}

/// One string field of the text form parses back to the written value.
proof fn lemma_field_string(name: Seq<char>, val: Seq<char>, w: Seq<char>, after: Seq<char>)
    requires
        ws_all(w),
        escape_string(name) == name,
    ensures
        parse_field_string(w + (seq!['"'] + name + seq!['"', ':', ' ']) + quoted(val) + after, name)
            == Some::<(Seq<char>, Seq<char>)>((val, after)),
{
    let s = w + (seq!['"'] + name + seq!['"', ':', ' ']) + quoted(val) + after;
    let tail0 = seq![':', ' '] + quoted(val) + after;
    let z = name + seq!['"'] + tail0;
    assert(s =~= w + (seq!['"'] + z));
    lemma_skip_ws_prefix(w, seq!['"'] + z);
    assert((seq!['"'] + z)[0] == '"');
    assert(skip_ws(seq!['"'] + z) == seq!['"'] + z);
    assert((seq!['"'] + z).skip(1) =~= z);
    assert(z =~= escape_string(name) + seq!['"'] + tail0);
    lemma_parse_escaped(name, tail0);
    assert(parse_quoted(s) == Some::<(Seq<char>, Seq<char>)>((name, tail0)));
    assert(tail0[0] == ':' && !is_ws(':'));
    assert(skip_ws(tail0) == tail0);
    let r1 = seq![' '] + quoted(val) + after;
    assert(tail0.skip(1) =~= r1);
    assert(expect(tail0, ':') == Some(r1));
    let x = seq!['"'] + (escape_string(val) + seq!['"'] + after);
    assert(r1 =~= seq![' '] + x);
    lemma_skip_ws_prefix(seq![' '], x);
    assert(x[0] == '"');
    assert(skip_ws(x) == x);
    assert(x.skip(1) =~= escape_string(val) + seq!['"'] + after);
    lemma_parse_escaped(val, after);
}

/// The integer field of the text form parses back to the written value.
proof fn lemma_field_int(name: Seq<char>, ts: int, w: Seq<char>, after: Seq<char>)
    requires
        ws_all(w),
        escape_string(name) == name,
        i64::MIN <= ts <= i64::MAX,
        after.len() == 0 || !is_digit(after[0]),
    ensures
        parse_field_int(w + (seq!['"'] + name + seq!['"', ':', ' ']) + int_text(ts) + after, name)
            == Some::<(int, Seq<char>)>((ts, after)),
{
    let s = w + (seq!['"'] + name + seq!['"', ':', ' ']) + int_text(ts) + after;
    let tail0 = seq![':', ' '] + int_text(ts) + after;
    let z = name + seq!['"'] + tail0;
    assert(s =~= w + (seq!['"'] + z));
    lemma_skip_ws_prefix(w, seq!['"'] + z);
    assert((seq!['"'] + z)[0] == '"');
    assert(skip_ws(seq!['"'] + z) == seq!['"'] + z);
    assert((seq!['"'] + z).skip(1) =~= z);
    assert(z =~= escape_string(name) + seq!['"'] + tail0);
    lemma_parse_escaped(name, tail0);
    assert(parse_quoted(s) == Some::<(Seq<char>, Seq<char>)>((name, tail0)));
    assert(tail0[0] == ':' && !is_ws(':'));
    assert(skip_ws(tail0) == tail0);
    let r1 = seq![' '] + (int_text(ts) + after);
    assert(tail0.skip(1) =~= r1);
    assert(expect(tail0, ':') == Some(r1));
    lemma_skip_ws_prefix(seq![' '], int_text(ts) + after);
    let m = if ts < 0 {
        -ts
    } else {
        ts
    };
    lemma_dec_digits_shape(m);
    assert((int_text(ts) + after)[0] == int_text(ts)[0]);
    if ts < 0 {
        assert(int_text(ts) =~= seq!['-'] + dec_digits(m));
        assert(int_text(ts)[0] == '-');
        assert(!is_ws('-'));
    } else {
        assert(int_text(ts)[0] == dec_digits(m)[0]);
        assert(is_digit(dec_digits(m)[0]));
        assert(!is_ws(dec_digits(m)[0]));
    }
    assert(skip_ws(int_text(ts) + after) == int_text(ts) + after);
    lemma_parse_int_text(ts, after);
}

/// The full text of one note parses back to that note, leaving exactly
/// what follows it, under any leading whitespace.
#[verifier::rlimit(100)]
#[verifier::spinoff_prover]
proof fn lemma_parse_note_text(n: NoteView, w: Seq<char>, rest: Seq<char>)
    requires
        crate::note::note_in_range(n),
        ws_all(w),
    ensures
        parse_note(w + note_text(n) + rest) == Some::<(NoteView, Seq<char>)>((n, rest)),
{
    let name_id = seq!['i', 'd'];
    let name_title = seq!['t', 'i', 't', 'l', 'e'];
    let name_content = seq!['c', 'o', 'n', 't', 'e', 'n', 't'];
    let name_ts = seq!['t', 'i', 'm', 'e', 's', 't', 'a', 'm', 'p'];
    lemma_escape_plain(name_id);
    lemma_escape_plain(name_title);
    lemma_escape_plain(name_content);
    lemma_escape_plain(name_ts);
    let s = w + note_text(n) + rest;
    let wf = seq!['\n', ' ', ' ', ' ', ' '];
    assert(ws_all(wf));
    let tail_ts = seq!['\n', ' ', ' ', '}'] + rest;
    let z4 = wf + (seq!['"'] + name_ts + seq!['"', ':', ' ']) + int_text(n.timestamp) + tail_ts;
    let a3 = seq![','] + z4;
    let z3 = wf + (seq!['"'] + name_content + seq!['"', ':', ' ']) + quoted(n.content) + a3;
    let a2 = seq![','] + z3;
    let z2 = wf + (seq!['"'] + name_title + seq!['"', ':', ' ']) + quoted(n.title) + a2;
    let a1 = seq![','] + z2;
    let z1 = wf + (seq!['"'] + name_id + seq!['"', ':', ' ']) + quoted(n.id) + a1;
    let w1 = w + seq![' ', ' '];
    assert(ws_all(w1)) by {
        assert(forall|i: int|
            0 <= i < w1.len() ==> (#[trigger] w1[i]) == if i < w.len() {
                w[i]
            } else {
                ' '
            });
    }
    assert(s =~= w1 + (seq!['{'] + z1));
    lemma_skip_ws_prefix(w1, seq!['{'] + z1);
    assert((seq!['{'] + z1)[0] == '{');
    assert(skip_ws(seq!['{'] + z1) == seq!['{'] + z1);
    assert((seq!['{'] + z1).skip(1) =~= z1);
    assert(expect(s, '{') == Some(z1));
    lemma_field_string(name_id, n.id, wf, a1);
    assert(a1[0] == ',' && !is_ws(','));
    assert(skip_ws(a1) == a1);
    assert(a1.skip(1) =~= z2);
    assert(expect(a1, ',') == Some(z2));
    lemma_field_string(name_title, n.title, wf, a2);
    assert(a2[0] == ',' && !is_ws(','));
    assert(skip_ws(a2) == a2);
    assert(a2.skip(1) =~= z3);
    assert(expect(a2, ',') == Some(z3));
    lemma_field_string(name_content, n.content, wf, a3);
    assert(a3[0] == ',' && !is_ws(','));
    assert(skip_ws(a3) == a3);
    assert(a3.skip(1) =~= z4);
    assert(expect(a3, ',') == Some(z4));
    assert(tail_ts.len() == 0 || !is_digit(tail_ts[0])) by {
        assert(tail_ts[0] == '\n');
    }
    lemma_field_int(name_ts, n.timestamp, wf, tail_ts);
    let w3 = seq!['\n', ' ', ' '];
    assert(tail_ts =~= w3 + (seq!['}'] + rest));
    lemma_skip_ws_prefix(w3, seq!['}'] + rest);
    assert((seq!['}'] + rest)[0] == '}');
    assert(skip_ws(seq!['}'] + rest) == seq!['}'] + rest);
    assert((seq!['}'] + rest).skip(1) =~= rest);
    assert(expect(tail_ts, '}') == Some(rest));
    assert(n == NoteView { id: n.id, title: n.title, content: n.content, timestamp: n.timestamp });
}

/// The joined entries of a non-empty collection parse back to the
/// collection, consuming the closing bracket.
proof fn lemma_parse_items_text(ns: Seq<NoteView>, w: Seq<char>, rest: Seq<char>)
    requires
        ns.len() >= 1,
        crate::note::all_in_range(ns),
        ws_all(w),
    ensures
        parse_items(w + notes_body(ns) + seq!['\n', ']'] + rest) == Some::<(Seq<NoteView>, Seq<
            char,
        >)>((ns, rest)),
    decreases ns.len(),
{
    let s = w + notes_body(ns) + seq!['\n', ']'] + rest;
    assert(crate::note::note_in_range(ns[0]));
    if ns.len() == 1 {
        let rest0 = seq!['\n', ']'] + rest;
        assert(notes_body(ns) == note_text(ns[0]));
        assert(s =~= w + note_text(ns[0]) + rest0);
        lemma_parse_note_text(ns[0], w, rest0);
        assert(rest0 =~= seq!['\n'] + (seq![']'] + rest));
        lemma_skip_ws_prefix(seq!['\n'], seq![']'] + rest);
        assert((seq![']'] + rest)[0] == ']');
        assert(skip_ws(seq![']'] + rest) == seq![']'] + rest);
        let t = skip_ws(rest0);
        assert(t == seq![']'] + rest);
        assert(t[0] == ']' && t[0] != ',');
        assert(t.skip(1) =~= rest);
        assert(seq![ns[0]] =~= ns);
    } else {
        let body2 = notes_body(ns.skip(1));
        let s2 = seq!['\n'] + body2 + seq!['\n', ']'] + rest;
        let rest0 = seq![','] + s2;
        assert(notes_body(ns) == note_text(ns[0]) + seq![',', '\n'] + body2);
        assert(s =~= w + note_text(ns[0]) + rest0);
        lemma_parse_note_text(ns[0], w, rest0);
        let t = skip_ws(rest0);
        assert(rest0[0] == ',' && !is_ws(','));
        assert(skip_ws(rest0) == rest0);
        assert(t[0] == ',');
        assert(t.skip(1) =~= s2);
        assert(s.len() == w.len() + note_text(ns[0]).len() + rest0.len());
        assert(s2.len() < s.len());
        assert(crate::note::all_in_range(ns.skip(1))) by {
            assert(forall|i: int|
                0 <= i < ns.skip(1).len() ==> (#[trigger] ns.skip(1)[i]) == ns[i + 1]);
        }
        lemma_parse_items_text(ns.skip(1), seq!['\n'], rest);
        assert(s2 =~= seq!['\n'] + body2 + seq!['\n', ']'] + rest);
        assert(seq![ns[0]] + ns.skip(1) =~= ns);
    }
}

/// Round trip: parsing the serialized text of any machine-representable
/// collection gives back exactly that collection.
#[verifier::rlimit(100)]
#[verifier::spinoff_prover]
pub proof fn lemma_round_trip(ns: Seq<NoteView>)
    requires
        crate::note::all_in_range(ns),
    ensures
        parse_collection(collection_text(ns)) == Some(ns),
{
    let s = collection_text(ns);
    if ns.len() == 0 {
        assert(s =~= seq!['[', ']']);
        assert(s[0] == '[' && !is_ws('['));
        assert(skip_ws(s) == s);
        assert(s.skip(1) =~= seq![']']);
        assert(expect(s, '[') == Some(seq![']']));
        let t = skip_ws(seq![']']);
        assert(seq![']'][0] == ']' && !is_ws(']'));
        assert(t == seq![']']);
        assert(t.skip(1) =~= Seq::<char>::empty());
        assert(skip_ws(Seq::<char>::empty()) == Seq::<char>::empty());
    } else {
        let body = notes_body(ns);
        let r = seq!['\n'] + body + seq!['\n', ']'];
        assert(s =~= seq!['['] + r);
        assert(s[0] == '[' && !is_ws('['));
        assert(skip_ws(s) == s) by {
            assert(s.len() > 0 && !is_ws(s[0]));
        }
        assert(s.skip(1) =~= r);
        assert(expect(s, '[') == Some(r));
        // the first character under the whitespace is the opening brace of
        // the first entry, so the empty-array branch is not taken
        assert(note_text(ns[0])[0] == ' ' && note_text(ns[0])[1] == ' ' && note_text(ns[0])[2]
            == '{');
        let z = note_text(ns[0]).skip(3) + if ns.len() == 1 {
            seq!['\n', ']']
        } else {
            seq![',', '\n'] + notes_body(ns.skip(1)) + seq!['\n', ']']
        };
        assert(r =~= seq!['\n', ' ', ' '] + (seq!['{'] + z)) by {
            if ns.len() == 1 {
                assert(body == note_text(ns[0]));
                assert(note_text(ns[0]) =~= seq![' ', ' ', '{'] + note_text(ns[0]).skip(3));
            } else {
                assert(body == note_text(ns[0]) + seq![',', '\n'] + notes_body(ns.skip(1)));
                assert(note_text(ns[0]) =~= seq![' ', ' ', '{'] + note_text(ns[0]).skip(3));
            }
        }
        lemma_skip_ws_prefix(seq!['\n', ' ', ' '], seq!['{'] + z);
        assert((seq!['{'] + z)[0] == '{');
        assert(skip_ws(seq!['{'] + z) == seq!['{'] + z);
        let t = skip_ws(r);
        assert(t[0] == '{' && t[0] != ']');
        lemma_parse_items_text(ns, seq!['\n'], Seq::<char>::empty());
        assert(r =~= seq!['\n'] + body + seq!['\n', ']'] + Seq::<char>::empty());
        assert(skip_ws(Seq::<char>::empty()) == Seq::<char>::empty());
    }
}

// ---------------------------------------------------------------------------
// The executable parser
// ---------------------------------------------------------------------------
fn str_to_chars(s: &str) -> (v: Vec<char>)
    ensures
        v@ == s@,
{
    let n = s.unicode_len();
    let mut v: Vec<char> = Vec::new();
    let mut i: usize = 0;
    while i < n
        invariant
            n == s@.len(),
            0 <= i <= n,
            v@ == s@.take(i as int),
        decreases n - i,
    {
        v.push(s.get_char(i));
        assert(v@ =~= s@.take(i + 1));
        i = i + 1;
    }
    assert(s@.take(n as int) =~= s@);
    v
}

/// The position after any whitespace from the given position on.
fn skip_ws_at(v: &Vec<char>, i: usize) -> (j: usize)
    requires
        i <= v@.len(),
    ensures
        i <= j <= v@.len(),
        v@.skip(j as int) == skip_ws(v@.skip(i as int)),
{
    let mut j: usize = i;
    while j < v.len() && (v[j] == ' ' || v[j] == '\n' || v[j] == '\r' || v[j] == '\t')
        invariant
            i <= j <= v@.len(),
            skip_ws(v@.skip(i as int)) == skip_ws(v@.skip(j as int)),
        decreases v@.len() - j,
    {
        proof {
            assert(v@.skip(j as int)[0] == v@[j as int]);
            assert(v@.skip(j as int).skip(1) =~= v@.skip(j + 1));
        }
        j = j + 1;
    }
    proof {
        if j < v@.len() {
            assert(v@.skip(j as int)[0] == v@[j as int]);
            assert(!is_ws(v@.skip(j as int)[0]));
        }
        assert(skip_ws(v@.skip(j as int)) == v@.skip(j as int));
    }
    j
}

/// Whether the current option-result of the partial string parse, together
/// with the accumulated prefix, still determines the original parse.
spec fn psb_extends(
    orig: Option<(Seq<char>, Seq<char>)>,
    acc: Seq<char>,
    cur: Option<(Seq<char>, Seq<char>)>,
) -> bool {
    match cur {
        Some((t, r)) => orig == Some::<(Seq<char>, Seq<char>)>((acc + t, r)),
        None => orig is None,
    }
}

fn char_is_control(c: char) -> (r: bool)
    ensures
        r == ((c as int) < 32),
{
    (c as u32) < 32
}

fn is_digit_at(c: char) -> (r: bool)
    ensures
        r == is_digit(c),
{
    let u = c as u32;
    48 <= u && u <= 57
}

fn digit_val_at(c: char) -> (d: u8)
    requires
        is_digit(c),
    ensures
        d as int == digit_val(c),
        d < 10,
{
    (c as u32 - 48) as u8
}

fn hex_val_at(c: char) -> (r: Option<u32>)
    ensures
        match r {
            Some(d) => is_hex_digit(c) && d as int == hex_val(c) && d < 16,
            None => !is_hex_digit(c),
        },
{
    let u = c as u32;
    if 48 <= u && u <= 57 {
        Some(u - 48)
    } else if 97 <= u && u <= 102 {
        Some(u - 97 + 10)
    } else if 65 <= u && u <= 70 {
        Some(u - 65 + 10)
    } else {
        None
    }
}

/// Parse a string body from the position after the opening quote; on
/// success the decoded characters and the position after the closing quote.
fn parse_string_body_at(v: &Vec<char>, i: usize) -> (r: Option<(Vec<char>, usize)>)
    requires
        i <= v@.len(),
    ensures
        match r {
            Some(p) => p.1 <= v@.len() && parse_string_body(v@.skip(i as int)) == Some(
                (p.0@, v@.skip(p.1 as int)),
            ),
            None => parse_string_body(v@.skip(i as int)) is None,
        },
{
    let mut out: Vec<char> = Vec::new();
    let mut j: usize = i;
    loop
        invariant
            i <= j <= v@.len(),
            psb_extends(
                parse_string_body(v@.skip(i as int)),
                out@,
                parse_string_body(v@.skip(j as int)),
            ),
        decreases v@.len() - j,
    {
        let ghost s = v@.skip(j as int);
        proof {
            if j < v@.len() {
                assert(s[0] == v@[j as int]);
                assert(s.skip(1) =~= v@.skip(j + 1));
            }
        }
        if j == v.len() {
            return None;
        }
        let c = v[j];
        if c == '"' {
            assert(parse_string_body(s) == Some((Seq::<char>::empty(), v@.skip(j + 1))));
            assert(out@ + Seq::<char>::empty() =~= out@);
            return Some((out, j + 1));
        } else if c == '\\' {
            if j + 1 == v.len() {
                return None;
            }
            let e = v[j + 1];
            proof {
                assert(s[1] == v@[j + 1]);
            }
            if e == 'u' {
                if v.len() - j < 6 {
                    return None;
                }
                proof {
                    assert(s[2] == v@[j + 2] && s[3] == v@[j + 3] && s[4] == v@[j + 4] && s[5]
                        == v@[j + 5]);
                    assert(s.skip(6) =~= v@.skip(j + 6));
                }
                let h2 = hex_val_at(v[j + 2]);
                let h3 = hex_val_at(v[j + 3]);
                let h4 = hex_val_at(v[j + 4]);
                let h5 = hex_val_at(v[j + 5]);
                match (h2, h3, h4, h5) {
                    (Some(d2), Some(d3), Some(d4), Some(d5)) => {
                        let val: u32 = ((d2 * 16 + d3) * 16 + d4) * 16 + d5;
                        if val < 32 {
                            let ghost prevout = out@;
                            out.push((val as u8) as char);
                            proof {
                                if parse_string_body(v@.skip(j + 6)) is Some {
                                    let (t, r) = parse_string_body(v@.skip(j + 6)).unwrap();
                                    assert(prevout + (seq![(val as u8) as char] + t) =~= out@ + t);
                                }
                            }
                            j = j + 6;
                        } else {
                            return None;
                        }
                    },
                    _ => {
                        return None;
                    },
                }
            } else {
                let dec: Option<char> = if e == '"' {
                    Some('"')
                } else if e == '\\' {
                    Some('\\')
                } else if e == '/' {
                    Some('/')
                } else if e == 'n' {
                    Some('\n')
                } else if e == 'r' {
                    Some('\r')
                } else if e == 't' {
                    Some('\t')
                } else if e == 'b' {
                    Some('\u{8}')
                } else if e == 'f' {
                    Some('\u{c}')
                } else {
                    None
                };
                assert(dec == unescape_simple(e));
                match dec {
                    Some(c0) => {
                        proof {
                            assert(s.skip(2) =~= v@.skip(j + 2));
                        }
                        let ghost prevout = out@;
                        out.push(c0);
                        proof {
                            if parse_string_body(v@.skip(j + 2)) is Some {
                                let (t, r) = parse_string_body(v@.skip(j + 2)).unwrap();
                                assert(prevout + (seq![c0] + t) =~= out@ + t);
                            }
                        }
                        j = j + 2;
                    },
                    None => {
                        return None;
                    },
                }
            }
        } else if char_is_control(c) {
            return None;
        } else {
            let ghost prevout = out@;
            out.push(c);
            proof {
                assert(s[0] == c && c != '"' && c != '\\' && (s[0] as int) >= 32);
                if parse_string_body(v@.skip(j + 1)) is Some {
                    let (t, r) = parse_string_body(v@.skip(j + 1)).unwrap();
                    assert(parse_string_body(s) == Some::<(Seq<char>, Seq<char>)>(
                        (seq![c] + t, r),
                    ));
                    assert(prevout + (seq![c] + t) =~= out@ + t);
                } else {
                    assert(parse_string_body(s) is None);
                }
            }
            j = j + 1;
        }
    }
}

/// Skip whitespace and require the one given punctuation character.
fn expect_at(v: &Vec<char>, i: usize, c: char) -> (r: Option<usize>)
    requires
        i <= v@.len(),
    ensures
        match r {
            Some(j) => j <= v@.len() && expect(v@.skip(i as int), c) == Some(v@.skip(j as int)),
            None => expect(v@.skip(i as int), c) is None,
        },
{
    let t = skip_ws_at(v, i);
    if t < v.len() && v[t] == c {
        proof {
            assert(v@.skip(t as int)[0] == v@[t as int]);
            assert(v@.skip(t as int).skip(1) =~= v@.skip(t + 1));
        }
        Some(t + 1)
    } else {
        None
    }
}

/// Skip whitespace and parse one quoted string.
fn parse_quoted_at(v: &Vec<char>, i: usize) -> (r: Option<(Vec<char>, usize)>)
    requires
        i <= v@.len(),
    ensures
        match r {
            Some(p) => p.1 <= v@.len() && parse_quoted(v@.skip(i as int)) == Some(
                (p.0@, v@.skip(p.1 as int)),
            ),
            None => parse_quoted(v@.skip(i as int)) is None,
        },
{
    let t = skip_ws_at(v, i);
    if t < v.len() && v[t] == '"' {
        proof {
            assert(v@.skip(t as int)[0] == v@[t as int]);
            assert(v@.skip(t as int).skip(1) =~= v@.skip(t + 1));
        }
        parse_string_body_at(v, t + 1)
    } else {
        None
    }
}

/// Parse a decimal integer at the given position (no leading whitespace).
fn parse_int_at(v: &Vec<char>, i: usize) -> (r: Option<(i64, usize)>)
    requires
        i <= v@.len(),
    ensures
        match r {
            Some(p) => p.1 <= v@.len() && parse_int(v@.skip(i as int)) == Some(
                (p.0 as int, v@.skip(p.1 as int)),
            ),
            None => parse_int(v@.skip(i as int)) is None,
        },
{
    let neg = i < v.len() && v[i] == '-';
    let start: usize = if neg {
        i + 1
    } else {
        i
    };
    proof {
        if i < v@.len() {
            assert(v@.skip(i as int)[0] == v@[i as int]);
            assert(v@.skip(i as int).skip(1) =~= v@.skip(i + 1));
        }
    }
    let ghost s = v@.skip(start as int);
    let mut e: usize = start;
    while e < v.len() && is_digit_at(v[e])
        invariant
            start <= e <= v@.len(),
            s == v@.skip(start as int),
            digit_run_len(s) == (e - start) + digit_run_len(v@.skip(e as int)),
            forall|m: int| start <= m < e ==> is_digit(#[trigger] v@[m]),
        decreases v@.len() - e,
    {
        proof {
            assert(v@.skip(e as int)[0] == v@[e as int]);
            assert(v@.skip(e as int).skip(1) =~= v@.skip(e + 1));
        }
        e = e + 1;
    }
    proof {
        if e < v@.len() {
            assert(v@.skip(e as int)[0] == v@[e as int]);
        }
        assert(digit_run_len(v@.skip(e as int)) == 0);
        assert(digit_run_len(s) == e - start);
    }
    let k = e - start;
    if k == 0 {
        return None;
    }
    proof {
        assert(s[0] == v@[start as int]);
    }
    if k > 1 && v[start] == '0' {
        return None;
    }
    if k > 19 {
        return None;
    }
    let mut acc: u64 = 0;
    let mut m: usize = start;
    proof {
        reveal_with_fuel(pow10, 21);
        assert(pow10(19) == 10000000000000000000);
        assert(s.take(0) =~= Seq::<char>::empty());
    }
    while m < e
        invariant
            start <= m <= e <= v@.len(),
            e - start <= 19,
            s == v@.skip(start as int),
            forall|q: int| start <= q < e ==> is_digit(#[trigger] v@[q]),
            acc as int == digits_val(s.take(m - start)),
            (acc as int) < pow10((m - start) as nat),
            pow10(19) == 10000000000000000000,
        decreases e - m,
    {
        assert(is_digit(v@[m as int]));
        let d: u64 = digit_val_at(v[m]) as u64;
        proof {
            assert(s[m - start] == v@[m as int]);
            assert(d as int == digit_val(s[m - start]));
            assert(pow10(((m - start) + 1) as nat) == 10 * pow10((m - start) as nat));
            lemma_pow10_mono((m - start) as nat, 18);
            assert(pow10(19) == 10 * pow10(18));
            assert(s.take((m - start) + 1).drop_last() =~= s.take(m - start));
            assert(s.take((m - start) + 1).last() == s[m - start]);
        }
        acc = acc * 10 + d;
        m = m + 1;
    }
    assert(acc as int == digits_val(s.take(k as int)));
    proof {
        assert(v@.skip(start as int).skip(k as int) =~= v@.skip(e as int));
    }
    if neg {
        if acc <= 9223372036854775808 {
            let n: i64 = if acc == 9223372036854775808 {
                i64::MIN
            } else {
                -(acc as i64)
            };
            Some((n, e))
        } else {
            None
        }
    } else {
        if acc <= 9223372036854775807 {
            Some((acc as i64, e))
        } else {
            None
        }
    }
}

/// Whether the parsed characters are exactly the given name.
fn chars_match(k: &Vec<char>, name: &str) -> (r: bool)
    ensures
        r == (k@ == name@),
{
    let n = name.unicode_len();
    if k.len() != n {
        return false;
    }
    let mut i: usize = 0;
    while i < n
        invariant
            0 <= i <= n,
            n == name@.len(),
            k@.len() == n,
            forall|q: int| 0 <= q < i ==> k@[q] == name@[q],
        decreases n - i,
    {
        if k[i] != name.get_char(i) {
            return false;
        }
        i = i + 1;
    }
    proof {
        assert(k@ =~= name@);
    }
    true
}

/// Parse one note object at the given position.
fn parse_note_at(v: &Vec<char>, i: usize) -> (r: Option<(Note, usize)>)
    requires
        i <= v@.len(),
    ensures
        match r {
            Some(p) => p.1 <= v@.len() && parse_note(v@.skip(i as int)) == Some(
                (p.0@, v@.skip(p.1 as int)),
            ),
            None => parse_note(v@.skip(i as int)) is None,
        },
{
    proof {
        reveal_strlit("id");
        reveal_strlit("title");
        reveal_strlit("content");
        reveal_strlit("timestamp");
        assert("id"@ =~= seq!['i', 'd']);
        assert("title"@ =~= seq!['t', 'i', 't', 'l', 'e']);
        assert("content"@ =~= seq!['c', 'o', 'n', 't', 'e', 'n', 't']);
        assert("timestamp"@ =~= seq!['t', 'i', 'm', 'e', 's', 't', 'a', 'm', 'p']);
    }
    let r0 = match expect_at(v, i, '{') {
        Some(j) => j,
        None => {
            return None;
        },
    };
    let (kid, j1) = match parse_quoted_at(v, r0) {
        Some(p) => p,
        None => {
            return None;
        },
    };
    if !chars_match(&kid, "id") {
        return None;
    }
    let j1b = match expect_at(v, j1, ':') {
        Some(j) => j,
        None => {
            return None;
        },
    };
    let (idv, j2) = match parse_quoted_at(v, j1b) {
        Some(p) => p,
        None => {
            return None;
        },
    };
    let j2b = match expect_at(v, j2, ',') {
        Some(j) => j,
        None => {
            return None;
        },
    };
    let (ktitle, j3) = match parse_quoted_at(v, j2b) {
        Some(p) => p,
        None => {
            return None;
        },
    };
    if !chars_match(&ktitle, "title") {
        return None;
    }
    let j3b = match expect_at(v, j3, ':') {
        Some(j) => j,
        None => {
            return None;
        },
    };
    let (titlev, j4) = match parse_quoted_at(v, j3b) {
        Some(p) => p,
        None => {
            return None;
        },
    };
    let j4b = match expect_at(v, j4, ',') {
        Some(j) => j,
        None => {
            return None;
        },
    };
    let (kcontent, j5) = match parse_quoted_at(v, j4b) {
        Some(p) => p,
        None => {
            return None;
        },
    };
    if !chars_match(&kcontent, "content") {
        return None;
    }
    let j5b = match expect_at(v, j5, ':') {
        Some(j) => j,
        None => {
            return None;
        },
    };
    let (contentv, j6) = match parse_quoted_at(v, j5b) {
        Some(p) => p,
        None => {
            return None;
        },
    };
    let j6b = match expect_at(v, j6, ',') {
        Some(j) => j,
        None => {
            return None;
        },
    };
    let (kts, j7) = match parse_quoted_at(v, j6b) {
        Some(p) => p,
        None => {
            return None;
        },
    };
    if !chars_match(&kts, "timestamp") {
        return None;
    }
    let j7b = match expect_at(v, j7, ':') {
        Some(j) => j,
        None => {
            return None;
        },
    };
    let t8 = skip_ws_at(v, j7b);
    let (ts, j8) = match parse_int_at(v, t8) {
        Some(p) => p,
        None => {
            return None;
        },
    };
    let j9 = match expect_at(v, j8, '}') {
        Some(j) => j,
        None => {
            return None;
        },
    };
    let note = Note {
        id: chars_to_string(idv),
        title: chars_to_string(titlev),
        content: chars_to_string(contentv),
        timestamp: ts,
    };
    Some((note, j9))
}

/// Parse the entries of a non-empty array, up to and including the
/// closing bracket.
fn parse_items_at(v: &Vec<char>, i: usize) -> (r: Option<(Vec<Note>, usize)>)
    requires
        i <= v@.len(),
    ensures
        match r {
            Some(p) => p.1 <= v@.len() && parse_items(v@.skip(i as int)) == Some(
                (views_of(p.0@), v@.skip(p.1 as int)),
            ),
            None => parse_items(v@.skip(i as int)) is None,
        },
    decreases v@.len() - i,
{
    let (n, j) = match parse_note_at(v, i) {
        Some(p) => p,
        None => {
            return None;
        },
    };
    let t = skip_ws_at(v, j);
    proof {
        if t < v@.len() {
            assert(v@.skip(t as int)[0] == v@[t as int]);
            assert(v@.skip(t as int).skip(1) =~= v@.skip(t + 1));
        }
    }
    if t < v.len() && v[t] == ',' {
        if v.len() - (t + 1) < v.len() - i {
            match parse_items_at(v, t + 1) {
                Some((mut ns, j2)) => {
                    let ghost tail = ns@;
                    ns.insert(0, n);
                    proof {
                        assert(views_of(ns@) =~= seq![n@] + views_of(tail));
                    }
                    Some((ns, j2))
                },
                None => None,
            }
        } else {
            None
        }
    } else if t < v.len() && v[t] == ']' {
        let mut ns: Vec<Note> = Vec::new();
        ns.push(n);
        proof {
            assert(views_of(ns@) =~= seq![n@]);
        }
        Some((ns, t + 1))
    } else {
        None
    }
}

/// Read a whole collection out of its text form. The result is exactly
/// the parse of the text: a collection when the text is well formed,
/// nothing when it is not.
pub fn parse_notes(s: &str) -> (r: Option<Vec<Note>>)
    ensures
        match r {
            Some(ns) => parse_collection(s@) == Some(views_of(ns@)),
            None => parse_collection(s@) is None,
        },
{
    let v = str_to_chars(s);
    proof {
        assert(v@.skip(0) =~= s@);
    }
    let j = match expect_at(&v, 0, '[') {
        Some(j) => j,
        None => {
            return None;
        },
    };
    let t = skip_ws_at(&v, j);
    proof {
        if t < v@.len() {
            assert(v@.skip(t as int)[0] == v@[t as int]);
            assert(v@.skip(t as int).skip(1) =~= v@.skip(t + 1));
        }
    }
    if t < v.len() && v[t] == ']' {
        let t2 = skip_ws_at(&v, t + 1);
        if t2 == v.len() {
            proof {
                assert(v@.skip(t2 as int).len() == 0);
                assert(views_of(Seq::<Note>::empty()) =~= Seq::<NoteView>::empty());
            }
            let ns: Vec<Note> = Vec::new();
            proof {
                assert(views_of(ns@) =~= Seq::<NoteView>::empty());
            }
            Some(ns)
        } else {
            proof {
                assert(v@.skip(t2 as int).len() != 0);
            }
            None
        }
    } else {
        match parse_items_at(&v, j) {
            Some((ns, j2)) => {
                let t3 = skip_ws_at(&v, j2);
                if t3 == v.len() {
                    Some(ns)
                } else {
                    None
                }
            },
            None => None,
        }
    }
}

} // verus!
