use vstd::prelude::*;
use crate::record::{Todo, TodoView};

verus! {

// The store holds one record per line, as a JSON object with the fields
// `number`, `content` and `date`, in that order and without spaces:
//     {"number":3,"content":"buy milk","date":"01/02/2023 10:00:00"}
// Lines in the older shape with a `title` string after `number` are read too;
// the title is dropped.

/// The character of a decimal digit.
pub open spec fn digit_char(d: int) -> char {
    ((d + 48) as u8) as char
}

/// The character of a lower-case hexadecimal digit.
pub open spec fn hex_char(d: int) -> char {
    if d < 10 {
        digit_char(d)
    } else {
        ((d + 87) as u8) as char
    }
}

/// Decimal digits of `n`, most significant first, without leading zeros.
pub open spec fn decimal(n: nat) -> Seq<char>
    decreases n,
{
    if n < 10 {
        seq![digit_char(n as int)]
    } else {
        decimal(n / 10).push(digit_char((n % 10) as int))
    }
}

/// An integer in decimal, with a minus sign when it is negative.
pub open spec fn int_text(n: int) -> Seq<char> {
    if n < 0 {
        seq!['-'] + decimal((-n) as nat)
    } else {
        decimal(n as nat)
    }
}

/// How one character is written inside a JSON string.
pub open spec fn escape_char(c: char) -> Seq<char> {
    if c == '"' {
        seq!['\\', '"']
    } else if c == '\\' {
        seq!['\\', '\\']
    } else if c == '\n' {
        seq!['\\', 'n']
    } else if c == '\r' {
        seq!['\\', 'r']
    } else if c == '\t' {
        seq!['\\', 't']
    } else if c == '\u{8}' {
        seq!['\\', 'b']
    } else if c == '\u{c}' {
        seq!['\\', 'f']
    } else if (c as u32) < 0x20 {
        seq!['\\', 'u', '0', '0', hex_char(((c as u32) / 16) as int), hex_char(((c as u32) % 16) as int)]
    } else {
        seq![c]
    }
}

/// How a text is written inside a JSON string, character by character.
pub open spec fn escape(s: Seq<char>) -> Seq<char>
    decreases s.len(),
{
    if s.len() == 0 {
        seq![]
    } else {
        escape_char(s[0]) + escape(s.skip(1))
    }
}

/// A text as a JSON string, quotes included.
pub open spec fn quoted(s: Seq<char>) -> Seq<char> {
    seq!['"'] + escape(s) + seq!['"']
}

pub open spec fn number_key() -> Seq<char> {
    seq!['{', '"', 'n', 'u', 'm', 'b', 'e', 'r', '"', ':']
}

pub open spec fn title_key() -> Seq<char> {
    seq![',', '"', 't', 'i', 't', 'l', 'e', '"', ':']
}

pub open spec fn content_key() -> Seq<char> {
    seq![',', '"', 'c', 'o', 'n', 't', 'e', 'n', 't', '"', ':']
}

pub open spec fn date_key() -> Seq<char> {
    seq![',', '"', 'd', 'a', 't', 'e', '"', ':']
}

/// The line that stores a record.
#[verifier::opaque]
pub open spec fn encode_spec(t: TodoView) -> Seq<char> {
    number_key() + int_text(t.number) + content_key() + quoted(t.content) + date_key()
        + quoted(t.date) + seq!['}']
}

/// `lit` stands in `s` from index `i` on.
pub open spec fn lit_at(s: Seq<char>, i: int, lit: Seq<char>) -> bool {
    0 <= i && i + lit.len() <= s.len() && s.subrange(i, i + lit.len()) == lit
}

pub open spec fn is_digit(c: char) -> bool {
    '0' <= c && c <= '9'
}

pub open spec fn is_hex(c: char) -> bool {
    is_digit(c) || ('a' <= c && c <= 'f') || ('A' <= c && c <= 'F')
}

pub open spec fn hex_value(c: char) -> int {
    if is_digit(c) {
        c as int - 48
    } else if 'a' <= c && c <= 'f' {
        c as int - 87
    } else {
        c as int - 55
    }
}

/// The number that a run of decimal digits stands for.
pub open spec fn digits_value(d: Seq<char>) -> int
    decreases d.len(),
{
    if d.len() == 0 {
        0
    } else {
        digits_value(d.drop_last()) * 10 + (d.last() as int - 48)
    }
}

/// Where the run of digits that starts at `i` ends.
pub open spec fn digits_end(s: Seq<char>, i: int) -> int
    decreases s.len() - i,
{
    if 0 <= i < s.len() && is_digit(s[i]) {
        digits_end(s, i + 1)
    } else {
        i
    }
}

/// An `i32` in decimal at `i`, without leading zeros: its value and where it ends.
pub open spec fn parse_int(s: Seq<char>, i: int) -> Option<(int, int)> {
    let neg = 0 <= i < s.len() && s[i] == '-';
    let a = if neg { i + 1 } else { i };
    let e = digits_end(s, a);
    let d = s.subrange(a, e);
    let v = if neg { -digits_value(d) } else { digits_value(d) };
    if a < 0 || e == a || (d.len() > 1 && d[0] == '0') || v < i32::MIN || v > i32::MAX {
        None
    } else {
        Some((v, e))
    }
}

/// The character that the escape sequence at `i` stands for. Its width is
/// 6 after `\u` and 2 otherwise; `\u` is read for ASCII characters only.
pub open spec fn unescape_at(s: Seq<char>, i: int) -> Option<char> {
    if !(0 <= i && i + 1 < s.len()) {
        None
    } else {
        let e = s[i + 1];
        if e == '"' {
            Some('"')
        } else if e == '\\' {
            Some('\\')
        } else if e == '/' {
            Some('/')
        } else if e == 'b' {
            Some('\u{8}')
        } else if e == 'f' {
            Some('\u{c}')
        } else if e == 'n' {
            Some('\n')
        } else if e == 'r' {
            Some('\r')
        } else if e == 't' {
            Some('\t')
        } else if e == 'u' && i + 5 < s.len() && is_hex(s[i + 2]) && is_hex(s[i + 3]) && is_hex(
            s[i + 4],
        ) && is_hex(s[i + 5]) {
            let v = hex_value(s[i + 2]) * 4096 + hex_value(s[i + 3]) * 256 + hex_value(s[i + 4])
                * 16 + hex_value(s[i + 5]);
            if v < 0x80 {
                Some(((v as u8) as char))
            } else {
                None
            }
        } else {
            None
        }
    }
}

pub open spec fn escape_width(s: Seq<char>, i: int) -> int {
    if s[i + 1] == 'u' {
        6
    } else {
        2
    }
}

/// The text of a JSON string whose opening quote stands before `i`, and the
/// index after its closing quote.
pub open spec fn scan_body(s: Seq<char>, i: int) -> Option<(Seq<char>, int)>
    decreases s.len() - i,
{
    if !(0 <= i < s.len()) {
        None
    } else if s[i] == '"' {
        Some((seq![], i + 1))
    } else if s[i] == '\\' {
        match unescape_at(s, i) {
            Some(c) => match scan_body(s, i + escape_width(s, i)) {
                Some((t, j)) => Some((seq![c] + t, j)),
                None => None,
            },
            None => None,
        }
    } else if (s[i] as u32) < 0x20 {
        None
    } else {
        match scan_body(s, i + 1) {
            Some((t, j)) => Some((seq![s[i]] + t, j)),
            None => None,
        }
    }
}

/// A JSON string at `i`: its text and the index after it.
pub open spec fn scan_string(s: Seq<char>, i: int) -> Option<(Seq<char>, int)> {
    if 0 <= i < s.len() && s[i] == '"' {
        scan_body(s, i + 1)
    } else {
        None
    }
}

/// Where the record goes on after the number: past a title field if one is there.
pub open spec fn skip_title(s: Seq<char>, i: int) -> Option<int> {
    if lit_at(s, i, title_key()) {
        match scan_string(s, i + title_key().len()) {
            Some((_, j)) => Some(j),
            None => None,
        }
    } else {
        Some(i)
    }
}

/// The record that a line stores, if it is a valid record line.
#[verifier::opaque]
pub open spec fn decode_spec(s: Seq<char>) -> Option<TodoView> {
    if !lit_at(s, 0, number_key()) {
        None
    } else {
        match parse_int(s, number_key().len() as int) {
            None => None,
            Some((n, i)) => match skip_title(s, i) {
                None => None,
                Some(i2) => if !lit_at(s, i2, content_key()) {
                    None
                } else {
                    match scan_string(s, i2 + content_key().len()) {
                        None => None,
                        Some((c, j)) => if !lit_at(s, j, date_key()) {
                            None
                        } else {
                            match scan_string(s, j + date_key().len()) {
                                None => None,
                                Some((d, k)) => if k + 1 == s.len() && s[k] == '}' {
                                    Some(TodoView { number: n, content: c, date: d })
                                } else {
                                    None
                                },
                            }
                        },
                    }
                },
            },
        }
    }
}

proof fn lemma_digit_char(d: int)
    requires
        0 <= d < 10,
    ensures
        digit_char(d) as int == d + 48,
        is_digit(digit_char(d)),
{
}

proof fn lemma_decimal(n: nat)
    ensures
        decimal(n).len() >= 1,
        forall|k: int| 0 <= k < decimal(n).len() ==> is_digit(#[trigger] decimal(n)[k]),
        decimal(n).len() > 1 ==> decimal(n)[0] != '0',
        n >= 10 ==> decimal(n).len() > 1,
        digits_value(decimal(n)) == n,
    decreases n,
{
    if n < 10 {
        lemma_digit_char(n as int);
        assert(decimal(n).drop_last() =~= seq![]);
        assert(digits_value(decimal(n).drop_last()) == 0);
    } else {
        lemma_decimal(n / 10);
        lemma_digit_char((n % 10) as int);
        if n / 10 < 10 {
            lemma_digit_char((n / 10) as int);
        }
        let d = decimal(n / 10);
        assert(decimal(n) == d.push(digit_char((n % 10) as int)));
        assert(decimal(n).last() == digit_char((n % 10) as int));
        assert(n == (n / 10) * 10 + n % 10);
        let x = decimal(n);
        assert(digits_value(x) == digits_value(x.drop_last()) * 10 + (x.last() as int - 48));
        if n / 10 < 10 {
            assert(d[0] == digit_char((n / 10) as int));
        }
        assert(decimal(n).drop_last() =~= d);
        assert(decimal(n)[0] == d[0]);
        assert forall|k: int| 0 <= k < decimal(n).len() implies is_digit(#[trigger] decimal(n)[k]) by {
            if k < d.len() {
                assert(decimal(n)[k] == d[k]);
            }
        }
    }
}

proof fn lemma_digits_end(s: Seq<char>, i: int, e: int)
    requires
        0 <= i <= e <= s.len(),
        forall|k: int| i <= k < e ==> is_digit(#[trigger] s[k]),
        e < s.len() ==> !is_digit(s[e]),
    ensures
        digits_end(s, i) == e,
    decreases e - i,
{
    if i < e {
        lemma_digits_end(s, i + 1, e);
    }
}

/// `lit` stands at the end of `pre` in `pre + lit + post`.
proof fn lemma_lit_in(pre: Seq<char>, lit: Seq<char>, post: Seq<char>)
    ensures
        lit_at(pre + lit + post, pre.len() as int, lit),
{
    assert((pre + lit + post).subrange(pre.len() as int, (pre.len() + lit.len()) as int) =~= lit);
}

proof fn lemma_parse_int(s: Seq<char>, i: int, n: int)
    requires
        i32::MIN <= n <= i32::MAX,
        lit_at(s, i, int_text(n)),
        i + int_text(n).len() < s.len(),
        !is_digit(s[i + int_text(n).len()]),
    ensures
        parse_int(s, i) == Some((n, i + int_text(n).len())),
{
    let t = int_text(n);
    assert forall|k: int| 0 <= k < t.len() implies s[i + k] == t[k] by {
        assert(s.subrange(i, i + t.len())[k] == t[k]);
    }
    if n < 0 {
        let m = (-n) as nat;
        lemma_decimal(m);
        let d = decimal(m);
        assert(t[0] == '-');
        assert(s.subrange(i, i + t.len())[0] == t[0]);
        assert forall|k: int| i + 1 <= k < i + 1 + d.len() implies is_digit(#[trigger] s[k]) by {
            assert(s[i + (k - i)] == t[k - i]);
            assert(t[k - i] == d[k - i - 1]);
        }
        lemma_digits_end(s, i + 1, i + 1 + d.len());
        assert(s.subrange(i + 1, i + 1 + d.len()) =~= d) by {
            assert forall|k: int| 0 <= k < d.len() implies s.subrange(i + 1, i + 1 + d.len())[k]
                == d[k] by {
                assert(s[i + (k + 1)] == t[k + 1]);
            }
        }
    } else {
        let m = n as nat;
        lemma_decimal(m);
        assert(s.subrange(i, i + t.len())[0] == t[0]);
        assert(is_digit(t[0]));
        assert forall|k: int| i <= k < i + t.len() implies is_digit(#[trigger] s[k]) by {
            assert(s[i + (k - i)] == t[k - i]);
        }
        lemma_digits_end(s, i, i + t.len());
        assert(s.subrange(i, i + t.len()) =~= t);
    }
}

proof fn lemma_ascii_char(c: char, v: int)
    requires
        v == c as u32,
        v < 0x80,
    ensures
        ((v as u8) as char) == c,
{
}

proof fn lemma_hex(d: int)
    requires
        0 <= d < 16,
    ensures
        is_hex(hex_char(d)),
        hex_value(hex_char(d)) == d,
{
}

/// A JSON string body written by `escape` reads back as the text it was made from.
proof fn lemma_scan_escaped(s: Seq<char>, i: int, x: Seq<char>)
    requires
        lit_at(s, i, escape(x) + seq!['"']),
    ensures
        scan_body(s, i) == Some((x, i + escape(x).len() + 1)),
    decreases x.len(),
{
    let lit = escape(x) + seq!['"'];
    assert forall|k: int| 0 <= k < lit.len() implies s[i + k] == lit[k] by {
        assert(s.subrange(i, i + lit.len())[k] == lit[k]);
    }
    if x.len() == 0 {
        assert(lit =~= seq!['"']);
        assert(s.subrange(i, i + lit.len())[0] == lit[0]);
        assert(x =~= seq![]);
    } else {
        let c = x[0];
        let ec = escape_char(c);
        let rest = escape(x.skip(1));
        assert(escape(x) == ec + rest);
        assert forall|k: int| 0 <= k < ec.len() implies s[i + k] == ec[k] by {
            assert(lit[k] == ec[k]);
        }
        assert(lit_at(s, i + ec.len(), rest + seq!['"'])) by {
            assert(s.subrange(i + ec.len(), i + ec.len() + rest.len() + 1) =~= rest + seq!['"']) by {
                assert forall|k: int| 0 <= k < rest.len() + 1 implies s[i + ec.len() + k] == (rest
                    + seq!['"'])[k] by {
                    assert(s[i + (ec.len() + k)] == lit[ec.len() + k]);
                }
            }
        }
        lemma_scan_escaped(s, i + ec.len(), x.skip(1));
        assert(x =~= seq![c] + x.skip(1));
        if c == '"' || c == '\\' || c == '\n' || c == '\r' || c == '\t' || c == '\u{8}' || c
            == '\u{c}' {
            assert(s[i] == '\\');
            assert(escape_width(s, i) == 2);
            assert(unescape_at(s, i) == Some(c));
        } else if (c as u32) < 0x20 {
            let hi = ((c as u32) / 16) as int;
            let lo = ((c as u32) % 16) as int;
            lemma_hex(hi);
            lemma_hex(lo);
            assert(s[i] == '\\');
            assert(s[i + 1] == 'u');
            assert(s[i + 2] == '0');
            assert(s[i + 3] == '0');
            assert(s[i + 4] == hex_char(hi));
            assert(s[i + 5] == hex_char(lo));
            assert(escape_width(s, i) == 6);
            assert(hi * 16 + lo == c as u32);
            assert(is_hex('0') && hex_value('0') == 0);
            let v = hex_value(s[i + 2]) * 4096 + hex_value(s[i + 3]) * 256 + hex_value(s[i + 4])
                * 16 + hex_value(s[i + 5]);
            assert(v == c as u32);
            lemma_ascii_char(c, v);
            assert(unescape_at(s, i) == Some(c));
        } else {
            assert(s[i] == c);
        }
    }
}

proof fn lemma_lit_extend(s: Seq<char>, post: Seq<char>, i: int, lit: Seq<char>)
    requires
        lit_at(s, i, lit),
    ensures
        lit_at(s + post, i, lit),
{
    assert((s + post).subrange(i, i + lit.len()) =~= s.subrange(i, i + lit.len()));
}

/// Every record reads back from the line that stores it.
#[verifier::rlimit(100)]
pub proof fn lemma_round_trip(t: TodoView)
    requires
        i32::MIN <= t.number <= i32::MAX,
    ensures
        decode_spec(encode_spec(t)) == Some(t),
{
    let nt = int_text(t.number);
    let qc = quoted(t.content);
    let qd = quoted(t.date);
    let a1 = number_key();
    let a2 = a1 + nt;
    let a3 = a2 + content_key();
    let a4 = a3 + qc;
    let a5 = a4 + date_key();
    let a6 = a5 + qd;
    let s = a6 + seq!['}'];
    reveal(encode_spec);
    reveal(decode_spec);
    assert(s == encode_spec(t));
    let ec = escape(t.content) + seq!['"'];
    let ed = escape(t.date) + seq!['"'];
    assert(qc =~= seq!['"'] + ec);
    assert(qd =~= seq!['"'] + ed);
    // number key
    lemma_lit_in(seq![], a1, seq![]);
    assert(seq![] + a1 + seq![] =~= a1);
    lemma_lit_extend(a1, nt, 0, a1);
    lemma_lit_extend(a2, content_key(), 0, a1);
    lemma_lit_extend(a3, qc, 0, a1);
    lemma_lit_extend(a4, date_key(), 0, a1);
    lemma_lit_extend(a5, qd, 0, a1);
    lemma_lit_extend(a6, seq!['}'], 0, a1);
    // number
    lemma_lit_in(a1, nt, seq![]);
    assert(a1 + nt + seq![] =~= a2);
    lemma_lit_extend(a2, content_key(), a1.len() as int, nt);
    lemma_lit_extend(a3, qc, a1.len() as int, nt);
    lemma_lit_extend(a4, date_key(), a1.len() as int, nt);
    lemma_lit_extend(a5, qd, a1.len() as int, nt);
    lemma_lit_extend(a6, seq!['}'], a1.len() as int, nt);
    // content key
    let key_c = a2.len() as int;
    lemma_lit_in(a2, content_key(), seq![]);
    assert(a2 + content_key() + seq![] =~= a3);
    lemma_lit_extend(a3, qc, key_c, content_key());
    lemma_lit_extend(a4, date_key(), key_c, content_key());
    lemma_lit_extend(a5, qd, key_c, content_key());
    lemma_lit_extend(a6, seq!['}'], key_c, content_key());
    assert(s.subrange(key_c, key_c + 11)[0] == s[key_c]);
    lemma_parse_int(s, a1.len() as int, t.number);
    assert(!lit_at(s, key_c, title_key())) by {
        if lit_at(s, key_c, title_key()) {
            assert(s.subrange(key_c, key_c + 9)[2] == s[key_c + 2]);
            assert(s.subrange(key_c, key_c + 11)[2] == s[key_c + 2]);
        }
    }
    // content
    let text_c = a3.len() as int;
    lemma_lit_in(a3 + seq!['"'], ec, seq![]);
    assert(a3 + seq!['"'] + ec + seq![] =~= a4);
    lemma_lit_extend(a4, date_key(), text_c + 1, ec);
    lemma_lit_extend(a5, qd, text_c + 1, ec);
    lemma_lit_extend(a6, seq!['}'], text_c + 1, ec);
    assert(s[text_c] == '"');
    lemma_scan_escaped(s, text_c + 1, t.content);
    // date key
    let key_d = a4.len() as int;
    lemma_lit_in(a4, date_key(), seq![]);
    assert(a4 + date_key() + seq![] =~= a5);
    lemma_lit_extend(a5, qd, key_d, date_key());
    lemma_lit_extend(a6, seq!['}'], key_d, date_key());
    // date
    let text_d = a5.len() as int;
    lemma_lit_in(a5 + seq!['"'], ed, seq![]);
    assert(a5 + seq!['"'] + ed + seq![] =~= a6);
    lemma_lit_extend(a6, seq!['}'], text_d + 1, ed);
    assert(s[text_d] == '"');
    lemma_scan_escaped(s, text_d + 1, t.date);
    assert(s[a6.len() as int] == '}');
}

proof fn lemma_escape_push(x: Seq<char>, c: char)
    ensures
        escape(x.push(c)) == escape(x) + escape_char(c),
    decreases x.len(),
{
    if x.len() == 0 {
        assert(x.push(c).skip(1) =~= seq![]);
        assert(escape(x.push(c)) =~= escape_char(c) + escape(seq![]));
        assert(escape(x) + escape_char(c) =~= escape_char(c));
    } else {
        lemma_escape_push(x.skip(1), c);
        assert(x.push(c).skip(1) =~= x.skip(1).push(c));
        assert(escape(x.push(c)) =~= escape_char(x[0]) + escape(x.skip(1).push(c)));
    }
}

/// Relies on `String::push`: the character goes on at the end.
#[verifier::external_body]
fn push_char(s: &mut String, c: char)
    ensures
        final(s)@ == old(s)@.push(c),
{
    s.push(c)
}

/// The characters of a text, in order.
fn to_chars(s: &str) -> (r: Vec<char>)
    ensures
        r@ == s@,
{
    let n = s.unicode_len();
    let mut r: Vec<char> = Vec::new();
    let mut i: usize = 0;
    while i < n
        invariant
            n == s@.len(),
            i <= n,
            r@ == s@.take(i as int),
        decreases n - i,
    {
        r.push(s.get_char(i));
        i = i + 1;
        assert(r@ =~= s@.take(i as int));
    }
    assert(r@ =~= s@);
    r
}

fn digit(d: u32) -> (c: char)
    requires
        d < 10,
    ensures
        c == digit_char(d as int),
{
    ((d as u8) + 48) as char
}

fn hex_digit(d: u32) -> (c: char)
    requires
        d < 16,
    ensures
        c == hex_char(d as int),
{
    if d < 10 {
        ((d as u8) + 48) as char
    } else {
        ((d as u8) + 87) as char
    }
}

fn push_decimal(out: &mut String, n: u32)
    ensures
        final(out)@ == old(out)@ + decimal(n as nat),
    decreases n,
{
    if n >= 10 {
        push_decimal(out, n / 10);
    }
    push_char(out, digit(n % 10));
    assert(final(out)@ =~= old(out)@ + decimal(n as nat));
}

fn push_int(out: &mut String, n: i32)
    ensures
        final(out)@ == old(out)@ + int_text(n as int),
{
    if n < 0 {
        push_char(out, '-');
        let m: i64 = -(n as i64);
        push_decimal(out, m as u32);
        assert(final(out)@ =~= old(out)@ + int_text(n as int));
    } else {
        push_decimal(out, n as u32);
    }
}

fn push_escaped_char(out: &mut String, c: char)
    ensures
        final(out)@ == old(out)@ + escape_char(c),
{
    if c == '"' {
        push_char(out, '\\');
        push_char(out, '"');
    } else if c == '\\' {
        push_char(out, '\\');
        push_char(out, '\\');
    } else if c == '\n' {
        push_char(out, '\\');
        push_char(out, 'n');
    } else if c == '\r' {
        push_char(out, '\\');
        push_char(out, 'r');
    } else if c == '\t' {
        push_char(out, '\\');
        push_char(out, 't');
    } else if c == '\u{8}' {
        push_char(out, '\\');
        push_char(out, 'b');
    } else if c == '\u{c}' {
        push_char(out, '\\');
        push_char(out, 'f');
    } else if (c as u32) < 0x20 {
        push_char(out, '\\');
        push_char(out, 'u');
        push_char(out, '0');
        push_char(out, '0');
        push_char(out, hex_digit((c as u32) / 16));
        push_char(out, hex_digit((c as u32) % 16));
    } else {
        push_char(out, c);
    }
    assert(final(out)@ =~= old(out)@ + escape_char(c));
}

fn push_quoted(out: &mut String, text: &String)
    ensures
        final(out)@ == old(out)@ + quoted(text@),
{
    let s = text.as_str();
    let n = s.unicode_len();
    push_char(out, '"');
    let ghost start = out@;
    let mut i: usize = 0;
    while i < n
        invariant
            n == s@.len(),
            s@ == text@,
            i <= n,
            out@ == start + escape(s@.take(i as int)),
        decreases n - i,
    {
        let c = s.get_char(i);
        push_escaped_char(out, c);
        proof {
            lemma_escape_push(s@.take(i as int), c);
            assert(s@.take(i + 1) =~= s@.take(i as int).push(c));
        }
        i = i + 1;
    }
    assert(s@.take(n as int) =~= s@);
    push_char(out, '"');
    assert(final(out)@ =~= old(out)@ + quoted(text@));
}

/// The line that stores `t`, without a line break.
pub fn encode(t: &Todo) -> (r: String)
    ensures
        r@ == encode_spec(t@),
{
    let mut out = String::new();
    proof {
        reveal_strlit("{\"number\":");
        reveal_strlit(",\"content\":");
        reveal_strlit(",\"date\":");
    }
    out.append("{\"number\":");
    assert(out@ =~= number_key());
    push_int(&mut out, t.number);
    out.append(",\"content\":");
    assert(",\"content\":"@ =~= content_key());
    push_quoted(&mut out, &t.content);
    out.append(",\"date\":");
    assert(",\"date\":"@ =~= date_key());
    push_quoted(&mut out, &t.date);
    push_char(&mut out, '}');
    reveal(encode_spec);
    assert(out@ =~= encode_spec(t@));
    out
}

/// `prefix` put before the text that a scan found.
pub open spec fn prepend(prefix: Seq<char>, r: Option<(Seq<char>, int)>) -> Option<(Seq<char>, int)> {
    match r {
        Some((t, j)) => Some((prefix + t, j)),
        None => None,
    }
}

fn lit_at_exec(s: &Vec<char>, i: usize, lit: &str) -> (r: bool)
    ensures
        r == lit_at(s@, i as int, lit@),
{
    let n = lit.unicode_len();
    if i > s.len() || n > s.len() - i {
        return false;
    }
    let mut k: usize = 0;
    while k < n
        invariant
            n == lit@.len(),
            i + n <= s.len(),
            k <= n,
            forall|m: int| 0 <= m < k ==> s@[i + m] == lit@[m],
        decreases n - k,
    {
        if s[i + k] != lit.get_char(k) {
            assert(s@.subrange(i as int, i + n)[k as int] != lit@[k as int]);
            return false;
        }
        k = k + 1;
    }
    assert(s@.subrange(i as int, i + n) =~= lit@);
    true
}

fn is_digit_exec(c: char) -> (r: bool)
    ensures
        r == is_digit(c),
{
    '0' <= c && c <= '9'
}

fn hex_value_exec(c: char) -> (r: Option<u32>)
    ensures
        r is Some == is_hex(c),
        r is Some ==> r->0 as int == hex_value(c) && r->0 < 16,
{
    if '0' <= c && c <= '9' {
        Some(c as u32 - 48)
    } else if 'a' <= c && c <= 'f' {
        Some(c as u32 - 87)
    } else if 'A' <= c && c <= 'F' {
        Some(c as u32 - 55)
    } else {
        None
    }
}

fn parse_int_exec(s: &Vec<char>, i: usize) -> (r: Option<(i32, usize)>)
    ensures
        match r {
            Some((v, e)) => parse_int(s@, i as int) == Some((v as int, e as int)),
            None => parse_int(s@, i as int) is None,
        },
{
    let neg = i < s.len() && s[i] == '-';
    let a: usize = if neg { i + 1 } else { i };
    if a > s.len() {
        return None;
    }
    assert(s@.subrange(a as int, a as int) =~= seq![]);
    let cap: u64 = 4294967296;
    let mut acc: u64 = 0;
    let mut j: usize = a;
    while j < s.len() && is_digit_exec(s[j])
        invariant
            a <= j <= s@.len(),
            acc <= cap,
            cap == 4294967296,
            digits_end(s@, a as int) == digits_end(s@, j as int),
            acc as int == if digits_value(s@.subrange(a as int, j as int)) < cap {
                digits_value(s@.subrange(a as int, j as int))
            } else {
                cap as int
            },
        decreases s@.len() - j,
    {
        let d = s[j] as u32 - 48;
        proof {
            let p = s@.subrange(a as int, j + 1);
            assert(p.drop_last() =~= s@.subrange(a as int, j as int));
            assert(p.last() == s@[j as int]);
        }
        let next = acc * 10 + d as u64;
        acc = if next < cap { next } else { cap };
        j = j + 1;
    }
    let ghost d = s@.subrange(a as int, j as int);
    assert(digits_end(s@, a as int) == j);
    if j == a {
        return None;
    }
    if j - a > 1 && s[a] == '0' {
        assert(d[0] == s@[a as int]);
        return None;
    }
    if j - a > 1 {
        assert(d[0] == s@[a as int]);
    }
    if neg {
        if acc > 2147483648 {
            return None;
        }
        let v: i64 = -(acc as i64);
        Some((v as i32, j))
    } else {
        if acc > 2147483647 {
            return None;
        }
        Some((acc as i32, j))
    }
}

fn unescape_exec(s: &Vec<char>, i: usize) -> (r: Option<char>)
    ensures
        r == unescape_at(s@, i as int),
{
    if i >= s.len() || i + 1 >= s.len() {
        return None;
    }
    let e = s[i + 1];
    if e == '"' {
        Some('"')
    } else if e == '\\' {
        Some('\\')
    } else if e == '/' {
        Some('/')
    } else if e == 'b' {
        Some('\u{8}')
    } else if e == 'f' {
        Some('\u{c}')
    } else if e == 'n' {
        Some('\n')
    } else if e == 'r' {
        Some('\r')
    } else if e == 't' {
        Some('\t')
    } else if e == 'u' && s.len() - i > 5 {
        match (
            hex_value_exec(s[i + 2]),
            hex_value_exec(s[i + 3]),
            hex_value_exec(s[i + 4]),
            hex_value_exec(s[i + 5]),
        ) {
            (Some(h1), Some(h2), Some(h3), Some(h4)) => {
                let v: u32 = h1 * 4096 + h2 * 256 + h3 * 16 + h4;
                if v < 0x80 {
                    Some((v as u8) as char)
                } else {
                    None
                }
            },
            _ => None,
        }
    } else {
        None
    }
}

/// Reads the JSON string that starts at `i`.
fn scan_string_exec(s: &Vec<char>, i: usize) -> (r: Option<(String, usize)>)
    ensures
        match r {
            Some((t, j)) => scan_string(s@, i as int) == Some((t@, j as int)),
            None => scan_string(s@, i as int) is None,
        },
{
    if i >= s.len() || s[i] != '"' {
        return None;
    }
    let mut out = String::new();
    let mut j: usize = i + 1;
    while j < s.len()
        invariant
            i < j <= s@.len(),
            scan_string(s@, i as int) == prepend(out@, scan_body(s@, j as int)),
        decreases s@.len() - j,
    {
        let c = s[j];
        if c == '"' {
            assert(out@ + seq![] =~= out@);
            return Some((out, j + 1));
        } else if c == '\\' {
            match unescape_exec(s, j) {
                Some(e) => {
                    let w: usize = if s[j + 1] == 'u' { 6 } else { 2 };
                    let ghost before = out@;
                    push_char(&mut out, e);
                    proof {
                        match scan_body(s@, j + w) {
                            Some((t, k)) => {
                                assert(before + (seq![e] + t) =~= out@ + t);
                            },
                            None => {},
                        }
                    }
                    if j + w > s.len() {
                        return None;
                    }
                    j = j + w;
                },
                None => {
                    return None;
                },
            }
        } else if (c as u32) < 0x20 {
            return None;
        } else {
            let ghost before = out@;
            push_char(&mut out, c);
            proof {
                match scan_body(s@, j + 1) {
                    Some((t, k)) => {
                        assert(before + (seq![c] + t) =~= out@ + t);
                    },
                    None => {},
                }
            }
            j = j + 1;
        }
    }
    None
}

/// The record that a line stores; `None` where the line is not a valid record line.
pub fn decode(line: &str) -> (r: Option<Todo>)
    ensures
        match r {
            Some(t) => decode_spec(line@) == Some(t@),
            None => decode_spec(line@) is None,
        },
{
    let s = to_chars(line);
    proof {
        reveal(decode_spec);
        reveal_strlit("{\"number\":");
        reveal_strlit(",\"title\":");
        reveal_strlit(",\"content\":");
        reveal_strlit(",\"date\":");
        assert("{\"number\":"@ =~= number_key());
        assert(",\"title\":"@ =~= title_key());
        assert(",\"content\":"@ =~= content_key());
        assert(",\"date\":"@ =~= date_key());
    }
    if !lit_at_exec(&s, 0, "{\"number\":") {
        return None;
    }
    let (number, i) = match parse_int_exec(&s, 10) {
        Some(p) => p,
        None => {
            return None;
        },
    };
    let i2: usize = if lit_at_exec(&s, i, ",\"title\":") {
        match scan_string_exec(&s, i + 9) {
            Some((_, j)) => j,
            None => {
                return None;
            },
        }
    } else {
        i
    };
    if !lit_at_exec(&s, i2, ",\"content\":") {
        return None;
    }
    let (content, j) = match scan_string_exec(&s, i2 + 11) {
        Some(p) => p,
        None => {
            return None;
        },
    };
    if !lit_at_exec(&s, j, ",\"date\":") {
        return None;
    }
    let (date, k) = match scan_string_exec(&s, j + 8) {
        Some(p) => p,
        None => {
            return None;
        },
    };
    if k < s.len() && k == s.len() - 1 && s[k] == '}' {
        Some(Todo { number, content, date })
    } else {
        None
    }
}

/// A line that decodes holds a number that fits an `i32`.
pub proof fn lemma_decode_fits(s: Seq<char>)
    requires
        decode_spec(s) is Some,
    ensures
        i32::MIN <= decode_spec(s)->0.number <= i32::MAX,
{
    reveal(decode_spec);
}

} // verus!
