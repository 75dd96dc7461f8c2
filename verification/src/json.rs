//! The JSON shape of a book: `{"id": int, "title": string, "author":
//! string}`.  The writer produces exactly that shape; the reader accepts an
//! object with those three fields in any order, each exactly once, with
//! JSON whitespace and the standard string escapes (`\" \\ \/ \b \f \n \r
//! \t` and `\uXXXX` for basic-plane scalars; surrogate pairs are rejected
//! as malformed).  A malformed body is reported to the caller, who answers
//! with a client-error status.

use vstd::prelude::*;
use crate::book::{Book, BookView};

verus! {

/// The character for one decimal digit.
pub open spec fn dec_digit(n: int) -> char {
    ((48 + n) as u8) as char
}

/// The decimal form of a non-negative integer, most significant digit
/// first.
pub open spec fn dec_of_nat(n: int) -> Seq<char>
    decreases n,
{
    if n < 10 {
        seq![dec_digit(n)]
    } else {
        dec_of_nat(n / 10) + seq![dec_digit(n % 10)]
    }
}

/// The decimal form of an integer, with a leading minus for negatives.
pub open spec fn dec_of_int(i: int) -> Seq<char> {
    if i < 0 {
        seq!['-'] + dec_of_nat(-i)
    } else {
        dec_of_nat(i)
    }
}

/// The character for one lowercase hexadecimal digit.
pub open spec fn hex_digit(n: int) -> char {
    if n < 10 {
        ((48 + n) as u8) as char
    } else {
        ((87 + n) as u8) as char
    }
}

/// How one character appears inside a JSON string: itself, a two-character
/// escape, or a `\u00XX` escape for the remaining control characters.
pub open spec fn escape_char(c: char) -> Seq<char> {
    if c == '"' {
        seq!['\\', '"']
    } else if c == '\\' {
        seq!['\\', '\\']
    } else if c == '\n' {
        seq!['\\', 'n']
    } else if c == '\r' {
        seq!['\\', 'r']
    } else if c == '\t' {
        seq!['\\', 't']
    } else if c as u32 == 8 {
        seq!['\\', 'b']
    } else if c as u32 == 12 {
        seq!['\\', 'f']
    } else if (c as u32) < 32 {
        seq!['\\', 'u', '0', '0', hex_digit(c as u32 as int / 16), hex_digit(c as u32 as int % 16)]
    } else {
        seq![c]
    }
}

/// A text with every character escaped as JSON requires.
pub open spec fn escape_seq(s: Seq<char>) -> Seq<char>
    decreases s.len(),
{
    if s.len() == 0 {
        Seq::empty()
    } else {
        escape_char(s[0]) + escape_seq(s.skip(1))
    }
}

/// A JSON string literal: quotes around the escaped text.
pub open spec fn json_string(s: Seq<char>) -> Seq<char> {
    seq!['"'] + escape_seq(s) + seq!['"']
}

/// The JSON object for one book.
pub open spec fn json_of_book(b: BookView) -> Seq<char> {
    seq!['{', '"', 'i', 'd', '"', ':'] + dec_of_int(b.id) + seq![
        ',',
        '"',
        't',
        'i',
        't',
        'l',
        'e',
        '"',
        ':',
    ] + json_string(b.title) + seq![',', '"', 'a', 'u', 't', 'h', 'o', 'r', '"', ':']
        + json_string(b.author) + seq!['}']
}

/// The bodies of a JSON array of books, comma-separated.
pub open spec fn json_of_books_inner(rows: Seq<BookView>) -> Seq<char>
    decreases rows.len(),
{
    if rows.len() == 0 {
        Seq::empty()
    } else if rows.len() == 1 {
        json_of_book(rows[0])
    } else {
        json_of_book(rows[0]) + seq![','] + json_of_books_inner(rows.skip(1))
    }
}

/// The JSON array for a listing of books.
pub open spec fn json_of_books(rows: Seq<BookView>) -> Seq<char> {
    seq!['['] + json_of_books_inner(rows) + seq![']']
}

/// Relies on `String: FromIterator<char>`: collecting characters yields a
/// string whose characters are exactly the collected sequence.
#[verifier::external_body]
fn chars_to_string(v: &Vec<char>) -> (r: String)
    ensures
        r@ == v@,
{
    v.iter().collect()
}

/// The characters of a string slice, in order.
pub fn str_chars(s: &str) -> (r: Vec<char>)
    ensures
        r@ == s@,
{
    let n: usize = s.unicode_len();
    let mut out: Vec<char> = Vec::new();
    let mut i: usize = 0;
    while i < n
        invariant
            i <= n,
            n == s@.len(),
            out@ == s@.take(i as int),
        decreases n - i,
    {
        let c = s.get_char(i);
        out.push(c);
        proof {
            assert(out@ =~= s@.take(i + 1));
        }
        i = i + 1;
    }
    proof {
        assert(s@.take(n as int) =~= s@);
    }
    out
}

/// One decimal digit character.
fn dec_digit_exec(n: u32) -> (c: char)
    requires
        n < 10,
    ensures
        c == dec_digit(n as int),
{
    ((48 + n as u8)) as char
}

/// Appends the decimal form of `n`.
fn push_dec_u32(n: u32, out: &mut Vec<char>)
    ensures
        final(out)@ == old(out)@ + dec_of_nat(n as int),
    decreases n,
{
    if n < 10 {
        out.push(dec_digit_exec(n));
        proof {
            assert(out@ =~= old(out)@ + dec_of_nat(n as int));
        }
    } else {
        push_dec_u32(n / 10, out);
        out.push(dec_digit_exec(n % 10));
        proof {
            assert(out@ =~= old(out)@ + dec_of_nat(n as int));
        }
    }
}

/// Appends the decimal form of `i`, minus sign included.
fn push_dec_i32(i: i32, out: &mut Vec<char>)
    ensures
        final(out)@ == old(out)@ + dec_of_int(i as int),
{
    if i < 0 {
        out.push('-');
        let mag: u32 = ((-(i as i64)) as u32);
        push_dec_u32(mag, out);
        proof {
            assert(out@ =~= old(out)@ + dec_of_int(i as int));
        }
    } else {
        push_dec_u32(i as u32, out);
    }
}

/// One lowercase hexadecimal digit character.
fn hex_digit_exec(n: u32) -> (c: char)
    requires
        n < 16,
    ensures
        c == hex_digit(n as int),
{
    if n < 10 {
        ((48 + n as u8)) as char
    } else {
        ((87 + n as u8)) as char
    }
}

/// Appends the escaped form of one character.
fn push_escape_char(c: char, out: &mut Vec<char>)
    ensures
        final(out)@ == old(out)@ + escape_char(c),
{
    if c == '"' {
        out.push('\\');
        out.push('"');
    } else if c == '\\' {
        out.push('\\');
        out.push('\\');
    } else if c == '\n' {
        out.push('\\');
        out.push('n');
    } else if c == '\r' {
        out.push('\\');
        out.push('r');
    } else if c == '\t' {
        out.push('\\');
        out.push('t');
    } else if c as u32 == 8 {
        out.push('\\');
        out.push('b');
    } else if c as u32 == 12 {
        out.push('\\');
        out.push('f');
    } else if (c as u32) < 32 {
        out.push('\\');
        out.push('u');
        out.push('0');
        out.push('0');
        out.push(hex_digit_exec((c as u32) / 16));
        out.push(hex_digit_exec((c as u32) % 16));
    } else {
        out.push(c);
    }
    proof {
        assert(out@ =~= old(out)@ + escape_char(c));
    }
}

/// Appends the escaped form of the characters from position `i` on.
fn push_escaped_from(cs: &Vec<char>, i: usize, out: &mut Vec<char>)
    requires
        i <= cs.len(),
    ensures
        final(out)@ == old(out)@ + escape_seq(cs@.skip(i as int)),
    decreases cs.len() - i,
{
    if i == cs.len() {
        proof {
            assert(cs@.skip(i as int) =~= Seq::<char>::empty());
            assert(out@ =~= old(out)@ + escape_seq(cs@.skip(i as int)));
        }
    } else {
        let c = cs[i];
        push_escape_char(c, out);
        push_escaped_from(cs, i + 1, out);
        proof {
            assert(cs@.skip(i as int).skip(1) =~= cs@.skip(i + 1));
            assert(cs@.skip(i as int)[0] == cs@[i as int]);
            assert(out@ =~= old(out)@ + escape_seq(cs@.skip(i as int)));
        }
    }
}

/// Appends the JSON string literal for `s`.
fn push_json_string(s: &str, out: &mut Vec<char>)
    ensures
        final(out)@ == old(out)@ + json_string(s@),
{
    let cs = str_chars(s);
    out.push('"');
    proof {
        assert(cs@.skip(0) =~= cs@);
    }
    push_escaped_from(&cs, 0, out);
    out.push('"');
    proof {
        assert(out@ =~= old(out)@ + json_string(s@));
    }
}

/// Appends the JSON object for one book.
fn push_book_json(b: &Book, out: &mut Vec<char>)
    ensures
        final(out)@ == old(out)@ + json_of_book(b@),
{
    out.push('{');
    out.push('"');
    out.push('i');
    out.push('d');
    out.push('"');
    out.push(':');
    push_dec_i32(b.id, out);
    out.push(',');
    out.push('"');
    out.push('t');
    out.push('i');
    out.push('t');
    out.push('l');
    out.push('e');
    out.push('"');
    out.push(':');
    push_json_string(b.title.as_str(), out);
    out.push(',');
    out.push('"');
    out.push('a');
    out.push('u');
    out.push('t');
    out.push('h');
    out.push('o');
    out.push('r');
    out.push('"');
    out.push(':');
    push_json_string(b.author.as_str(), out);
    out.push('}');
    proof {
        assert(out@ =~= old(out)@ + json_of_book(b@));
    }
}

/// The JSON object for one book, as the HTTP layer sends it.
pub fn book_to_json(b: &Book) -> (r: String)
    ensures
        r@ == json_of_book(b@),
{
    let mut out: Vec<char> = Vec::new();
    push_book_json(b, &mut out);
    proof {
        assert(out@ =~= json_of_book(b@));
    }
    chars_to_string(&out)
}

/// Appends the array bodies for the books from position `i` on.
fn push_books_from(v: &Vec<Book>, i: usize, out: &mut Vec<char>)
    requires
        i <= v.len(),
    ensures
        final(out)@ == old(out)@ + json_of_books_inner(v@.map_values(|b: Book| b@).skip(i as int)),
    decreases v.len() - i,
{
    let ghost rows = v@.map_values(|b: Book| b@);
    if i == v.len() {
        proof {
            assert(rows.skip(i as int) =~= Seq::<BookView>::empty());
            assert(out@ =~= old(out)@ + json_of_books_inner(rows.skip(i as int)));
        }
    } else {
        push_book_json(&v[i], out);
        if i + 1 < v.len() {
            out.push(',');
        }
        push_books_from(v, i + 1, out);
        proof {
            assert(rows.skip(i as int).skip(1) =~= rows.skip(i + 1));
            assert(rows.skip(i as int)[0] == rows[i as int]);
            assert(rows[i as int] == v@[i as int]@);
            if i + 1 < v.len() {
                assert(rows.skip(i as int).len() >= 2);
            } else {
                assert(rows.skip(i as int).len() == 1);
            }
            assert(out@ =~= old(out)@ + json_of_books_inner(rows.skip(i as int)));
        }
    }
}

/// The JSON array for a listing, as the HTTP layer sends it.
pub fn books_to_json(v: &Vec<Book>) -> (r: String)
    ensures
        r@ == json_of_books(v@.map_values(|b: Book| b@)),
{
    let mut out: Vec<char> = Vec::new();
    out.push('[');
    proof {
        assert(v@.map_values(|b: Book| b@).skip(0) =~= v@.map_values(|b: Book| b@));
    }
    push_books_from(v, 0, &mut out);
    out.push(']');
    proof {
        assert(out@ =~= json_of_books(v@.map_values(|b: Book| b@)));
    }
    chars_to_string(&out)
}

/// JSON insignificant whitespace.
pub open spec fn is_ws(c: char) -> bool {
    c == ' ' || c == '\t' || c == '\n' || c == '\r'
}

/// The first position at or after `i` holding a non-whitespace character.
pub open spec fn skip_ws(s: Seq<char>, i: int) -> int
    decreases s.len() - i
        when 0 <= i <= s.len()
{
    if i < s.len() && is_ws(s[i]) {
        skip_ws(s, i + 1)
    } else {
        i
    }
}

/// A decimal digit character.
pub open spec fn is_digit(c: char) -> bool {
    48 <= c as u32 <= 57
}

/// The value of a decimal digit character.
pub open spec fn digit_val(c: char) -> int {
    c as u32 - 48
}

/// The end of the digit run starting at `i`.
pub open spec fn digits_end(s: Seq<char>, i: int) -> int
    decreases s.len() - i
        when 0 <= i <= s.len()
{
    if i < s.len() && is_digit(s[i]) {
        digits_end(s, i + 1)
    } else {
        i
    }
}

/// The value of the digits `s[i..j)` read as a decimal numeral.
pub open spec fn digits_val(s: Seq<char>, i: int, j: int) -> int
    decreases j - i,
{
    if j <= i {
        0
    } else {
        digits_val(s, i, j - 1) * 10 + digit_val(s[j - 1])
    }
}

/// Powers of ten.
pub open spec fn pow10(k: int) -> int
    decreases k,
{
    if k <= 0 {
        1
    } else {
        10 * pow10(k - 1)
    }
}

/// The integer denoted at `i` — an optional minus and a digit run without
/// a superfluous leading zero — when there is one and it fits an `i32`,
/// with the position just past it.
pub open spec fn parse_int(s: Seq<char>, i: int) -> Option<(int, int)> {
    let neg = i < s.len() && s[i] == '-';
    let i1: int = if neg {
        i + 1
    } else {
        i
    };
    let j = digits_end(s, i1);
    if j == i1 {
        None
    } else if s[i1] == '0' && j > i1 + 1 {
        None
    } else {
        let v0 = digits_val(s, i1, j);
        let v: int = if neg {
            -v0
        } else {
            v0
        };
        if v < -0x8000_0000 || 0x7FFF_FFFF < v {
            None
        } else {
            Some((v, j))
        }
    }
}

/// A hexadecimal digit character.
pub open spec fn is_hex(c: char) -> bool {
    is_digit(c) || (97 <= c as u32 <= 102) || (65 <= c as u32 <= 70)
}

/// The value of a hexadecimal digit character.
pub open spec fn hex_val(c: char) -> int {
    if is_digit(c) {
        c as u32 - 48
    } else if 97 <= c as u32 <= 102 {
        c as u32 - 87
    } else {
        c as u32 - 55
    }
}

/// The value of the four hexadecimal digits at `i`.
pub open spec fn hex4_val(s: Seq<char>, i: int) -> int {
    ((hex_val(s[i]) * 16 + hex_val(s[i + 1])) * 16 + hex_val(s[i + 2])) * 16 + hex_val(s[i + 3])
}

/// The character a single-letter escape denotes, if any.
pub open spec fn unescape_char(e: char) -> Option<char> {
    if e == '"' {
        Some('"')
    } else if e == '\\' {
        Some('\\')
    } else if e == '/' {
        Some('/')
    } else if e == 'b' {
        Some(8u8 as char)
    } else if e == 'f' {
        Some(12u8 as char)
    } else if e == 'n' {
        Some('\n')
    } else if e == 'r' {
        Some('\r')
    } else if e == 't' {
        Some('\t')
    } else {
        None
    }
}

/// The text a JSON string body denotes, starting just after the opening
/// quote, with the position just past the closing quote.
pub open spec fn parse_str_body(s: Seq<char>, i: int) -> Option<(Seq<char>, int)>
    decreases s.len() - i
        when 0 <= i <= s.len()
{
    if i >= s.len() {
        None
    } else if s[i] == '"' {
        Some((Seq::empty(), i + 1))
    } else if s[i] == '\\' {
        if i + 1 >= s.len() {
            None
        } else if s[i + 1] == 'u' {
            if i + 6 <= s.len() && is_hex(s[i + 2]) && is_hex(s[i + 3]) && is_hex(s[i + 4])
                && is_hex(s[i + 5]) {
                let v = hex4_val(s, i + 2);
                if 0xD800 <= v < 0xE000 {
                    None
                } else {
                    match parse_str_body(s, i + 6) {
                        Some(t) => Some((seq![(v as u32) as char] + t.0, t.1)),
                        None => None,
                    }
                }
            } else {
                None
            }
        } else {
            match unescape_char(s[i + 1]) {
                Some(c) => match parse_str_body(s, i + 2) {
                    Some(t) => Some((seq![c] + t.0, t.1)),
                    None => None,
                },
                None => None,
            }
        }
    } else if (s[i] as u32) < 32 {
        None
    } else {
        match parse_str_body(s, i + 1) {
            Some(t) => Some((seq![s[i]] + t.0, t.1)),
            None => None,
        }
    }
}

/// The text a JSON string literal at `i` denotes, if one stands there.
pub open spec fn parse_jstring(s: Seq<char>, i: int) -> Option<(Seq<char>, int)> {
    if i < s.len() && s[i] == '"' {
        parse_str_body(s, i + 1)
    } else {
        None
    }
}

/// An `i32` field slot seen mathematically.
pub open spec fn oi_view(o: Option<i32>) -> Option<int> {
    match o {
        Some(v) => Some(v as int),
        None => None,
    }
}

/// A text field slot seen mathematically.
pub open spec fn os_view(o: Option<String>) -> Option<Seq<char>> {
    match o {
        Some(v) => Some(v@),
        None => None,
    }
}

/// One `key: value` member and its effect on the three field slots: the
/// key must name a field that is still empty, and the value must have that
/// field's type.
pub open spec fn parse_member(
    s: Seq<char>,
    i: int,
    id_s: Option<int>,
    t_s: Option<Seq<char>>,
    a_s: Option<Seq<char>>,
) -> Option<(Option<int>, Option<Seq<char>>, Option<Seq<char>>, int)> {
    let k0 = skip_ws(s, i);
    match parse_jstring(s, k0) {
        None => None,
        Some(kr) => {
            let c0 = skip_ws(s, kr.1);
            if !(c0 < s.len() && s[c0] == ':') {
                None
            } else {
                let v0 = skip_ws(s, c0 + 1);
                if kr.0 == seq!['i', 'd'] {
                    if id_s is Some {
                        None
                    } else {
                        match parse_int(s, v0) {
                            None => None,
                            Some(vr) => Some((Some(vr.0), t_s, a_s, vr.1)),
                        }
                    }
                } else if kr.0 == seq!['t', 'i', 't', 'l', 'e'] {
                    if t_s is Some {
                        None
                    } else {
                        match parse_jstring(s, v0) {
                            None => None,
                            Some(vr) => Some((id_s, Some(vr.0), a_s, vr.1)),
                        }
                    }
                } else if kr.0 == seq!['a', 'u', 't', 'h', 'o', 'r'] {
                    if a_s is Some {
                        None
                    } else {
                        match parse_jstring(s, v0) {
                            None => None,
                            Some(vr) => Some((id_s, t_s, Some(vr.0), vr.1)),
                        }
                    }
                } else {
                    None
                }
            }
        },
    }
}

/// The book a request body denotes: an object holding exactly the fields
/// id, title and author, once each, in any order, and nothing after it.
pub open spec fn parse_book_text(s: Seq<char>) -> Option<BookView> {
    let i0 = skip_ws(s, 0);
    if !(i0 < s.len() && s[i0] == '{') {
        None
    } else {
        match parse_member(s, i0 + 1, None, None, None) {
            None => None,
            Some(m1) => {
                let j1 = skip_ws(s, m1.3);
                if !(j1 < s.len() && s[j1] == ',') {
                    None
                } else {
                    match parse_member(s, j1 + 1, m1.0, m1.1, m1.2) {
                        None => None,
                        Some(m2) => {
                            let j2 = skip_ws(s, m2.3);
                            if !(j2 < s.len() && s[j2] == ',') {
                                None
                            } else {
                                match parse_member(s, j2 + 1, m2.0, m2.1, m2.2) {
                                    None => None,
                                    Some(m3) => {
                                        let j3 = skip_ws(s, m3.3);
                                        if !(j3 < s.len() && s[j3] == '}') {
                                            None
                                        } else if skip_ws(s, j3 + 1) != s.len() {
                                            None
                                        } else {
                                            match (m3.0, m3.1, m3.2) {
                                                (Some(id), Some(t), Some(a)) => Some(
                                                    BookView { id, title: t, author: a },
                                                ),
                                                _ => None,
                                            }
                                        }
                                    },
                                }
                            }
                        },
                    }
                }
            },
        }
    }
}

/// The digit run: in bounds, and made of digits.
proof fn lemma_digits_end_props(s: Seq<char>, i: int)
    requires
        0 <= i <= s.len(),
    ensures
        i <= digits_end(s, i) <= s.len(),
        forall|k: int| i <= k < digits_end(s, i) ==> is_digit(#[trigger] s[k]),
    decreases s.len() - i,
{
    if i < s.len() && is_digit(s[i]) {
        lemma_digits_end_props(s, i + 1);
    }
}

/// A digit run's value lies below ten to the number of digits.
proof fn lemma_digits_val_upper(s: Seq<char>, i: int, j: int)
    requires
        i <= j,
        forall|k: int| i <= k < j ==> is_digit(#[trigger] s[k]),
    ensures
        0 <= digits_val(s, i, j) < pow10(j - i),
    decreases j - i,
{
    if j > i {
        lemma_digits_val_upper(s, i, j - 1);
        assert(is_digit(s[j - 1]));
    }
}

/// A digit run whose first digit is not zero has a value of at least ten
/// to one less than the number of digits.
proof fn lemma_digits_val_lower(s: Seq<char>, i: int, j: int)
    requires
        i < j,
        forall|k: int| i <= k < j ==> is_digit(#[trigger] s[k]),
        digit_val(s[i]) >= 1,
    ensures
        digits_val(s, i, j) >= pow10(j - i - 1),
    decreases j - i,
{
    if j == i + 1 {
        assert(digits_val(s, i, j) == digit_val(s[i]));
    } else {
        lemma_digits_val_lower(s, i, j - 1);
        assert(is_digit(s[j - 1]));
        assert(digits_val(s, i, j) == digits_val(s, i, j - 1) * 10 + digit_val(s[j - 1]));
        assert(digits_val(s, i, j - 1) * 10 >= pow10(j - i - 2) * 10) by (nonlinear_arith)
            requires
                digits_val(s, i, j - 1) >= pow10(j - i - 2),
        ;
    }
}

/// Powers of ten grow with the exponent.
proof fn lemma_pow10_mono(a: int, b: int)
    requires
        a <= b,
    ensures
        pow10(a) <= pow10(b),
        pow10(a) >= 1,
    decreases b - a,
{
    if a < b {
        lemma_pow10_mono(a, b - 1);
    } else if a == b {
        lemma_pow10_mono_base(a);
    }
}

/// Every power of ten is at least one.
proof fn lemma_pow10_mono_base(a: int)
    ensures
        pow10(a) >= 1,
    decreases a,
{
    if a > 0 {
        lemma_pow10_mono_base(a - 1);
    }
}

/// The first eleven powers of ten, written out.
proof fn lemma_pow10_vals()
    ensures
        pow10(9) == 1_000_000_000,
        pow10(10) == 10_000_000_000,
{
    assert(pow10(0) == 1);
    assert(pow10(1) == 10);
    assert(pow10(2) == 100);
    assert(pow10(3) == 1000);
    assert(pow10(4) == 10000);
    assert(pow10(5) == 100000);
    assert(pow10(6) == 1000000);
    assert(pow10(7) == 10000000);
    assert(pow10(8) == 100000000);
    assert(pow10(9) == 1000000000);
    assert(pow10(10) == 10000000000);
}

/// The first non-whitespace position.
fn skip_ws_exec(cs: &Vec<char>, i: usize) -> (r: usize)
    requires
        i <= cs.len(),
    ensures
        r as int == skip_ws(cs@, i as int),
        i <= r <= cs.len(),
    decreases cs.len() - i,
{
    if i < cs.len() {
        let c = cs[i];
        if c == ' ' || c == '\t' || c == '\n' || c == '\r' {
            return skip_ws_exec(cs, i + 1);
        }
    }
    i
}

/// The end of the digit run.
fn digits_end_exec(cs: &Vec<char>, i: usize) -> (r: usize)
    requires
        i <= cs.len(),
    ensures
        r as int == digits_end(cs@, i as int),
        i <= r <= cs.len(),
    decreases cs.len() - i,
{
    if i < cs.len() {
        let u: u32 = cs[i] as u32;
        if 48 <= u && u <= 57 {
            return digits_end_exec(cs, i + 1);
        }
    }
    i
}

/// The integer at `i`, when well formed and within `i32` range.
pub(crate) fn parse_int_exec(cs: &Vec<char>, i: usize) -> (r: Option<(i32, usize)>)
    requires
        i <= cs.len(),
    ensures
        match r {
            None => parse_int(cs@, i as int) is None,
            Some(v) => parse_int(cs@, i as int) == Some((v.0 as int, v.1 as int)) && i < v.1
                <= cs.len(),
        },
{
    let ghost s = cs@;
    let neg: bool = i < cs.len() && cs[i] == '-';
    let i1: usize = if neg {
        i + 1
    } else {
        i
    };
    let j: usize = digits_end_exec(cs, i1);
    proof {
        lemma_digits_end_props(s, i1 as int);
    }
    if j == i1 {
        return None;
    }
    if cs[i1] == '0' && j > i1 + 1 {
        return None;
    }
    proof {
        lemma_digits_val_upper(s, i1 as int, j as int);
        lemma_pow10_vals();
    }
    if j - i1 > 10 {
        proof {
            assert(is_digit(s[i1 as int]));
            if digit_val(s[i1 as int]) == 0 {
                vstd::utf8::char_u32_cast(s[i1 as int], s[i1 as int] as u32);
                vstd::utf8::char_u32_cast('0', '0' as u32);
                assert(s[i1 as int] == '0');
            }
            assert(digit_val(s[i1 as int]) >= 1);
            lemma_digits_val_lower(s, i1 as int, j as int);
            lemma_pow10_mono(10, j as int - i1 as int - 1);
        }
        return None;
    }
    let mut acc: u64 = 0;
    let mut k: usize = i1;
    while k < j
        invariant
            i1 <= k <= j,
            j <= cs.len(),
            s == cs@,
            j - i1 <= 10,
            forall|t: int| i1 <= t < j ==> is_digit(#[trigger] s[t]),
            acc as int == digits_val(s, i1 as int, k as int),
            0 <= acc as int,
            (acc as int) < pow10(k as int - i1 as int),
        decreases j - k,
    {
        proof {
            lemma_pow10_mono(k as int - i1 as int, 9);
            lemma_pow10_vals();
        }
        let c = cs[k];
        assert(is_digit(s[k as int]));
        let d: u32 = (c as u32) - 48;
        acc = acc * 10 + (d as u64);
        k = k + 1;
    }
    if neg {
        if acc > 0x8000_0000u64 {
            return None;
        }
        let v: i32 = (-(acc as i64)) as i32;
        Some((v, j))
    } else {
        if acc > 0x7FFF_FFFFu64 {
            return None;
        }
        Some((acc as i32, j))
    }
}

/// Whether a character is a hexadecimal digit.
fn is_hex_exec(c: char) -> (r: bool)
    ensures
        r == is_hex(c),
{
    let u: u32 = c as u32;
    (48 <= u && u <= 57) || (97 <= u && u <= 102) || (65 <= u && u <= 70)
}

/// The value of a hexadecimal digit.
fn hex_val_exec(c: char) -> (r: u32)
    requires
        is_hex(c),
    ensures
        r as int == hex_val(c),
        r < 16,
{
    let u: u32 = c as u32;
    if 48 <= u && u <= 57 {
        u - 48
    } else if 97 <= u {
        u - 87
    } else {
        u - 55
    }
}

/// The character a single-letter escape denotes.
fn unescape_exec(e: char) -> (r: Option<char>)
    ensures
        r == unescape_char(e),
{
    if e == '"' {
        Some('"')
    } else if e == '\\' {
        Some('\\')
    } else if e == '/' {
        Some('/')
    } else if e == 'b' {
        Some(8u8 as char)
    } else if e == 'f' {
        Some(12u8 as char)
    } else if e == 'n' {
        Some('\n')
    } else if e == 'r' {
        Some('\r')
    } else if e == 't' {
        Some('\t')
    } else {
        None
    }
}

/// Relies on `char::from_u32`: yields the character for every Unicode
/// scalar value, and nothing for surrogates and out-of-range values.
#[verifier::external_body]
fn char_from_u32(v: u32) -> (r: Option<char>)
    ensures
        r == (if v < 0xD800 || (0xE000 <= v && v <= 0x10FFFF) {
            Some(v as char)
        } else {
            None::<char>
        }),
{
    char::from_u32(v)
}

/// The text of the JSON string body starting just after an opening quote.
fn parse_str_body_exec(cs: &Vec<char>, i: usize) -> (r: Option<(Vec<char>, usize)>)
    requires
        i <= cs.len(),
    ensures
        match r {
            None => parse_str_body(cs@, i as int) is None,
            Some(t) => parse_str_body(cs@, i as int) == Some((t.0@, t.1 as int)) && i < t.1
                <= cs.len(),
        },
    decreases cs.len() - i,
{
    if i >= cs.len() {
        return None;
    }
    let c = cs[i];
    if c == '"' {
        let empty: Vec<char> = Vec::new();
        proof {
            assert(empty@ =~= Seq::<char>::empty());
        }
        return Some((empty, i + 1));
    }
    if c == '\\' {
        if i + 1 >= cs.len() {
            return None;
        }
        let e = cs[i + 1];
        if e == 'u' {
            if cs.len() - i < 6 {
                return None;
            }
            if !(is_hex_exec(cs[i + 2]) && is_hex_exec(cs[i + 3]) && is_hex_exec(cs[i + 4])
                && is_hex_exec(cs[i + 5])) {
                return None;
            }
            let v: u32 = ((hex_val_exec(cs[i + 2]) * 16 + hex_val_exec(cs[i + 3])) * 16
                + hex_val_exec(cs[i + 4])) * 16 + hex_val_exec(cs[i + 5]);
            if 0xD800 <= v && v < 0xE000 {
                return None;
            }
            assert(v as int == hex4_val(cs@, i + 2));
            let ch: char = char_from_u32(v).unwrap();
            match parse_str_body_exec(cs, i + 6) {
                Some(t) => {
                    let (mut tv, tj) = t;
                    let ghost pre = tv@;
                    tv.insert(0, ch);
                    proof {
                        assert(tv@ =~= seq![ch] + pre);
                    }
                    Some((tv, tj))
                },
                None => None,
            }
        } else {
            match unescape_exec(e) {
                None => None,
                Some(ch) => match parse_str_body_exec(cs, i + 2) {
                    Some(t) => {
                        let (mut tv, tj) = t;
                        let ghost pre = tv@;
                        tv.insert(0, ch);
                        proof {
                            assert(tv@ =~= seq![ch] + pre);
                        }
                        Some((tv, tj))
                    },
                    None => None,
                },
            }
        }
    } else if (c as u32) < 32 {
        None
    } else {
        match parse_str_body_exec(cs, i + 1) {
            Some(t) => {
                let (mut tv, tj) = t;
                let ghost pre = tv@;
                tv.insert(0, c);
                proof {
                    assert(tv@ =~= seq![c] + pre);
                }
                Some((tv, tj))
            },
            None => None,
        }
    }
}

/// The text of the JSON string literal at `i`, if one stands there.
fn parse_jstring_exec(cs: &Vec<char>, i: usize) -> (r: Option<(Vec<char>, usize)>)
    requires
        i <= cs.len(),
    ensures
        match r {
            None => parse_jstring(cs@, i as int) is None,
            Some(t) => parse_jstring(cs@, i as int) == Some((t.0@, t.1 as int)) && i < t.1
                <= cs.len(),
        },
{
    if i == cs.len() {
        return None;
    }
    if cs[i] != '"' {
        return None;
    }
    parse_str_body_exec(cs, i + 1)
}

/// One `key: value` member, filling the named field slot.
fn parse_member_exec(
    cs: &Vec<char>,
    i: usize,
    id_s: Option<i32>,
    t_s: Option<String>,
    a_s: Option<String>,
) -> (r: Option<(Option<i32>, Option<String>, Option<String>, usize)>)
    requires
        i <= cs.len(),
    ensures
        match r {
            None => parse_member(cs@, i as int, oi_view(id_s), os_view(t_s), os_view(a_s)) is None,
            Some(m) => parse_member(cs@, i as int, oi_view(id_s), os_view(t_s), os_view(a_s))
                == Some((oi_view(m.0), os_view(m.1), os_view(m.2), m.3 as int)) && m.3 <= cs.len(),
        },
{
    let k0 = skip_ws_exec(cs, i);
    let (key, k1) = match parse_jstring_exec(cs, k0) {
        None => {
            return None;
        },
        Some(t) => t,
    };
    let c0 = skip_ws_exec(cs, k1);
    if c0 == cs.len() || cs[c0] != ':' {
        return None;
    }
    let v0 = skip_ws_exec(cs, c0 + 1);
    let is_id: bool = key.len() == 2 && key[0] == 'i' && key[1] == 'd';
    let is_title: bool = key.len() == 5 && key[0] == 't' && key[1] == 'i' && key[2] == 't' && key[3]
        == 'l' && key[4] == 'e';
    let is_author: bool = key.len() == 6 && key[0] == 'a' && key[1] == 'u' && key[2] == 't' && key[3]
        == 'h' && key[4] == 'o' && key[5] == 'r';
    proof {
        if is_id {
            assert(key@ =~= seq!['i', 'd']);
        }
        if is_title {
            assert(key@ =~= seq!['t', 'i', 't', 'l', 'e']);
        }
        if is_author {
            assert(key@ =~= seq!['a', 'u', 't', 'h', 'o', 'r']);
        }
    }
    if is_id {
        if id_s.is_some() {
            return None;
        }
        match parse_int_exec(cs, v0) {
            None => None,
            Some((v, j)) => Some((Some(v), t_s, a_s, j)),
        }
    } else if is_title {
        if t_s.is_some() {
            return None;
        }
        match parse_jstring_exec(cs, v0) {
            None => None,
            Some((tv, j)) => Some((id_s, Some(chars_to_string(&tv)), a_s, j)),
        }
    } else if is_author {
        if a_s.is_some() {
            return None;
        }
        match parse_jstring_exec(cs, v0) {
            None => None,
            Some((av, j)) => Some((id_s, t_s, Some(chars_to_string(&av)), j)),
        }
    } else {
        None
    }
}

/// The decimal text of an id, as the create handler answers it.
pub fn dec_string_i32(i: i32) -> (r: String)
    ensures
        r@ == dec_of_int(i as int),
{
    let mut out: Vec<char> = Vec::new();
    push_dec_i32(i, &mut out);
    proof {
        assert(out@ =~= dec_of_int(i as int));
    }
    chars_to_string(&out)
}

/// The book a request body denotes, if it is a well-formed JSON object
/// holding exactly the fields id, title and author.
pub fn parse_book(s: &str) -> (r: Option<Book>)
    ensures
        match r {
            Some(b) => parse_book_text(s@) == Some(b@),
            None => parse_book_text(s@) is None,
        },
{
    let cs = str_chars(s);
    let i0 = skip_ws_exec(&cs, 0);
    if i0 == cs.len() || cs[i0] != '{' {
        return None;
    }
    let m1 = match parse_member_exec(&cs, i0 + 1, None, None, None) {
        None => {
            return None;
        },
        Some(m) => m,
    };
    let j1 = skip_ws_exec(&cs, m1.3);
    if j1 == cs.len() || cs[j1] != ',' {
        return None;
    }
    let m2 = match parse_member_exec(&cs, j1 + 1, m1.0, m1.1, m1.2) {
        None => {
            return None;
        },
        Some(m) => m,
    };
    let j2 = skip_ws_exec(&cs, m2.3);
    if j2 == cs.len() || cs[j2] != ',' {
        return None;
    }
    let m3 = match parse_member_exec(&cs, j2 + 1, m2.0, m2.1, m2.2) {
        None => {
            return None;
        },
        Some(m) => m,
    };
    let j3 = skip_ws_exec(&cs, m3.3);
    if j3 == cs.len() || cs[j3] != '}' {
        return None;
    }
    if skip_ws_exec(&cs, j3 + 1) != cs.len() {
        return None;
    }
    match (m3.0, m3.1, m3.2) {
        (Some(id), Some(t), Some(a)) => Some(Book { id, title: t, author: a }),
        _ => None,
    }
}

/// A digit run's value depends only on the characters in the window.
proof fn lemma_digits_val_congruent(s1: Seq<char>, s2: Seq<char>, i1: int, i2: int, n: int)
    requires
        n >= 0,
        forall|k: int| 0 <= k < n ==> #[trigger] s1[i1 + k] == s2[i2 + k],
    ensures
        digits_val(s1, i1, i1 + n) == digits_val(s2, i2, i2 + n),
    decreases n,
{
    if n > 0 {
        lemma_digits_val_congruent(s1, s2, i1, i2, n - 1);
        assert(s1[i1 + (n - 1)] == s2[i2 + (n - 1)]);
    }
}

/// The decimal form of a non-negative integer: at least one character, all
/// digits, no superfluous leading zero, and its numeral reads back as the
/// integer itself.
proof fn lemma_dec_of_nat_props(n: int)
    requires
        n >= 0,
    ensures
        dec_of_nat(n).len() >= 1,
        forall|k: int| 0 <= k < dec_of_nat(n).len() ==> is_digit(#[trigger] dec_of_nat(n)[k]),
        n >= 1 ==> digit_val(dec_of_nat(n)[0]) >= 1,
        n >= 10 ==> dec_of_nat(n).len() >= 2,
        digits_val(dec_of_nat(n), 0, dec_of_nat(n).len() as int) == n,
    decreases n,
{
    if n < 10 {
        let s = dec_of_nat(n);
        assert(s == seq![dec_digit(n)]);
        assert(dec_digit(n) as u32 == 48 + n);
        assert(digits_val(s, 0, 1) == digits_val(s, 0, 0) * 10 + digit_val(s[0]));
    } else {
        lemma_dec_of_nat_props(n / 10);
        let p = dec_of_nat(n / 10);
        let s = dec_of_nat(n);
        assert(s == p + seq![dec_digit(n % 10)]);
        assert(dec_digit(n % 10) as u32 == 48 + n % 10);
        assert(forall|k: int| 0 <= k < p.len() ==> s[k] == p[k]);
        assert(is_digit(s[p.len() as int]));
        lemma_digits_val_congruent(s, p, 0, 0, p.len() as int);
        assert(digits_val(s, 0, s.len() as int) == digits_val(s, 0, p.len() as int) * 10
            + digit_val(s[p.len() as int]));
        assert(digits_val(s, 0, s.len() as int) == (n / 10) * 10 + n % 10);
    }
}

/// A digit window bounded by a non-digit (or the end) is the digit run.
proof fn lemma_digits_end_window(s: Seq<char>, i: int, j: int)
    requires
        0 <= i <= j <= s.len(),
        forall|k: int| i <= k < j ==> is_digit(#[trigger] s[k]),
        j < s.len() ==> !is_digit(s[j]),
    ensures
        digits_end(s, i) == j,
    decreases j - i,
{
    if i < j {
        lemma_digits_end_window(s, i + 1, j);
    }
}

/// Reading back a written integer yields the integer, and stops exactly at
/// the first character after it.
proof fn lemma_parse_int_of_dec(s: Seq<char>, i: int, v: int)
    requires
        -0x8000_0000 <= v <= 0x7FFF_FFFF,
        0 <= i,
        i + dec_of_int(v).len() < s.len(),
        forall|k: int| i <= k < i + dec_of_int(v).len() ==> #[trigger] s[k] == dec_of_int(v)[k - i],
        !is_digit(s[i + dec_of_int(v).len()]),
    ensures
        parse_int(s, i) == Some((v, i + dec_of_int(v).len())),
{
    let d = dec_of_int(v);
    if v < 0 {
        let m = dec_of_nat(-v);
        lemma_dec_of_nat_props(-v);
        assert(d == seq!['-'] + m);
        assert(s[i] == d[0]);
        assert(s[i] == '-');
        let i1 = i + 1;
        assert forall|k: int| i1 <= k < i1 + m.len() implies #[trigger] s[k] == m[k - i1] by {
            assert(s[k] == d[k - i]);
            assert(d[k - i] == m[k - i - 1]);
        }
        assert forall|k: int| i1 <= k < i1 + m.len() implies is_digit(#[trigger] s[k]) by {
            assert(s[k] == m[k - i1]);
            assert(is_digit(m[k - i1]));
        }
        lemma_digits_end_window(s, i1, i1 + m.len() as int);
        assert(s[i1] == m[0]);
        if -v >= 10 {
            assert(digit_val(m[0]) >= 1);
            assert(s[i1] != '0') by {
                if s[i1] == '0' {
                    assert(s[i1] as u32 == 48);
                }
            }
        }
        lemma_digits_val_congruent(s, m, i1, 0, m.len() as int);
    } else {
        let m = dec_of_nat(v);
        lemma_dec_of_nat_props(v);
        assert(d == m);
        assert(s[i] == m[0]);
        assert(is_digit(s[i]));
        assert(s[i] != '-') by {
            if s[i] == '-' {
                assert(s[i] as u32 == 45);
            }
        }
        assert forall|k: int| i <= k < i + m.len() implies is_digit(#[trigger] s[k]) by {
            assert(s[k] == m[k - i]);
            assert(is_digit(m[k - i]));
        }
        lemma_digits_end_window(s, i, i + m.len() as int);
        if v >= 10 {
            assert(digit_val(m[0]) >= 1);
            assert(s[i] != '0') by {
                if s[i] == '0' {
                    assert(s[i] as u32 == 48);
                }
            }
        }
        lemma_digits_val_congruent(s, m, i, 0, m.len() as int);
    }
}

/// A hexadecimal digit character reads back as its value.
proof fn lemma_hex_digit_inv(x: int)
    requires
        0 <= x < 16,
    ensures
        is_hex(hex_digit(x)),
        hex_val(hex_digit(x)) == x,
{
    if x < 10 {
        assert(hex_digit(x) as u32 == 48 + x);
    } else {
        assert(hex_digit(x) as u32 == 87 + x);
    }
}

/// Reading back an escaped text yields the text, and stops just past the
/// closing quote.
proof fn lemma_parse_of_escaped(s: Seq<char>, i: int, t: Seq<char>)
    requires
        0 <= i,
        i + escape_seq(t).len() + 1 <= s.len(),
        forall|k: int| i <= k < i + escape_seq(t).len() ==> #[trigger] s[k] == escape_seq(t)[k - i],
        s[i + escape_seq(t).len()] == '"',
    ensures
        parse_str_body(s, i) == Some((t, i + escape_seq(t).len() + 1)),
    decreases t.len(),
{
    if t.len() == 0 {
        assert(escape_seq(t).len() == 0);
        assert(s[i] == '"');
    } else {
        let c = t[0];
        let e = escape_char(c);
        let rest = escape_seq(t.skip(1));
        assert(escape_seq(t) == e + rest);
        assert(1 <= e.len() <= 6);
        assert forall|k: int| 0 <= k < e.len() implies s[i + k] == e[k] by {
            assert(s[i + k] == escape_seq(t)[k]);
            assert(escape_seq(t)[k] == e[k]);
        }
        let i2 = i + e.len();
        assert forall|k: int| i2 <= k < i2 + rest.len() implies #[trigger] s[k] == rest[k - i2] by {
            assert(s[k] == escape_seq(t)[k - i]);
            assert(escape_seq(t)[k - i] == rest[k - i - e.len()]);
        }
        assert(s[i2 + rest.len()] == '"');
        lemma_parse_of_escaped(s, i2, t.skip(1));
        let end = i + escape_seq(t).len() + 1;
        assert(end == i2 + rest.len() + 1);
        if c == '"' || c == '\\' || c == '\n' || c == '\r' || c == '\t' || c as u32 == 8 || c as u32
            == 12 {
            assert(e.len() == 2);
            assert(s[i] == '\\' && s[i + 1] == e[1]);
            assert(s[i + 1] != 'u');
            assert(unescape_char(s[i + 1]) == Some(c)) by {
                if c as u32 == 8 {
                    assert(e[1] == 'b');
                    assert(unescape_char('b') == Some(8u8 as char));
                    assert((8u8 as char) as u32 == 8);
                    vstd::utf8::char_u32_cast(c, 8);
                    vstd::utf8::char_u32_cast(8u8 as char, 8);
                } else if c as u32 == 12 {
                    assert(e[1] == 'f');
                    assert((12u8 as char) as u32 == 12);
                    vstd::utf8::char_u32_cast(c, 12);
                    vstd::utf8::char_u32_cast(12u8 as char, 12);
                }
            }
            assert(parse_str_body(s, i) == Some((seq![c] + t.skip(1), end)));
            assert(seq![c] + t.skip(1) =~= t);
        } else if (c as u32) < 32 {
            let c32 = c as u32;
            assert(e == seq!['\\', 'u', '0', '0', hex_digit(c32 as int / 16), hex_digit(
                c32 as int % 16,
            )]);
            assert(s[i] == '\\' && s[i + 1] == 'u' && s[i + 2] == '0' && s[i + 3] == '0');
            assert(s[i + 4] == hex_digit(c32 as int / 16) && s[i + 5] == hex_digit(
                c32 as int % 16,
            ));
            lemma_hex_digit_inv(c32 as int / 16);
            lemma_hex_digit_inv(c32 as int % 16);
            assert(is_hex('0') && hex_val('0') == 0) by {
                assert('0' as u32 == 48);
            }
            assert(hex4_val(s, i + 2) == c32 as int);
            assert(!(0xD800 <= hex4_val(s, i + 2) < 0xE000));
            assert(((hex4_val(s, i + 2) as u32) as char) == c) by {
                assert(hex4_val(s, i + 2) as u32 == c32);
                vstd::utf8::char_u32_cast(c, c32);
            }
            assert(parse_str_body(s, i) == Some((seq![c] + t.skip(1), end)));
            assert(seq![c] + t.skip(1) =~= t);
        } else {
            assert(e == seq![c]);
            assert(s[i] == c);
            assert(s[i] != '"' && s[i] != '\\' && !((s[i] as u32) < 32));
            assert(parse_str_body(s, i) == Some((seq![c] + t.skip(1), end)));
            assert(seq![c] + t.skip(1) =~= t);
        }
    }
}

/// Reading back a written string literal yields its text, and stops just
/// past the closing quote.
proof fn lemma_parse_jstring_of(s: Seq<char>, i: int, t: Seq<char>)
    requires
        0 <= i,
        i + json_string(t).len() <= s.len(),
        forall|k: int| i <= k < i + json_string(t).len() ==> #[trigger] s[k] == json_string(t)[k
            - i],
    ensures
        parse_jstring(s, i) == Some((t, i + json_string(t).len())),
{
    let e = escape_seq(t);
    let j = json_string(t);
    assert(j == seq!['"'] + e + seq!['"']);
    assert(j.len() == e.len() + 2);
    assert(s[i] == j[0]);
    assert(j[0] == '"');
    assert forall|k: int| i + 1 <= k < i + 1 + e.len() implies #[trigger] s[k] == e[k - (i + 1)] by {
        assert(s[k] == j[k - i]);
        assert(j[k - i] == (seq!['"'] + e)[k - i]);
        assert((seq!['"'] + e)[k - i] == e[k - i - 1]);
    }
    assert(s[i + 1 + e.len()] == j[e.len() as int + 1]);
    assert(j[e.len() as int + 1] == '"');
    lemma_parse_of_escaped(s, i + 1, t);
}

/// A text of ordinary characters — no quote, no backslash, nothing below
/// space — escapes to itself.
proof fn lemma_escape_seq_plain(t: Seq<char>)
    requires
        forall|k: int| 0 <= k < t.len() ==> (#[trigger] t[k]) != '"' && t[k] != '\\' && t[k] as u32
            >= 32,
    ensures
        escape_seq(t) == t,
    decreases t.len(),
{
    if t.len() > 0 {
        let c = t[0];
        assert(c as u32 != 8 && c as u32 != 12 && c != '\n' && c != '\r' && c != '\t') by {
            assert(c as u32 >= 32);
            if c == '\n' {
                assert(c as u32 == 10);
            }
            if c == '\r' {
                assert(c as u32 == 13);
            }
            if c == '\t' {
                assert(c as u32 == 9);
            }
        }
        assert(escape_char(c) == seq![c]);
        assert forall|k: int| 0 <= k < t.skip(1).len() implies (#[trigger] t.skip(1)[k]) != '"'
            && t.skip(1)[k] != '\\' && t.skip(1)[k] as u32 >= 32 by {
            assert(t.skip(1)[k] == t[k + 1]);
        }
        lemma_escape_seq_plain(t.skip(1));
        assert(escape_seq(t) =~= t) by {
            assert(escape_seq(t) == seq![c] + t.skip(1));
        }
    }
}

/// A character other than space, tab, line feed and carriage return is no
/// JSON whitespace.
proof fn lemma_not_ws(c: char)
    requires
        c as u32 != 32,
        c as u32 != 9,
        c as u32 != 10,
        c as u32 != 13,
    ensures
        !is_ws(c),
{
    if c == ' ' {
        assert(c as u32 == 32);
    }
    if c == '\t' {
        assert(c as u32 == 9);
    }
    if c == '\n' {
        assert(c as u32 == 10);
    }
    if c == '\r' {
        assert(c as u32 == 13);
    }
}

/// Law: reading back a written book yields exactly that book — the JSON
/// writer and reader invert each other on every book whose id fits an
/// `i32`.
#[verifier::rlimit(100)]
#[verifier::spinoff_prover]
pub proof fn lemma_json_round_trip(b: BookView)
    requires
        -0x8000_0000 <= b.id <= 0x7FFF_FFFF,
    ensures
        parse_book_text(json_of_book(b)) == Some(b),
{
    let s = json_of_book(b);
    let a1 = seq!['{', '"', 'i', 'd', '"', ':'];
    let d = dec_of_int(b.id);
    let a2 = seq![',', '"', 't', 'i', 't', 'l', 'e', '"', ':'];
    let jt = json_string(b.title);
    let a3 = seq![',', '"', 'a', 'u', 't', 'h', 'o', 'r', '"', ':'];
    let ja = json_string(b.author);
    let p2 = 6 + d.len() as int;
    let p3 = p2 + 9;
    let p4 = p3 + jt.len() as int;
    let p5 = p4 + 10;
    let p6 = p5 + ja.len() as int;
    assert(s == a1 + d + a2 + jt + a3 + ja + seq!['}']);
    assert(s.len() == p6 + 1);
    assert forall|k: int| 0 <= k < s.len() implies #[trigger] s[k] == (if k < 6 {
        a1[k]
    } else if k < p2 {
        d[k - 6]
    } else if k < p3 {
        a2[k - p2]
    } else if k < p4 {
        jt[k - p3]
    } else if k < p5 {
        a3[k - p4]
    } else if k < p6 {
        ja[k - p5]
    } else {
        '}'
    }) by {
        let u1 = a1 + d;
        let u2 = u1 + a2;
        let u3 = u2 + jt;
        let u4 = u3 + a3;
        let u5 = u4 + ja;
        assert(s[k] == (u5 + seq!['}'])[k]);
    }
    let key_id = seq!['i', 'd'];
    let key_title = seq!['t', 'i', 't', 'l', 'e'];
    let key_author = seq!['a', 'u', 't', 'h', 'o', 'r'];
    assert(escape_seq(key_id) == key_id) by {
        assert forall|k: int| 0 <= k < key_id.len() implies (#[trigger] key_id[k]) != '"'
            && key_id[k] != '\\' && key_id[k] as u32 >= 32 by {
            if k == 0 {
                assert(key_id[0] == 'i' && 'i' as u32 == 105);
            } else {
                assert(key_id[1] == 'd' && 'd' as u32 == 100);
            }
        }
        lemma_escape_seq_plain(key_id);
    }
    assert(escape_seq(key_title) == key_title) by {
        assert forall|k: int| 0 <= k < key_title.len() implies (#[trigger] key_title[k]) != '"'
            && key_title[k] != '\\' && key_title[k] as u32 >= 32 by {
            if k == 0 {
                assert(key_title[0] == 't' && 't' as u32 == 116);
            } else if k == 1 {
                assert(key_title[1] == 'i' && 'i' as u32 == 105);
            } else if k == 2 {
                assert(key_title[2] == 't');
            } else if k == 3 {
                assert(key_title[3] == 'l' && 'l' as u32 == 108);
            } else {
                assert(key_title[4] == 'e' && 'e' as u32 == 101);
            }
        }
        lemma_escape_seq_plain(key_title);
    }
    assert(escape_seq(key_author) == key_author) by {
        assert forall|k: int| 0 <= k < key_author.len() implies (#[trigger] key_author[k]) != '"'
            && key_author[k] != '\\' && key_author[k] as u32 >= 32 by {
            if k == 0 {
                assert(key_author[0] == 'a' && 'a' as u32 == 97);
            } else if k == 1 {
                assert(key_author[1] == 'u' && 'u' as u32 == 117);
            } else if k == 2 {
                assert(key_author[2] == 't' && 't' as u32 == 116);
            } else if k == 3 {
                assert(key_author[3] == 'h' && 'h' as u32 == 104);
            } else if k == 4 {
                assert(key_author[4] == 'o' && 'o' as u32 == 111);
            } else {
                assert(key_author[5] == 'r' && 'r' as u32 == 114);
            }
        }
        lemma_escape_seq_plain(key_author);
    }
    assert(json_string(key_id).len() == 4);
    assert(json_string(key_title).len() == 7);
    assert(json_string(key_author).len() == 8);
    assert(a1 =~= seq!['{'] + json_string(key_id) + seq![':']);
    assert(a2 =~= seq![','] + json_string(key_title) + seq![':']);
    assert(a3 =~= seq![','] + json_string(key_author) + seq![':']);
    // the id member
    assert(skip_ws(s, 0) == 0) by {
        assert(s[0] == '{');
        lemma_not_ws('{');
    }
    assert(s[0] == '{');
    assert forall|k: int| 1 <= k < 1 + json_string(key_id).len() implies #[trigger] s[k]
        == json_string(key_id)[k - 1] by {
        assert(s[k] == a1[k]);
        assert(a1[k] == (seq!['{'] + json_string(key_id) + seq![':'])[k]);
    }
    lemma_parse_jstring_of(s, 1, key_id);
    assert(skip_ws(s, 1) == 1) by {
        assert(s[1] == '"');
        lemma_not_ws('"');
    }
    assert(skip_ws(s, 5) == 5) by {
        assert(s[5] == ':');
        lemma_not_ws(':');
    }
    assert(s[5] == ':');
    lemma_dec_of_nat_props(if b.id < 0 {
        -b.id
    } else {
        b.id
    });
    assert(skip_ws(s, 6) == 6) by {
        assert(s[6] == d[0]);
        if b.id < 0 {
            assert(d[0] == '-' && '-' as u32 == 45);
        } else {
            assert(is_digit(d[0]));
        }
        lemma_not_ws(d[0]);
    }
    assert(!is_digit(s[p2])) by {
        assert(s[p2] == a2[0]);
        assert(a2[0] == ',' && ',' as u32 == 44);
    }
    assert forall|k: int| 6 <= k < 6 + d.len() implies #[trigger] s[k] == d[k - 6] by {}
    lemma_parse_int_of_dec(s, 6, b.id);
    assert(parse_member(s, 1, None, None, None) == Some(
        (Some(b.id), None::<Seq<char>>, None::<Seq<char>>, p2),
    ));
    // the title member
    assert(skip_ws(s, p2) == p2) by {
        assert(s[p2] == ',');
        lemma_not_ws(',');
    }
    assert(s[p2] == ',');
    assert(skip_ws(s, p2 + 1) == p2 + 1) by {
        assert(s[p2 + 1] == a2[1]);
        assert(a2[1] == '"');
        lemma_not_ws('"');
    }
    assert forall|k: int| p2 + 1 <= k < p2 + 1 + json_string(key_title).len() implies #[trigger] s[k]
        == json_string(key_title)[k - (p2 + 1)] by {
        assert(s[k] == a2[k - p2]);
        assert(a2[k - p2] == (seq![','] + json_string(key_title) + seq![':'])[k - p2]);
    }
    lemma_parse_jstring_of(s, p2 + 1, key_title);
    assert(skip_ws(s, p2 + 8) == p2 + 8) by {
        assert(s[p2 + 8] == a2[8]);
        assert(a2[8] == ':');
        lemma_not_ws(':');
    }
    assert(s[p2 + 8] == ':');
    assert(skip_ws(s, p3) == p3) by {
        assert(s[p3] == jt[0]);
        assert(jt[0] == '"');
        lemma_not_ws('"');
    }
    assert(key_title != key_id);
    assert forall|k: int| p3 <= k < p3 + jt.len() implies #[trigger] s[k] == jt[k - p3] by {}
    lemma_parse_jstring_of(s, p3, b.title);
    assert(parse_member(s, p2 + 1, Some(b.id), None, None) == Some(
        (Some(b.id), Some(b.title), None::<Seq<char>>, p4),
    ));
    // the author member
    assert(skip_ws(s, p4) == p4) by {
        assert(s[p4] == a3[0]);
        assert(a3[0] == ',');
        lemma_not_ws(',');
    }
    assert(s[p4] == ',');
    assert(skip_ws(s, p4 + 1) == p4 + 1) by {
        assert(s[p4 + 1] == a3[1]);
        assert(a3[1] == '"');
        lemma_not_ws('"');
    }
    assert forall|k: int| p4 + 1 <= k < p4 + 1 + json_string(key_author).len() implies #[trigger] s[k] == json_string(key_author)[k - (p4 + 1)] by {
        assert(s[k] == a3[k - p4]);
        assert(a3[k - p4] == (seq![','] + json_string(key_author) + seq![':'])[k - p4]);
    }
    lemma_parse_jstring_of(s, p4 + 1, key_author);
    assert(skip_ws(s, p4 + 9) == p4 + 9) by {
        assert(s[p4 + 9] == a3[9]);
        assert(a3[9] == ':');
        lemma_not_ws(':');
    }
    assert(s[p4 + 9] == ':');
    assert(skip_ws(s, p5) == p5) by {
        assert(s[p5] == ja[0]);
        assert(ja[0] == '"');
        lemma_not_ws('"');
    }
    assert(key_author != key_id);
    assert(key_author != key_title);
    assert forall|k: int| p5 <= k < p5 + ja.len() implies #[trigger] s[k] == ja[k - p5] by {}
    lemma_parse_jstring_of(s, p5, b.author);
    assert(parse_member(s, p4 + 1, Some(b.id), Some(b.title), None) == Some(
        (Some(b.id), Some(b.title), Some(b.author), p6),
    ));
    // the end of the object
    assert(skip_ws(s, p6) == p6) by {
        assert(s[p6] == '}');
        lemma_not_ws('}');
    }
    assert(s[p6] == '}');
    assert(skip_ws(s, p6 + 1) == p6 + 1);
    assert(parse_book_text(s) == Some(BookView { id: b.id, title: b.title, author: b.author }));
}

} // verus!
