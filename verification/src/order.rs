//! The catalogue's sort order: code-point order on text, applied to the
//! (title, author) pair.  The store keeps its rows sorted by this order,
//! which is the order a binary-collated `ORDER BY title, author` yields.

use vstd::prelude::*;
use crate::book::BookView;

verus! {

/// Lexicographic (code-point) order on character sequences, non-strict:
/// `a` is a prefix of `b`, or `a` is smaller at the first differing position.
pub open spec fn lex_le(a: Seq<char>, b: Seq<char>) -> bool
    decreases a.len(),
{
    if a.len() == 0 {
        true
    } else if b.len() == 0 {
        false
    } else if (a[0] as u32) < (b[0] as u32) {
        true
    } else if (b[0] as u32) < (a[0] as u32) {
        false
    } else {
        lex_le(a.skip(1), b.skip(1))
    }
}

/// Rows are ordered by title first, then author; the id never takes part.
pub open spec fn book_le(a: BookView, b: BookView) -> bool {
    if a.title == b.title {
        lex_le(a.author, b.author)
    } else {
        lex_le(a.title, b.title)
    }
}

/// Any two character sequences are comparable.
pub proof fn lemma_lex_le_total(a: Seq<char>, b: Seq<char>)
    ensures
        lex_le(a, b) || lex_le(b, a),
    decreases a.len(),
{
    if a.len() != 0 && b.len() != 0 && !((a[0] as u32) < (b[0] as u32)) && !((b[0] as u32) < (a[0]
        as u32)) {
        lemma_lex_le_total(a.skip(1), b.skip(1));
    }
}

/// Mutually ordered character sequences are equal.
pub proof fn lemma_lex_le_antisym(a: Seq<char>, b: Seq<char>)
    requires
        lex_le(a, b),
        lex_le(b, a),
    ensures
        a == b,
    decreases a.len(),
{
    if a.len() == 0 {
        assert(b.len() == 0);
        assert(a =~= b);
    } else {
        vstd::utf8::char_u32_cast(a[0], a[0] as u32);
        vstd::utf8::char_u32_cast(b[0], b[0] as u32);
        assert(a[0] == b[0]);
        lemma_lex_le_antisym(a.skip(1), b.skip(1));
        assert forall|i: int| 0 <= i < a.len() implies a[i] == b[i] by {
            if i > 0 {
                assert(a[i] == a.skip(1)[i - 1]);
                assert(b[i] == b.skip(1)[i - 1]);
            }
        }
        assert(a =~= b);
    }
}

/// The order on character sequences is transitive.
pub proof fn lemma_lex_le_trans(a: Seq<char>, b: Seq<char>, c: Seq<char>)
    requires
        lex_le(a, b),
        lex_le(b, c),
    ensures
        lex_le(a, c),
    decreases a.len(),
{
    if a.len() != 0 && b.len() != 0 && c.len() != 0 {
        if !((a[0] as u32) < (c[0] as u32)) && !((c[0] as u32) < (a[0] as u32)) {
            if !((a[0] as u32) < (b[0] as u32)) && !((b[0] as u32) < (a[0] as u32)) {
                lemma_lex_le_trans(a.skip(1), b.skip(1), c.skip(1));
            }
        }
    }
}

/// Any two rows are comparable in the (title, author) order.
pub proof fn lemma_book_le_total(a: BookView, b: BookView)
    ensures
        book_le(a, b) || book_le(b, a),
{
    lemma_lex_le_total(a.title, b.title);
    lemma_lex_le_total(a.author, b.author);
}

/// The (title, author) order on rows is transitive.
pub proof fn lemma_book_le_trans(a: BookView, b: BookView, c: BookView)
    requires
        book_le(a, b),
        book_le(b, c),
    ensures
        book_le(a, c),
{
    if a.title == b.title && b.title == c.title {
        lemma_lex_le_trans(a.author, b.author, c.author);
    } else if a.title != b.title && b.title != c.title {
        lemma_lex_le_trans(a.title, b.title, c.title);
        if a.title == c.title {
            lemma_lex_le_antisym(a.title, b.title);
        }
    }
}

/// Compares two strings in code-point order.
pub fn str_le(a: &str, b: &str) -> (r: bool)
    ensures
        r == lex_le(a@, b@),
{
    let a_len: usize = a.unicode_len();
    let b_len: usize = b.unicode_len();
    let mut i: usize = 0;
    proof {
        assert(a@.skip(0) =~= a@);
        assert(b@.skip(0) =~= b@);
    }
    loop
        invariant
            i <= a_len,
            i <= b_len,
            a_len == a@.len(),
            b_len == b@.len(),
            lex_le(a@, b@) == lex_le(a@.skip(i as int), b@.skip(i as int)),
        decreases a_len - i,
    {
        if i == a_len {
            assert(a@.skip(i as int).len() == 0);
            return true;
        }
        if i == b_len {
            assert(b@.skip(i as int).len() == 0);
            assert(a@.skip(i as int).len() > 0);
            return false;
        }
        let ca = a.get_char(i);
        let cb = b.get_char(i);
        assert(a@.skip(i as int)[0] == a@[i as int]);
        assert(b@.skip(i as int)[0] == b@[i as int]);
        if (ca as u32) < (cb as u32) {
            return true;
        }
        if (cb as u32) < (ca as u32) {
            return false;
        }
        proof {
            assert(a@.skip(i as int).skip(1) =~= a@.skip(i + 1));
            assert(b@.skip(i as int).skip(1) =~= b@.skip(i + 1));
        }
        i = i + 1;
    }
}

/// Compares two books in the catalogue order: title first, then author.
pub fn book_le_exec(a: &crate::book::Book, b: &crate::book::Book) -> (r: bool)
    ensures
        r == book_le(a@, b@),
{
    let titles_equal: bool = a.title == b.title;
    if titles_equal {
        str_le(a.author.as_str(), b.author.as_str())
    } else {
        str_le(a.title.as_str(), b.title.as_str())
    }
}

} // verus!
