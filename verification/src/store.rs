//! The storage model: a books table with unique ids, kept in the catalogue
//! order (title, then author), together with the five operations the service
//! performs on it — list, get by id, insert with a fresh id, replace title
//! and author in place, and delete by id.
//!
//! The surrounding application keeps the same table in a relational
//! database; this type is the specification of what those statements do,
//! and the laws at the bottom of the file state the guarantees the service
//! gives its callers.

use vstd::prelude::*;
use crate::book::{Book, BookView};
use crate::order::{book_le, lemma_book_le_total, lemma_book_le_trans, book_le_exec};

verus! {

/// Why a storage operation failed: the lookup matched no row, or the store
/// itself could not carry the operation out (for the in-memory model, only
/// id exhaustion; for a real database also connectivity and constraint
/// failures).
#[derive(Clone, Copy, PartialEq, Eq, Structural, Debug)]
pub enum DbError {
    NotFound,
    StorageError,
}

/// Mathematical image of the store: the rows in catalogue order, and the id
/// the next insertion will receive.
pub struct StoreView {
    pub rows: Seq<BookView>,
    pub next_id: int,
}

/// The rows stand in (title, author) order.
pub open spec fn sorted(rows: Seq<BookView>) -> bool {
    forall|i: int, j: int|
        0 <= i < j < rows.len() ==> book_le(#[trigger] rows[i], #[trigger] rows[j])
}

/// No two rows share an id.
pub open spec fn ids_unique(rows: Seq<BookView>) -> bool {
    forall|i: int, j: int|
        0 <= i < j < rows.len() ==> (#[trigger] rows[i]).id != (#[trigger] rows[j]).id
}

/// Some row carries the id.
pub open spec fn has_id(rows: Seq<BookView>, id: int) -> bool {
    exists|i: int| 0 <= i < rows.len() && (#[trigger] rows[i]).id == id
}

/// The first row carrying the id, if any.
pub open spec fn lookup(rows: Seq<BookView>, id: int) -> Option<BookView>
    decreases rows.len(),
{
    if rows.len() == 0 {
        None
    } else if rows[0].id == id {
        Some(rows[0])
    } else {
        lookup(rows.skip(1), id)
    }
}

/// Where a new row belongs: past every row that is at or before it in the
/// catalogue order, so that a row with an equal (title, author) key keeps
/// its earlier position.
pub open spec fn insert_pos(rows: Seq<BookView>, b: BookView) -> int
    decreases rows.len(),
{
    if rows.len() == 0 {
        0
    } else if book_le(rows[0], b) {
        1 + insert_pos(rows.skip(1), b)
    } else {
        0
    }
}

/// The rows with `b` inserted at its ordered position.
pub open spec fn insert_row(rows: Seq<BookView>, b: BookView) -> Seq<BookView> {
    rows.insert(insert_pos(rows, b), b)
}

/// The rows with the first row carrying `id` removed; unchanged when no row
/// carries it.
pub open spec fn remove_id(rows: Seq<BookView>, id: int) -> Seq<BookView>
    decreases rows.len(),
{
    if rows.len() == 0 {
        rows
    } else if rows[0].id == id {
        rows.skip(1)
    } else {
        seq![rows[0]] + remove_id(rows.skip(1), id)
    }
}

impl StoreView {
    /// The store's invariant: rows sorted, ids unique, every id at least 1
    /// and below the next free id, which itself fits in an `i32`.
    pub open spec fn wf(self) -> bool {
        &&& sorted(self.rows)
        &&& ids_unique(self.rows)
        &&& 1 <= self.next_id <= i32::MAX as int
        &&& forall|i: int|
            0 <= i < self.rows.len() ==> 1 <= (#[trigger] self.rows[i]).id < self.next_id
    }

    /// An insertion succeeds as long as a fresh id remains.
    pub open spec fn can_add(self) -> bool {
        self.next_id < i32::MAX as int
    }

    /// The store after inserting a new row with the next free id.
    pub open spec fn add_model(self, title: Seq<char>, author: Seq<char>) -> StoreView {
        StoreView {
            rows: insert_row(self.rows, BookView { id: self.next_id, title, author }),
            next_id: self.next_id + 1,
        }
    }

    /// The store after replacing the title/author of the row carrying
    /// `b.id`; unchanged when no row carries it.
    pub open spec fn update_model(self, b: BookView) -> StoreView {
        if lookup(self.rows, b.id) is Some {
            StoreView { rows: insert_row(remove_id(self.rows, b.id), b), next_id: self.next_id }
        } else {
            self
        }
    }

    /// The store after deleting the row carrying `id`; unchanged when no
    /// row carries it.
    pub open spec fn delete_model(self, id: int) -> StoreView {
        StoreView { rows: remove_id(self.rows, id), next_id: self.next_id }
    }
}

/// A row found at an index is what `lookup` returns for its id.
proof fn lemma_lookup_index(rows: Seq<BookView>, id: int, i: int)
    requires
        ids_unique(rows),
        0 <= i < rows.len(),
        rows[i].id == id,
    ensures
        lookup(rows, id) == Some(rows[i]),
    decreases rows.len(),
{
    if i > 0 {
        assert(rows[0].id != rows[i].id);
        assert(ids_unique(rows.skip(1))) by {
            assert forall|p: int, q: int|
                0 <= p < q < rows.skip(1).len() implies (#[trigger] rows.skip(1)[p]).id != (
            #[trigger] rows.skip(1)[q]).id by {
                assert(rows.skip(1)[p] == rows[p + 1]);
                assert(rows.skip(1)[q] == rows[q + 1]);
            }
        }
        assert(rows.skip(1)[i - 1] == rows[i]);
        lemma_lookup_index(rows.skip(1), id, i - 1);
    }
}

/// When no row carries the id, `lookup` returns nothing.
proof fn lemma_lookup_absent(rows: Seq<BookView>, id: int)
    requires
        forall|i: int| 0 <= i < rows.len() ==> (#[trigger] rows[i]).id != id,
    ensures
        lookup(rows, id) is None,
    decreases rows.len(),
{
    if rows.len() > 0 {
        assert forall|i: int| 0 <= i < rows.skip(1).len() implies (#[trigger] rows.skip(1)[i]).id
            != id by {
            assert(rows.skip(1)[i] == rows[i + 1]);
        }
        lemma_lookup_absent(rows.skip(1), id);
    }
}

/// `lookup` succeeds exactly on the ids the rows carry, and returns a row
/// that is present with that id.
proof fn lemma_lookup_has(rows: Seq<BookView>, id: int)
    ensures
        lookup(rows, id) is Some <==> has_id(rows, id),
        lookup(rows, id) is Some ==> exists|i: int|
            0 <= i < rows.len() && (#[trigger] rows[i]).id == id && lookup(rows, id) == Some(
            rows[i]),
    decreases rows.len(),
{
    if rows.len() > 0 && rows[0].id != id {
        lemma_lookup_has(rows.skip(1), id);
        if lookup(rows.skip(1), id) is Some {
            let i = choose|i: int|
                0 <= i < rows.skip(1).len() && (#[trigger] rows.skip(1)[i]).id == id && lookup(
                    rows.skip(1),
                    id,
                ) == Some(rows.skip(1)[i]);
            assert(rows.skip(1)[i] == rows[i + 1]);
            assert(rows[i + 1].id == id && lookup(rows, id) == Some(rows[i + 1]));
        } else {
            if has_id(rows, id) {
                let i = choose|i: int| 0 <= i < rows.len() && (#[trigger] rows[i]).id == id;
                assert(rows.skip(1)[i - 1] == rows[i]);
                assert(has_id(rows.skip(1), id));
            }
        }
    }
}

/// Where `insert_pos` points: within bounds, after rows at or before the new
/// one, and before a row that is strictly after it.
proof fn lemma_insert_pos_bounds(rows: Seq<BookView>, b: BookView)
    ensures
        0 <= insert_pos(rows, b) <= rows.len(),
        forall|i: int| 0 <= i < insert_pos(rows, b) ==> book_le(#[trigger] rows[i], b),
        insert_pos(rows, b) < rows.len() ==> !book_le(rows[insert_pos(rows, b)], b),
    decreases rows.len(),
{
    if rows.len() > 0 && book_le(rows[0], b) {
        lemma_insert_pos_bounds(rows.skip(1), b);
        assert forall|i: int| 0 <= i < insert_pos(rows, b) implies book_le(
            #[trigger] rows[i],
            b,
        ) by {
            if i > 0 {
                assert(rows.skip(1)[i - 1] == rows[i]);
            }
        }
        if insert_pos(rows, b) < rows.len() {
            assert(rows.skip(1)[insert_pos(rows, b) - 1] == rows[insert_pos(rows, b)]);
        }
    }
}

/// Any position after rows at or before `b` and at a row strictly after it
/// (or at the end) is exactly `insert_pos`.
proof fn lemma_insert_pos_eq(rows: Seq<BookView>, b: BookView, p: int)
    requires
        0 <= p <= rows.len(),
        forall|i: int| 0 <= i < p ==> book_le(#[trigger] rows[i], b),
        p < rows.len() ==> !book_le(rows[p], b),
    ensures
        insert_pos(rows, b) == p,
    decreases rows.len(),
{
    if rows.len() > 0 {
        if book_le(rows[0], b) {
            assert(p >= 1);
            assert forall|i: int| 0 <= i < p - 1 implies book_le(#[trigger] rows.skip(1)[i], b) by {
                assert(rows.skip(1)[i] == rows[i + 1]);
            }
            if p - 1 < rows.skip(1).len() {
                assert(rows.skip(1)[p - 1] == rows[p]);
            }
            lemma_insert_pos_eq(rows.skip(1), b, p - 1);
        } else {
            assert(p == 0);
        }
    }
}

/// Inserting at the ordered position keeps the rows sorted.
proof fn lemma_sorted_insert(rows: Seq<BookView>, b: BookView)
    requires
        sorted(rows),
    ensures
        sorted(insert_row(rows, b)),
{
    let p = insert_pos(rows, b);
    lemma_insert_pos_bounds(rows, b);
    rows.insert_ensures(p, b);
    let s2 = insert_row(rows, b);
    assert forall|i: int, j: int| 0 <= i < j < s2.len() implies book_le(
        #[trigger] s2[i],
        #[trigger] s2[j],
    ) by {
        if i < p && j < p {
            assert(s2[i] == rows[i] && s2[j] == rows[j]);
        } else if i < p && j == p {
            assert(s2[i] == rows[i] && s2[j] == b);
        } else if i < p && j > p {
            assert(s2[i] == rows[i] && s2[j] == rows[j - 1]);
            if i < j - 1 {
                assert(book_le(rows[i], rows[j - 1]));
            }
        } else if i == p {
            assert(s2[i] == b && s2[j] == rows[j - 1]);
            assert(!book_le(rows[p], b));
            lemma_book_le_total(rows[p], b);
            assert(book_le(b, rows[p]));
            if j - 1 > p {
                assert(book_le(rows[p], rows[j - 1]));
                lemma_book_le_trans(b, rows[p], rows[j - 1]);
            }
        } else {
            assert(s2[i] == rows[i - 1] && s2[j] == rows[j - 1]);
        }
    }
}

/// Removing a row keeps the remainder sorted.
proof fn lemma_sorted_remove(rows: Seq<BookView>, i: int)
    requires
        sorted(rows),
        0 <= i < rows.len(),
    ensures
        sorted(rows.remove(i)),
{
    rows.remove_ensures(i);
    let s2 = rows.remove(i);
    assert forall|p: int, q: int| 0 <= p < q < s2.len() implies book_le(
        #[trigger] s2[p],
        #[trigger] s2[q],
    ) by {
        let p0: int = if p < i { p } else { p + 1 };
        let q0: int = if q < i { q } else { q + 1 };
        assert(s2[p] == rows[p0] && s2[q] == rows[q0]);
        assert(book_le(rows[p0], rows[q0]));
    }
}

/// After inserting a row with a fresh id: the new id resolves to the new
/// row, every other id resolves as before, and ids stay unique.
proof fn lemma_lookup_after_insert(rows: Seq<BookView>, b: BookView)
    requires
        ids_unique(rows),
        !has_id(rows, b.id),
    ensures
        ids_unique(insert_row(rows, b)),
        lookup(insert_row(rows, b), b.id) == Some(b),
        forall|j: int| j != b.id ==> lookup(insert_row(rows, b), j) == lookup(rows, j),
        insert_row(rows, b).len() == rows.len() + 1,
{
    let p = insert_pos(rows, b);
    lemma_insert_pos_bounds(rows, b);
    rows.insert_ensures(p, b);
    let s2 = insert_row(rows, b);
    assert forall|x: int, y: int|
        0 <= x < y < s2.len() implies (#[trigger] s2[x]).id != (#[trigger] s2[y]).id by {
        let x0: int = if x < p { x } else { x - 1 };
        let y0: int = if y < p { y } else { y - 1 };
        if x == p {
            assert(s2[y] == rows[y0]);
            assert(!has_id(rows, b.id));
            assert(rows[y0].id != b.id);
        } else if y == p {
            assert(s2[x] == rows[x0]);
            assert(rows[x0].id != b.id);
        } else {
            assert(s2[x] == rows[x0] && s2[y] == rows[y0]);
        }
    }
    lemma_lookup_index(s2, b.id, p);
    assert forall|j: int| j != b.id implies lookup(s2, j) == lookup(rows, j) by {
        lemma_lookup_has(rows, j);
        lemma_lookup_has(s2, j);
        if lookup(rows, j) is Some {
            let i = choose|i: int|
                0 <= i < rows.len() && (#[trigger] rows[i]).id == j && lookup(rows, j) == Some(
                    rows[i],
                );
            let i2: int = if i < p { i } else { i + 1 };
            assert(s2[i2] == rows[i]);
            lemma_lookup_index(s2, j, i2);
        } else {
            assert forall|k: int| 0 <= k < s2.len() implies (#[trigger] s2[k]).id != j by {
                if k != p {
                    let k0: int = if k < p { k } else { k - 1 };
                    assert(s2[k] == rows[k0]);
                    assert(!has_id(rows, j) && 0 <= k0 < rows.len());
                }
            }
            lemma_lookup_absent(s2, j);
        }
    }
}

/// `remove_id` removes exactly the first row carrying the id.
proof fn lemma_remove_id_at(rows: Seq<BookView>, id: int, i: int)
    requires
        0 <= i < rows.len(),
        rows[i].id == id,
        forall|j: int| 0 <= j < i ==> (#[trigger] rows[j]).id != id,
    ensures
        remove_id(rows, id) == rows.remove(i),
    decreases rows.len(),
{
    rows.remove_ensures(i);
    if i == 0 {
        assert(rows.remove(0) =~= rows.skip(1));
    } else {
        assert(rows[0].id != id);
        assert forall|j: int| 0 <= j < i - 1 implies (#[trigger] rows.skip(1)[j]).id != id by {
            assert(rows.skip(1)[j] == rows[j + 1]);
        }
        assert(rows.skip(1)[i - 1] == rows[i]);
        lemma_remove_id_at(rows.skip(1), id, i - 1);
        rows.skip(1).remove_ensures(i - 1);
        assert(remove_id(rows, id) =~= rows.remove(i)) by {
            assert(remove_id(rows, id) == seq![rows[0]] + rows.skip(1).remove(i - 1));
            assert forall|k: int| 0 <= k < rows.len() - 1 implies (seq![rows[0]] + rows.skip(
                1,
            ).remove(i - 1))[k] == rows.remove(i)[k] by {
                if k > 0 {
                    assert((seq![rows[0]] + rows.skip(1).remove(i - 1))[k] == rows.skip(1).remove(
                        i - 1,
                    )[k - 1]);
                    if k < i {
                        assert(rows.skip(1).remove(i - 1)[k - 1] == rows.skip(1)[k - 1]);
                        assert(rows.skip(1)[k - 1] == rows[k]);
                    } else {
                        assert(rows.skip(1).remove(i - 1)[k - 1] == rows.skip(1)[k]);
                        assert(rows.skip(1)[k] == rows[k + 1]);
                    }
                }
            }
        }
    }
}

/// When no row carries the id, `remove_id` changes nothing.
proof fn lemma_remove_id_absent(rows: Seq<BookView>, id: int)
    requires
        !has_id(rows, id),
    ensures
        remove_id(rows, id) == rows,
    decreases rows.len(),
{
    if rows.len() > 0 {
        assert(rows[0].id != id);
        assert(!has_id(rows.skip(1), id)) by {
            if has_id(rows.skip(1), id) {
                let j = choose|j: int|
                    0 <= j < rows.skip(1).len() && (#[trigger] rows.skip(1)[j]).id == id;
                assert(rows.skip(1)[j] == rows[j + 1]);
            }
        }
        lemma_remove_id_absent(rows.skip(1), id);
        assert(remove_id(rows, id) =~= rows) by {
            assert forall|k: int| 0 <= k < rows.len() implies (seq![rows[0]] + rows.skip(1))[k]
                == rows[k] by {
                if k > 0 {
                    assert((seq![rows[0]] + rows.skip(1))[k] == rows.skip(1)[k - 1]);
                }
            }
        }
    }
}

/// After removing a row: its id resolves to nothing, every other id
/// resolves as before, and ids stay unique.
proof fn lemma_lookup_after_remove(rows: Seq<BookView>, id: int, i: int)
    requires
        ids_unique(rows),
        0 <= i < rows.len(),
        rows[i].id == id,
    ensures
        ids_unique(rows.remove(i)),
        lookup(rows.remove(i), id) is None,
        forall|j: int| j != id ==> lookup(rows.remove(i), j) == lookup(rows, j),
{
    rows.remove_ensures(i);
    let s2 = rows.remove(i);
    assert forall|x: int, y: int|
        0 <= x < y < s2.len() implies (#[trigger] s2[x]).id != (#[trigger] s2[y]).id by {
        let x0: int = if x < i { x } else { x + 1 };
        let y0: int = if y < i { y } else { y + 1 };
        assert(s2[x] == rows[x0] && s2[y] == rows[y0]);
    }
    assert forall|k: int| 0 <= k < s2.len() implies (#[trigger] s2[k]).id != id by {
        let k0: int = if k < i { k } else { k + 1 };
        assert(s2[k] == rows[k0]);
        assert(rows[k0].id != rows[i].id || k0 == i);
    }
    lemma_lookup_absent(s2, id);
    assert forall|j: int| j != id implies lookup(s2, j) == lookup(rows, j) by {
        lemma_lookup_has(rows, j);
        lemma_lookup_has(s2, j);
        if lookup(rows, j) is Some {
            let k = choose|k: int|
                0 <= k < rows.len() && (#[trigger] rows[k]).id == j && lookup(rows, j) == Some(
                    rows[k],
                );
            assert(k != i);
            let k2: int = if k < i { k } else { k - 1 };
            assert(s2[k2] == rows[k]);
            lemma_lookup_index(s2, j, k2);
        } else {
            assert forall|k: int| 0 <= k < s2.len() implies (#[trigger] s2[k]).id != j by {
                let k0: int = if k < i { k } else { k + 1 };
                assert(s2[k] == rows[k0]);
                assert(!has_id(rows, j) && 0 <= k0 < rows.len());
            }
            lemma_lookup_absent(s2, j);
        }
    }
}

/// The books table.  The application backs the same table with a pooled
/// relational database; every operation here is one statement there.
pub struct BookStore {
    books: Vec<Book>,
    next_id: i32,
}

impl View for BookStore {
    type V = StoreView;

    closed spec fn view(&self) -> StoreView {
        StoreView {
            rows: self.books@.map_values(|b: Book| b@),
            next_id: self.next_id as int,
        }
    }
}

impl BookStore {
    /// An empty table; the first insertion receives id 1.
    pub fn new() -> (r: BookStore)
        ensures
            r@.wf(),
            r@.rows.len() == 0,
            r@.next_id == 1,
    {
        BookStore { books: Vec::new(), next_id: 1 }
    }

    /// Every row, in (title, author) order — what `SELECT * FROM books
    /// ORDER BY title, author` yields.  An empty table yields an empty
    /// sequence, never an error.
    pub fn get_all_books(&self) -> (r: Vec<Book>)
        ensures
            r@.map_values(|b: Book| b@) == self@.rows,
    {
        let mut out: Vec<Book> = Vec::new();
        let n: usize = self.books.len();
        let mut i: usize = 0;
        while i < n
            invariant
                i <= n,
                n == self.books.len(),
                out@.len() == i,
                forall|j: int| 0 <= j < i ==> #[trigger] out@[j]@ == self@.rows[j],
            decreases n - i,
        {
            let b = self.books[i].clone();
            out.push(b);
            i = i + 1;
        }
        proof {
            assert(out@.map_values(|b: Book| b@) =~= self@.rows);
        }
        out
    }

    /// The row carrying `id`.  Fails with `NotFound` exactly when no row
    /// carries it.
    pub fn get_book_by_id(&self, id: i32) -> (r: Result<Book, DbError>)
        requires
            self@.wf(),
        ensures
            match r {
                Ok(b) => lookup(self@.rows, id as int) == Some(b@),
                Err(e) => e == DbError::NotFound && lookup(self@.rows, id as int) is None,
            },
    {
        let n: usize = self.books.len();
        let mut i: usize = 0;
        while i < n
            invariant
                i <= n,
                n == self.books.len(),
                self@.wf(),
                forall|j: int| 0 <= j < i ==> (#[trigger] self@.rows[j]).id != id as int,
            decreases n - i,
        {
            if self.books[i].id == id {
                proof {
                    lemma_lookup_index(self@.rows, id as int, i as int);
                }
                return Ok(self.books[i].clone());
            }
            i = i + 1;
        }
        proof {
            lemma_lookup_absent(self@.rows, id as int);
        }
        Err(DbError::NotFound)
    }

    /// The ordered position for `book` among the current rows.
    fn find_insert_pos(&self, book: &Book) -> (p: usize)
        ensures
            p as int == insert_pos(self@.rows, book@),
            p <= self.books.len(),
    {
        let n: usize = self.books.len();
        let mut p: usize = 0;
        while p < n
            invariant
                p <= n,
                n == self.books.len(),
                forall|j: int| 0 <= j < p ==> book_le(#[trigger] self@.rows[j], book@),
            decreases n - p,
        {
            if !book_le_exec(&self.books[p], book) {
                proof {
                    lemma_insert_pos_eq(self@.rows, book@, p as int);
                }
                return p;
            }
            p = p + 1;
        }
        proof {
            lemma_insert_pos_eq(self@.rows, book@, p as int);
        }
        p
    }

    /// Inserts `book` at its ordered position, leaving the other rows and
    /// the next free id untouched.
    fn insert_in_order(&mut self, book: Book)
        ensures
            final(self)@.rows == insert_row(old(self)@.rows, book@),
            final(self)@.next_id == old(self)@.next_id,
    {
        let ghost rows0 = self@.rows;
        let p: usize = self.find_insert_pos(&book);
        let ghost gbook = book;
        let ghost bv = book@;
        self.books.insert(p, book);
        proof {
            assert(self@.rows =~= rows0.insert(p as int, bv)) by {
                rows0.insert_ensures(p as int, bv);
                old(self).books@.insert_ensures(p as int, gbook);
                assert forall|k: int| 0 <= k < self.books@.len() implies self@.rows[k]
                    == rows0.insert(p as int, bv)[k] by {
                    if k < p {
                        assert(self.books@[k] == old(self).books@[k]);
                    } else if k == p {
                        assert(self.books@[k] == gbook);
                    } else {
                        assert(self.books@[k] == old(self).books@[k - 1]);
                    }
                }
            }
        }
    }

    /// Inserts a new row with the given title and author and returns its
    /// freshly assigned id.  Fails with `StorageError` exactly when the id
    /// space is exhausted — the model's one storage failure; against a real
    /// database, connectivity loss surfaces the same way.
    pub fn add_book(&mut self, title: &str, author: &str) -> (r: Result<i32, DbError>)
        requires
            old(self)@.wf(),
        ensures
            final(self)@.wf(),
            match r {
                Ok(id) => old(self)@.can_add() && id as int == old(self)@.next_id && final(self)@
                    == old(self)@.add_model(title@, author@),
                Err(e) => e == DbError::StorageError && !old(self)@.can_add() && final(self)@ == old(
                    self,
                )@,
            },
    {
        if self.next_id == i32::MAX {
            return Err(DbError::StorageError);
        }
        let id: i32 = self.next_id;
        let book = Book::new(id, title.to_owned(), author.to_owned());
        let ghost bv = book@;
        let ghost rows0 = self@.rows;
        proof {
            assert(!has_id(rows0, bv.id));
            lemma_lookup_after_insert(rows0, bv);
            lemma_sorted_insert(rows0, bv);
        }
        self.next_id = self.next_id + 1;
        self.insert_in_order(book);
        proof {
            assert(self@ == old(self)@.add_model(title@, author@));
            assert(self@.wf()) by {
                let s2 = insert_row(rows0, bv);
                lemma_insert_pos_bounds(rows0, bv);
                rows0.insert_ensures(insert_pos(rows0, bv), bv);
                assert forall|k: int| 0 <= k < s2.len() implies 1 <= (#[trigger] s2[k]).id < old(
                    self,
                )@.next_id + 1 by {
                    let p = insert_pos(rows0, bv);
                    if k < p {
                        assert(s2[k] == rows0[k]);
                    } else if k == p {
                        assert(s2[k] == bv);
                    } else {
                        assert(s2[k] == rows0[k - 1]);
                    }
                }
            }
        }
        Ok(id)
    }

    /// Removes the first row carrying `id` from the vector, if any, and
    /// reports whether one was found.
    fn take_out_id(&mut self, id: i32) -> (found: bool)
        requires
            old(self)@.wf(),
        ensures
            final(self)@.rows == remove_id(old(self)@.rows, id as int),
            final(self)@.next_id == old(self)@.next_id,
            found == (lookup(old(self)@.rows, id as int) is Some),
            final(self)@.wf(),
            lookup(final(self)@.rows, id as int) is None,
            forall|j: int|
                j != id as int ==> lookup(final(self)@.rows, j) == lookup(old(self)@.rows, j),
            found ==> final(self)@.rows.len() == old(self)@.rows.len() - 1,
            !found ==> final(self)@ == old(self)@,
    {
        let ghost rows0 = self@.rows;
        let n: usize = self.books.len();
        let mut i: usize = 0;
        while i < n
            invariant
                i <= n,
                n == self.books.len(),
                self.books@ == old(self).books@,
                self.next_id == old(self).next_id,
                self@.rows == rows0,
                rows0 == old(self)@.rows,
                self@.wf(),
                forall|j: int| 0 <= j < i ==> (#[trigger] rows0[j]).id != id as int,
            decreases n - i,
        {
            if self.books[i].id == id {
                proof {
                    lemma_lookup_index(rows0, id as int, i as int);
                    lemma_remove_id_at(rows0, id as int, i as int);
                    lemma_lookup_after_remove(rows0, id as int, i as int);
                    lemma_sorted_remove(rows0, i as int);
                }
                self.books.remove(i);
                proof {
                    assert(self@.rows =~= rows0.remove(i as int)) by {
                        old(self).books@.remove_ensures(i as int);
                        rows0.remove_ensures(i as int);
                        assert forall|k: int| 0 <= k < self.books@.len() implies self@.rows[k]
                            == rows0.remove(i as int)[k] by {
                            if k < i {
                                assert(self.books@[k] == old(self).books@[k]);
                            } else {
                                assert(self.books@[k] == old(self).books@[k + 1]);
                            }
                        }
                    }
                    assert(self@.wf()) by {
                        rows0.remove_ensures(i as int);
                        assert forall|k: int| 0 <= k < self@.rows.len() implies 1 <= (
                        #[trigger] self@.rows[k]).id < self@.next_id by {
                            let k0: int = if k < i { k } else { k + 1 };
                            assert(self@.rows[k] == rows0[k0]);
                        }
                    }
                }
                return true;
            }
            i = i + 1;
        }
        proof {
            lemma_lookup_absent(rows0, id as int);
            lemma_remove_id_absent(rows0, id as int);
        }
        false
    }

    /// Replaces the title and author of the row carrying `book.id`, leaving
    /// its id and every other row untouched.  When no row carries that id
    /// the store is left as it was and the call still reports success: the
    /// service never checks affected-row counts, so a caller cannot tell
    /// "replaced" from "no such row".
    pub fn update_book(&mut self, book: &Book)
        requires
            old(self)@.wf(),
        ensures
            final(self)@.wf(),
            final(self)@ == old(self)@.update_model(book@),
    {
        let found = self.take_out_id(book.id);
        if found {
            let ghost rows1 = self@.rows;
            proof {
                lemma_sorted_insert(rows1, book@);
                lemma_lookup_has(rows1, book@.id);
            }
            self.insert_in_order(book.clone());
            proof {
                assert(self@.rows == insert_row(remove_id(old(self)@.rows, book@.id), book@));
                assert(self@.wf()) by {
                    lemma_lookup_after_insert(rows1, book@);
                    lemma_insert_pos_bounds(rows1, book@);
                    rows1.insert_ensures(insert_pos(rows1, book@), book@);
                    let s2 = insert_row(rows1, book@);
                    assert forall|k: int| 0 <= k < s2.len() implies 1 <= (#[trigger] s2[k]).id
                        < self@.next_id by {
                        let p = insert_pos(rows1, book@);
                        if k < p {
                            assert(s2[k] == rows1[k]);
                        } else if k == p {
                            assert(s2[k] == book@);
                            assert(lookup(old(self)@.rows, book@.id) is Some);
                            lemma_lookup_has(old(self)@.rows, book@.id);
                        } else {
                            assert(s2[k] == rows1[k - 1]);
                        }
                    }
                }
            }
        }
    }

    /// Removes the row carrying `id`.  When no row carries it the store is
    /// left as it was and the call still reports success, as with
    /// [`Self::update_book`].
    pub fn delete_book(&mut self, id: i32)
        requires
            old(self)@.wf(),
        ensures
            final(self)@.wf(),
            final(self)@ == old(self)@.delete_model(id as int),
    {
        let _found = self.take_out_id(id);
    }
}

/// Law: creating a book and then fetching the returned id yields a book
/// whose title and author equal the inputs and whose id is the one the
/// insertion returned.  The store stays well-formed.
pub proof fn lemma_create_then_get(m: StoreView, title: Seq<char>, author: Seq<char>)
    requires
        m.wf(),
        m.can_add(),
    ensures
        lookup(m.add_model(title, author).rows, m.next_id) == Some(
            BookView { id: m.next_id, title, author },
        ),
        m.add_model(title, author).wf(),
{
    let bv = BookView { id: m.next_id, title, author };
    assert(!has_id(m.rows, bv.id));
    lemma_lookup_after_insert(m.rows, bv);
    lemma_sorted_insert(m.rows, bv);
    lemma_insert_pos_bounds(m.rows, bv);
    m.rows.insert_ensures(insert_pos(m.rows, bv), bv);
    let s2 = insert_row(m.rows, bv);
    assert forall|k: int| 0 <= k < s2.len() implies 1 <= (#[trigger] s2[k]).id < m.next_id + 1 by {
        let p = insert_pos(m.rows, bv);
        if k < p {
            assert(s2[k] == m.rows[k]);
        } else if k == p {
            assert(s2[k] == bv);
        } else {
            assert(s2[k] == m.rows[k - 1]);
        }
    }
}

/// Law: each successful insertion grows the listing by exactly one entry,
/// and the listing stays in (title, author) order; together with the empty
/// store listing nothing, inserting N books into an empty store lists
/// exactly N entries in that order.
pub proof fn lemma_listing_after_create(m: StoreView, title: Seq<char>, author: Seq<char>)
    requires
        m.wf(),
        m.can_add(),
    ensures
        m.add_model(title, author).rows.len() == m.rows.len() + 1,
        sorted(m.add_model(title, author).rows),
{
    let bv = BookView { id: m.next_id, title, author };
    assert(!has_id(m.rows, bv.id));
    lemma_lookup_after_insert(m.rows, bv);
    lemma_sorted_insert(m.rows, bv);
}

/// The store after inserting a batch of books, first to last.
pub open spec fn add_all_model(m: StoreView, items: Seq<(Seq<char>, Seq<char>)>) -> StoreView
    decreases items.len(),
{
    if items.len() == 0 {
        m
    } else {
        add_all_model(m.add_model(items[0].0, items[0].1), items.skip(1))
    }
}

/// Law: inserting N books into a store with enough id space grows the
/// listing by exactly N entries and keeps it in (title, author) order;
/// with the empty store listing nothing, N inserts list exactly N rows.
pub proof fn lemma_listing_after_creates(m: StoreView, items: Seq<(Seq<char>, Seq<char>)>)
    requires
        m.wf(),
        m.next_id + items.len() <= i32::MAX as int,
    ensures
        add_all_model(m, items).wf(),
        add_all_model(m, items).rows.len() == m.rows.len() + items.len(),
        sorted(add_all_model(m, items).rows),
        add_all_model(m, items).next_id == m.next_id + items.len(),
    decreases items.len(),
{
    if items.len() > 0 {
        let m1 = m.add_model(items[0].0, items[0].1);
        lemma_create_then_get(m, items[0].0, items[0].1);
        lemma_listing_after_create(m, items[0].0, items[0].1);
        lemma_listing_after_creates(m1, items.skip(1));
    }
}

/// Law: replacing a stored book changes exactly the matching row.  The row
/// keeps its id and takes the new title and author; every other row
/// resolves as before; the row count is unchanged.
pub proof fn lemma_update_frame(m: StoreView, b: BookView)
    requires
        m.wf(),
        lookup(m.rows, b.id) is Some,
    ensures
        lookup(m.update_model(b).rows, b.id) == Some(b),
        forall|j: int| j != b.id ==> lookup(m.update_model(b).rows, j) == lookup(m.rows, j),
        m.update_model(b).rows.len() == m.rows.len(),
        m.update_model(b).next_id == m.next_id,
{
    lemma_lookup_has(m.rows, b.id);
    let i = choose|i: int|
        0 <= i < m.rows.len() && (#[trigger] m.rows[i]).id == b.id && lookup(m.rows, b.id) == Some(
            m.rows[i],
        );
    lemma_remove_id_at(m.rows, b.id, i);
    lemma_lookup_after_remove(m.rows, b.id, i);
    m.rows.remove_ensures(i);
    let rows1 = remove_id(m.rows, b.id);
    lemma_lookup_has(rows1, b.id);
    lemma_lookup_after_insert(rows1, b);
}

/// Law: replacing or deleting under an id no row carries leaves the store
/// exactly as it was — the documented resolution of the zero-rows-affected
/// ambiguity: the call reports success and changes nothing.
pub proof fn lemma_update_delete_missing_change_nothing(m: StoreView, b: BookView)
    requires
        lookup(m.rows, b.id) is None,
    ensures
        m.update_model(b) == m,
        m.delete_model(b.id).rows == m.rows,
{
    lemma_lookup_has(m.rows, b.id);
    lemma_remove_id_absent(m.rows, b.id);
}

/// Law: deleting a stored id removes exactly one row: the count drops by
/// one, the id no longer resolves, and every other row resolves as before.
pub proof fn lemma_delete_then_get(m: StoreView, id: int)
    requires
        m.wf(),
        lookup(m.rows, id) is Some,
    ensures
        lookup(m.delete_model(id).rows, id) is None,
        forall|j: int| j != id ==> lookup(m.delete_model(id).rows, j) == lookup(m.rows, j),
        m.delete_model(id).rows.len() == m.rows.len() - 1,
{
    lemma_lookup_has(m.rows, id);
    let i = choose|i: int|
        0 <= i < m.rows.len() && (#[trigger] m.rows[i]).id == id && lookup(m.rows, id) == Some(
            m.rows[i],
        );
    lemma_remove_id_at(m.rows, id, i);
    lemma_lookup_after_remove(m.rows, id, i);
    m.rows.remove_ensures(i);
}

} // verus!
