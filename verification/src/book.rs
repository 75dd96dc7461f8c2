//! The book entity: the sole record the service persists.

use vstd::prelude::*;

verus! {

/// Mathematical image of a [`Book`]: the id as an unbounded integer and the
/// two text fields as character sequences.
pub struct BookView {
    pub id: int,
    pub title: Seq<char>,
    pub author: Seq<char>,
}

/// A catalogue entry.  `id` is unique among persisted books and is assigned
/// by the store on insertion; `title` and `author` carry no uniqueness
/// constraint.
#[derive(Debug)]
pub struct Book {
    pub id: i32,
    pub title: String,
    pub author: String,
}

impl View for Book {
    type V = BookView;

    open spec fn view(&self) -> BookView {
        BookView { id: self.id as int, title: self.title@, author: self.author@ }
    }
}

impl Clone for Book {
    /// A clone denotes the same book: same id, same title, same author.
    fn clone(&self) -> (r: Self)
        ensures
            r@ == self@,
    {
        Book { id: self.id, title: self.title.clone(), author: self.author.clone() }
    }
}

impl Book {
    /// Builds a book from its parts.
    pub fn new(id: i32, title: String, author: String) -> (r: Book)
        ensures
            r@ == (BookView { id: id as int, title: title@, author: author@ }),
    {
        Book { id, title, author }
    }
}

} // verus!
