//! A verified model of a small book-catalogue service.
//!
//! The library models a single `books` table (id, title, author) together
//! with the CRUD operations a small HTTP service exposes over it: listing
//! all books ordered by title then author, fetching one by id, inserting
//! with a server-assigned id, replacing title/author in place, and deleting
//! by id.  The HTTP side — route recognition, the JSON encoding of a book,
//! and the mapping of each operation's outcome to a status code and body —
//! is modelled here as well, so the whole request-to-response path is
//! specified and proved.  Listening sockets and the real database live in
//! the surrounding application, which feeds this model plain values.

pub mod book;
pub mod json;
pub mod order;
pub mod rest;
pub mod store;
