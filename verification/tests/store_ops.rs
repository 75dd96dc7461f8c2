//! The storage operations exercised directly, without the HTTP layer.

use bookstore::book::Book;
use bookstore::store::{BookStore, DbError};

#[test]
fn empty_store_lists_nothing() {
    let store = BookStore::new();
    let books = store.get_all_books();
    assert!(books.is_empty());
}

#[test]
fn create_then_get_returns_the_same_fields() {
    let mut store = BookStore::new();
    let id = store.add_book("Dune", "Herbert").unwrap();
    assert_eq!(id, 1);
    let got = store.get_book_by_id(id).unwrap();
    assert_eq!(got.id, id);
    assert_eq!(got.title, "Dune");
    assert_eq!(got.author, "Herbert");
}

#[test]
fn get_of_missing_id_is_not_found() {
    let mut store = BookStore::new();
    assert_eq!(store.get_book_by_id(1).unwrap_err(), DbError::NotFound);
    let id = store.add_book("A", "B").unwrap();
    assert_eq!(store.get_book_by_id(id + 1).unwrap_err(), DbError::NotFound);
}

#[test]
fn listing_is_sorted_and_counts_every_insert() {
    let mut store = BookStore::new();
    store.add_book("Pride", "Austen").unwrap();
    store.add_book("Emma", "Austen").unwrap();
    store.add_book("Emma", "Another").unwrap();
    let books = store.get_all_books();
    assert_eq!(books.len(), 3);
    assert_eq!(books[0].title, "Emma");
    assert_eq!(books[0].author, "Another");
    assert_eq!(books[1].title, "Emma");
    assert_eq!(books[1].author, "Austen");
    assert_eq!(books[2].title, "Pride");
}

#[test]
fn equal_keys_are_kept_and_keep_distinct_ids() {
    let mut store = BookStore::new();
    let a = store.add_book("Same", "Same").unwrap();
    let b = store.add_book("Same", "Same").unwrap();
    assert_ne!(a, b);
    let books = store.get_all_books();
    assert_eq!(books.len(), 2);
    assert_eq!(books[0].id, a);
    assert_eq!(books[1].id, b);
}

#[test]
fn update_changes_exactly_the_matching_row() {
    let mut store = BookStore::new();
    let a = store.add_book("One", "Alpha").unwrap();
    let b = store.add_book("Two", "Beta").unwrap();
    store.update_book(&Book {
        id: a,
        title: "One revised".to_string(),
        author: "Alpha".to_string(),
    });
    let got_a = store.get_book_by_id(a).unwrap();
    assert_eq!(got_a.title, "One revised");
    assert_eq!(got_a.author, "Alpha");
    let got_b = store.get_book_by_id(b).unwrap();
    assert_eq!(got_b.title, "Two");
    assert_eq!(got_b.author, "Beta");
    assert_eq!(store.get_all_books().len(), 2);
}

#[test]
fn update_of_missing_id_is_a_documented_no_op() {
    let mut store = BookStore::new();
    store.add_book("Keep", "Me").unwrap();
    store.update_book(&Book {
        id: 9,
        title: "X".to_string(),
        author: "Y".to_string(),
    });
    let books = store.get_all_books();
    assert_eq!(books.len(), 1);
    assert_eq!(books[0].title, "Keep");
}

#[test]
fn delete_removes_exactly_one_row() {
    let mut store = BookStore::new();
    let a = store.add_book("One", "Alpha").unwrap();
    let b = store.add_book("Two", "Beta").unwrap();
    let before = store.get_all_books().len();
    store.delete_book(a);
    assert_eq!(store.get_all_books().len(), before - 1);
    assert_eq!(store.get_book_by_id(a).unwrap_err(), DbError::NotFound);
    assert_eq!(store.get_book_by_id(b).unwrap().title, "Two");
    store.delete_book(a);
    assert_eq!(store.get_all_books().len(), before - 1);
}

#[test]
fn ids_are_assigned_in_creation_order() {
    let mut store = BookStore::new();
    assert_eq!(store.add_book("Z", "Z").unwrap(), 1);
    assert_eq!(store.add_book("A", "A").unwrap(), 2);
    store.delete_book(1);
    assert_eq!(store.add_book("M", "M").unwrap(), 3);
}
