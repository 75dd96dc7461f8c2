//! Requests driven through the service exactly as the HTTP layer would
//! hand them over: a method, a path, and a body.

use bookstore::book::Book;
use bookstore::json::{book_to_json, parse_book};
use bookstore::rest::{book_service, BookService, Method};

/// A service whose table already holds the one well-known book under id 1.
fn seeded_service() -> BookService {
    let mut svc = book_service();
    let r = svc.handle_request(
        Method::Post,
        "/books/add",
        "{\"id\":-1,\"title\":\"Hands-on Rust\",\"author\":\"Wolverson, Herbert\"}",
    );
    assert_eq!(r.status, 200);
    assert_eq!(r.body, "1");
    svc
}

#[test]
fn get_books() {
    let mut svc = seeded_service();
    let response = svc.handle_request(Method::Get, "/books", "");
    assert_eq!(response.status, 200);
    let books = response.body;
    assert!(!(books == "[]"));
}

#[test]
fn get_one_book() {
    let mut svc = seeded_service();
    let response = svc.handle_request(Method::Get, "/books/1", "");
    assert_eq!(response.status, 200);
    let book = parse_book(&response.body).unwrap();
    assert_eq!(book.id, 1);
    assert_eq!("Hands-on Rust", book.title);
    assert_eq!("Wolverson, Herbert", book.author);
}

#[test]
fn add_book() {
    let mut svc = seeded_service();
    let new_book = Book {
        id: -1,
        title: "Test POST Book".to_string(),
        author: "Test POST Author".to_string(),
    };
    let response = svc.handle_request(Method::Post, "/books/add", &book_to_json(&new_book));
    assert_eq!(response.status, 200);
    let new_id: i32 = response.body.parse().unwrap();
    assert!(new_id > 0);

    let test_book = svc.handle_request(Method::Get, &format!("/books/{}", new_id), "");
    assert_eq!(test_book.status, 200);
    let test_book = parse_book(&test_book.body).unwrap();
    assert_eq!(test_book.id, new_id);
    assert_eq!(new_book.title, test_book.title);
    assert_eq!(new_book.author, test_book.author);
}

#[test]
fn update_book() {
    let mut svc = seeded_service();
    let mut book1 = parse_book(&svc.handle_request(Method::Get, "/books/1", "").body).unwrap();
    book1.title = "Updated book".to_string();
    let res = svc.handle_request(Method::Put, "/books/edit", &book_to_json(&book1));
    assert_eq!(res.status, 200);
    let book2 = parse_book(&svc.handle_request(Method::Get, "/books/1", "").body).unwrap();
    assert_eq!(book1.title, book2.title);
}

#[test]
fn delete_book() {
    let mut svc = seeded_service();
    let new_book = Book {
        id: -1,
        title: "Delete me".to_string(),
        author: "Delete me".to_string(),
    };
    let new_id: i32 = svc
        .handle_request(Method::Post, "/books/add", &book_to_json(&new_book))
        .body
        .parse()
        .unwrap();

    let res = svc.handle_request(Method::Delete, &format!("/books/delete/{new_id}"), "");
    assert_eq!(res.status, 200);

    let all_books = svc.handle_request(Method::Get, "/books", "").body;
    assert!(!all_books.contains("Delete me"));
}

#[test]
fn end_to_end_scenario() {
    let mut svc = book_service();
    let created = svc.handle_request(
        Method::Post,
        "/books/add",
        "{\"id\":-1,\"title\":\"Dune\",\"author\":\"Herbert\"}",
    );
    assert_eq!(created.status, 200);
    let n: i32 = created.body.parse().unwrap();

    let fetched = svc.handle_request(Method::Get, &format!("/books/{n}"), "");
    assert_eq!(fetched.status, 200);
    assert_eq!(
        fetched.body,
        format!("{{\"id\":{n},\"title\":\"Dune\",\"author\":\"Herbert\"}}")
    );

    let removed = svc.handle_request(Method::Delete, &format!("/books/delete/{n}"), "");
    assert_eq!(removed.status, 200);
    assert_eq!(removed.body, "");

    let missing = svc.handle_request(Method::Get, &format!("/books/{n}"), "");
    assert_eq!(missing.status, 503);
}

#[test]
fn listing_is_sorted_by_title_then_author() {
    let mut svc = book_service();
    for (t, a) in [
        ("Zebra", "Young"),
        ("Alpha", "Smith"),
        ("Alpha", "Brown"),
        ("Midway", "Jones"),
    ] {
        let body = format!("{{\"id\":-1,\"title\":\"{t}\",\"author\":\"{a}\"}}");
        assert_eq!(svc.handle_request(Method::Post, "/books/add", &body).status, 200);
    }
    let listing = svc.handle_request(Method::Get, "/books", "");
    assert_eq!(listing.status, 200);
    let expected = "[{\"id\":3,\"title\":\"Alpha\",\"author\":\"Brown\"},{\"id\":2,\"title\":\"Alpha\",\"author\":\"Smith\"},{\"id\":4,\"title\":\"Midway\",\"author\":\"Jones\"},{\"id\":1,\"title\":\"Zebra\",\"author\":\"Young\"}]";
    assert_eq!(listing.body, expected);
}

#[test]
fn routes_that_do_not_exist_answer_404() {
    let mut svc = seeded_service();
    assert_eq!(svc.handle_request(Method::Get, "/other", "").status, 404);
    assert_eq!(svc.handle_request(Method::Delete, "/books", "").status, 404);
    assert_eq!(svc.handle_request(Method::Get, "/books/abc", "").status, 404);
    assert_eq!(svc.handle_request(Method::Post, "/books", "{}").status, 404);
    assert_eq!(svc.handle_request(Method::Put, "/books/1", "{}").status, 404);
}

#[test]
fn malformed_bodies_answer_400_and_change_nothing() {
    let mut svc = seeded_service();
    assert_eq!(svc.handle_request(Method::Post, "/books/add", "").status, 400);
    assert_eq!(svc.handle_request(Method::Post, "/books/add", "{}").status, 400);
    assert_eq!(
        svc.handle_request(Method::Post, "/books/add", "{\"id\":1,\"title\":\"x\"}").status,
        400
    );
    assert_eq!(svc.handle_request(Method::Put, "/books/edit", "not json").status, 400);
    let listing = svc.handle_request(Method::Get, "/books", "").body;
    assert!(listing.contains("Hands-on Rust"));
    assert_eq!(listing.matches("\"id\"").count(), 1);
}

#[test]
fn update_of_missing_id_reports_success_and_changes_nothing() {
    let mut svc = seeded_service();
    let ghostly = Book {
        id: 77,
        title: "Nobody".to_string(),
        author: "Nowhere".to_string(),
    };
    let res = svc.handle_request(Method::Put, "/books/edit", &book_to_json(&ghostly));
    assert_eq!(res.status, 200);
    assert_eq!(svc.handle_request(Method::Get, "/books/77", "").status, 503);
    let res = svc.handle_request(Method::Delete, "/books/delete/77", "");
    assert_eq!(res.status, 200);
    assert!(svc.handle_request(Method::Get, "/books", "").body.contains("Hands-on Rust"));
}
