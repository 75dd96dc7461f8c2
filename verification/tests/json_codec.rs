//! The JSON writer and reader for books, on concrete texts.

use bookstore::book::Book;
use bookstore::json::{book_to_json, dec_string_i32, parse_book};
use bookstore::store::BookStore;
use bookstore::json::books_to_json;

fn book(id: i32, title: &str, author: &str) -> Book {
    Book {
        id,
        title: title.to_string(),
        author: author.to_string(),
    }
}

#[test]
fn writer_produces_the_exact_object() {
    let b = book(1, "Dune", "Herbert");
    assert_eq!(book_to_json(&b), "{\"id\":1,\"title\":\"Dune\",\"author\":\"Herbert\"}");
}

#[test]
fn writer_handles_negative_ids_and_escapes() {
    let b = book(-12, "A \"quoted\" name", "Back\\slash\nand tab\t");
    assert_eq!(
        book_to_json(&b),
        "{\"id\":-12,\"title\":\"A \\\"quoted\\\" name\",\"author\":\"Back\\\\slash\\nand tab\\t\"}"
    );
}

#[test]
fn writer_escapes_control_characters_as_hex() {
    let b = book(0, "bell\u{7}", "unit\u{1f}");
    assert_eq!(
        book_to_json(&b),
        "{\"id\":0,\"title\":\"bell\\u0007\",\"author\":\"unit\\u001f\"}"
    );
}

#[test]
fn writer_lists_the_table() {
    let mut store = BookStore::new();
    assert_eq!(books_to_json(&store.get_all_books()), "[]");
    store.add_book("B", "x").unwrap();
    store.add_book("A", "y").unwrap();
    assert_eq!(
        books_to_json(&store.get_all_books()),
        "[{\"id\":2,\"title\":\"A\",\"author\":\"y\"},{\"id\":1,\"title\":\"B\",\"author\":\"x\"}]"
    );
}

#[test]
fn decimal_rendering_is_exact() {
    assert_eq!(dec_string_i32(0), "0");
    assert_eq!(dec_string_i32(7), "7");
    assert_eq!(dec_string_i32(2047483647), "2047483647");
    assert_eq!(dec_string_i32(-2147483648), "-2147483648");
    assert_eq!(dec_string_i32(i32::MAX), "2147483647");
}

#[test]
fn reader_accepts_any_field_order_and_whitespace() {
    let b = parse_book(" { \"author\" : \"Herbert\" ,\n\t\"id\" : -1 , \"title\" : \"Dune\" } ")
        .unwrap();
    assert_eq!(b.id, -1);
    assert_eq!(b.title, "Dune");
    assert_eq!(b.author, "Herbert");
}

#[test]
fn reader_round_trips_the_writer() {
    let cases = [
        book(1, "Dune", "Herbert"),
        book(-7, "A \"q\" t\\", "nl\nrt\rtab\tbs\u{8}ff\u{c}"),
        book(2147483647, "\u{1}\u{1f}", "caf\u{e9} \u{263a}"),
    ];
    for b in cases {
        let back = parse_book(&book_to_json(&b)).unwrap();
        assert_eq!(back.id, b.id);
        assert_eq!(back.title, b.title);
        assert_eq!(back.author, b.author);
    }
}

#[test]
fn reader_decodes_unicode_escapes() {
    let b = parse_book("{\"id\":1,\"title\":\"\\u0041\\u00e9\\u263a\",\"author\":\"\\u002F\\/\"}")
        .unwrap();
    assert_eq!(b.title, "A\u{e9}\u{263a}");
    assert_eq!(b.author, "//");
}

#[test]
fn reader_rejects_malformed_bodies() {
    let bad = [
        "",
        "   ",
        "{}",
        "[1]",
        "{\"id\":1,\"title\":\"x\"}",
        "{\"id\":1,\"title\":\"x\",\"author\":\"y\",\"extra\":0}",
        "{\"id\":1,\"id\":2,\"title\":\"x\",\"author\":\"y\"}",
        "{\"id\":01,\"title\":\"x\",\"author\":\"y\"}",
        "{\"id\":1.5,\"title\":\"x\",\"author\":\"y\"}",
        "{\"id\":\"1\",\"title\":\"x\",\"author\":\"y\"}",
        "{\"id\":3000000000,\"title\":\"x\",\"author\":\"y\"}",
        "{\"id\":-3000000000,\"title\":\"x\",\"author\":\"y\"}",
        "{\"id\":1,\"title\":\"x\",\"author\":\"y\"} trailing",
        "{\"id\":1,\"title\":\"x\",\"author\":\"y\"",
        "{\"id\":1,\"title\":\"unterminated,\"author\":\"y\"}",
        "{\"id\":1,\"title\":\"bad\\qescape\",\"author\":\"y\"}",
        "{\"id\":1,\"title\":\"\\ud834\",\"author\":\"y\"}",
        "{\"id\":1,\"title\":\"raw\u{1}control\",\"author\":\"y\"}",
        "{\"id\":+1,\"title\":\"x\",\"author\":\"y\"}",
    ];
    for case in bad {
        assert!(parse_book(case).is_none(), "accepted: {case}");
    }
}

#[test]
fn reader_accepts_boundary_ids() {
    let b = parse_book("{\"id\":2147483647,\"title\":\"x\",\"author\":\"y\"}").unwrap();
    assert_eq!(b.id, i32::MAX);
    let b = parse_book("{\"id\":-2147483648,\"title\":\"x\",\"author\":\"y\"}").unwrap();
    assert_eq!(b.id, i32::MIN);
    let b = parse_book("{\"id\":-0,\"title\":\"x\",\"author\":\"y\"}").unwrap();
    assert_eq!(b.id, 0);
}
