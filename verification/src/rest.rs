//! The HTTP face of the service: which route a method and path reach, and
//! what status and body each handler answers.
//!
//! Five routes exist: `GET /books` lists, `GET /books/{id}` fetches one,
//! `POST /books/add` creates, `PUT /books/edit` replaces title/author, and
//! `DELETE /books/delete/{id}` removes.  Success is 200; every storage
//! failure — not-found included — collapses to 503, deliberately coarse; a
//! body that is not a well-formed book object answers 400; a miss of the
//! route table answers 404.  A path id is written canonically: an optional
//! minus and digits without a superfluous leading zero.

use vstd::prelude::*;
use crate::book::BookView;
use crate::json::{
    book_to_json,
    books_to_json,
    dec_of_int,
    dec_string_i32,
    json_of_book,
    json_of_books,
    parse_book,
    parse_book_text,
    parse_int,
    str_chars,
};
use crate::store::{lookup, BookStore, StoreView};

verus! {

/// The HTTP methods the route table distinguishes.
#[derive(Clone, Copy, PartialEq, Eq, Structural, Debug)]
pub enum Method {
    Get,
    Post,
    Put,
    Delete,
}

/// Which handler a request reaches; ids are carried out of the path.
#[derive(Clone, Copy, PartialEq, Eq, Structural, Debug)]
pub enum Route {
    ListBooks,
    GetBook(i32),
    AddBook,
    EditBook,
    DeleteBook(i32),
    NoRoute,
}

/// An HTTP answer: a status code and a body.
pub struct Response {
    pub status: u16,
    pub body: String,
}

/// Mathematical image of an answer.
pub struct RespView {
    pub status: int,
    pub body: Seq<char>,
}

impl View for Response {
    type V = RespView;

    open spec fn view(&self) -> RespView {
        RespView { status: self.status as int, body: self.body@ }
    }
}

/// The listing path.
pub open spec fn path_books() -> Seq<char> {
    seq!['/', 'b', 'o', 'o', 'k', 's']
}

/// The creation path.
pub open spec fn path_books_add() -> Seq<char> {
    seq!['/', 'b', 'o', 'o', 'k', 's', '/', 'a', 'd', 'd']
}

/// The replacement path.
pub open spec fn path_books_edit() -> Seq<char> {
    seq!['/', 'b', 'o', 'o', 'k', 's', '/', 'e', 'd', 'i', 't']
}

/// The prefix under which a single book is fetched.
pub open spec fn prefix_books() -> Seq<char> {
    seq!['/', 'b', 'o', 'o', 'k', 's', '/']
}

/// The prefix under which a book is deleted.
pub open spec fn prefix_delete() -> Seq<char> {
    seq!['/', 'b', 'o', 'o', 'k', 's', '/', 'd', 'e', 'l', 'e', 't', 'e', '/']
}

/// Whether `pre` starts `p`.
pub open spec fn is_prefix(pre: Seq<char>, p: Seq<char>) -> bool {
    pre.len() <= p.len() && p.subrange(0, pre.len() as int) == pre
}

/// The id the path tail from `i` on denotes: the whole tail must be one
/// canonical integer.
pub open spec fn tail_id(p: Seq<char>, i: int) -> Option<int> {
    match parse_int(p, i) {
        Some(v) => if v.1 == p.len() {
            Some(v.0)
        } else {
            None::<int>
        },
        None => None,
    }
}

/// The route table: which handler a method and path reach.
pub open spec fn route_of(m: Method, p: Seq<char>) -> Route {
    if m == Method::Get && p == path_books() {
        Route::ListBooks
    } else if m == Method::Post && p == path_books_add() {
        Route::AddBook
    } else if m == Method::Put && p == path_books_edit() {
        Route::EditBook
    } else if m == Method::Delete && is_prefix(prefix_delete(), p) {
        match tail_id(p, prefix_delete().len() as int) {
            Some(id) => Route::DeleteBook(id as i32),
            None => Route::NoRoute,
        }
    } else if m == Method::Get && is_prefix(prefix_books(), p) {
        match tail_id(p, prefix_books().len() as int) {
            Some(id) => Route::GetBook(id as i32),
            None => Route::NoRoute,
        }
    } else {
        Route::NoRoute
    }
}

/// The store and answer the service leaves after one request.
pub open spec fn handle_model(st: StoreView, m: Method, path: Seq<char>, body: Seq<char>) -> (
    StoreView,
    RespView,
) {
    match route_of(m, path) {
        Route::ListBooks => (st, RespView { status: 200, body: json_of_books(st.rows) }),
        Route::GetBook(id) => match lookup(st.rows, id as int) {
            Some(b) => (st, RespView { status: 200, body: json_of_book(b) }),
            None => (st, RespView { status: 503, body: Seq::empty() }),
        },
        Route::AddBook => match parse_book_text(body) {
            None => (st, RespView { status: 400, body: Seq::empty() }),
            Some(bv) => if st.can_add() {
                (
                    st.add_model(bv.title, bv.author),
                    RespView { status: 200, body: dec_of_int(st.next_id) },
                )
            } else {
                (st, RespView { status: 503, body: Seq::empty() })
            },
        },
        Route::EditBook => match parse_book_text(body) {
            None => (st, RespView { status: 400, body: Seq::empty() }),
            Some(bv) => (st.update_model(bv), RespView { status: 200, body: Seq::empty() }),
        },
        Route::DeleteBook(id) => (
            st.delete_model(id as int),
            RespView { status: 200, body: Seq::empty() },
        ),
        Route::NoRoute => (st, RespView { status: 404, body: Seq::empty() }),
    }
}

/// Whether the path is exactly the listing path.
fn eq_path_books(cs: &Vec<char>) -> (r: bool)
    ensures
        r == (cs@ == path_books()),
{
    let ok: bool = cs.len() == 6 && cs[0] == '/' && cs[1] == 'b' && cs[2] == 'o' && cs[3] == 'o'
        && cs[4] == 'k' && cs[5] == 's';
    proof {
        if ok {
            assert(cs@ =~= path_books());
        } else {
            if cs@ == path_books() {
                assert(cs@.len() == 6);
                assert(cs@[0] == '/' && cs@[1] == 'b' && cs@[2] == 'o' && cs@[3] == 'o' && cs@[4]
                    == 'k' && cs@[5] == 's');
            }
        }
    }
    ok
}

/// Whether the path is exactly the creation path.
fn eq_path_add(cs: &Vec<char>) -> (r: bool)
    ensures
        r == (cs@ == path_books_add()),
{
    let ok: bool = cs.len() == 10 && cs[0] == '/' && cs[1] == 'b' && cs[2] == 'o' && cs[3] == 'o'
        && cs[4] == 'k' && cs[5] == 's' && cs[6] == '/' && cs[7] == 'a' && cs[8] == 'd' && cs[9]
        == 'd';
    proof {
        if ok {
            assert(cs@ =~= path_books_add());
        } else {
            if cs@ == path_books_add() {
                assert(cs@.len() == 10);
                assert(cs@[0] == '/' && cs@[1] == 'b' && cs@[2] == 'o' && cs@[3] == 'o' && cs@[4]
                    == 'k' && cs@[5] == 's' && cs@[6] == '/' && cs@[7] == 'a' && cs@[8] == 'd'
                    && cs@[9] == 'd');
            }
        }
    }
    ok
}

/// Whether the path is exactly the replacement path.
fn eq_path_edit(cs: &Vec<char>) -> (r: bool)
    ensures
        r == (cs@ == path_books_edit()),
{
    let ok: bool = cs.len() == 11 && cs[0] == '/' && cs[1] == 'b' && cs[2] == 'o' && cs[3] == 'o'
        && cs[4] == 'k' && cs[5] == 's' && cs[6] == '/' && cs[7] == 'e' && cs[8] == 'd' && cs[9]
        == 'i' && cs[10] == 't';
    proof {
        if ok {
            assert(cs@ =~= path_books_edit());
        } else {
            if cs@ == path_books_edit() {
                assert(cs@.len() == 11);
                assert(cs@[0] == '/' && cs@[1] == 'b' && cs@[2] == 'o' && cs@[3] == 'o' && cs@[4]
                    == 'k' && cs@[5] == 's' && cs@[6] == '/' && cs@[7] == 'e' && cs@[8] == 'd'
                    && cs@[9] == 'i' && cs@[10] == 't');
            }
        }
    }
    ok
}

/// Whether the path starts with the single-book prefix.
fn has_prefix_books(cs: &Vec<char>) -> (r: bool)
    ensures
        r == is_prefix(prefix_books(), cs@),
{
    let ok: bool = cs.len() >= 7 && cs[0] == '/' && cs[1] == 'b' && cs[2] == 'o' && cs[3] == 'o'
        && cs[4] == 'k' && cs[5] == 's' && cs[6] == '/';
    proof {
        if ok {
            assert(cs@.subrange(0, 7) =~= prefix_books());
        } else {
            if is_prefix(prefix_books(), cs@) {
                assert(cs@.subrange(0, 7) == prefix_books());
                assert(cs@[0] == '/' && cs@[1] == 'b' && cs@[2] == 'o' && cs@[3] == 'o' && cs@[4]
                    == 'k' && cs@[5] == 's' && cs@[6] == '/') by {
                    assert forall|k: int| 0 <= k < 7 implies cs@[k] == prefix_books()[k] by {
                        assert(cs@.subrange(0, 7)[k] == cs@[k]);
                    }
                }
            }
        }
    }
    ok
}

/// Whether the path starts with the deletion prefix.
fn has_prefix_delete(cs: &Vec<char>) -> (r: bool)
    ensures
        r == is_prefix(prefix_delete(), cs@),
{
    let ok: bool = cs.len() >= 14 && cs[0] == '/' && cs[1] == 'b' && cs[2] == 'o' && cs[3] == 'o'
        && cs[4] == 'k' && cs[5] == 's' && cs[6] == '/' && cs[7] == 'd' && cs[8] == 'e' && cs[9]
        == 'l' && cs[10] == 'e' && cs[11] == 't' && cs[12] == 'e' && cs[13] == '/';
    proof {
        if ok {
            assert(cs@.subrange(0, 14) =~= prefix_delete());
        } else {
            if is_prefix(prefix_delete(), cs@) {
                assert(cs@.subrange(0, 14) == prefix_delete());
                assert(cs@[0] == '/' && cs@[1] == 'b' && cs@[2] == 'o' && cs@[3] == 'o' && cs@[4]
                    == 'k' && cs@[5] == 's' && cs@[6] == '/' && cs@[7] == 'd' && cs@[8] == 'e'
                    && cs@[9] == 'l' && cs@[10] == 'e' && cs@[11] == 't' && cs@[12] == 'e'
                    && cs@[13] == '/') by {
                    assert forall|k: int| 0 <= k < 14 implies cs@[k] == prefix_delete()[k] by {
                        assert(cs@.subrange(0, 14)[k] == cs@[k]);
                    }
                }
            }
        }
    }
    ok
}

/// The id at the path tail, when the whole tail is one canonical integer.
fn tail_id_exec(cs: &Vec<char>, i: usize) -> (r: Option<i32>)
    requires
        i <= cs.len(),
    ensures
        match r {
            Some(v) => tail_id(cs@, i as int) == Some(v as int),
            None => tail_id(cs@, i as int) is None,
        },
{
    match crate::json::parse_int_exec(cs, i) {
        Some((v, j)) => if j == cs.len() {
            Some(v)
        } else {
            None
        },
        None => None,
    }
}

/// The route a method and path reach.
pub fn route_for(m: Method, path: &str) -> (r: Route)
    ensures
        r == route_of(m, path@),
{
    let cs = str_chars(path);
    match m {
        Method::Get => {
            if eq_path_books(&cs) {
                Route::ListBooks
            } else if has_prefix_books(&cs) {
                match tail_id_exec(&cs, 7) {
                    Some(id) => Route::GetBook(id),
                    None => Route::NoRoute,
                }
            } else {
                Route::NoRoute
            }
        },
        Method::Post => {
            if eq_path_add(&cs) {
                Route::AddBook
            } else {
                Route::NoRoute
            }
        },
        Method::Put => {
            if eq_path_edit(&cs) {
                Route::EditBook
            } else {
                Route::NoRoute
            }
        },
        Method::Delete => {
            if has_prefix_delete(&cs) {
                match tail_id_exec(&cs, 14) {
                    Some(id) => Route::DeleteBook(id),
                    None => Route::NoRoute,
                }
            } else {
                Route::NoRoute
            }
        },
    }
}

/// The book service: the route table over a books table.
pub struct BookService {
    store: BookStore,
}

impl View for BookService {
    type V = StoreView;

    closed spec fn view(&self) -> StoreView {
        self.store@
    }
}

/// The service over an empty table; the first created book receives id 1.
pub fn book_service() -> (r: BookService)
    ensures
        r@.wf(),
        r@.rows.len() == 0,
        r@.next_id == 1,
{
    BookService { store: BookStore::new() }
}

impl BookService {
    /// Answers one request: routes it, performs the one storage operation
    /// the route names, and renders the status and body.
    pub fn handle_request(&mut self, m: Method, path: &str, body: &str) -> (r: Response)
        requires
            old(self)@.wf(),
        ensures
            final(self)@.wf(),
            (final(self)@, r@) == handle_model(old(self)@, m, path@, body@),
    {
        let route = route_for(m, path);
        match route {
            Route::ListBooks => {
                let books = self.store.get_all_books();
                Response { status: 200, body: books_to_json(&books) }
            },
            Route::GetBook(id) => match self.store.get_book_by_id(id) {
                Ok(b) => Response { status: 200, body: book_to_json(&b) },
                Err(_) => Response { status: 503, body: String::new() },
            },
            Route::AddBook => match parse_book(body) {
                None => Response { status: 400, body: String::new() },
                Some(b) => match self.store.add_book(b.title.as_str(), b.author.as_str()) {
                    Ok(id) => Response { status: 200, body: dec_string_i32(id) },
                    Err(_) => Response { status: 503, body: String::new() },
                },
            },
            Route::EditBook => match parse_book(body) {
                None => Response { status: 400, body: String::new() },
                Some(b) => {
                    self.store.update_book(&b);
                    Response { status: 200, body: String::new() }
                },
            },
            Route::DeleteBook(id) => {
                self.store.delete_book(id);
                Response { status: 200, body: String::new() }
            },
            Route::NoRoute => Response { status: 404, body: String::new() },
        }
    }
}

/// Law: a GET for an id no row carries answers 503 — the deliberately
/// coarse uniform failure status — and leaves the store unchanged.
pub proof fn lemma_get_missing_is_503(st: StoreView, p: Seq<char>, body: Seq<char>, id: i32)
    requires
        route_of(Method::Get, p) == Route::GetBook(id),
        lookup(st.rows, id as int) is None,
    ensures
        handle_model(st, Method::Get, p, body) == (st, (RespView {
            status: 503,
            body: Seq::<char>::empty(),
        })),
{
}

/// Law: a well-formed create answers 200 with the new id in decimal, and a
/// GET for that id then answers 200 with exactly that book's JSON.
pub proof fn lemma_create_then_get_http(
    st: StoreView,
    body: Seq<char>,
    bv: BookView,
    getp: Seq<char>,
)
    requires
        st.wf(),
        st.can_add(),
        parse_book_text(body) == Some(bv),
        route_of(Method::Get, getp) == Route::GetBook(st.next_id as i32),
    ensures
        ({
            let (st1, r1) = handle_model(st, Method::Post, path_books_add(), body);
            let (st2, r2) = handle_model(st1, Method::Get, getp, Seq::empty());
            &&& r1.status == 200
            &&& r1.body == dec_of_int(st.next_id)
            &&& st1 == st.add_model(bv.title, bv.author)
            &&& r2.status == 200
            &&& r2.body == json_of_book(
                BookView { id: st.next_id, title: bv.title, author: bv.author },
            )
            &&& st2 == st1
        }),
{
    assert(route_of(Method::Post, path_books_add()) == Route::AddBook);
    crate::store::lemma_create_then_get(st, bv.title, bv.author);
    assert((st.next_id as i32) as int == st.next_id);
}

} // verus!
