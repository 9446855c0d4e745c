//! The router: from a parsed request to what the server does next.
//!
//! The route table gives each request its route. A route that needs no file answers at
//! once. The file routes name the file to read or write; whoever owns the served
//! directory does that and hands the outcome to `file_route` or `upload_route`.

use crate::bytes::{bytes_eq, copy_bytes, lit, starts_with};
use crate::error::HttpError;
use crate::headers::{lookup, upsert};
use crate::request::{HttpRequest, RequestView};
use crate::response::{file_content_set, fresh_response, HttpResponse, ResponseView};
use crate::routes::{find_route, first_match, resolve_route, route_of, Route, RouteEntry};
use crate::text::{fields, split_fields, trim, trimmed, views};
use crate::utf8::{is_ascii_bytes, lemma_text_after_ascii, text_of};
use vstd::prelude::*;
use vstd::utf8::{encode_utf8, encode_utf8_valid_utf8, valid_utf8};

verus! {

/// The status that answers a file request whose method is neither `GET` nor `POST`.
pub const UNSUPPORTED_FILE_METHOD_STATUS: u16 = 401;

/// The status that answers a file request whose path would leave the served directory.
pub const FORBIDDEN_PATH_STATUS: u16 = 404;

/// The status that answers a request that no route matches.
pub const NOT_FOUND_STATUS: u16 = 404;

/// The status that answers a successful upload.
pub const CREATED_STATUS: u16 = 201;

/// `s` without `prefix` at its start; `s` itself where it does not start with `prefix`.
pub open spec fn without_prefix(s: Seq<u8>, prefix: Seq<u8>) -> Seq<u8> {
    if prefix.is_prefix_of(s) {
        s.skip(prefix.len() as int)
    } else {
        s
    }
}

fn strip_prefix<'a>(s: &'a [u8], prefix: &[u8]) -> (out: &'a [u8])
    ensures
        out@ == without_prefix(s@, prefix@),
{
    if starts_with(s, prefix) {
        vstd::slice::slice_subrange(s, prefix.len(), s.len())
    } else {
        s
    }
}

/// Text without an ASCII prefix is text.
proof fn lemma_text_without_prefix(s: Seq<u8>, prefix: Seq<u8>)
    requires
        valid_utf8(s),
        is_ascii_bytes(prefix),
    ensures
        valid_utf8(without_prefix(s, prefix)),
    decreases prefix.len(),
{
    if prefix.is_prefix_of(s) && prefix.len() > 0 {
        assert(s[0] == prefix[0]);
        lemma_text_after_ascii(s);
        let rest = prefix.skip(1);
        assert forall|i: int| 0 <= i < rest.len() implies #[trigger] rest[i] < 128 by {
            assert(rest[i] == prefix[i + 1]);
        }
        assert(rest.is_prefix_of(s.skip(1))) by {
            assert(rest =~= s.skip(1).subrange(0, rest.len() as int));
        }
        lemma_text_without_prefix(s.skip(1), rest);
        assert(s.skip(1).skip(rest.len() as int) =~= s.skip(prefix.len() as int));
    } else if prefix.len() == 0 {
        assert(s.skip(0) =~= s);
    }
}

/// Whether a list of comma-separated values holds `gzip`, whitespace around a value
/// not counting.
pub open spec fn accepts_gzip(value: Seq<u8>) -> bool {
    exists|i: int|
        0 <= i < fields(value, 44).len() && trim(#[trigger] fields(value, 44)[i]) == lit("gzip")
}

/// Whether the value of an `Accept-Encoding` header lists `gzip`.
pub fn lists_gzip(value: &str) -> (yes: bool)
    ensures
        yes == accepts_gzip(lit(value)),
{
    let items = split_fields(value.as_bytes(), 44);
    let mut i: usize = 0;
    while i < items.len()
        invariant
            i <= items.len(),
            views(items@) == fields(lit(value), 44),
            forall|j: int|
                0 <= j < i ==> trim(#[trigger] fields(lit(value), 44)[j]) != lit("gzip"),
        decreases items.len() - i,
    {
        assert(views(items@)[i as int] == items@[i as int]@);
        let item = trimmed(items[i].as_slice());
        if bytes_eq(item.as_slice(), "gzip".as_bytes()) {
            return true;
        }
        i += 1;
    }
    false
}

/// Whether a path below the served directory would leave it: it starts at the root of
/// the file system, or one of its segments is `..`.
pub open spec fn escapes_directory(path: Seq<u8>) -> bool {
    ||| lit("/").is_prefix_of(path)
    ||| exists|i: int|
        0 <= i < fields(path, 47).len() && #[trigger] fields(path, 47)[i] == lit("..")
}

/// Whether a path below the served directory would leave it.
pub fn leaves_directory(path: &str) -> (yes: bool)
    ensures
        yes == escapes_directory(lit(path)),
{
    if starts_with(path.as_bytes(), "/".as_bytes()) {
        return true;
    }
    let segments = split_fields(path.as_bytes(), 47);
    let mut i: usize = 0;
    while i < segments.len()
        invariant
            i <= segments.len(),
            views(segments@) == fields(lit(path), 47),
            forall|j: int| 0 <= j < i ==> #[trigger] fields(lit(path), 47)[j] != lit(".."),
        decreases segments.len() - i,
    {
        assert(views(segments@)[i as int] == segments@[i as int]@);
        if bytes_eq(segments[i].as_slice(), "..".as_bytes()) {
            return true;
        }
        i += 1;
    }
    false
}

/// The answer of the echo route: the path without `/echo/` as the body.
pub open spec fn echo_response(path: Seq<u8>) -> ResponseView {
    ResponseView { body: Some(without_prefix(path, lit("/echo/"))), ..fresh_response() }
}

/// Answers with the path, without `/echo/` at its start, as the body.
pub fn echo_route(path: &str) -> (response: HttpResponse)
    ensures
        response@ == echo_response(lit(path)),
{
    let mut response = HttpResponse::new();
    response.set_body(copy_bytes(strip_prefix(path.as_bytes(), "/echo/".as_bytes())));
    response
}

/// Answers with the given user agent as the body.
pub fn user_agent_route(user_agent: String) -> (response: HttpResponse)
    ensures
        response@ == (ResponseView {
            body: Some(encode_utf8(user_agent@)),
            ..fresh_response()
        }),
{
    let mut response = HttpResponse::new();
    response.set_body(copy_bytes(user_agent.as_str().as_bytes()));
    response
}

/// Answers a `GET` for a file, given the outcome of reading it: the content with
/// content type `application/octet-stream`, or status 404 where it could not be read.
pub fn file_route(content: Result<Vec<u8>, HttpError>) -> (response: HttpResponse)
    ensures
        response@ == file_content_set(fresh_response(), content),
{
    let mut response = HttpResponse::new();
    response.set_file_content(content);
    response
}

/// Answers a `POST` for a file, given the outcome of writing it: status 201, or the
/// failure of the write.
pub fn upload_route(outcome: Result<(), HttpError>) -> (res: Result<HttpResponse, HttpError>)
    ensures
        match outcome {
            Ok(_) => res matches Ok(response) && response@ == bare_response(CREATED_STATUS),
            Err(e) => res matches Err(err) && err == e,
        },
{
    match outcome {
        Ok(_) => {
            let mut response = HttpResponse::new();
            response.set_status_code(CREATED_STATUS);
            Ok(response)
        },
        Err(e) => Err(e),
    }
}

/// What the server does next for a request.
#[derive(Debug, Clone)]
pub enum Action {
    /// Send this response.
    Respond(HttpResponse),
    /// Read the file at this path below the served directory, and answer with
    /// `file_route`.
    ReadFile(String),
    /// Create or truncate the file at this path below the served directory, write
    /// these bytes to it, and answer with `upload_route`.
    WriteFile(String, Vec<u8>),
}

/// The mathematical model of an action. A path is modelled by its bytes.
pub enum ActionView {
    Respond(ResponseView),
    ReadFile(Seq<u8>),
    WriteFile(Seq<u8>, Seq<u8>),
}

impl View for Action {
    type V = ActionView;

    open spec fn view(&self) -> ActionView {
        match self {
            Action::Respond(response) => ActionView::Respond(response@),
            Action::ReadFile(path) => ActionView::ReadFile(encode_utf8(path@)),
            Action::WriteFile(path, content) => ActionView::WriteFile(
                encode_utf8(path@),
                content@,
            ),
        }
    }
}

/// A response with the given status, no headers and no body.
pub open spec fn bare_response(status_code: u16) -> ResponseView {
    fresh_response().with_status(status_code)
}

/// The answer of the echo route to a request: the echo of its path, marked for
/// compression where the request accepts gzip.
pub open spec fn echo_action(request: RequestView) -> ResponseView {
    let plain = echo_response(request.path);
    match lookup(request.headers, lit("Accept-Encoding")) {
        Some(value) => if accepts_gzip(value) {
            ResponseView {
                headers: upsert(plain.headers, lit("Content-Encoding"), lit("gzip")),
                ..plain
            }
        } else {
            plain
        },
        None => plain,
    }
}

/// The content that an upload writes: the body of the request, or nothing where the
/// request has no body.
pub open spec fn upload_content(request: RequestView) -> Seq<u8> {
    match request.body {
        Some(body) => body,
        None => Seq::empty(),
    }
}

/// The path of the file that a file request names, below the served directory.
pub open spec fn file_path(request: RequestView) -> Seq<u8> {
    without_prefix(request.path, lit("/files/"))
}

/// The action of a file route for a request: `action` on the path of the file, or a
/// refusal where that path would leave the served directory.
pub open spec fn file_action(request: RequestView, action: ActionView) -> ActionView {
    if escapes_directory(file_path(request)) {
        ActionView::Respond(bare_response(FORBIDDEN_PATH_STATUS))
    } else {
        action
    }
}

/// The answer of the user-agent route: the value of the `User-Agent` header as the
/// body, empty where the request has none.
pub open spec fn user_agent_action(request: RequestView) -> ResponseView {
    ResponseView {
        body: Some(
            match lookup(request.headers, lit("User-Agent")) {
                Some(value) => value,
                None => Seq::empty(),
            },
        ),
        ..fresh_response()
    }
}

/// What the server does next for a request that was given `route`.
pub open spec fn action_on(route: Route, request: RequestView) -> ActionView {
    match route {
        Route::Root => ActionView::Respond(fresh_response()),
        Route::Echo => ActionView::Respond(echo_action(request)),
        Route::FileRead => file_action(request, ActionView::ReadFile(file_path(request))),
        Route::FileWrite => file_action(
            request,
            ActionView::WriteFile(file_path(request), upload_content(request)),
        ),
        Route::FileRefused => ActionView::Respond(bare_response(UNSUPPORTED_FILE_METHOD_STATUS)),
        Route::UserAgent => ActionView::Respond(user_agent_action(request)),
        Route::NotFound => ActionView::Respond(bare_response(NOT_FOUND_STATUS)),
    }
}

/// What the server does next for a request.
pub open spec fn action_for(request: RequestView) -> ActionView {
    action_on(route_of(request.method, request.path), request)
}

fn respond_with(status_code: u16) -> (action: Action)
    ensures
        action@ == ActionView::Respond(bare_response(status_code)),
{
    let mut response = HttpResponse::new();
    response.set_status_code(status_code);
    Action::Respond(response)
}

fn dispatch_echo(request: &HttpRequest) -> (response: HttpResponse)
    ensures
        response@ == echo_action(request@),
{
    let mut response = echo_route(request.path.as_str());
    match request.headers.get("Accept-Encoding") {
        Some(value) => {
            if lists_gzip(value.as_str()) {
                response.set_header("Content-Encoding", "gzip");
            }
        },
        None => {},
    }
    response
}

fn file_path_of(request: &HttpRequest) -> (path: String)
    ensures
        encode_utf8(path@) == file_path(request@),
{
    let prefix = "/files/";
    proof {
        reveal_strlit("/files/");
        vstd::string::is_ascii_spec_bytes("/files/");
        assert(is_ascii_bytes(lit(prefix))) by {
            assert(lit(prefix) =~= seq![47u8, 102u8, 105u8, 108u8, 101u8, 115u8, 47u8]);
        }
        encode_utf8_valid_utf8(request.path@);
        lemma_text_without_prefix(encode_utf8(request.path@), lit(prefix));
    }
    text_of(strip_prefix(request.path.as_str().as_bytes(), prefix.as_bytes()))
}

fn dispatch_file_read(request: &HttpRequest) -> (action: Action)
    ensures
        action@ == file_action(request@, ActionView::ReadFile(file_path(request@))),
{
    let path = file_path_of(request);
    if leaves_directory(path.as_str()) {
        respond_with(FORBIDDEN_PATH_STATUS)
    } else {
        Action::ReadFile(path)
    }
}

fn dispatch_file_write(request: &HttpRequest) -> (action: Action)
    ensures
        action@ == file_action(
            request@,
            ActionView::WriteFile(file_path(request@), upload_content(request@)),
        ),
{
    let path = file_path_of(request);
    if leaves_directory(path.as_str()) {
        respond_with(FORBIDDEN_PATH_STATUS)
    } else {
        let content = match &request.body {
            Some(body) => copy_bytes(body.as_slice()),
            None => Vec::new(),
        };
        Action::WriteFile(path, content)
    }
}

fn dispatch_user_agent(request: &HttpRequest) -> (response: HttpResponse)
    ensures
        response@ == user_agent_action(request@),
{
    let user_agent = match request.headers.get("User-Agent") {
        Some(value) => value.clone(),
        None => String::new(),
    };
    proof {
        assert(encode_utf8(Seq::<char>::empty()) =~= Seq::<u8>::empty());
    }
    user_agent_route(user_agent)
}

/// Decides what the server does next for a request that was given `route`.
pub fn perform(route: Route, request: &HttpRequest) -> (action: Action)
    ensures
        action@ == action_on(route, request@),
{
    match route {
        Route::Root => Action::Respond(HttpResponse::new()),
        Route::Echo => Action::Respond(dispatch_echo(request)),
        Route::FileRead => dispatch_file_read(request),
        Route::FileWrite => dispatch_file_write(request),
        Route::FileRefused => respond_with(UNSUPPORTED_FILE_METHOD_STATUS),
        Route::UserAgent => Action::Respond(dispatch_user_agent(request)),
        Route::NotFound => respond_with(NOT_FOUND_STATUS),
    }
}

/// Decides what the server does next for a request, by the route that `table` gives it.
pub fn dispatch_with(table: &[RouteEntry], request: &HttpRequest) -> (action: Action)
    ensures
        action@ == action_on(
            first_match(table@, 0, request.method, request@.path),
            request@,
        ),
{
    perform(find_route(table, request.method, request.path.as_str()), request)
}

/// Decides what the server does next for a request, by the route table of the server.
pub fn dispatch(request: &HttpRequest) -> (action: Action)
    ensures
        action@ == action_for(request@),
{
    perform(resolve_route(request.method, request.path.as_str()), request)
}

} // verus!
