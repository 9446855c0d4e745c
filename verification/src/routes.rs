//! The route table: an ordered list of entries, each a path matcher, a set of methods
//! and a route. The first entry that accepts the path and holds the method decides;
//! where none does, the request is not found.

use crate::bytes::{bytes_eq, lit, starts_with};
use crate::request::RequestMethod;
use vstd::prelude::*;

verus! {

/// How an entry of the route table recognises a path.
#[derive(Debug, Clone, Copy)]
pub enum Matcher {
    /// The path is this string.
    Exact(&'static str),
    /// The path begins with this string.
    Prefix(&'static str),
}

impl Matcher {
    /// Whether the matcher accepts `path`.
    pub open spec fn accepts(self, path: Seq<u8>) -> bool {
        match self {
            Matcher::Exact(text) => path == lit(text),
            Matcher::Prefix(text) => lit(text).is_prefix_of(path),
        }
    }

    /// Whether the matcher accepts `path`.
    pub fn matches(&self, path: &str) -> (yes: bool)
        ensures
            yes == self.accepts(lit(path)),
    {
        match self {
            Matcher::Exact(text) => bytes_eq(path.as_bytes(), text.as_bytes()),
            Matcher::Prefix(text) => starts_with(path.as_bytes(), text.as_bytes()),
        }
    }
}

/// The methods that an entry of the route table serves.
#[derive(Debug, Clone, Copy)]
pub enum MethodSet {
    /// Every method.
    Any,
    /// This method and no other.
    Only(RequestMethod),
}

impl MethodSet {
    /// Whether the set holds `method`.
    pub open spec fn holds(self, method: RequestMethod) -> bool {
        match self {
            MethodSet::Any => true,
            MethodSet::Only(only) => only == method,
        }
    }

    /// Whether the set holds `method`.
    pub fn contains(&self, method: RequestMethod) -> (yes: bool)
        ensures
            yes == self.holds(method),
    {
        match self {
            MethodSet::Any => true,
            MethodSet::Only(only) => *only == method,
        }
    }
}

/// The routes of the server.
#[derive(Debug, Clone, Copy, PartialEq, Eq, Structural)]
pub enum Route {
    /// The root: a bare 200.
    Root,
    /// Echo of the path.
    Echo,
    /// Download of a file.
    FileRead,
    /// Upload of a file.
    FileWrite,
    /// A file request with a method that is neither `GET` nor `POST`.
    FileRefused,
    /// Echo of the `User-Agent` header.
    UserAgent,
    /// No entry of the table serves the request.
    NotFound,
}

/// One entry of the route table.
#[derive(Debug, Clone, Copy)]
pub struct RouteEntry {
    pub matcher: Matcher,
    pub methods: MethodSet,
    pub route: Route,
}

impl RouteEntry {
    /// Whether the entry serves a request with this method and this path.
    pub open spec fn serves(self, method: RequestMethod, path: Seq<u8>) -> bool {
        self.matcher.accepts(path) && self.methods.holds(method)
    }
}

/// The route of a request in `table`, looking at the entries from index `from` on:
/// that of the first entry that serves it.
pub open spec fn first_match(
    table: Seq<RouteEntry>,
    from: int,
    method: RequestMethod,
    path: Seq<u8>,
) -> Route
    decreases table.len() - from,
{
    if from < 0 || from >= table.len() {
        Route::NotFound
    } else if table[from].serves(method, path) {
        table[from].route
    } else {
        first_match(table, from + 1, method, path)
    }
}

/// Looks a request up in a route table.
pub fn find_route(table: &[RouteEntry], method: RequestMethod, path: &str) -> (route: Route)
    ensures
        route == first_match(table@, 0, method, lit(path)),
{
    let mut i: usize = 0;
    while i < table.len()
        invariant
            i <= table.len(),
            first_match(table@, 0, method, lit(path)) == first_match(
                table@,
                i as int,
                method,
                lit(path),
            ),
        decreases table.len() - i,
    {
        if table[i].matcher.matches(path) && table[i].methods.contains(method) {
            return table[i].route;
        }
        i += 1;
    }
    Route::NotFound
}

/// The route table of the server, in the order in which its entries are tried.
pub open spec fn routes() -> Seq<RouteEntry> {
    seq![
        RouteEntry { matcher: Matcher::Exact("/"), methods: MethodSet::Any, route: Route::Root },
        RouteEntry {
            matcher: Matcher::Prefix("/echo/"),
            methods: MethodSet::Any,
            route: Route::Echo,
        },
        RouteEntry {
            matcher: Matcher::Prefix("/files/"),
            methods: MethodSet::Only(RequestMethod::GET),
            route: Route::FileRead,
        },
        RouteEntry {
            matcher: Matcher::Prefix("/files/"),
            methods: MethodSet::Only(RequestMethod::POST),
            route: Route::FileWrite,
        },
        RouteEntry {
            matcher: Matcher::Prefix("/files/"),
            methods: MethodSet::Any,
            route: Route::FileRefused,
        },
        RouteEntry {
            matcher: Matcher::Exact("/user-agent"),
            methods: MethodSet::Any,
            route: Route::UserAgent,
        },
    ]
}

/// Builds the route table of the server.
pub fn route_table() -> (table: Vec<RouteEntry>)
    ensures
        table@ == routes(),
{
    let mut table: Vec<RouteEntry> = Vec::new();
    table.push(
        RouteEntry { matcher: Matcher::Exact("/"), methods: MethodSet::Any, route: Route::Root },
    );
    table.push(
        RouteEntry {
            matcher: Matcher::Prefix("/echo/"),
            methods: MethodSet::Any,
            route: Route::Echo,
        },
    );
    table.push(
        RouteEntry {
            matcher: Matcher::Prefix("/files/"),
            methods: MethodSet::Only(RequestMethod::GET),
            route: Route::FileRead,
        },
    );
    table.push(
        RouteEntry {
            matcher: Matcher::Prefix("/files/"),
            methods: MethodSet::Only(RequestMethod::POST),
            route: Route::FileWrite,
        },
    );
    table.push(
        RouteEntry {
            matcher: Matcher::Prefix("/files/"),
            methods: MethodSet::Any,
            route: Route::FileRefused,
        },
    );
    table.push(
        RouteEntry {
            matcher: Matcher::Exact("/user-agent"),
            methods: MethodSet::Any,
            route: Route::UserAgent,
        },
    );
    assert(table@ =~= routes());
    table
}

/// The route of a request in the route table of the server.
pub open spec fn route_of(method: RequestMethod, path: Seq<u8>) -> Route {
    first_match(routes(), 0, method, path)
}

/// Routes are tried in this order: `/`, then `/echo/*`, then `/files/*` (by method),
/// then `/user-agent`; what none of them matches is not found.
pub proof fn lemma_route_order(method: RequestMethod, path: Seq<u8>)
    ensures
        route_of(method, path) == if path == lit("/") {
            Route::Root
        } else if lit("/echo/").is_prefix_of(path) {
            Route::Echo
        } else if lit("/files/").is_prefix_of(path) {
            match method {
                RequestMethod::GET => Route::FileRead,
                RequestMethod::POST => Route::FileWrite,
                _ => Route::FileRefused,
            }
        } else if path == lit("/user-agent") {
            Route::UserAgent
        } else {
            Route::NotFound
        },
{
    reveal_with_fuel(first_match, 8);
}

/// Finds the route of a request in the route table of the server.
pub fn resolve_route(method: RequestMethod, path: &str) -> (route: Route)
    ensures
        route == route_of(method, lit(path)),
{
    let table = route_table();
    find_route(table.as_slice(), method, path)
}

} // verus!
