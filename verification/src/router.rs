//! Routing a request to a configured route, and the session routes.
use vstd::prelude::*;
use vstd::hash_map::StringHashMap;
use vstd::set_lib::lemma_len_subset;
use crate::config::{Config, RouteConfig};
use crate::utils::cookie::{
    cookie_header_text, cookies, create_set_cookie_header, lemma_cookie_header_round_trip, lemma_single_cookie,
    pairs_map, parse_cookies, plain_pair, set_cookie_text, string_values,
};
use crate::number::{hex_lower, is_hex_digit, lemma_hex_lower_digits};
use crate::utils::session::{
    SessionManager, alive_at, expiry_after, kept_data, lemma_new_session_id, lookup_outcome, new_session_id,
    rand_id, token_from_nanos,
};
use crate::text::{
    eq_ignore_ascii_case, eq_ignore_ascii_case_str, is_ws, rfind_char, rfind_char_in, split, split_str,
    starts_with, starts_with_str, str_eq, strip_prefix, strip_prefix_str, trim_start_char,
    trim_start_char_str, views,
};

verus! {

/// Whether `route` serves `path`: its path is a prefix of `path`.
pub open spec fn route_matches(route: RouteConfig, path: Seq<char>) -> bool {
    starts_with(path, route.path@)
}

/// The length of a route's path, by which routes are ranked. (The paths
/// compared are prefixes of one request path, so they rank alike by
/// characters and by bytes.)
pub open spec fn route_len(route: RouteConfig) -> nat {
    route.path@.len()
}

/// Whether `routes[i]` is the route that serves `path`: it matches, no
/// matching route is longer, and every later matching route is shorter (the
/// last of the longest wins).
pub open spec fn is_best_route(routes: Seq<RouteConfig>, path: Seq<char>, i: int) -> bool {
    &&& 0 <= i < routes.len()
    &&& route_matches(routes[i], path)
    &&& forall|j: int|
        0 <= j < routes.len() && route_matches(#[trigger] routes[j], path) ==> route_len(routes[j])
            <= route_len(routes[i])
    &&& forall|j: int|
        i < j < routes.len() && route_matches(#[trigger] routes[j], path) ==> route_len(routes[j])
            < route_len(routes[i])
}

/// The route that serves `path`, where one does.
pub open spec fn best_route(routes: Seq<RouteConfig>, path: Seq<char>) -> Option<RouteConfig> {
    if exists|i: int| is_best_route(routes, path, i) {
        Some(routes[choose|i: int| is_best_route(routes, path, i)])
    } else {
        None
    }
}

/// At most one route is the one that serves a path.
pub proof fn lemma_best_route_unique(routes: Seq<RouteConfig>, path: Seq<char>, i: int, j: int)
    requires
        is_best_route(routes, path, i),
        is_best_route(routes, path, j),
    ensures
        i == j,
{
    if i < j {
        assert(route_len(routes[j]) < route_len(routes[i]));
        assert(route_len(routes[i]) <= route_len(routes[j]));
    } else if j < i {
        assert(route_len(routes[i]) < route_len(routes[j]));
        assert(route_len(routes[j]) <= route_len(routes[i]));
    }
}

/// Whether `method` is one of `route`'s methods, up to ASCII case.
pub open spec fn method_allowed(route: RouteConfig, method: Seq<char>) -> bool {
    match route.methods {
        Some(ms) => exists|i: int| 0 <= i < ms@.len() && eq_ignore_ascii_case(#[trigger] ms@[i]@, method),
        None => false,
    }
}

/// `base` with `seg` appended as `PathBuf::push` appends it on Unix: an
/// absolute `seg` replaces `base`, otherwise a `/` separates them unless
/// `base` is empty or already ends in one.
pub open spec fn path_push(base: Seq<char>, seg: Seq<char>) -> Seq<char> {
    if seg.len() > 0 && seg[0] == '/' {
        seg
    } else if base.len() == 0 || base.last() == '/' {
        base + seg
    } else {
        base + seq!['/'] + seg
    }
}

/// The root directory of a route: its own, else `./public`.
pub open spec fn route_root(route: RouteConfig) -> Seq<char> {
    match route.root {
        Some(r) => r@,
        None => "./public"@,
    }
}

/// The file that `request_path` names under `route`: the request path
/// without the route's prefix, then without one leading `/`, pushed onto the
/// route's root; an empty rest, or a rest of just `/`, names the route's
/// default file (or the root where it has none).
pub open spec fn resolved_path(route: RouteConfig, request_path: Seq<char>) -> Seq<char> {
    let trimmed = match strip_prefix(request_path, route.path@) {
        Some(t) => t,
        None => request_path,
    };
    if trimmed.len() == 0 || trimmed == seq!['/'] {
        match route.default_file {
            Some(f) => path_push(route_root(route), f@),
            None => route_root(route),
        }
    } else {
        let rel = match strip_prefix(trimmed, seq!['/']) {
            Some(t) => t,
            None => trimmed,
        };
        path_push(route_root(route), rel)
    }
}

/// The pieces of a path that name something: `/`-separated pieces other than
/// empty ones and `.`.
pub open spec fn named_parts(ps: Seq<Seq<char>>) -> Seq<Seq<char>>
    decreases ps.len(),
{
    if ps.len() == 0 {
        ps
    } else if ps.last().len() > 0 && ps.last() != seq!['.'] {
        named_parts(ps.drop_last()).push(ps.last())
    } else {
        named_parts(ps.drop_last())
    }
}

proof fn lemma_named_parts_len(ps: Seq<Seq<char>>)
    ensures
        named_parts(ps).len() <= ps.len(),
    decreases ps.len(),
{
    if ps.len() > 0 {
        lemma_named_parts_len(ps.drop_last());
    }
}

/// The final component of `p` where it is a name, as `Path::file_name` gives it.
pub open spec fn file_name(p: Seq<char>) -> Option<Seq<char>> {
    let parts = named_parts(split(p, '/'));
    if parts.len() == 0 || parts.last() == seq!['.', '.'] {
        None
    } else {
        Some(parts.last())
    }
}

/// The extension of `p`, as `Path::extension` gives it: what follows the last
/// `.` of the file name, unless that `.` begins the name.
pub open spec fn extension(p: Seq<char>) -> Option<Seq<char>> {
    match file_name(p) {
        Some(f) => match rfind_char(f, '.') {
            Some(i) => if i > 0 {
                Some(f.skip(i + 1))
            } else {
                None
            },
            None => None,
        },
        None => None,
    }
}

/// Whether a file at `file_path` is run as a CGI script under `route`: its
/// extension is one of the route's CGI extensions, leading dots aside.
pub open spec fn cgi_allowed(route: RouteConfig, file_path: Seq<char>) -> bool {
    match route.cgi_extensions {
        Some(exts) => match extension(file_path) {
            Some(e) => exists|i: int| 0 <= i < exts@.len() && trim_start_char(#[trigger] exts@[i]@, '.') == e,
            None => false,
        },
        None => false,
    }
}

/// The final named component of a path.
pub fn path_file_name<'a>(p: &'a str) -> (r: Option<&'a str>)
    ensures
        match r {
            Some(f) => file_name(p@) == Some(f@),
            None => file_name(p@) is None,
        },
{
    let pieces = split_str(p, '/');
    let ghost ps = split(p@, '/');
    let n = pieces.len();
    let mut last: Option<&str> = None;
    let mut count: usize = 0;
    let mut i: usize = 0;
    assert(ps.take(0) == Seq::<Seq<char>>::empty());
    while i < n
        invariant
            views(pieces@) == ps,
            n == pieces.len(),
            i <= n,
            count == named_parts(ps.take(i as int)).len(),
            count > 0 ==> (last matches Some(l) && l@ == named_parts(ps.take(i as int)).last()),
        decreases n - i,
    {
        let piece = pieces[i];
        let ghost t = ps.take(i + 1);
        proof {
            assert(t.drop_last() == ps.take(i as int));
            assert(t.last() == piece@);
        }
        proof {
            reveal_strlit(".");
            assert("."@ =~= seq!['.']);
            lemma_named_parts_len(t);
        }
        if piece.unicode_len() > 0 && !str_eq(piece, ".") {
            last = Some(piece);
            count = count + 1;
        }
        i = i + 1;
    }
    assert(ps.take(n as int) == ps);
    if count == 0 {
        return None;
    }
    let f = last.unwrap();
    proof {
        reveal_strlit("..");
        assert(".."@ =~= seq!['.', '.']);
    }
    if str_eq(f, "..") {
        None
    } else {
        Some(f)
    }
}

/// The extension of a path.
pub fn path_extension<'a>(p: &'a str) -> (r: Option<&'a str>)
    ensures
        match r {
            Some(e) => extension(p@) == Some(e@),
            None => extension(p@) is None,
        },
{
    match path_file_name(p) {
        Some(f) => match rfind_char_in(f, '.') {
            Some(i) => {
                if i > 0 {
                    let n = f.unicode_len();
                    Some(f.substring_char(i + 1, n))
                } else {
                    None
                }
            },
            None => None,
        },
        None => None,
    }
}


/// `base` with `seg` appended as a path component.
pub fn push_path(base: String, seg: &str) -> (r: String)
    ensures
        r@ == path_push(base@, seg@),
{
    let n = seg.unicode_len();
    if n > 0 && seg.get_char(0) == '/' {
        return String::from_str(seg);
    }
    let b = base.as_str();
    let m = b.unicode_len();
    if m == 0 || b.get_char(m - 1) == '/' {
        let mut r = base;
        r.append(seg);
        r
    } else {
        let mut r = base;
        r.append("/");
        r.append(seg);
        proof {
            reveal_strlit("/");
            assert("/"@ =~= seq!['/']);
        }
        r
    }
}

/// The body answered to a login.
pub open spec fn login_body() -> Seq<char> {
    "<html><body><h1>Session Created & Cookie Set Successfully!</h1></body></html>"@
}

/// The body answered to a profile request with a live session.
pub open spec fn profile_body() -> Seq<char> {
    "<html><body><h1>Profile Page: Valid Session Found!</h1></body></html>"@
}

/// The body answered to a profile request without a live session.
pub open spec fn unauthorized_body() -> Seq<char> {
    "<html><body><h1>Unauthorized: No valid session cookie found.</h1></body></html>"@
}

/// The session identifier that request headers carry: the `session_id`
/// cookie of the `cookie` header, else of the `Cookie` header.
pub open spec fn session_cookie(headers: Map<Seq<char>, Seq<char>>) -> Option<Seq<char>> {
    let header = if headers.contains_key("cookie"@) {
        Some(headers["cookie"@])
    } else if headers.contains_key("Cookie"@) {
        Some(headers["Cookie"@])
    } else {
        None
    };
    match header {
        Some(h) => if cookies(h).contains_key("session_id"@) {
            Some(cookies(h)["session_id"@])
        } else {
            None
        },
        None => None,
    }
}

/// The lifetime, in seconds, of a session that a login opens.
pub open spec fn session_lifetime() -> u64 {
    3600
}

/// Routes requests to the configured routes, and keeps the sessions that
/// the login route opens.
pub struct Router {
    config: Config,
    pub session_manager: SessionManager,
}

impl Router {
    /// The configuration this router routes by.
    pub closed spec fn config(&self) -> Config {
        self.config
    }

    /// The sessions this router keeps.
    pub closed spec fn sessions(&self) -> SessionManager {
        self.session_manager
    }

    /// Whether the router's sessions are well formed.
    pub open spec fn wf(&self) -> bool {
        self.sessions().wf()
    }

    /// A router for `config`, with no sessions, whose sessions live an hour.
    pub fn new(config: Config) -> (r: Self)
        ensures
            r.config() == config,
            r.wf(),
            r.sessions()@ == Map::<Seq<char>, u128>::empty(),
            r.sessions().data() == Map::<Seq<char>, Map<Seq<char>, String>>::empty(),
            r.sessions().duration() == session_lifetime(),
    {
        Self { config, session_manager: SessionManager::new(3600) }
    }

    /// Finds a matching route for a given path, or returns None if 404
    pub fn match_route(&self, path: &str) -> (r: Option<&RouteConfig>)
        ensures
            match r {
                Some(route) => exists|i: int|
                    is_best_route(self.config().routes@, path@, i) && *route == self.config().routes@[i],
                None => forall|i: int|
                    0 <= i < self.config().routes@.len() ==> !route_matches(
                        #[trigger] self.config().routes@[i],
                        path@,
                    ),
            },
            match r {
                Some(route) => best_route(self.config().routes@, path@) == Some(*route),
                None => best_route(self.config().routes@, path@) is None,
            },
    {
        let routes = &self.config.routes;
        let n = routes.len();
        let mut best: Option<usize> = None;
        let mut best_len: usize = 0;
        let mut i: usize = 0;
        while i < n
            invariant
                routes@ == self.config().routes@,
                n == routes.len(),
                i <= n,
                match best {
                    Some(b) => b < i && route_matches(routes@[b as int], path@) && best_len == route_len(
                        routes@[b as int],
                    ) && (forall|j: int|
                        0 <= j < i && route_matches(#[trigger] routes@[j], path@) ==> route_len(
                            routes@[j],
                        ) <= best_len) && (forall|j: int|
                        b < j < i && route_matches(#[trigger] routes@[j], path@) ==> route_len(
                            routes@[j],
                        ) < best_len),
                    None => forall|j: int| 0 <= j < i ==> !route_matches(#[trigger] routes@[j], path@),
                },
            decreases n - i,
        {
            let route = &routes[i];
            if starts_with_str(path, route.path.as_str()) {
                let len = route.path.as_str().unicode_len();
                match best {
                    Some(_) => {
                        if len >= best_len {
                            best = Some(i);
                            best_len = len;
                        }
                    },
                    None => {
                        best = Some(i);
                        best_len = len;
                    },
                }
            }
            i = i + 1;
        }
        match best {
            Some(b) => {
                proof {
                    assert(is_best_route(routes@, path@, b as int));
                    let c = choose|c: int| is_best_route(routes@, path@, c);
                    lemma_best_route_unique(routes@, path@, b as int, c);
                }
                Some(&routes[b])
            },
            None => None,
        }
    }

    /// Checks if a given HTTP method is allowed for a specific route
    pub fn is_method_allowed(&self, route: &RouteConfig, method: &str) -> (r: bool)
        ensures
            r == method_allowed(*route, method@),
    {
        match &route.methods {
            Some(methods) => {
                let n = methods.len();
                let mut i: usize = 0;
                while i < n
                    invariant
                        route.methods == Some(*methods),
                        n == methods.len(),
                        i <= n,
                        forall|j: int| 0 <= j < i ==> !eq_ignore_ascii_case(#[trigger] methods@[j]@, method@),
                    decreases n - i,
                {
                    if eq_ignore_ascii_case_str(methods[i].as_str(), method) {
                        assert(eq_ignore_ascii_case(methods@[i as int]@, method@));
                        let ghost ms = route.methods.unwrap();
                        assert(ms@ == methods@);
                        assert(eq_ignore_ascii_case(ms@[i as int]@, method@));
                        return true;
                    }
                    i = i + 1;
                }
                false
            },
            None => false,
        }
    }

    /// Resolves the file system path for a matched static route
    pub fn resolve_file_path(&self, route: &RouteConfig, request_path: &str) -> (r: String)
        ensures
            r@ == resolved_path(*route, request_path@),
    {
        let root = match &route.root {
            Some(r) => String::from_str(r.as_str()),
            None => String::from_str("./public"),
        };
        let trimmed = match strip_prefix_str(request_path, route.path.as_str()) {
            Some(t) => t,
            None => request_path,
        };
        proof {
            reveal_strlit("/");
            assert("/"@ =~= seq!['/']);
        }
        if trimmed.unicode_len() == 0 || str_eq(trimmed, "/") {
            match &route.default_file {
                Some(f) => push_path(root, f.as_str()),
                None => root,
            }
        } else {
            let rel = match strip_prefix_str(trimmed, "/") {
                Some(t) => t,
                None => trimmed,
            };
            push_path(root, rel)
        }
    }

    /// Checks if a matched route defines a redirection path
    pub fn get_redirection<'a>(&self, route: &'a RouteConfig) -> (r: Option<&'a String>)
        ensures
            match r {
                Some(s) => route.redirect == Some(*s),
                None => route.redirect is None,
            },
    {
        match &route.redirect {
            Some(s) => Some(s),
            None => None,
        }
    }

    /// Checks if a request target and matched route qualify for CGI execution
    pub fn is_cgi_request(&self, route: &RouteConfig, file_path: &str) -> (r: bool)
        ensures
            r == cgi_allowed(*route, file_path@),
    {
        match &route.cgi_extensions {
            Some(extensions) => match path_extension(file_path) {
                Some(ext) => {
                    let n = extensions.len();
                    let mut i: usize = 0;
                    while i < n
                        invariant
                            route.cgi_extensions == Some(*extensions),
                            extension(file_path@) == Some(ext@),
                            n == extensions.len(),
                            i <= n,
                            forall|j: int|
                                0 <= j < i ==> trim_start_char(#[trigger] extensions@[j]@, '.') != ext@,
                        decreases n - i,
                    {
                        if str_eq(trim_start_char_str(extensions[i].as_str(), '.'), ext) {
                            let ghost es = route.cgi_extensions.unwrap();
                            assert(es@ == extensions@);
                            assert(trim_start_char(es@[i as int]@, '.') == ext@);
                            return true;
                        }
                        i = i + 1;
                    }
                    false
                },
                None => false,
            },
            None => false,
        }
    }

    /// The session routes, at clock reading `now` and with `token` for a new
    /// session: `/login` opens a session and answers its cookie; `/profile`
    /// looks up the session that the request's cookie names; other paths are
    /// not session routes.
    pub fn handle_session_route_at(
        &mut self,
        path: &str,
        headers: &StringHashMap<String>,
        now: u128,
        token: u128,
    ) -> (r: Option<(String, String)>)
        requires
            old(self).wf(),
        ensures
            final(self).wf(),
            final(self).config() == old(self).config(),
            final(self).sessions().duration() == old(self).sessions().duration(),
            session_route_outcome(
                old(self).sessions()@,
                final(self).sessions()@,
                path@,
                string_values(headers@),
                now,
                token,
                old(self).sessions().duration(),
                r,
            ),
            final(self).sessions().data() == session_data_after(
                old(self).sessions()@,
                old(self).sessions().data(),
                path@,
                string_values(headers@),
                now,
                token,
                old(self).sessions().duration(),
            ),
    {
        proof {
            old(self).sessions().lemma_data_dom();
            reveal_strlit("/login");
            reveal_strlit("/profile");
        }
        if str_eq(path, "/login") {
            let session_id = self.session_manager.create_session_at(now, token);
            let cookie_header = create_set_cookie_header("session_id", session_id.as_str(), Some(3600));
            let body = "<html><body><h1>Session Created & Cookie Set Successfully!</h1></body></html>";
            return Some((cookie_header, String::from_str(body)));
        }
        if str_eq(path, "/profile") {
            let cookie_str = match headers.get("cookie") {
                Some(c) => Some(c),
                None => headers.get("Cookie"),
            };
            if let Some(cookie_str) = cookie_str {
                let cookies = parse_cookies(cookie_str.as_str());
                proof {
                    assert(cookies@.contains_key("session_id"@) == string_values(cookies@).contains_key("session_id"@));
                }
                if let Some(session_id) = cookies.get("session_id") {
                    if self.session_manager.get_session_at(session_id.as_str(), now).is_some() {
                        let body = "<html><body><h1>Profile Page: Valid Session Found!</h1></body></html>";
                        return Some((String::new(), String::from_str(body)));
                    }
                }
            }
            let body = "<html><body><h1>Unauthorized: No valid session cookie found.</h1></body></html>";
            return Some((String::new(), String::from_str(body)));
        }
        None
    }

    /// The clock reading of this router's sessions.
    pub(crate) fn now(&self) -> u128 {
        self.session_manager.now()
    }

    /// Handles session-based test routes (/login && /profile)
    pub fn handle_session_route(&mut self, path: &str, headers: &StringHashMap<String>) -> (r: Option<(String, String)>)
        requires
            old(self).wf(),
        ensures
            final(self).wf(),
            final(self).config() == old(self).config(),
            final(self).sessions().duration() == old(self).sessions().duration(),
            exists|now: u128, nanos: u128|
                session_route_outcome(
                    old(self).sessions()@,
                    final(self).sessions()@,
                    path@,
                    string_values(headers@),
                    now,
                    token_from_nanos(nanos),
                    old(self).sessions().duration(),
                    r,
                ) && final(self).sessions().data() == session_data_after(
                    old(self).sessions()@,
                    old(self).sessions().data(),
                    path@,
                    string_values(headers@),
                    now,
                    token_from_nanos(nanos),
                    old(self).sessions().duration(),
                ),
    {
        let now = self.now();
        let token = rand_id();
        let ghost nanos = choose|nanos: u128| token == token_from_nanos(nanos);
        self.handle_session_route_at(path, headers, now, token)
    }
}

/// What the session routes answer for `path` and `headers` at clock
/// reading `now`, with `token` for a new session, to sessions `before`: the
/// header line and body answered, and the sessions after; `None` where
/// `path` is not a session route.
pub open spec fn session_answer(
    before: Map<Seq<char>, u128>,
    path: Seq<char>,
    headers: Map<Seq<char>, Seq<char>>,
    now: u128,
    token: u128,
    secs: u64,
) -> Option<(Seq<char>, Seq<char>, Map<Seq<char>, u128>)> {
    if path == "/login"@ {
        Some(
            (
                set_cookie_text("session_id"@, new_session_id(alive_at(before, now), token), Some(3600)),
                login_body(),
                alive_at(before, now).insert(new_session_id(alive_at(before, now), token), expiry_after(now, secs)),
            ),
        )
    } else if path == "/profile"@ {
        match session_cookie(headers) {
            Some(id) => {
                let (found, m) = lookup_outcome(before, id, now, secs);
                Some(
                    (
                        Seq::empty(),
                        if found {
                            profile_body()
                        } else {
                            unauthorized_body()
                        },
                        m,
                    ),
                )
            },
            None => Some((Seq::empty(), unauthorized_body(), before)),
        }
    } else {
        None
    }
}

/// The session data after the session routes answer `path` with `headers`
/// at clock reading `now`, with `token` for a new session, where sessions
/// `before` held `data`: a login adds a session with empty data; a profile
/// request that names a session keeps the data of the sessions that stay
/// alive, the one found included; otherwise the data stays.
pub open spec fn session_data_after(
    before: Map<Seq<char>, u128>,
    data: Map<Seq<char>, Map<Seq<char>, String>>,
    path: Seq<char>,
    headers: Map<Seq<char>, Seq<char>>,
    now: u128,
    token: u128,
    secs: u64,
) -> Map<Seq<char>, Map<Seq<char>, String>> {
    if path == "/login"@ {
        kept_data(data, alive_at(before, now)).insert(new_session_id(alive_at(before, now), token), Map::empty())
    } else if path == "/profile"@ {
        match session_cookie(headers) {
            Some(id) => kept_data(data, lookup_outcome(before, id, now, secs).1),
            None => data,
        }
    } else {
        data
    }
}

/// Whether the session routes turned sessions `before` into `after` and
/// answered `r`, as `session_answer` says.
pub open spec fn session_route_outcome(
    before: Map<Seq<char>, u128>,
    after: Map<Seq<char>, u128>,
    path: Seq<char>,
    headers: Map<Seq<char>, Seq<char>>,
    now: u128,
    token: u128,
    secs: u64,
    r: Option<(String, String)>,
) -> bool {
    match session_answer(before, path, headers, now, token, secs) {
        Some((c, b, m)) => r matches Some((rc, rb)) && rc@ == c && rb@ == b && after == m,
        None => r is None && after == before,
    }
}

/// A session that a login opens is found, and touched, by a profile request
/// made before the session expires whose `cookie` header carries the
/// session's identifier as the `session_id` cookie. The sessions `before`
/// are those of a manager, which holds finitely many
/// (`SessionManager::lemma_finite`).
pub proof fn lemma_login_then_profile(
    before: Map<Seq<char>, u128>,
    login_headers: Map<Seq<char>, Seq<char>>,
    profile_headers: Map<Seq<char>, Seq<char>>,
    now1: u128,
    now2: u128,
    token: u128,
    token2: u128,
    secs: u64,
)
    requires
        before.dom().finite(),
        before.dom().len() <= usize::MAX,
        profile_headers.contains_key("cookie"@),
        profile_headers["cookie"@] == "session_id="@ + new_session_id(alive_at(before, now1), token),
        now2 < expiry_after(now1, secs),
    ensures
        ({
            let after_login = session_answer(before, "/login"@, login_headers, now1, token, secs).unwrap().2;
            let id = new_session_id(alive_at(before, now1), token);
            session_answer(after_login, "/profile"@, profile_headers, now2, token2, secs) matches Some(
                (c, b, after),
            ) && c.len() == 0 && b == profile_body() && after.contains_key(id) && after[id] == expiry_after(
                now2,
                secs,
            )
        }),
{
    reveal_strlit("/login");
    reveal_strlit("/profile");
    reveal_strlit("session_id");
    reveal_strlit("session_id=");
    reveal_strlit("cookie");
    let id = new_session_id(alive_at(before, now1), token);
    lemma_len_subset(alive_at(before, now1).dom(), before.dom());
    lemma_new_session_id(alive_at(before, now1), token);
    let t = choose|t: u128| id == hex_lower(t as nat);
    let name = "session_id"@;
    assert("/login"@ != "/profile"@) by {
        assert("/login"@.len() != "/profile"@.len());
    }
    assert("session_id="@ =~= name + seq!['=']);
    lemma_hex_lower_digits(t as nat);
    assert forall|i: int| 0 <= i < id.len() implies id[i] != ';' by {
        assert(is_hex_digit(id[i]));
    }
    assert(!is_ws(id.last())) by {
        assert(is_hex_digit(id[id.len() - 1]));
    }
    assert(!is_ws(name[0]));
    assert forall|i: int| 0 <= i < name.len() implies name[i] != '=' && name[i] != ';' by {}
    lemma_single_cookie(name, id);
    assert(cookies(profile_headers["cookie"@]) == map![name => id]);
    assert(session_cookie(profile_headers) == Some(id));
    let after_login = session_answer(before, "/login"@, login_headers, now1, token, secs).unwrap().2;
    assert(after_login == alive_at(before, now1).insert(id, expiry_after(now1, secs)));
    assert(alive_at(after_login, now2).contains_key(id));
}

/// A request for a route's prefix followed by one `/` names the same file as
/// the prefix alone: the route's default file under its root where it names
/// one, else its root.
pub proof fn lemma_route_prefix_names_default_file(route: RouteConfig)
    ensures
        resolved_path(route, route.path@ + seq!['/']) == resolved_path(route, route.path@),
        resolved_path(route, route.path@) == match route.default_file {
            Some(f) => path_push(route_root(route), f@),
            None => route_root(route),
        },
{
    let p = route.path@;
    let q = p + seq!['/'];
    assert(q.take(p.len() as int) == p);
    assert(q.skip(p.len() as int) == seq!['/']);
    assert(p.take(p.len() as int) == p);
    assert(p.skip(p.len() as int) == Seq::<char>::empty());
}

/// The value that `pairs` give `name`: that of the last pair with that name.
proof fn lemma_pairs_map_last(pairs: Seq<(Seq<char>, Seq<char>)>, k: int)
    requires
        0 <= k < pairs.len(),
        forall|j: int| k < j < pairs.len() ==> #[trigger] pairs[j].0 != pairs[k].0,
    ensures
        pairs_map(pairs).contains_key(pairs[k].0),
        pairs_map(pairs)[pairs[k].0] == pairs[k].1,
    decreases pairs.len(),
{
    if k < pairs.len() - 1 {
        let p = pairs.drop_last();
        assert forall|j: int| k < j < p.len() implies #[trigger] p[j].0 != p[k].0 by {
            assert(p[j] == pairs[j]);
        }
        lemma_pairs_map_last(p, k);
        assert(pairs[pairs.len() - 1].0 != pairs[k].0);
    }
}

/// The session that request headers name is the `session_id` cookie of
/// their `cookie` header, whatever other cookies it carries: with a header
/// of plain pairs, the value of the last `session_id` pair.
pub proof fn lemma_session_cookie_among_others(
    headers: Map<Seq<char>, Seq<char>>,
    pairs: Seq<(Seq<char>, Seq<char>)>,
    k: int,
)
    requires
        headers.contains_key("cookie"@),
        headers["cookie"@] == cookie_header_text(pairs),
        forall|i: int| 0 <= i < pairs.len() ==> plain_pair(#[trigger] pairs[i].0, pairs[i].1),
        0 <= k < pairs.len(),
        pairs[k].0 == "session_id"@,
        forall|j: int| k < j < pairs.len() ==> #[trigger] pairs[j].0 != "session_id"@,
    ensures
        session_cookie(headers) == Some(pairs[k].1),
        cookies(headers["cookie"@]).contains_key("session_id"@) ==> session_cookie(headers) == Some(
            cookies(headers["cookie"@])["session_id"@],
        ),
{
    lemma_cookie_header_round_trip(pairs);
    lemma_pairs_map_last(pairs, k);
}

/// A session that a login opens is found, and touched, by a profile request
/// made before it expires whose `cookie` header, of plain pairs, carries the
/// session's identifier as its last `session_id` cookie among any others.
pub proof fn lemma_login_then_profile_among_cookies(
    before: Map<Seq<char>, u128>,
    login_headers: Map<Seq<char>, Seq<char>>,
    profile_headers: Map<Seq<char>, Seq<char>>,
    pairs: Seq<(Seq<char>, Seq<char>)>,
    k: int,
    now1: u128,
    now2: u128,
    token: u128,
    token2: u128,
    secs: u64,
)
    requires
        profile_headers.contains_key("cookie"@),
        profile_headers["cookie"@] == cookie_header_text(pairs),
        forall|i: int| 0 <= i < pairs.len() ==> plain_pair(#[trigger] pairs[i].0, pairs[i].1),
        0 <= k < pairs.len(),
        pairs[k] == ("session_id"@, new_session_id(alive_at(before, now1), token)),
        forall|j: int| k < j < pairs.len() ==> #[trigger] pairs[j].0 != "session_id"@,
        now2 < expiry_after(now1, secs),
    ensures
        ({
            let after_login = session_answer(before, "/login"@, login_headers, now1, token, secs).unwrap().2;
            let id = new_session_id(alive_at(before, now1), token);
            session_answer(after_login, "/profile"@, profile_headers, now2, token2, secs) matches Some(
                (c, b, after),
            ) && c.len() == 0 && b == profile_body() && after.contains_key(id) && after[id] == expiry_after(
                now2,
                secs,
            )
        }),
{
    reveal_strlit("/login");
    reveal_strlit("/profile");
    assert("/login"@ != "/profile"@) by {
        assert("/login"@.len() != "/profile"@.len());
    }
    let id = new_session_id(alive_at(before, now1), token);
    lemma_session_cookie_among_others(profile_headers, pairs, k);
    let after_login = session_answer(before, "/login"@, login_headers, now1, token, secs).unwrap().2;
    assert(after_login == alive_at(before, now1).insert(id, expiry_after(now1, secs)));
    assert(alive_at(after_login, now2).contains_key(id));
}

/// A request for a route's prefix followed by a relative path `rel`, with a
/// `/` between them or without, names `rel` under the route's root.
pub proof fn lemma_route_rest_resolves_under_root(route: RouteConfig, rel: Seq<char>)
    requires
        rel.len() > 0,
        rel[0] != '/',
    ensures
        resolved_path(route, route.path@ + seq!['/'] + rel) == path_push(route_root(route), rel),
        resolved_path(route, route.path@ + rel) == path_push(route_root(route), rel),
{
    let r2 = route.path@ + rel;
    assert(r2.take(route.path@.len() as int) == route.path@);
    assert(r2.skip(route.path@.len() as int) == rel);
    assert(rel != seq!['/']) by {
        assert(rel[0] != seq!['/'][0]);
    }
    assert(!starts_with(rel, seq!['/'])) by {
        assert(rel.take(1)[0] == rel[0]);
    }
    let p = route.path@;
    let q = p + seq!['/'] + rel;
    let t = seq!['/'] + rel;
    assert(q.take(p.len() as int) == p);
    assert(q.skip(p.len() as int) == t);
    assert(t.len() >= 2);
    assert(t != seq!['/']) by {
        assert(t.len() != seq!['/'].len());
    }
    assert(t.take(1) == seq!['/']);
    assert(t.skip(1) == rel);
}

} // verus!
