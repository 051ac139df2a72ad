//! The server's decisions: what each request is answered with.
use vstd::prelude::*;
use vstd::hash_map::StringHashMap;
use crate::config::{Config, same_config};
use crate::utils::cookie::string_values;
use crate::http::{
    blank_line_offset, body_lines, chunked_of, content_length_of, header_field, header_lines, header_map,
    parse_request, request_line, session_response, session_response_text, Request,
};
use crate::router::{
    Router, best_route, cgi_allowed, lemma_login_then_profile, method_allowed, profile_body,
    resolved_path, session_answer, session_data_after,
};
use crate::utils::session::{alive_at, new_session_id};
use crate::utils::session::expiry_after;
use crate::utils::session::{rand_id, token_from_nanos};
use crate::text::{eq_ignore_ascii_case, eq_ignore_ascii_case_str, join, lemma_find_char, split_once, split_once_str};

verus! {

/// How the body of a request to a CGI script is read.
pub enum BodyPlan {
    /// No body is read.
    Absent,
    /// A chunked body, decoded from the bytes after the first blank line of
    /// the request (it begins at the given byte offset, where there is one)
    /// and then from the connection.
    Chunked(Option<usize>),
    /// A body of the given length that begins with the given text (the lines
    /// after the headers, joined with `\n`) and continues on the connection
    /// until it has that length.
    Sized(String, usize),
}

/// A request to run a CGI script.
pub struct CgiRun {
    pub script_path: String,
    pub method: String,
    pub query_string: Option<String>,
    pub headers: StringHashMap<String>,
    pub body: BodyPlan,
}

/// What a request is answered with.
pub enum Action {
    /// This response, as it stands.
    Respond(String),
    /// The error response for this status and reason.
    Error(u16, String),
    /// The output of a CGI script.
    RunCgi(CgiRun),
    /// The deletion of the file at this path: no content where it is deleted,
    /// forbidden where it cannot be, not found where it is no file.
    Delete(String),
    /// The contents of the file at this path, or not found where it cannot be read.
    Serve(String),
    /// Nothing: the connection is closed.
    Close,
}

/// The text view of a body plan.
pub enum BodyPlanView {
    Absent,
    Chunked(Option<usize>),
    Sized(Seq<char>, usize),
}

/// The text view of an action.
pub enum ActionView {
    Respond(Seq<char>),
    Error(u16, Seq<char>),
    RunCgi {
        script_path: Seq<char>,
        method: Seq<char>,
        query_string: Option<Seq<char>>,
        headers: Map<Seq<char>, Seq<char>>,
        body: BodyPlanView,
    },
    Delete(Seq<char>),
    Serve(Seq<char>),
    Close,
}

impl View for BodyPlan {
    type V = BodyPlanView;

    open spec fn view(&self) -> BodyPlanView {
        match self {
            BodyPlan::Absent => BodyPlanView::Absent,
            BodyPlan::Chunked(o) => BodyPlanView::Chunked(*o),
            BodyPlan::Sized(s, n) => BodyPlanView::Sized(s@, *n),
        }
    }
}

impl View for Action {
    type V = ActionView;

    open spec fn view(&self) -> ActionView {
        match self {
            Action::Respond(s) => ActionView::Respond(s@),
            Action::Error(c, m) => ActionView::Error(*c, m@),
            Action::RunCgi(run) => ActionView::RunCgi {
                script_path: run.script_path@,
                method: run.method@,
                query_string: match run.query_string {
                    Some(q) => Some(q@),
                    None => None,
                },
                headers: string_values(run.headers@),
                body: run.body@,
            },
            Action::Delete(p) => ActionView::Delete(p@),
            Action::Serve(p) => ActionView::Serve(p@),
            Action::Close => ActionView::Close,
        }
    }
}

/// How the body of the request that `text` holds, sent with `method`, is
/// read for a CGI script: only a `POST` has one; a chunked one where the
/// headers say so, else one of the announced length where that is not 0.
pub open spec fn body_plan(method: Seq<char>, text: Seq<char>) -> BodyPlanView {
    let hs = header_lines(text);
    if eq_ignore_ascii_case(method, "POST"@) {
        if chunked_of(hs) {
            BodyPlanView::Chunked(blank_line_offset(text))
        } else if content_length_of(hs) > 0 {
            BodyPlanView::Sized(join(body_lines(text), "\n"@), content_length_of(hs))
        } else {
            BodyPlanView::Absent
        }
    } else {
        BodyPlanView::Absent
    }
}

/// The query string of a request target: what follows its first `?`.
pub open spec fn query_of(path: Seq<char>) -> Option<Seq<char>> {
    match split_once(path, '?') {
        Some((_, q)) => Some(q),
        None => None,
    }
}

/// What a request that is no session request is answered with, by the
/// route that serves its target: not found where none does, not allowed
/// where the route refuses its method; else the script run, the file
/// deleted (for `DELETE`) or the file served, at the path the route
/// resolves the target to.
pub open spec fn route_action(routes: Seq<crate::config::RouteConfig>, method: Seq<char>, path: Seq<char>, text: Seq<char>) -> ActionView {
    match best_route(routes, path) {
        None => ActionView::Error(404, "Not Found"@),
        Some(route) => if !method_allowed(route, method) {
            ActionView::Error(405, "Method Not Allowed"@)
        } else {
            let fp = resolved_path(route, path);
            if cgi_allowed(route, fp) {
                ActionView::RunCgi {
                    script_path: fp,
                    method,
                    query_string: query_of(path),
                    headers: header_map(header_lines(text)),
                    body: body_plan(method, text),
                }
            } else if eq_ignore_ascii_case(method, "DELETE"@) {
                ActionView::Delete(fp)
            } else {
                ActionView::Serve(fp)
            }
        },
    }
}

/// What the request that `text` holds is answered with, at clock reading
/// `now` and with `token` for a new session, and the sessions after it.
pub open spec fn request_outcome(
    routes: Seq<crate::config::RouteConfig>,
    before: Map<Seq<char>, u128>,
    text: Seq<char>,
    now: u128,
    token: u128,
    secs: u64,
) -> (ActionView, Map<Seq<char>, u128>) {
    match request_line(text) {
        None => (ActionView::Close, before),
        Some((method, path)) => match session_answer(before, path, header_map(header_lines(text)), now, token, secs) {
            Some((c, b, m)) => (ActionView::Respond(session_response_text(c, b)), m),
            None => (route_action(routes, method, path, text), before),
        },
    }
}

/// The session data after the request that `text` holds is answered, at
/// clock reading `now` and with `token` for a new session, where sessions
/// `before` held `data`.
pub open spec fn request_data_after(
    before: Map<Seq<char>, u128>,
    data: Map<Seq<char>, Map<Seq<char>, String>>,
    text: Seq<char>,
    now: u128,
    token: u128,
    secs: u64,
) -> Map<Seq<char>, Map<Seq<char>, String>> {
    match request_line(text) {
        None => data,
        Some((_, path)) => session_data_after(before, data, path, header_map(header_lines(text)), now, token, secs),
    }
}

/// The server: its configuration and its router.
pub struct Server {
    config: Config,
    router: Router,
}

impl Server {
    /// The configuration the server was made with.
    pub closed spec fn spec_config(&self) -> Config {
        self.config
    }

    /// The server's router.
    pub closed spec fn spec_router(&self) -> Router {
        self.router
    }

    /// Whether the server's sessions are well formed.
    pub open spec fn wf(&self) -> bool {
        self.spec_router().wf()
    }

    /// A server for `config`, whose router routes by a copy of it.
    pub fn new(config: Config) -> (r: Self)
        ensures
            r.spec_config() == config,
            same_config(r.spec_router().config(), config),
            r.wf(),
            r.spec_router().sessions()@ == Map::<Seq<char>, u128>::empty(),
            r.spec_router().sessions().data() == Map::<Seq<char>, Map<Seq<char>, String>>::empty(),
            r.spec_router().sessions().duration() == crate::router::session_lifetime(),
    {
        let router = Router::new(config.duplicate());
        Self { config, router }
    }

    /// The configuration the server was made with.
    pub fn config(&self) -> (r: &Config)
        ensures
            *r == self.spec_config(),
    {
        &self.config
    }

    /// Decides what the request that `text` holds is answered with, at clock
    /// reading `now` and with `token` for a new session.
    pub fn handle_request_at(&mut self, text: &str, now: u128, token: u128) -> (r: Action)
        requires
            old(self).wf(),
        ensures
            final(self).wf(),
            final(self).spec_config() == old(self).spec_config(),
            final(self).spec_router().config() == old(self).spec_router().config(),
            final(self).spec_router().sessions().duration() == old(self).spec_router().sessions().duration(),
            (r@, final(self).spec_router().sessions()@) == request_outcome(
                old(self).spec_router().config().routes@,
                old(self).spec_router().sessions()@,
                text@,
                now,
                token,
                old(self).spec_router().sessions().duration(),
            ),
            final(self).spec_router().sessions().data() == request_data_after(
                old(self).spec_router().sessions()@,
                old(self).spec_router().sessions().data(),
                text@,
                now,
                token,
                old(self).spec_router().sessions().duration(),
            ),
    {
        let req: Request = match parse_request(text) {
            Some(req) => req,
            None => return Action::Close,
        };
        if let Some((cookie_header, body)) = self.router.handle_session_route_at(
            req.path.as_str(),
            &req.headers,
            now,
            token,
        ) {
            return Action::Respond(session_response(cookie_header.as_str(), body.as_str()));
        }
        let route = match self.router.match_route(req.path.as_str()) {
            Some(route) => route,
            None => return Action::Error(404, String::from_str("Not Found")),
        };
        if !self.router.is_method_allowed(route, req.method.as_str()) {
            return Action::Error(405, String::from_str("Method Not Allowed"));
        }
        let file_path = self.router.resolve_file_path(route, req.path.as_str());
        if self.router.is_cgi_request(route, file_path.as_str()) {
            let query_string = match split_once_str(req.path.as_str(), '?') {
                Some((_, q)) => Some(String::from_str(q)),
                None => None,
            };
            let body = if eq_ignore_ascii_case_str(req.method.as_str(), "POST") {
                if req.chunked {
                    BodyPlan::Chunked(req.blank_line_at)
                } else if req.content_length > 0 {
                    BodyPlan::Sized(req.body_text, req.content_length)
                } else {
                    BodyPlan::Absent
                }
            } else {
                BodyPlan::Absent
            };
            return Action::RunCgi(
                CgiRun { script_path: file_path, method: req.method, query_string, headers: req.headers, body },
            );
        }
        if eq_ignore_ascii_case_str(req.method.as_str(), "DELETE") {
            Action::Delete(file_path)
        } else {
            Action::Serve(file_path)
        }
    }

    /// Decides what the request that `text` holds is answered with, now.
    pub fn handle_request(&mut self, text: &str) -> (r: Action)
        requires
            old(self).wf(),
        ensures
            final(self).wf(),
            final(self).spec_config() == old(self).spec_config(),
            final(self).spec_router().config() == old(self).spec_router().config(),
            exists|now: u128, nanos: u128|
                (r@, final(self).spec_router().sessions()@) == request_outcome(
                    old(self).spec_router().config().routes@,
                    old(self).spec_router().sessions()@,
                    text@,
                    now,
                    token_from_nanos(nanos),
                    old(self).spec_router().sessions().duration(),
                ) && final(self).spec_router().sessions().data() == request_data_after(
                    old(self).spec_router().sessions()@,
                    old(self).spec_router().sessions().data(),
                    text@,
                    now,
                    token_from_nanos(nanos),
                    old(self).spec_router().sessions().duration(),
                ),
    {
        let now = self.router.now();
        let token = rand_id();
        let ghost nanos = choose|nanos: u128| token == token_from_nanos(nanos);
        self.handle_request_at(text, now, token)
    }
}

/// A login request followed, before the session it opens expires, by a
/// profile request whose `Cookie` header carries that session's
/// `session_id` is answered with the profile page.
pub proof fn lemma_server_login_then_profile(
    routes: Seq<crate::config::RouteConfig>,
    before: Map<Seq<char>, u128>,
    login_text: Seq<char>,
    profile_text: Seq<char>,
    now1: u128,
    now2: u128,
    token: u128,
    token2: u128,
    secs: u64,
)
    requires
        request_line(login_text) matches Some((_, p)) && p == "/login"@,
        request_line(profile_text) matches Some((_, p)) && p == "/profile"@,
        header_map(header_lines(profile_text)).contains_key("cookie"@),
        before.dom().finite(),
        before.dom().len() <= usize::MAX,
        header_map(header_lines(profile_text))["cookie"@] == "session_id="@ + new_session_id(alive_at(before, now1), token),
        now2 < expiry_after(now1, secs),
    ensures
        request_outcome(
            routes,
            request_outcome(routes, before, login_text, now1, token, secs).1,
            profile_text,
            now2,
            token2,
            secs,
        ).0 == ActionView::Respond(session_response_text(Seq::empty(), profile_body())),
{
    reveal_strlit("/login");
    let h1 = header_map(header_lines(login_text));
    let h2 = header_map(header_lines(profile_text));
    assert(session_answer(before, "/login"@, h1, now1, token, secs) is Some);
    lemma_login_then_profile(before, h1, h2, now1, now2, token, token2, secs);
}

/// The fields that header lines `hs` set include each line's field where no
/// later line sets the same name.
proof fn lemma_header_map_last(hs: Seq<Seq<char>>, i: int, name: Seq<char>, value: Seq<char>)
    requires
        0 <= i < hs.len(),
        header_field(hs[i]) == Some((name, value)),
        forall|j: int| i < j < hs.len() ==> !(#[trigger] header_field(hs[j]) matches Some((n, _)) && n == name),
    ensures
        header_map(hs).contains_key(name),
        header_map(hs)[name] == value,
    decreases hs.len(),
{
    if i < hs.len() - 1 {
        let p = hs.drop_last();
        assert forall|j: int| i < j < p.len() implies !(#[trigger] header_field(p[j]) matches Some((n, _)) && n
            == name) by {
            assert(p[j] == hs[j]);
        }
        assert(p[i] == hs[i]);
        lemma_header_map_last(p, i, name, value);
        assert(!(header_field(hs[hs.len() - 1]) matches Some((n, _)) && n == name));
    }
}

/// A CGI run is handed the request's header fields, as its header lines set
/// them: each line's field where no later line sets the same name, so a
/// request's `Content-Type` line reaches the script.
pub proof fn lemma_cgi_run_gets_request_headers(
    routes: Seq<crate::config::RouteConfig>,
    before: Map<Seq<char>, u128>,
    text: Seq<char>,
    now: u128,
    token: u128,
    secs: u64,
    i: int,
    name: Seq<char>,
    value: Seq<char>,
)
    requires
        0 <= i < header_lines(text).len(),
        header_field(header_lines(text)[i]) == Some((name, value)),
        forall|j: int|
            i < j < header_lines(text).len() ==> !(#[trigger] header_field(header_lines(text)[j]) matches Some(
                (n, _),
            ) && n == name),
    ensures
        request_outcome(routes, before, text, now, token, secs).0 matches ActionView::RunCgi { headers, .. }
            ==> headers == header_map(header_lines(text)) && headers.contains_key(name) && headers[name] == value,
{
    lemma_header_map_last(header_lines(text), i, name, value);
}

/// The query string of a target is all that follows its first `?`, later
/// `?` included; a target without `?` has none.
pub proof fn lemma_query_after_first_question_mark(a: Seq<char>, q: Seq<char>)
    requires
        forall|i: int| 0 <= i < a.len() ==> a[i] != '?',
    ensures
        query_of(a + seq!['?'] + q) == Some(q),
        query_of(a) is None,
{
    let t = a + seq!['?'] + q;
    assert forall|j: int| 0 <= j < a.len() implies t[j] != '?' by {
        assert(t[j] == a[j]);
    }
    lemma_find_char(t, '?', a.len() as int);
    assert(t.skip(a.len() as int + 1) == q);
    lemma_find_char(a, '?', a.len() as int);
}

/// A CGI run comes from the route that serves the request's target: that
/// route allows the request's method and runs the script's extension as
/// CGI; the script is the file the target resolves to under it, run with the
/// request's method and the target's query string; and a request other than
/// `POST` hands it no body.
pub proof fn lemma_cgi_run_fields(
    routes: Seq<crate::config::RouteConfig>,
    before: Map<Seq<char>, u128>,
    text: Seq<char>,
    now: u128,
    token: u128,
    secs: u64,
)
    ensures
        request_outcome(routes, before, text, now, token, secs).0 matches ActionView::RunCgi {
            script_path,
            method,
            query_string,
            body,
            ..
        } ==> (request_line(text) matches Some((m, p)) && method == m && query_string == query_of(p) && (
        best_route(routes, p) matches Some(route) && method_allowed(route, m) && cgi_allowed(route, script_path)
            && script_path == resolved_path(route, p)) && (!eq_ignore_ascii_case(m, "POST"@) ==> body
            == BodyPlanView::Absent)),
{
}

} // verus!
