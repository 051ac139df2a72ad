//! How a CGI script is run: its interpreter, arguments and environment.
use vstd::prelude::*;
use vstd::hash_map::StringHashMap;
use crate::number::{decimal, decimal_string};
use crate::router::{extension, path_extension};
use crate::text::str_eq;

verus! {

/// A command that runs a CGI script.
pub struct CgiCommand {
    /// The program to start.
    pub program: String,
    /// Its arguments.
    pub args: Vec<String>,
    /// The environment variables set for it, in order.
    pub env: Vec<(String, String)>,
    /// Whether the request body is written to its standard input (else it
    /// reads from nothing).
    pub stdin_piped: bool,
}

/// The text view of a list of strings.
pub open spec fn strings_view(v: Seq<String>) -> Seq<Seq<char>> {
    v.map_values(|s: String| s@)
}

/// The text view of a list of environment variables.
pub open spec fn env_view(v: Seq<(String, String)>) -> Seq<(Seq<char>, Seq<char>)> {
    v.map_values(|p: (String, String)| (p.0@, p.1@))
}

/// The program and arguments that run `script`: `.py` scripts under
/// `python3`, `.sh` scripts under `sh`, any other file directly.
pub open spec fn cgi_program(script: Seq<char>) -> (Seq<char>, Seq<Seq<char>>) {
    let ext = match extension(script) {
        Some(e) => e,
        None => Seq::empty(),
    };
    if ext == "py"@ {
        ("python3"@, seq![script])
    } else if ext == "sh"@ {
        ("sh"@, seq![script])
    } else {
        (script, Seq::empty())
    }
}

/// The CGI environment: the request method; the query string, where there
/// is one; the body's length, where there is a body; the content type, where
/// the request states one; and the script's file name.
pub open spec fn cgi_env(
    script: Seq<char>,
    method: Seq<char>,
    query: Option<Seq<char>>,
    body_len: Option<usize>,
    content_type: Option<Seq<char>>,
) -> Seq<(Seq<char>, Seq<char>)> {
    seq![("REQUEST_METHOD"@, method)] + match query {
        Some(q) => seq![("QUERY_STRING"@, q)],
        None => Seq::empty(),
    } + match body_len {
        Some(n) => seq![("CONTENT_LENGTH"@, decimal(n as nat))],
        None => Seq::empty(),
    } + match content_type {
        Some(c) => seq![("CONTENT_TYPE"@, c)],
        None => Seq::empty(),
    } + seq![("SCRIPT_FILENAME"@, script)]
}

fn env_pair(name: &str, value: &str) -> (r: (String, String))
    ensures
        r.0@ == name@,
        r.1@ == value@,
{
    (String::from_str(name), String::from_str(value))
}

/// The command that runs the script at `script_path` for a request with
/// `method`, `query_string`, a body of `body_len` bytes (where there is a
/// body) and `headers` (names in lower case).
pub fn plan_cgi(
    script_path: &str,
    method: &str,
    query_string: Option<&str>,
    body_len: Option<usize>,
    headers: &StringHashMap<String>,
) -> (r: CgiCommand)
    ensures
        (r.program@, strings_view(r.args@)) == cgi_program(script_path@),
        env_view(r.env@) == cgi_env(
            script_path@,
            method@,
            match query_string {
                Some(q) => Some(q@),
                None => None,
            },
            body_len,
            if headers@.contains_key("content-type"@) {
                Some(headers@["content-type"@]@)
            } else {
                None
            },
        ),
        r.stdin_piped == body_len is Some,
{
    let ext = match path_extension(script_path) {
        Some(e) => e,
        None => "",
    };
    proof {
        reveal_strlit("");
    }
    let mut args: Vec<String> = Vec::new();
    let program = if str_eq(ext, "py") {
        args.push(String::from_str(script_path));
        String::from_str("python3")
    } else if str_eq(ext, "sh") {
        args.push(String::from_str(script_path));
        String::from_str("sh")
    } else {
        String::from_str(script_path)
    };
    proof {
        let e = match extension(script_path@) {
            Some(e) => e,
            None => Seq::<char>::empty(),
        };
        assert(e == ext@);
        if args@.len() == 1 {
            assert(strings_view(args@) =~= seq![script_path@]);
        } else {
            assert(strings_view(args@) =~= Seq::<Seq<char>>::empty());
        }
        assert(strings_view(args@) == cgi_program(script_path@).1);
    }
    let mut env: Vec<(String, String)> = Vec::new();
    env.push(env_pair("REQUEST_METHOD", method));
    let ghost e0 = env@;
    match query_string {
        Some(qs) => {
            env.push(env_pair("QUERY_STRING", qs));
        },
        None => {},
    }
    let ghost e1 = env@;
    match body_len {
        Some(n) => {
            let digits = decimal_string(n as u128);
            env.push(env_pair("CONTENT_LENGTH", digits.as_str()));
        },
        None => {},
    }
    let ghost e2 = env@;
    match headers.get("content-type") {
        Some(ct) => {
            env.push(env_pair("CONTENT_TYPE", ct.as_str()));
        },
        None => {},
    }
    let ghost e3 = env@;
    env.push(env_pair("SCRIPT_FILENAME", script_path));
    proof {
        let q = match query_string {
            Some(q) => Some(q@),
            None => None,
        };
        let ct = if headers@.contains_key("content-type"@) {
            Some(headers@["content-type"@]@)
        } else {
            None
        };
        let want = cgi_env(script_path@, method@, q, body_len, ct);
        assert(env_view(e0) == seq![("REQUEST_METHOD"@, method@)]);
        assert(env_view(e1) == seq![("REQUEST_METHOD"@, method@)] + match q {
            Some(q) => seq![("QUERY_STRING"@, q)],
            None => Seq::empty(),
        });
        assert(env_view(env@) =~= want);
    }
    CgiCommand { program, args, env, stdin_piped: body_len.is_some() }
}

/// The script is always what runs: a `.py` script is handed to `python3`
/// and a `.sh` script to `sh`, each as the only argument; any other file is
/// started itself, with no arguments.
pub proof fn lemma_cgi_runs_the_script(script: Seq<char>)
    ensures
        extension(script) == Some("py"@) ==> cgi_program(script).0 == "python3"@ && cgi_program(script).1 == seq![script],
        extension(script) == Some("sh"@) ==> cgi_program(script).0 == "sh"@ && cgi_program(script).1 == seq![script],
        extension(script) != Some("py"@) && extension(script) != Some("sh"@) ==> cgi_program(script).0 == script
            && cgi_program(script).1.len() == 0,
        cgi_program(script).1 == seq![script] || (cgi_program(script).0 == script && cgi_program(script).1.len() == 0),
{
    reveal_strlit("py");
    reveal_strlit("sh");
    reveal_strlit("");
    assert("py"@.len() != Seq::<char>::empty().len());
    assert("sh"@.len() != Seq::<char>::empty().len());
    assert("py"@[0] != "sh"@[0]);
}

/// The CGI environment sets, in order: the request method; the query
/// string, where there is one; the body's length in decimal, where there is
/// a body; the content type, where the request states one; and last the
/// script's path. Nothing else is set.
pub proof fn lemma_cgi_env_vars(
    script: Seq<char>,
    method: Seq<char>,
    query: Option<Seq<char>>,
    body_len: Option<usize>,
    content_type: Option<Seq<char>>,
)
    ensures
        ({
            let env = cgi_env(script, method, query, body_len, content_type);
            let qn: int = if query is Some { 1 } else { 0 };
            let ln: int = if body_len is Some { 1 } else { 0 };
            let cn: int = if content_type is Some { 1 } else { 0 };
            &&& env.len() == 2 + qn + ln + cn
            &&& env[0] == ("REQUEST_METHOD"@, method)
            &&& query matches Some(q) ==> env[1] == ("QUERY_STRING"@, q)
            &&& body_len matches Some(n) ==> env[1 + qn] == ("CONTENT_LENGTH"@, decimal(n as nat))
            &&& content_type matches Some(c) ==> env[1 + qn + ln] == ("CONTENT_TYPE"@, c)
            &&& env[env.len() - 1] == ("SCRIPT_FILENAME"@, script)
        }),
{
}

} // verus!
