//! HTTP/1.1 requests read from text, and the responses written back.
use vstd::prelude::*;
use vstd::hash_map::StringHashMap;
use crate::config::ServerConfig;
use crate::utils::cookie::string_values;
use crate::number::{decimal, decimal_string, parse_usize, parse_usize_spec};
use crate::text::{
    byte_len, contains_str, contains_str_in, find_str, find_str_in, join, join_from, lines,
    lemma_find_char, lines_str, lower_text, split_once, split_once_str, str_byte_len, str_eq, to_lowercase, trim,
    trim_str, views, words, words_str,
};

verus! {

/// The index of the first empty line of `ls`, or its length where none is.
pub open spec fn first_empty(ls: Seq<Seq<char>>) -> nat
    decreases ls.len(),
{
    if ls.len() == 0 || ls[0].len() == 0 {
        0
    } else {
        1 + first_empty(ls.drop_first())
    }
}

proof fn lemma_first_empty(ls: Seq<Seq<char>>, i: int)
    requires
        0 <= i <= ls.len(),
        forall|j: int| 0 <= j < i ==> ls[j].len() > 0,
        i < ls.len() ==> ls[i].len() == 0,
    ensures
        first_empty(ls) == i,
    decreases ls.len(),
{
    if ls.len() > 0 && i > 0 {
        lemma_first_empty(ls.drop_first(), i - 1);
    }
}

/// The method and target of the request that `text` holds: the first two
/// words of its first line, where that line has two words.
pub open spec fn request_line(text: Seq<char>) -> Option<(Seq<char>, Seq<char>)> {
    let ls = lines(text);
    if ls.len() == 0 {
        None
    } else {
        let w = words(ls[0]);
        if w.len() < 2 {
            None
        } else {
            Some((w[0], w[1]))
        }
    }
}

/// The header lines of the request that `text` holds: the lines after the
/// first, up to the first empty one.
pub open spec fn header_lines(text: Seq<char>) -> Seq<Seq<char>> {
    let xs = lines(text).skip(1);
    xs.take(first_empty(xs) as int)
}

/// The lines of the request that `text` holds after the empty line that ends
/// its headers (none where no empty line ends them).
pub open spec fn body_lines(text: Seq<char>) -> Seq<Seq<char>> {
    let xs = lines(text).skip(1);
    let k = first_empty(xs) as int;
    if k < xs.len() {
        xs.skip(k + 1)
    } else {
        Seq::empty()
    }
}

/// The field that a header line sets: its name (trimmed, in lower case) and
/// value (trimmed), split at the first `:`; a line without `:` sets none.
pub open spec fn header_field(line: Seq<char>) -> Option<(Seq<char>, Seq<char>)> {
    match split_once(line, ':') {
        Some((k, v)) => Some((lower_text(trim(k)), trim(v))),
        None => None,
    }
}

/// The header fields that `hs` set, a later one replacing an earlier one.
pub open spec fn header_map(hs: Seq<Seq<char>>) -> Map<Seq<char>, Seq<char>>
    decreases hs.len(),
{
    if hs.len() == 0 {
        Map::empty()
    } else {
        let m = header_map(hs.drop_last());
        match header_field(hs.last()) {
            Some((k, v)) => m.insert(k, v),
            None => m,
        }
    }
}

/// The body length that `hs` announce: the value of the last
/// `content-length` field read as a `usize`, 0 where it does not read as
/// one or where there is no such field.
pub open spec fn content_length_of(hs: Seq<Seq<char>>) -> usize
    decreases hs.len(),
{
    if hs.len() == 0 {
        0
    } else {
        match header_field(hs.last()) {
            Some((k, v)) => if k == "content-length"@ {
                match parse_usize_spec(v, 10) {
                    Some(n) => n,
                    None => 0,
                }
            } else {
                content_length_of(hs.drop_last())
            },
            None => content_length_of(hs.drop_last()),
        }
    }
}

/// Whether `h` is a `transfer-encoding` field whose value, in lower case,
/// mentions `chunked`.
pub open spec fn is_chunked_field(h: Seq<char>) -> bool {
    match header_field(h) {
        Some((k, v)) => k == "transfer-encoding"@ && contains_str(lower_text(v), "chunked"@),
        None => false,
    }
}

/// Whether `hs` announce a chunked body.
pub open spec fn chunked_of(hs: Seq<Seq<char>>) -> bool {
    exists|i: int| 0 <= i < hs.len() && is_chunked_field(#[trigger] hs[i])
}

proof fn lemma_chunked_push(hs: Seq<Seq<char>>, h: Seq<char>)
    ensures
        chunked_of(hs.push(h)) == (chunked_of(hs) || is_chunked_field(h)),
{
    let t = hs.push(h);
    if chunked_of(t) && !chunked_of(hs) {
        let j = choose|j: int| 0 <= j < t.len() && is_chunked_field(#[trigger] t[j]);
        if j < hs.len() {
            assert(t[j] == hs[j]);
        }
    }
    if chunked_of(hs) {
        let j = choose|j: int| 0 <= j < hs.len() && is_chunked_field(#[trigger] hs[j]);
        assert(t[j] == hs[j]);
    }
    if is_chunked_field(h) {
        assert(t[hs.len() as int] == h);
    }
}

/// The byte offset in `text` at which the first `\r\n\r\n` begins.
pub open spec fn blank_line_offset(text: Seq<char>) -> Option<usize> {
    match find_str(text, "\r\n\r\n"@) {
        Some(i) => Some(byte_len(text.take(i))),
        None => None,
    }
}

/// Header fields by name.
pub type Headers = StringHashMap<String>;

/// A request, read from its text.
pub struct Request {
    pub method: String,
    pub path: String,
    /// Header fields: names trimmed and in lower case, values trimmed.
    pub headers: StringHashMap<String>,
    /// The body length that the headers announce (0 where none).
    pub content_length: usize,
    /// Whether the headers announce a chunked body.
    pub chunked: bool,
    /// The lines after the headers' end, joined with `\n`.
    pub body_text: String,
    /// The byte offset at which the first `\r\n\r\n` of the text begins.
    pub blank_line_at: Option<usize>,
}

/// Whether `r` is what `text` reads as.
pub open spec fn request_of(text: Seq<char>, r: Request) -> bool {
    &&& request_line(text) == Some((r.method@, r.path@))
    &&& string_values(r.headers@) == header_map(header_lines(text))
    &&& r.content_length == content_length_of(header_lines(text))
    &&& r.chunked == chunked_of(header_lines(text))
    &&& r.body_text@ == join(body_lines(text), "\n"@)
    &&& r.blank_line_at == blank_line_offset(text)
}

/// The header fields that `ls[from..to]` set, and what they announce.
fn read_headers(ls: &Vec<&str>, from: usize, to: usize) -> (r: (StringHashMap<String>, usize, bool))
    requires
        from <= to <= ls.len(),
    ensures
        string_values(r.0@) == header_map(views(ls@).subrange(from as int, to as int)),
        r.1 == content_length_of(views(ls@).subrange(from as int, to as int)),
        r.2 == chunked_of(views(ls@).subrange(from as int, to as int)),
{
    let ghost hs = views(ls@).subrange(from as int, to as int);
    let mut map: StringHashMap<String> = StringHashMap::new();
    let mut content_length: usize = 0;
    let mut chunked = false;
    let mut i: usize = from;
    assert(hs.take(0) == Seq::<Seq<char>>::empty());
    assert(string_values(map@) =~= header_map(hs.take(0)));
    proof {
        reveal_strlit("content-length");
        reveal_strlit("transfer-encoding");
        reveal_strlit("chunked");
        assert("content-length"@.len() != "transfer-encoding"@.len());
    }
    while i < to
        invariant
            from <= i <= to,
            to <= ls.len(),
            hs == views(ls@).subrange(from as int, to as int),
            string_values(map@) == header_map(hs.take(i - from)),
            content_length == content_length_of(hs.take(i - from)),
            chunked == chunked_of(hs.take(i - from)),
        decreases to - i,
    {
        let line = ls[i];
        let ghost t = hs.take(i + 1 - from);
        proof {
            assert(t.drop_last() == hs.take(i - from));
            assert(t.last() == line@);
        }
        let ghost was = chunked;
        proof {
            reveal_strlit("content-length");
            reveal_strlit("transfer-encoding");
            assert("content-length"@.len() != "transfer-encoding"@.len());
        }
        assert(t == hs.take(i - from).push(line@));
        match split_once_str(line, ':') {
            Some((key, val)) => {
                let k = to_lowercase(trim_str(key));
                let v = trim_str(val);
                if str_eq(k.as_str(), "content-length") {
                    content_length = match parse_usize(v, 10) {
                        Some(n) => n,
                        None => 0,
                    };
                } else if str_eq(k.as_str(), "transfer-encoding") && contains_str_in(
                    to_lowercase(v).as_str(),
                    "chunked",
                ) {
                    chunked = true;
                }
                proof {
                    assert(header_field(line@) == Some((k@, v@)));
                    assert(chunked == (was || is_chunked_field(line@)));
                    lemma_chunked_push(hs.take(i - from), line@);
                }
                let ghost before = map@;
                map.insert(k, String::from_str(v));
                proof {
                    assert(string_values(map@) =~= string_values(before).insert(lower_text(trim(key@)), trim(val@)));
                }
            },
            None => {
                proof {
                    lemma_chunked_push(hs.take(i - from), line@);
                }
            },
        }
        i = i + 1;
    }
    assert(hs.take(to - from) == hs);
    (map, content_length, chunked)
}


/// Reads a request from its text: the request line, the header fields, and
/// where the body begins. Text whose first line does not hold a method and a
/// target is no request.
pub fn parse_request(text: &str) -> (r: Option<Request>)
    ensures
        match r {
            Some(req) => request_of(text@, req),
            None => request_line(text@) is None,
        },
{
    let ls = lines_str(text);
    let n = ls.len();
    if n == 0 {
        return None;
    }
    let w = words_str(ls[0]);
    if w.len() < 2 {
        return None;
    }
    let ghost xs = views(ls@).skip(1);
    let mut k: usize = 1;
    while k < n && ls[k].unicode_len() > 0
        invariant
            n == ls.len(),
            1 <= k <= n,
            xs == views(ls@).skip(1),
            forall|j: int| 0 <= j < k - 1 ==> xs[j].len() > 0,
        decreases n - k,
    {
        k = k + 1;
    }
    proof {
        lemma_first_empty(xs, k - 1);
        assert(xs.take(k - 1) == views(ls@).subrange(1, k as int));
    }
    let (headers, content_length, chunked) = read_headers(&ls, 1, k);
    let body_text = if k < n {
        proof {
            assert(xs.skip(k as int) == views(ls@).skip(k + 1));
        }
        join_from(&ls, k + 1, "\n")
    } else {
        proof {
            assert(join(Seq::<Seq<char>>::empty(), "\n"@) == Seq::<char>::empty());
        }
        String::new()
    };
    let blank_line_at = match find_str_in(text, "\r\n\r\n") {
        Some(i) => Some(str_byte_len(text.substring_char(0, i))),
        None => None,
    };
    Some(
        Request {
            method: String::from_str(w[0]),
            path: String::from_str(w[1]),
            headers,
            content_length,
            chunked,
            body_text,
            blank_line_at,
        },
    )
}


/// Whether the received bytes `raw` hold the empty line `\r\n\r\n` at `i`.
pub open spec fn blank_line_at(raw: Seq<u8>, i: int) -> bool {
    0 <= i && i + 4 <= raw.len() && raw[i] == 13u8 && raw[i + 1] == 10u8 && raw[i + 2] == 13u8 && raw[i + 3]
        == 10u8
}

/// Where the body starts in the received bytes `raw`: just after the first
/// `\r\n\r\n`; `None` where there is none.
pub fn body_offset(raw: &[u8]) -> (r: Option<usize>)
    ensures
        match r {
            Some(p) => 4 <= p <= raw@.len() && blank_line_at(raw@, p - 4) && forall|j: int|
                0 <= j < p - 4 ==> !blank_line_at(raw@, j),
            None => forall|j: int| 0 <= j ==> !blank_line_at(raw@, j),
        },
{
    let n = raw.len();
    let mut i: usize = 0;
    while n >= 4 && i <= n - 4
        invariant
            n == raw@.len(),
            forall|j: int| 0 <= j < i ==> !blank_line_at(raw@, j),
        decreases n - i,
    {
        if raw[i] == 13u8 && raw[i + 1] == 10u8 && raw[i + 2] == 13u8 && raw[i + 3] == 10u8 {
            return Some(i + 4);
        }
        i += 1;
    }
    None
}

/// The file of the page answered with error status `status`: the one that
/// the configured `error_pages` name for it, else `error_pages/<status>.html`.
pub open spec fn error_page_file(pages: Map<u16, String>, status: u16) -> Seq<char> {
    if pages.contains_key(status) {
        pages[status]@
    } else {
        "error_pages/"@ + decimal(status as nat) + ".html"@
    }
}

/// The file of the page answered with error status `status_code` under the
/// server configuration `server`.
pub fn error_page_path(server: &ServerConfig, status_code: u16) -> (r: String)
    ensures
        r@ == error_page_file(server.error_pages@, status_code),
{
    broadcast use vstd::std_specs::hash::group_hash_axioms;

    match server.error_pages.get(&status_code) {
        Some(p) => p.clone(),
        None => {
            let code = decimal_string(status_code as u128);
            let mut r = String::from_str("error_pages/");
            r.append(code.as_str());
            r.append(".html");
            r
        },
    }
}

/// The page answered with an error status where no custom page is given.
pub open spec fn default_error_body(status: u16, message: Seq<char>) -> Seq<char> {
    "<html><body><h1>"@ + decimal(status as nat) + " - "@ + message + "</h1></body></html>"@
}

/// The response for an error status: the status line, an HTML content type,
/// the length of the body in bytes, and the body (the custom page where one
/// is given).
pub open spec fn error_response_text(status: u16, message: Seq<char>, page: Option<Seq<char>>) -> Seq<
    char,
> {
    let body = match page {
        Some(p) => p,
        None => default_error_body(status, message),
    };
    "HTTP/1.1 "@ + decimal(status as nat) + " "@ + message
        + "\r\nContent-Type: text/html\r\nContent-Length: "@ + decimal(byte_len(body) as nat)
        + "\r\n\r\n"@ + body
}

/// The response for an error status `status_code` with reason
/// `default_message`, whose body is the custom page `page` where one is
/// given, else a short HTML page naming the status.
pub fn get_error_response(status_code: u16, default_message: &str, page: Option<&str>) -> (r: String)
    ensures
        r@ == error_response_text(status_code, default_message@, match page {
            Some(p) => Some(p@),
            None => None,
        }),
{
    let code = decimal_string(status_code as u128);
    let body = match page {
        Some(p) => String::from_str(p),
        None => {
            let mut b = String::from_str("<html><body><h1>");
            b.append(code.as_str());
            b.append(" - ");
            b.append(default_message);
            b.append("</h1></body></html>");
            b
        },
    };
    let len = decimal_string(str_byte_len(body.as_str()) as u128);
    let mut r = String::from_str("HTTP/1.1 ");
    r.append(code.as_str());
    r.append(" ");
    r.append(default_message);
    r.append("\r\nContent-Type: text/html\r\nContent-Length: ");
    r.append(len.as_str());
    r.append("\r\n\r\n");
    r.append(body.as_str());
    r
}

/// The response to a session route: the status line, an HTML content type,
/// the header line `cookie_header` where it is not empty, the length of the
/// body in bytes, and the body.
pub open spec fn session_response_text(cookie_header: Seq<char>, body: Seq<char>) -> Seq<char> {
    let head = if cookie_header.len() > 0 {
        "HTTP/1.1 200 OK\r\nContent-Type: text/html\r\n"@ + cookie_header + "\r\n"@
    } else {
        "HTTP/1.1 200 OK\r\nContent-Type: text/html\r\n"@
    };
    head + "Content-Length: "@ + decimal(byte_len(body) as nat) + "\r\n\r\n"@ + body
}

/// The response to a session route.
pub fn session_response(cookie_header: &str, body: &str) -> (r: String)
    ensures
        r@ == session_response_text(cookie_header@, body@),
{
    let mut r = String::from_str("HTTP/1.1 200 OK\r\nContent-Type: text/html\r\n");
    if cookie_header.unicode_len() > 0 {
        r.append(cookie_header);
        r.append("\r\n");
    }
    let len = decimal_string(str_byte_len(body) as u128);
    r.append("Content-Length: ");
    r.append(len.as_str());
    r.append("\r\n\r\n");
    r.append(body);
    r
}

/// The response that serves a file's contents.
pub open spec fn file_response_text(contents: Seq<char>) -> Seq<char> {
    "HTTP/1.1 200 OK\r\nContent-Length: "@ + decimal(byte_len(contents) as nat) + "\r\n\r\n"@
        + contents
}

/// The response that serves a file's contents.
pub fn file_response(contents: &str) -> (r: String)
    ensures
        r@ == file_response_text(contents@),
{
    let len = decimal_string(str_byte_len(contents) as u128);
    let mut r = String::from_str("HTTP/1.1 200 OK\r\nContent-Length: ");
    r.append(len.as_str());
    r.append("\r\n\r\n");
    r.append(contents);
    r
}

/// The response to a deletion that succeeded.
pub fn no_content_response() -> (r: String)
    ensures
        r@ == "HTTP/1.1 204 No Content\r\nContent-Length: 0\r\n\r\n"@,
{
    String::from_str("HTTP/1.1 204 No Content\r\nContent-Length: 0\r\n\r\n")
}

/// The head of the response that carries a script's output of `len` bytes.
pub open spec fn output_head_text(len: usize) -> Seq<char> {
    "HTTP/1.1 200 OK\r\nContent-Length: "@ + decimal(len as nat) + "\r\n\r\n"@
}

/// The head of the response that carries a script's output of `len` bytes.
pub fn output_head(len: usize) -> (r: String)
    ensures
        r@ == output_head_text(len),
{
    let digits = decimal_string(len as u128);
    let mut r = String::from_str("HTTP/1.1 200 OK\r\nContent-Length: ");
    r.append(digits.as_str());
    r.append("\r\n\r\n");
    r
}

/// A header line names the field by the text before its first `:`, trimmed
/// and in lower case, and sets it to all the text after that `:`, trimmed,
/// colons included; a line without `:` sets no field.
pub proof fn lemma_header_field_splits_at_first_colon(name: Seq<char>, value: Seq<char>)
    requires
        forall|i: int| 0 <= i < name.len() ==> name[i] != ':',
    ensures
        header_field(name + seq![':'] + value) == Some((lower_text(trim(name)), trim(value))),
        (forall|i: int| 0 <= i < name.len() ==> name[i] != ':') ==> header_field(name) is None,
{
    let line = name + seq![':'] + value;
    assert forall|j: int| 0 <= j < name.len() implies line[j] != ':' by {
        assert(line[j] == name[j]);
    }
    lemma_find_char(line, ':', name.len() as int);
    assert(line.take(name.len() as int) == name);
    assert(line.skip(name.len() as int + 1) == value);
    lemma_find_char(name, ':', name.len() as int);
}

/// The body length that header lines announce is set by the last line
/// whose field is `content-length`: its value read as a decimal `usize`, 0
/// where it does not read as one; with no such line it is 0.
pub proof fn lemma_last_content_length_counts(hs: Seq<Seq<char>>, i: int, value: Seq<char>)
    requires
        0 <= i < hs.len(),
        header_field(hs[i]) == Some(("content-length"@, value)),
        forall|j: int| i < j < hs.len() ==> !(#[trigger] header_field(hs[j]) matches Some((n, _)) && n
            == "content-length"@),
    ensures
        content_length_of(hs) == match parse_usize_spec(value, 10) {
            Some(n) => n,
            None => 0,
        },
    decreases hs.len(),
{
    if i < hs.len() - 1 {
        let p = hs.drop_last();
        assert forall|j: int| i < j < p.len() implies !(#[trigger] header_field(p[j]) matches Some((n, _)) && n
            == "content-length"@) by {
            assert(p[j] == hs[j]);
        }
        assert(p[i] == hs[i]);
        lemma_last_content_length_counts(p, i, value);
        assert(!(header_field(hs[hs.len() - 1]) matches Some((n, _)) && n == "content-length"@));
    }
}

/// Header lines none of which sets `content-length` announce no body.
pub proof fn lemma_no_content_length(hs: Seq<Seq<char>>)
    requires
        forall|j: int| 0 <= j < hs.len() ==> !(#[trigger] header_field(hs[j]) matches Some((n, _)) && n
            == "content-length"@),
    ensures
        content_length_of(hs) == 0,
    decreases hs.len(),
{
    if hs.len() > 0 {
        let p = hs.drop_last();
        assert forall|j: int| 0 <= j < p.len() implies !(#[trigger] header_field(p[j]) matches Some((n, _)) && n
            == "content-length"@) by {
            assert(p[j] == hs[j]);
        }
        lemma_no_content_length(p);
        assert(!(header_field(hs[hs.len() - 1]) matches Some((n, _)) && n == "content-length"@));
    }
}

} // verus!
