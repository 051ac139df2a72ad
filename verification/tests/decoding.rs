use localserver::cgi::plan_cgi;
use localserver::chunked::{ChunkRead, ChunkedDecoder};
use localserver::number::{decimal_string, hex_string, parse_usize};
use localserver::text::{lines_str, split_str, trim_str, words_str};
use vstd::hash_map::StringHashMap;

fn decode(input: &[u8]) -> Result<Vec<u8>, &'static str> {
    let mut d = ChunkedDecoder::new();
    let mut pos = 0usize;
    loop {
        match d.next_read() {
            ChunkRead::Byte => {
                if pos < input.len() {
                    d.on_byte(input[pos]);
                    pos += 1;
                } else {
                    d.on_end_of_input();
                }
            },
            ChunkRead::Exact(n) => {
                if pos + n > input.len() {
                    return Err("unexpected end");
                }
                d.on_data(&input[pos..pos + n]);
                pos += n;
            },
            ChunkRead::Skip(n) => {
                pos = std::cmp::min(pos + n, input.len());
                d.on_skipped();
            },
            ChunkRead::Finished => return Ok(d.into_body()),
        }
    }
}

#[test]
fn chunked_body_is_decoded() {
    assert_eq!(decode(b"5\r\nhello\r\n6\r\n world\r\n0\r\n\r\n").unwrap(), b"hello world".to_vec());
    assert_eq!(decode(b"A\r\n0123456789\r\n0\r\n\r\n").unwrap(), b"0123456789".to_vec());
    assert_eq!(decode(b" a \r\n0123456789\r\n0\r\n\r\n").unwrap(), b"0123456789".to_vec());
}

#[test]
fn unreadable_sizes_end_the_body() {
    assert_eq!(decode(b"zz\r\nhello\r\n").unwrap(), Vec::<u8>::new());
    assert_eq!(decode(b"").unwrap(), Vec::<u8>::new());
    assert_eq!(decode(b"3\r\nab").unwrap_err(), "unexpected end");
}

#[test]
fn cgi_commands_by_extension() {
    let mut headers = StringHashMap::new();
    headers.insert("content-type".to_string(), "text/plain".to_string());
    let c = plan_cgi("./cgi-bin/x.py", "POST", Some("a=1"), Some(5), &headers);
    assert_eq!(c.program, "python3");
    assert_eq!(c.args, vec!["./cgi-bin/x.py".to_string()]);
    assert!(c.stdin_piped);
    let env: Vec<(&str, &str)> = c.env.iter().map(|(a, b)| (a.as_str(), b.as_str())).collect();
    assert_eq!(
        env,
        vec![
            ("REQUEST_METHOD", "POST"),
            ("QUERY_STRING", "a=1"),
            ("CONTENT_LENGTH", "5"),
            ("CONTENT_TYPE", "text/plain"),
            ("SCRIPT_FILENAME", "./cgi-bin/x.py"),
        ]
    );
    let none = StringHashMap::new();
    let c = plan_cgi("./run.sh", "GET", None, None, &none);
    assert_eq!(c.program, "sh");
    assert!(!c.stdin_piped);
    assert_eq!(c.env.len(), 2);
    let c = plan_cgi("./bin/tool", "GET", None, None, &none);
    assert_eq!(c.program, "./bin/tool");
    assert!(c.args.is_empty());
}

#[test]
fn numbers_in_text() {
    assert_eq!(decimal_string(0), "0");
    assert_eq!(decimal_string(1048576), "1048576");
    assert_eq!(hex_string(0), "0");
    assert_eq!(hex_string(0xdeadbeef), "deadbeef");
    assert_eq!(parse_usize("42", 10), Some(42));
    assert_eq!(parse_usize("+42", 10), Some(42));
    assert_eq!(parse_usize("-1", 10), None);
    assert_eq!(parse_usize("+", 10), None);
    assert_eq!(parse_usize("", 10), None);
    assert_eq!(parse_usize("1F", 16), Some(31));
    assert_eq!(parse_usize("1g", 16), None);
    assert_eq!(parse_usize("99999999999999999999999", 10), None);
    assert_eq!(parse_usize(&usize::MAX.to_string(), 10), Some(usize::MAX));
}

#[test]
fn text_splitting() {
    assert_eq!(trim_str("\t a b \u{3000}"), "a b");
    assert_eq!(split_str("a;b;;c", ';'), vec!["a", "b", "", "c"]);
    assert_eq!(split_str("", ';'), vec![""]);
    assert_eq!(lines_str("a\r\nb\n\nc\r"), vec!["a", "b", "", "c\r"]);
    assert_eq!(lines_str("a\n"), vec!["a"]);
    assert_eq!(lines_str(""), Vec::<&str>::new());
    assert_eq!(words_str("  GET  /x\tHTTP/1.1 "), vec!["GET", "/x", "HTTP/1.1"]);
}

#[test]
fn invalid_utf8_is_decoded_leniently() {
    assert_eq!(localserver::text::utf8_lossy_string(&[0x66, 0xff, 0x6f]), "f\u{FFFD}o");
    assert_eq!(localserver::text::utf8_lossy_string("héllo".as_bytes()), "héllo");
    assert_eq!(decode(b"\xff\r\nhello\r\n").unwrap(), Vec::<u8>::new());
}

#[test]
fn lowercasing_is_unicode_aware() {
    assert_eq!(localserver::text::to_lowercase("Content-TYPE"), "content-type");
    assert_eq!(localserver::text::to_lowercase("ÀÉ"), "àé");
}

#[test]
fn written_numbers_read_back() {
    for n in [0usize, 7, 10, 255, 4096, 1048576, usize::MAX] {
        assert_eq!(parse_usize(&decimal_string(n as u128), 10), Some(n));
        assert_eq!(parse_usize(&hex_string(n as u128), 16), Some(n));
    }
}

#[test]
fn encoded_chunks_decode_to_their_bytes() {
    let chunks: Vec<&[u8]> = vec![b"a", b"0123456789abcdefXYZ", b"\r\n"];
    let mut encoded = Vec::new();
    for c in &chunks {
        encoded.extend_from_slice(hex_string(c.len() as u128).as_bytes());
        encoded.extend_from_slice(b"\r\n");
        encoded.extend_from_slice(c);
        encoded.extend_from_slice(b"\r\n");
    }
    encoded.extend_from_slice(b"0\r\n\r\n");
    assert_eq!(decode(&encoded).unwrap(), chunks.concat());
}

#[test]
fn oversized_chunk_sizes_end_in_an_error() {
    assert_eq!(decode(b"FFFFFFFFFFFFFFFF\r\nabc").unwrap_err(), "unexpected end");
    let d = ChunkedDecoder::new();
    let mut d = d;
    for &b in b"FFFFFFFFFFFFFFFF\r\n" {
        d.on_byte(b);
    }
    match d.next_read() {
        ChunkRead::Exact(n) => assert_eq!(n, 8192),
        _ => panic!("chunk data is read next"),
    }
}

#[test]
fn long_chunks_are_read_in_pieces() {
    let data: Vec<u8> = (0..20_000u32).map(|i| (i % 251) as u8).collect();
    let mut encoded = Vec::new();
    encoded.extend_from_slice(hex_string(data.len() as u128).as_bytes());
    encoded.extend_from_slice(b"\r\n");
    encoded.extend_from_slice(&data);
    encoded.extend_from_slice(b"\r\n0\r\n\r\n");
    assert_eq!(decode(&encoded).unwrap(), data);
}

#[test]
fn a_line_feed_left_before_a_size_line_is_trimmed() {
    assert_eq!(decode(b"\n5\r\nhello\r\n0\r\n\r\n").unwrap(), b"hello".to_vec());
    assert_eq!(decode(b"\nA ;x\r\n0123456789\r\n0\r\n\r\n").unwrap(), b"".to_vec());
    assert_eq!(decode(b"\n A \r\n0123456789\r\n0\r\n\r\n").unwrap(), b"0123456789".to_vec());
}
