//! Decoding a chunked request body, one read at a time.
use vstd::prelude::*;
use crate::number::{hex_lower, is_hex_digit, lemma_hex_lower_digits, lemma_hex_round_trip, parse_usize, parse_usize_spec};
use crate::text::{lossy_text, trim, trim_end, trim_start, trim_str, utf8_lossy_string};
use vstd::utf8::{encode_utf8, is_ascii_chars};

verus! {

/// Where a chunked body's decoding stands.
pub enum ChunkPhase {
    /// Reading a chunk-size line, one byte at a time.
    SizeLine,
    /// Expecting the given number of further bytes of a chunk's data.
    Data(usize),
    /// Skipping the line break after a chunk's data (one read of at most two bytes).
    AfterData,
    /// Skipping the line break after the last chunk (one read of at most two bytes).
    AfterLast,
    /// The body is complete.
    Done,
}

/// The read that the decoding asks for next.
pub enum ChunkRead {
    /// Read one byte.
    Byte,
    /// Read exactly this many bytes (never more than `CHUNK_PIECE`).
    Exact(usize),
    /// Read once into a buffer of this many bytes, whatever arrives.
    Skip(usize),
    /// Read nothing more.
    Finished,
}

/// The most bytes of a chunk's data asked for in one read, so that no
/// buffer is sized by the size a request announces.
pub const CHUNK_PIECE: usize = 8192;

/// The bytes of chunk data asked for next, of `n` still expected.
pub open spec fn piece_len(n: usize) -> usize {
    if n < CHUNK_PIECE {
        n
    } else {
        CHUNK_PIECE
    }
}

/// The phase after `k` more bytes of chunk data of `n` expected have arrived.
pub open spec fn phase_after_data(n: usize, k: usize) -> ChunkPhase {
    if k < n {
        ChunkPhase::Data((n - k) as usize)
    } else {
        ChunkPhase::AfterData
    }
}

/// The size that a chunk-size line announces: its text (decoded leniently),
/// trimmed and read as hexadecimal, 0 where it does not read as a number.
pub open spec fn chunk_size_of(line: Seq<u8>) -> usize {
    match parse_usize_spec(trim(lossy_text(line)), 16) {
        Some(n) => n,
        None => 0,
    }
}

/// Whether `line` ends a chunk-size line: it ends in `\r\n`.
pub open spec fn ends_line(line: Seq<u8>) -> bool {
    line.len() >= 2 && line[line.len() - 2] == 13u8 && line[line.len() - 1] == 10u8
}

/// The phase that a finished chunk-size line leads to.
pub open spec fn phase_after_line(line: Seq<u8>) -> ChunkPhase {
    if chunk_size_of(line) == 0 {
        ChunkPhase::AfterLast
    } else {
        ChunkPhase::Data(chunk_size_of(line))
    }
}

/// The decoding of a chunked body: the body so far, the chunk-size line
/// being read, and the phase.
pub struct ChunkedDecoder {
    body: Vec<u8>,
    line: Vec<u8>,
    phase: ChunkPhase,
}

impl ChunkedDecoder {
    /// The body decoded so far.
    pub closed spec fn body(&self) -> Seq<u8> {
        self.body@
    }

    /// The bytes of the chunk-size line read so far.
    pub closed spec fn line(&self) -> Seq<u8> {
        self.line@
    }

    /// Where the decoding stands.
    pub closed spec fn phase(&self) -> ChunkPhase {
        self.phase
    }

    /// A decoding that has read nothing.
    pub fn new() -> (r: Self)
        ensures
            r.body() == Seq::<u8>::empty(),
            r.line() == Seq::<u8>::empty(),
            r.phase() == ChunkPhase::SizeLine,
    {
        ChunkedDecoder { body: Vec::new(), line: Vec::new(), phase: ChunkPhase::SizeLine }
    }

    /// The read that the decoding asks for next.
    pub fn next_read(&self) -> (r: ChunkRead)
        ensures
            r == match self.phase() {
                ChunkPhase::SizeLine => ChunkRead::Byte,
                ChunkPhase::Data(n) => ChunkRead::Exact(piece_len(n)),
                ChunkPhase::AfterData => ChunkRead::Skip(2),
                ChunkPhase::AfterLast => ChunkRead::Skip(2),
                ChunkPhase::Done => ChunkRead::Finished,
            },
    {
        match self.phase {
            ChunkPhase::SizeLine => ChunkRead::Byte,
            ChunkPhase::Data(n) => ChunkRead::Exact(if n < CHUNK_PIECE {
                n
            } else {
                CHUNK_PIECE
            }),
            ChunkPhase::AfterData => ChunkRead::Skip(2),
            ChunkPhase::AfterLast => ChunkRead::Skip(2),
            ChunkPhase::Done => ChunkRead::Finished,
        }
    }

    /// Ends the chunk-size line read so far.
    fn finish_line(&mut self)
        requires
            old(self).phase() == ChunkPhase::SizeLine,
        ensures
            final(self).body() == old(self).body(),
            final(self).line() == Seq::<u8>::empty(),
            final(self).phase() == phase_after_line(old(self).line()),
    {
        let text = utf8_lossy_string(self.line.as_slice());
        let size = match parse_usize(trim_str(text.as_str()), 16) {
            Some(n) => n,
            None => 0,
        };
        self.line = Vec::new();
        if size == 0 {
            self.phase = ChunkPhase::AfterLast;
        } else {
            self.phase = ChunkPhase::Data(size);
        }
    }

    /// One byte of a chunk-size line has arrived; a line that now ends in
    /// `\r\n` is finished.
    pub fn on_byte(&mut self, b: u8)
        requires
            old(self).phase() == ChunkPhase::SizeLine,
        ensures
            final(self).body() == old(self).body(),
            ends_line(old(self).line().push(b)) ==> final(self).line() == Seq::<u8>::empty()
                && final(self).phase() == phase_after_line(old(self).line().push(b)),
            !ends_line(old(self).line().push(b)) ==> final(self).line() == old(self).line().push(b)
                && final(self).phase() == ChunkPhase::SizeLine,
    {
        self.line.push(b);
        let n = self.line.len();
        if n >= 2 && self.line[n - 2] == 13u8 && self.line[n - 1] == 10u8 {
            self.finish_line();
        }
    }

    /// The input ended while a chunk-size line was being read: the line is
    /// finished as it stands.
    pub fn on_end_of_input(&mut self)
        requires
            old(self).phase() == ChunkPhase::SizeLine,
        ensures
            final(self).body() == old(self).body(),
            final(self).line() == Seq::<u8>::empty(),
            final(self).phase() == phase_after_line(old(self).line()),
    {
        self.finish_line();
    }

    /// A piece of a chunk's data has arrived: it is appended to the body;
    /// once the whole chunk has arrived, its line break follows.
    pub fn on_data(&mut self, data: &[u8])
        requires
            old(self).phase() matches ChunkPhase::Data(n) && data@.len() == piece_len(n),
        ensures
            final(self).body() == old(self).body() + data@,
            final(self).line() == old(self).line(),
            old(self).phase() matches ChunkPhase::Data(n) && final(self).phase() == phase_after_data(
                n,
                data@.len() as usize,
            ),
    {
        let n = data.len();
        let mut i: usize = 0;
        let ghost start = self.body@;
        let ghost line0 = self.line@;
        let ghost phase0 = self.phase;
        while i < n
            invariant
                self.line@ == line0,
                self.phase == phase0,
                n == data@.len(),
                i <= n,
                self.body@ == start + data@.take(i as int),
            decreases n - i,
        {
            self.body.push(data[i]);
            assert(data@.take(i + 1) == data@.take(i as int).push(data@[i as int]));
            i = i + 1;
        }
        assert(data@.take(n as int) == data@);
        if let ChunkPhase::Data(expected) = self.phase {
            if n < expected {
                self.phase = ChunkPhase::Data(expected - n);
            } else {
                self.phase = ChunkPhase::AfterData;
            }
        }
    }

    /// The read after a chunk's data has been made: after a chunk with data
    /// the next size line follows; after the last chunk the body is done.
    pub fn on_skipped(&mut self)
        requires
            old(self).phase() == ChunkPhase::AfterData || old(self).phase() == ChunkPhase::AfterLast,
        ensures
            final(self).body() == old(self).body(),
            final(self).line() == old(self).line(),
            final(self).phase() == if old(self).phase() == ChunkPhase::AfterData {
                ChunkPhase::SizeLine
            } else {
                ChunkPhase::Done
            },
    {
        if let ChunkPhase::AfterData = self.phase {
            self.phase = ChunkPhase::SizeLine;
        } else {
            self.phase = ChunkPhase::Done;
        }
    }

    /// The body decoded.
    pub fn into_body(self) -> (r: Vec<u8>)
        ensures
            r@ == self.body(),
    {
        self.body
    }
}


/// The order in which the phases follow each other when no input is left.
pub open spec fn phase_rank(p: ChunkPhase) -> nat {
    match p {
        ChunkPhase::Done => 0,
        ChunkPhase::AfterLast => 1,
        ChunkPhase::Data(_) => 2,
        ChunkPhase::SizeLine => 3,
        ChunkPhase::AfterData => 4,
    }
}

/// The body that a decoding in `phase`, with size line `line` and body
/// `body` so far, ends with when it is given `input` and each read gets all
/// it asks for while input is left; `None` where a chunk's data is cut short.
pub open spec fn decode_from(phase: ChunkPhase, line: Seq<u8>, body: Seq<u8>, input: Seq<u8>) -> Option<
    Seq<u8>,
>
    decreases input.len(), phase_rank(phase),
{
    match phase {
        ChunkPhase::Done => Some(body),
        ChunkPhase::AfterLast => {
            let k = if input.len() < 2 {
                input.len() as int
            } else {
                2
            };
            decode_from(ChunkPhase::Done, line, body, input.skip(k))
        },
        ChunkPhase::AfterData => {
            let k = if input.len() < 2 {
                input.len() as int
            } else {
                2
            };
            decode_from(ChunkPhase::SizeLine, line, body, input.skip(k))
        },
        ChunkPhase::Data(n) => {
            let k = piece_len(n);
            if 0 < n && k <= input.len() {
                decode_from(phase_after_data(n, k), line, body + input.take(k as int), input.skip(k as int))
            } else {
                None
            }
        },
        ChunkPhase::SizeLine => if input.len() == 0 {
            decode_from(phase_after_line(line), Seq::empty(), body, input)
        } else {
            let l = line.push(input[0]);
            if ends_line(l) {
                decode_from(phase_after_line(l), Seq::empty(), body, input.drop_first())
            } else {
                decode_from(ChunkPhase::SizeLine, l, body, input.drop_first())
            }
        },
    }
}

/// The chunk-size line for a chunk of `n` bytes: `n` in lower-case
/// hexadecimal, then `\r\n`.
pub open spec fn size_line(n: nat) -> Seq<u8> {
    encode_utf8(hex_lower(n) + seq!['\r', '\n'])
}

/// The chunked encoding of `chunks`: each chunk as its size line, its bytes
/// and `\r\n`; then the last chunk, `0\r\n\r\n`.
pub open spec fn chunked_encoding(chunks: Seq<Seq<u8>>) -> Seq<u8>
    decreases chunks.len(),
{
    if chunks.len() == 0 {
        size_line(0) + seq![13u8, 10u8]
    } else {
        size_line(chunks[0].len()) + chunks[0] + seq![13u8, 10u8] + chunked_encoding(chunks.drop_first())
    }
}

/// The bytes of `chunks`, in order.
pub open spec fn concat_chunks(chunks: Seq<Seq<u8>>) -> Seq<u8>
    decreases chunks.len(),
{
    if chunks.len() == 0 {
        Seq::empty()
    } else {
        chunks[0] + concat_chunks(chunks.drop_first())
    }
}

proof fn lemma_size_line_bytes(n: nat)
    ensures
        size_line(n).len() >= 3,
        size_line(n)[size_line(n).len() - 2] == 13u8,
        size_line(n)[size_line(n).len() - 1] == 10u8,
        forall|i: int| 0 <= i < size_line(n).len() - 2 ==> #[trigger] size_line(n)[i] != 10u8 && size_line(n)[i] != 13u8,
{
    let cs = hex_lower(n) + seq!['\r', '\n'];
    lemma_hex_lower_digits(n);
    assert forall|i: int| 0 <= i < cs.len() implies '\0' <= #[trigger] cs[i] <= '\u{7f}' by {
        if i < cs.len() - 2 {
            assert(cs[i] == hex_lower(n)[i]);
            assert(is_hex_digit(hex_lower(n)[i]));
        } else if i == cs.len() - 2 {
            assert(cs[i] == '\r');
        } else {
            assert(cs[i] == '\n');
        }
    }
    assert(is_ascii_chars(cs));
    vstd::utf8::is_ascii_chars_encode_utf8(cs);
    assert(cs[cs.len() - 2] == '\r');
    assert(cs[cs.len() - 1] == '\n');
    assert(size_line(n)[cs.len() - 2] == cs[cs.len() - 2] as u8);
    assert(size_line(n)[cs.len() - 1] == cs[cs.len() - 1] as u8);
    assert forall|i: int| 0 <= i < size_line(n).len() - 2 implies #[trigger] size_line(n)[i] != 10u8 && size_line(n)[i] != 13u8 by {
        assert(cs[i] == hex_lower(n)[i]);
        assert(is_hex_digit(cs[i]));
        assert(size_line(n)[i] == cs[i] as u8);
    }
}

proof fn lemma_size_of_size_line(n: usize)
    ensures
        chunk_size_of(size_line(n as nat)) == n,
{
    let h = hex_lower(n as nat);
    let cs = h + seq!['\r', '\n'];
    vstd::utf8::encode_utf8_valid_utf8(cs);
    vstd::utf8::encode_utf8_decode_utf8(cs);
    assert(lossy_text(size_line(n as nat)) == cs);
    lemma_hex_lower_digits(n as nat);
    assert(is_hex_digit(h[0]));
    assert(cs[0] == h[0]);
    assert(trim_start(cs) == cs);
    assert(cs.drop_last() == h + seq!['\r']);
    assert((h + seq!['\r']).drop_last() == h);
    assert(is_hex_digit(h.last()));
    assert(trim_end(h) == h);
    assert(trim_end(h + seq!['\r']) == h);
    assert(trim_end(cs) == h);
    lemma_hex_round_trip(n);
}

proof fn lemma_read_size_line(l: Seq<u8>, k: int, body: Seq<u8>, rest: Seq<u8>)
    requires
        0 <= k < l.len(),
        l.len() >= 2,
        l[l.len() - 2] == 13u8,
        l[l.len() - 1] == 10u8,
        forall|i: int| 0 <= i < l.len() - 2 ==> #[trigger] l[i] != 10u8,
    ensures
        decode_from(ChunkPhase::SizeLine, l.take(k), body, l.skip(k) + rest) == decode_from(
            phase_after_line(l),
            Seq::empty(),
            body,
            rest,
        ),
    decreases l.len() - k,
{
    let input = l.skip(k) + rest;
    assert(input[0] == l[k]);
    assert(l.take(k).push(l[k]) == l.take(k + 1));
    assert(input.drop_first() == l.skip(k + 1) + rest);
    if k + 1 == l.len() {
        assert(l.take(k + 1) == l);
        assert(l.skip(k + 1) + rest == rest);
    } else {
        let t = l.take(k + 1);
        if k + 1 >= 2 {
            assert(t[t.len() - 1] == l[k]);
            if k == l.len() - 2 {
                assert(l[k] == 13u8);
            } else {
                assert(l[k] != 10u8);
            }
        }
        assert(!ends_line(t));
        lemma_read_size_line(l, k + 1, body, rest);
    }
}

/// The data of a chunk of `n` bytes, read in pieces, is appended whole.
proof fn lemma_read_data(c: Seq<u8>, body: Seq<u8>, rest: Seq<u8>)
    requires
        0 < c.len() <= usize::MAX,
    ensures
        decode_from(ChunkPhase::Data(c.len() as usize), Seq::empty(), body, c + rest) == decode_from(
            ChunkPhase::AfterData,
            Seq::empty(),
            body + c,
            rest,
        ),
    decreases c.len(),
{
    let n = c.len() as usize;
    let k = piece_len(n);
    let input = c + rest;
    assert(input.take(k as int) == c.take(k as int));
    if k == n {
        assert(c.take(k as int) == c);
        assert(input.skip(k as int) == rest);
    } else {
        let c2 = c.skip(k as int);
        assert(input.skip(k as int) == c2 + rest);
        assert(c2.len() == n - k);
        lemma_read_data(c2, body + c.take(k as int), rest);
        assert(body + c.take(k as int) + c2 == body + c);
    }
}

/// Whether `l` is a chunk-size line announcing `n` bytes: it ends in
/// `\r\n`, holds no other line feed, and its text reads as `n`.
pub open spec fn announces(l: Seq<u8>, n: nat) -> bool {
    &&& l.len() >= 2
    &&& l[l.len() - 2] == 13u8
    &&& l[l.len() - 1] == 10u8
    &&& forall|i: int| 0 <= i < l.len() - 2 ==> #[trigger] l[i] != 10u8
    &&& chunk_size_of(l) == n
}

/// The chunked body with size lines `lines` and data `chunks`: each chunk as
/// its size line, its bytes and `\r\n`; then the last size line and `\r\n`.
pub open spec fn chunked_body(lines: Seq<Seq<u8>>, chunks: Seq<Seq<u8>>) -> Seq<u8>
    decreases chunks.len(),
{
    if chunks.len() == 0 {
        lines[0] + seq![13u8, 10u8]
    } else {
        lines[0] + chunks[0] + seq![13u8, 10u8] + chunked_body(lines.drop_first(), chunks.drop_first())
    }
}

/// Decoding a chunked body gives back its chunks' bytes, after what was
/// decoded before, whatever each size line's case, padding or form, as long
/// as it announces its chunk's length and the last announces none.
pub proof fn lemma_chunked_decoding(lines: Seq<Seq<u8>>, chunks: Seq<Seq<u8>>, body: Seq<u8>)
    requires
        lines.len() == chunks.len() + 1,
        forall|i: int| 0 <= i < chunks.len() ==> 0 < #[trigger] chunks[i].len() <= usize::MAX,
        forall|i: int| 0 <= i < chunks.len() ==> announces(#[trigger] lines[i], chunks[i].len()),
        announces(lines[chunks.len() as int], 0),
    ensures
        decode_from(ChunkPhase::SizeLine, Seq::empty(), body, chunked_body(lines, chunks)) == Some(
            body + concat_chunks(chunks),
        ),
    decreases chunks.len(),
{
    let l = lines[0];
    assert(l.take(0) == Seq::<u8>::empty());
    assert(l.skip(0) == l);
    if chunks.len() == 0 {
        lemma_read_size_line(l, 0, body, seq![13u8, 10u8]);
        assert(phase_after_line(l) == ChunkPhase::AfterLast);
        assert(seq![13u8, 10u8].skip(2) == Seq::<u8>::empty());
        assert(decode_from(ChunkPhase::Done, Seq::empty(), body, Seq::<u8>::empty()) == Some(body));
        assert(decode_from(ChunkPhase::AfterLast, Seq::empty(), body, seq![13u8, 10u8]) == Some(body));
        assert(body + concat_chunks(chunks) == body);
    } else {
        let c = chunks[0];
        let n = c.len();
        assert(announces(lines[0], chunks[0].len()));
        let rest = c + seq![13u8, 10u8] + chunked_body(lines.drop_first(), chunks.drop_first());
        assert(chunked_body(lines, chunks) == l + rest);
        lemma_read_size_line(l, 0, body, rest);
        assert(phase_after_line(l) == ChunkPhase::Data(n as usize));
        let after = seq![13u8, 10u8] + chunked_body(lines.drop_first(), chunks.drop_first());
        assert(rest == c + after);
        lemma_read_data(c, body, after);
        assert(after.skip(2) == chunked_body(lines.drop_first(), chunks.drop_first()));
        assert forall|i: int| 0 <= i < chunks.drop_first().len() implies 0 < #[trigger] chunks.drop_first()[i].len()
            <= usize::MAX && announces(lines.drop_first()[i], chunks.drop_first()[i].len()) by {
            assert(chunks.drop_first()[i] == chunks[i + 1]);
            assert(lines.drop_first()[i] == lines[i + 1]);
        }
        assert(lines.drop_first()[chunks.drop_first().len() as int] == lines[chunks.len() as int]);
        lemma_chunked_decoding(lines.drop_first(), chunks.drop_first(), body + c);
        assert(decode_from(ChunkPhase::AfterData, Seq::empty(), body + c, after) == decode_from(
            ChunkPhase::SizeLine,
            Seq::empty(),
            body + c,
            chunked_body(lines.drop_first(), chunks.drop_first()),
        ));
        assert(decode_from(ChunkPhase::Data(n as usize), Seq::empty(), body, rest) == decode_from(
            ChunkPhase::AfterData,
            Seq::empty(),
            body + c,
            after,
        ));
        assert(body + c + concat_chunks(chunks.drop_first()) == body + concat_chunks(chunks));
    }
}

/// The size lines that `chunked_encoding` writes for `chunks`.
pub open spec fn size_lines(chunks: Seq<Seq<u8>>) -> Seq<Seq<u8>> {
    Seq::new(chunks.len() + 1, |i: int| if i < chunks.len() { size_line(chunks[i].len()) } else { size_line(0) })
}

proof fn lemma_encoding_is_body(chunks: Seq<Seq<u8>>)
    ensures
        chunked_encoding(chunks) == chunked_body(size_lines(chunks), chunks),
    decreases chunks.len(),
{
    if chunks.len() > 0 {
        lemma_encoding_is_body(chunks.drop_first());
        assert(size_lines(chunks).drop_first() =~= size_lines(chunks.drop_first()));
    }
}

/// Decoding the chunked encoding of non-empty chunks gives back their bytes,
/// after what was decoded before.
pub proof fn lemma_chunked_round_trip(chunks: Seq<Seq<u8>>, body: Seq<u8>)
    requires
        forall|i: int| 0 <= i < chunks.len() ==> 0 < #[trigger] chunks[i].len() <= usize::MAX,
    ensures
        decode_from(ChunkPhase::SizeLine, Seq::empty(), body, chunked_encoding(chunks)) == Some(
            body + concat_chunks(chunks),
        ),
{
    let lines = size_lines(chunks);
    assert forall|i: int| 0 <= i < chunks.len() implies announces(#[trigger] lines[i], chunks[i].len()) by {
        lemma_size_line_bytes(chunks[i].len());
        lemma_size_of_size_line(chunks[i].len() as usize);
    }
    lemma_size_line_bytes(0);
    lemma_size_of_size_line(0);
    lemma_encoding_is_body(chunks);
    lemma_chunked_decoding(lines, chunks, body);
}

/// A line feed before a size line in UTF-8 leaves the size it announces
/// unchanged: it is trimmed away with the other leading whitespace.
proof fn lemma_size_after_line_feed(l: Seq<u8>)
    requires
        vstd::utf8::valid_utf8(l),
    ensures
        chunk_size_of(seq![10u8] + l) == chunk_size_of(l),
{
    let b = seq![10u8] + l;
    assert(vstd::utf8::valid_first_scalar(b));
    assert(vstd::utf8::length_of_first_scalar(b) == 1);
    assert(vstd::utf8::pop_first_scalar(b) == l);
    assert(vstd::utf8::valid_utf8(b));
    assert(10u8 & 0x7Fu8 == 10u8) by (bit_vector);
    assert(b[0] == 10u8);
    assert(vstd::utf8::decode_first_scalar(b) == 10u32);
    let t = vstd::utf8::decode_utf8(l);
    assert(lossy_text(b) == seq![(10u32 as char)] + t);
    assert((seq!['\n'] + t).drop_first() == t);
    assert(trim_start(seq!['\n'] + t) == trim_start(t));
}

proof fn lemma_read_size_line_after_line_feed(l: Seq<u8>, k: int, body: Seq<u8>, rest: Seq<u8>)
    requires
        0 <= k < l.len(),
        l.len() >= 2,
        l[l.len() - 2] == 13u8,
        l[l.len() - 1] == 10u8,
        forall|i: int| 0 <= i < l.len() - 2 ==> #[trigger] l[i] != 10u8,
    ensures
        decode_from(ChunkPhase::SizeLine, seq![10u8] + l.take(k), body, l.skip(k) + rest) == decode_from(
            phase_after_line(seq![10u8] + l),
            Seq::empty(),
            body,
            rest,
        ),
    decreases l.len() - k,
{
    let input = l.skip(k) + rest;
    assert(input[0] == l[k]);
    assert((seq![10u8] + l.take(k)).push(l[k]) == seq![10u8] + l.take(k + 1));
    assert(input.drop_first() == l.skip(k + 1) + rest);
    if k + 1 == l.len() {
        assert(l.take(k + 1) == l);
        assert(l.skip(k + 1) + rest == rest);
    } else {
        let t = seq![10u8] + l.take(k + 1);
        assert(t[t.len() - 1] == l[k]);
        if k == l.len() - 2 {
            assert(l[k] == 13u8);
        } else {
            assert(l[k] != 10u8);
        }
        assert(!ends_line(t));
        lemma_read_size_line_after_line_feed(l, k + 1, body, rest);
    }
}

/// Where a line feed comes before a chunked body whose first size line is
/// UTF-8 (as when the decoder has skipped only the carriage return of the
/// line end after a chunk's data, the reading having reached the end of
/// buffered bytes), the body decoded is the same.
pub proof fn lemma_line_feed_before_body(lines: Seq<Seq<u8>>, chunks: Seq<Seq<u8>>, body: Seq<u8>)
    requires
        lines.len() == chunks.len() + 1,
        forall|i: int| 0 <= i < chunks.len() ==> 0 < #[trigger] chunks[i].len() <= usize::MAX,
        forall|i: int| 0 <= i < chunks.len() ==> announces(#[trigger] lines[i], chunks[i].len()),
        announces(lines[chunks.len() as int], 0),
        vstd::utf8::valid_utf8(lines[0]),
    ensures
        decode_from(ChunkPhase::SizeLine, Seq::empty(), body, seq![10u8] + chunked_body(lines, chunks)) == Some(
            body + concat_chunks(chunks),
        ),
{
    let l = lines[0];
    let w = chunked_body(lines, chunks);
    let rest = w.skip(l.len() as int);
    if chunks.len() == 0 {
        assert(w == l + seq![13u8, 10u8]);
    } else {
        assert(w == l + (chunks[0] + seq![13u8, 10u8] + chunked_body(lines.drop_first(), chunks.drop_first())));
        assert(announces(lines[0], chunks[0].len()));
    }
    assert(w == l + rest);
    let input = seq![10u8] + w;
    assert(input[0] == 10u8);
    assert(Seq::<u8>::empty().push(10u8) == seq![10u8]);
    assert(!ends_line(seq![10u8]));
    assert(input.drop_first() == w);
    assert(seq![10u8] + l.take(0) == seq![10u8]);
    assert(l.skip(0) == l);
    assert(l.take(0) == Seq::<u8>::empty());
    lemma_read_size_line_after_line_feed(l, 0, body, rest);
    lemma_size_after_line_feed(l);
    lemma_read_size_line(l, 0, body, rest);
    lemma_chunked_decoding(lines, chunks, body);
}

} // verus!
