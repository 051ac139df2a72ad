//! Text primitives on `str`, specified over the character view `Seq<char>`.
use vstd::prelude::*;

verus! {

/// The characters of `s`, in order.
pub fn chars_of(s: &str) -> (v: Vec<char>)
    ensures
        v@ == s@,
{
    let mut v: Vec<char> = Vec::new();
    for c in it: s.chars()
        invariant
            v@ == it.seq().take(it.index() as int),
            it.seq() == s@,
    {
        v.push(c);
    }
    v
}

// ---------------------------------------------------------------------------
// Whitespace and trimming
// ---------------------------------------------------------------------------

/// The Unicode `White_Space` property, as `char::is_whitespace` decides it.
pub open spec fn is_ws(c: char) -> bool {
    ||| '\t' <= c <= '\r'
    ||| c == ' '
    ||| c == '\u{85}'
    ||| c == '\u{a0}'
    ||| c == '\u{1680}'
    ||| '\u{2000}' <= c <= '\u{200a}'
    ||| c == '\u{2028}'
    ||| c == '\u{2029}'
    ||| c == '\u{202f}'
    ||| c == '\u{205f}'
    ||| c == '\u{3000}'
}

/// Whether `c` is a whitespace character.
pub fn is_whitespace(c: char) -> (r: bool)
    ensures
        r == is_ws(c),
{
    ('\t' <= c && c <= '\r') || c == ' ' || c == '\u{85}' || c == '\u{a0}' || c == '\u{1680}' || (
    '\u{2000}' <= c && c <= '\u{200a}') || c == '\u{2028}' || c == '\u{2029}' || c == '\u{202f}'
        || c == '\u{205f}' || c == '\u{3000}'
}

/// `s` without its leading whitespace.
pub open spec fn trim_start(s: Seq<char>) -> Seq<char>
    decreases s.len(),
{
    if s.len() > 0 && is_ws(s[0]) {
        trim_start(s.drop_first())
    } else {
        s
    }
}

/// `s` without its trailing whitespace.
pub open spec fn trim_end(s: Seq<char>) -> Seq<char>
    decreases s.len(),
{
    if s.len() > 0 && is_ws(s.last()) {
        trim_end(s.drop_last())
    } else {
        s
    }
}

/// `s` without leading and trailing whitespace, as `str::trim` returns it.
pub open spec fn trim(s: Seq<char>) -> Seq<char> {
    trim_end(trim_start(s))
}

/// Trimming a string.
pub fn trim_str(s: &str) -> (r: &str)
    ensures
        r@ == trim(s@),
{
    let cs = chars_of(s);
    let n = cs.len();
    let mut i: usize = 0;
    assert(s@.skip(0) == s@);
    while i < n && is_whitespace(cs[i])
        invariant
            cs@ == s@,
            n == cs.len(),
            i <= n,
            trim_start(s@) == trim_start(s@.skip(i as int)),
        decreases n - i,
    {
        assert(s@.skip(i as int).drop_first() == s@.skip(i + 1));
        i = i + 1;
    }
    assert(trim_start(s@) == s@.subrange(i as int, n as int));
    let mut j: usize = n;
    while j > i && is_whitespace(cs[j - 1])
        invariant
            cs@ == s@,
            n == cs.len(),
            i <= j <= n,
            trim(s@) == trim_end(s@.subrange(i as int, j as int)),
        decreases j,
    {
        assert(s@.subrange(i as int, j as int).drop_last() == s@.subrange(i as int, j - 1));
        j = j - 1;
    }
    s.substring_char(i, j)
}

// ---------------------------------------------------------------------------
// Searching and splitting at a character
// ---------------------------------------------------------------------------

/// The index of the first occurrence of `c` in `s`.
pub open spec fn find_char(s: Seq<char>, c: char) -> Option<int>
    decreases s.len(),
{
    if s.len() == 0 {
        None
    } else if s[0] == c {
        Some(0)
    } else {
        match find_char(s.drop_first(), c) {
            Some(k) => Some(k + 1),
            None => None,
        }
    }
}

/// Where `s` holds `c` first at `i` and not before, `find_char` finds `i`;
/// where it holds no `c` before its end `i`, it finds nothing.
pub proof fn lemma_find_char(s: Seq<char>, c: char, i: int)
    requires
        0 <= i <= s.len(),
        forall|j: int| 0 <= j < i ==> s[j] != c,
        i < s.len() ==> s[i] == c,
    ensures
        find_char(s, c) == (if i < s.len() { Some(i) } else { None::<int> }),
    decreases s.len(),
{
    if s.len() > 0 && i > 0 {
        lemma_find_char(s.drop_first(), c, i - 1);
    }
}

/// The parts of `s` before and after its first `c`, as `str::split_once` gives them.
pub open spec fn split_once(s: Seq<char>, c: char) -> Option<(Seq<char>, Seq<char>)> {
    match find_char(s, c) {
        Some(i) => Some((s.take(i), s.skip(i + 1))),
        None => None,
    }
}

/// The pieces of `s` between the occurrences of `c`, as `str::split` yields them.
pub open spec fn split(s: Seq<char>, c: char) -> Seq<Seq<char>>
    decreases s.len(),
{
    match find_char(s, c) {
        Some(i) => if 0 <= i < s.len() {
            seq![s.take(i)] + split(s.skip(i + 1), c)
        } else {
            seq![s]
        },
        None => seq![s],
    }
}

/// `find_char` gives an index inside the sequence that holds the character.
pub proof fn lemma_find_char_bounds(s: Seq<char>, c: char)
    ensures
        find_char(s, c) matches Some(i) ==> 0 <= i < s.len() && s[i] == c && forall|j: int|
            0 <= j < i ==> s[j] != c,
        find_char(s, c) is None ==> forall|j: int| 0 <= j < s.len() ==> s[j] != c,
    decreases s.len(),
{
    if s.len() > 0 {
        lemma_find_char_bounds(s.drop_first(), c);
        if s[0] != c {
            assert forall|j: int| 1 <= j < s.len() implies s[j] == s.drop_first()[j - 1] by {}
        }
    }
}

/// The first occurrence of `c` in `s`, as an index.
pub fn find_char_in(s: &str, c: char) -> (r: Option<usize>)
    ensures
        r matches Some(i) ==> find_char(s@, c) == Some(i as int),
        r is None ==> find_char(s@, c) is None,
{
    let cs = chars_of(s);
    let n = cs.len();
    let mut i: usize = 0;
    while i < n
        invariant
            cs@ == s@,
            n == cs.len(),
            i <= n,
            forall|j: int| 0 <= j < i ==> s@[j] != c,
        decreases n - i,
    {
        if cs[i] == c {
            proof {
                lemma_find_char(s@, c, i as int);
            }
            return Some(i);
        }
        i = i + 1;
    }
    proof {
        lemma_find_char(s@, c, n as int);
    }
    None
}

/// Splitting a string at the first occurrence of `c`.
pub fn split_once_str(s: &str, c: char) -> (r: Option<(&str, &str)>)
    ensures
        match r {
            Some((a, b)) => split_once(s@, c) == Some((a@, b@)),
            None => split_once(s@, c) is None,
        },
{
    match find_char_in(s, c) {
        Some(i) => {
            proof {
                lemma_find_char_bounds(s@, c);
            }
            let n = s.unicode_len();
            let a = s.substring_char(0, i);
            let b = s.substring_char(i + 1, n);
            Some((a, b))
        },
        None => None,
    }
}

/// The views of a sequence of string slices.
pub open spec fn views(v: Seq<&str>) -> Seq<Seq<char>> {
    v.map_values(|x: &str| x@)
}

/// Splitting a string at every occurrence of `c`.
pub fn split_str<'a>(s: &'a str, c: char) -> (r: Vec<&'a str>)
    ensures
        views(r@) == split(s@, c),
{
    let cs = chars_of(s);
    let n = cs.len();
    let mut pieces: Vec<&str> = Vec::new();
    let mut start: usize = 0;
    let mut i: usize = 0;
    assert(s@.skip(0) == s@);
    assert(views(pieces@) + split(s@, c) == split(s@, c));
    while i < n
        invariant
            cs@ == s@,
            n == cs.len(),
            start <= i <= n,
            forall|j: int| start <= j < i ==> s@[j] != c,
            views(pieces@) + split(s@.skip(start as int), c) == split(s@, c),
        decreases n - i,
    {
        if cs[i] == c {
            let ghost t = s@.skip(start as int);
            proof {
                lemma_find_char(t, c, i - start);
                assert(t.take(i - start) == s@.subrange(start as int, i as int));
                assert(t.skip(i - start + 1) == s@.skip(i + 1));
            }
            let piece = s.substring_char(start, i);
            let ghost before = pieces@;
            pieces.push(piece);
            proof {
                assert(views(pieces@) == views(before).push(piece@));
                assert(views(pieces@) + split(s@.skip(i + 1), c) == views(before) + split(t, c));
            }
            start = i + 1;
        }
        i = i + 1;
    }
    let ghost t = s@.skip(start as int);
    proof {
        lemma_find_char(t, c, n - start);
        assert(t == s@.subrange(start as int, n as int));
    }
    let last = s.substring_char(start, n);
    let ghost before = pieces@;
    pieces.push(last);
    proof {
        assert(views(pieces@) == views(before).push(last@));
    }
    pieces
}


/// `split` always yields at least one piece.
pub proof fn lemma_split_len(s: Seq<char>, c: char)
    ensures
        split(s, c).len() >= 1,
    decreases s.len(),
{
    lemma_find_char_bounds(s, c);
    if let Some(i) = find_char(s, c) {
        lemma_split_len(s.skip(i + 1), c);
    }
}

// ---------------------------------------------------------------------------
// Lines
// ---------------------------------------------------------------------------

/// `s` without one trailing carriage return.
pub open spec fn strip_cr(s: Seq<char>) -> Seq<char> {
    if s.len() > 0 && s.last() == '\r' {
        s.drop_last()
    } else {
        s
    }
}

/// The lines of `s`, as `str::lines` yields them: split at `\n`, each line
/// that ended in `\n` loses one `\r` before it, and a last line that is empty is
/// not a line.
pub open spec fn lines(s: Seq<char>) -> Seq<Seq<char>> {
    let p = split(s, '\n');
    p.drop_last().map_values(|x: Seq<char>| strip_cr(x)) + if p.last().len() > 0 {
        seq![p.last()]
    } else {
        Seq::<Seq<char>>::empty()
    }
}

/// A string slice without one trailing carriage return.
pub fn strip_cr_str(s: &str) -> (r: &str)
    ensures
        r@ == strip_cr(s@),
{
    let n = s.unicode_len();
    if n > 0 && s.get_char(n - 1) == '\r' {
        s.substring_char(0, n - 1)
    } else {
        s.substring_char(0, n)
    }
}

/// The lines of a string.
pub fn lines_str<'a>(s: &'a str) -> (r: Vec<&'a str>)
    ensures
        views(r@) == lines(s@),
{
    let pieces = split_str(s, '\n');
    proof {
        lemma_split_len(s@, '\n');
    }
    let ghost p = split(s@, '\n');
    let m = pieces.len() - 1;
    let mut out: Vec<&str> = Vec::new();
    let mut k: usize = 0;
    while k < m
        invariant
            views(pieces@) == p,
            p == split(s@, '\n'),
            m + 1 == pieces.len(),
            k <= m,
            views(out@) == p.drop_last().map_values(|x: Seq<char>| strip_cr(x)).take(k as int),
        decreases m - k,
    {
        let line = strip_cr_str(pieces[k]);
        let ghost before = out@;
        out.push(line);
        proof {
            assert(views(out@) == views(before).push(line@));
            assert(p.drop_last().map_values(|x: Seq<char>| strip_cr(x)).take(k + 1) == p.drop_last(
            ).map_values(|x: Seq<char>| strip_cr(x)).take(k as int).push(strip_cr(p[k as int])));
        }
        k = k + 1;
    }
    let last = pieces[m];
    let ghost mid = out@;
    if last.unicode_len() > 0 {
        out.push(last);
        proof {
            assert(views(out@) == views(mid).push(last@));
        }
    }
    proof {
        assert(p.drop_last().map_values(|x: Seq<char>| strip_cr(x)).take(m as int) == p.drop_last(
        ).map_values(|x: Seq<char>| strip_cr(x)));
        assert(p.last() == pieces@[m as int]@);
    }
    out
}

// ---------------------------------------------------------------------------
// Words
// ---------------------------------------------------------------------------

/// The index of the first whitespace character of `s`.
pub open spec fn find_ws(s: Seq<char>) -> Option<int>
    decreases s.len(),
{
    if s.len() == 0 {
        None
    } else if is_ws(s[0]) {
        Some(0)
    } else {
        match find_ws(s.drop_first()) {
            Some(k) => Some(k + 1),
            None => None,
        }
    }
}

/// Where `s` holds whitespace first at `i`, `find_ws` finds `i`; where it holds
/// none before its end `i`, it finds nothing.
pub proof fn lemma_find_ws(s: Seq<char>, i: int)
    requires
        0 <= i <= s.len(),
        forall|j: int| 0 <= j < i ==> !is_ws(s[j]),
        i < s.len() ==> is_ws(s[i]),
    ensures
        find_ws(s) == (if i < s.len() { Some(i) } else { None::<int> }),
    decreases s.len(),
{
    if s.len() > 0 && i > 0 {
        lemma_find_ws(s.drop_first(), i - 1);
    }
}

/// The pieces of `s` between its whitespace characters, empty ones included.
pub open spec fn split_ws(s: Seq<char>) -> Seq<Seq<char>>
    decreases s.len(),
{
    match find_ws(s) {
        Some(i) => if 0 <= i < s.len() {
            seq![s.take(i)] + split_ws(s.skip(i + 1))
        } else {
            seq![s]
        },
        None => seq![s],
    }
}

/// The non-empty sequences among `ps`, in order.
pub open spec fn non_empty(ps: Seq<Seq<char>>) -> Seq<Seq<char>>
    decreases ps.len(),
{
    if ps.len() == 0 {
        ps
    } else if ps.last().len() > 0 {
        non_empty(ps.drop_last()).push(ps.last())
    } else {
        non_empty(ps.drop_last())
    }
}

/// The whitespace-separated words of `s`, as `str::split_whitespace` yields them.
pub open spec fn words(s: Seq<char>) -> Seq<Seq<char>> {
    non_empty(split_ws(s))
}

/// `non_empty` of a concatenation is the concatenation of `non_empty`.
pub proof fn lemma_non_empty_append(a: Seq<Seq<char>>, b: Seq<Seq<char>>)
    ensures
        non_empty(a + b) == non_empty(a) + non_empty(b),
    decreases b.len(),
{
    if b.len() == 0 {
        assert(a + b == a);
        assert(non_empty(a) + non_empty(b) == non_empty(a));
    } else {
        assert((a + b).drop_last() == a + b.drop_last());
        lemma_non_empty_append(a, b.drop_last());
    }
}

/// The whitespace-separated words of a string.
pub fn words_str<'a>(s: &'a str) -> (r: Vec<&'a str>)
    ensures
        views(r@) == words(s@),
{
    let cs = chars_of(s);
    let n = cs.len();
    let mut out: Vec<&str> = Vec::new();
    let mut start: usize = 0;
    let mut i: usize = 0;
    assert(s@.skip(0) == s@);
    assert(views(out@) + non_empty(split_ws(s@)) == words(s@));
    while i < n
        invariant
            cs@ == s@,
            n == cs.len(),
            start <= i <= n,
            forall|j: int| start <= j < i ==> !is_ws(s@[j]),
            views(out@) + non_empty(split_ws(s@.skip(start as int))) == words(s@),
        decreases n - i,
    {
        if is_whitespace(cs[i]) {
            let ghost t = s@.skip(start as int);
            let ghost piece_v = s@.subrange(start as int, i as int);
            proof {
                lemma_find_ws(t, i - start);
                assert(t.take(i - start) == piece_v);
                assert(t.skip(i - start + 1) == s@.skip(i + 1));
                assert(split_ws(t) == seq![piece_v] + split_ws(s@.skip(i + 1)));
                lemma_non_empty_append(seq![piece_v], split_ws(s@.skip(i + 1)));
                assert(seq![piece_v].drop_last() == Seq::<Seq<char>>::empty());
                assert(non_empty(Seq::<Seq<char>>::empty()) == Seq::<Seq<char>>::empty());
            }
            if i > start {
                let piece = s.substring_char(start, i);
                let ghost before = out@;
                out.push(piece);
                proof {
                    assert(views(out@) == views(before).push(piece@));
                    assert(non_empty(seq![piece_v]) == seq![piece_v]);
                }
            } else {
                proof {
                    assert(non_empty(seq![piece_v]) == Seq::<Seq<char>>::empty());
                }
            }
            start = i + 1;
        }
        i = i + 1;
    }
    let ghost t = s@.skip(start as int);
    proof {
        lemma_find_ws(t, n - start);
        assert(t == s@.subrange(start as int, n as int));
        assert(seq![t].drop_last() == Seq::<Seq<char>>::empty());
        assert(non_empty(Seq::<Seq<char>>::empty()) == Seq::<Seq<char>>::empty());
    }
    if n > start {
        let last = s.substring_char(start, n);
        let ghost before = out@;
        out.push(last);
        proof {
            assert(views(out@) == views(before).push(last@));
        }
    }
    out
}


// ---------------------------------------------------------------------------
// Comparisons
// ---------------------------------------------------------------------------

/// The code of `c` with ASCII upper-case letters mapped to lower case.
pub open spec fn ascii_fold(c: char) -> int {
    let u = c as u32;
    if 65 <= u <= 90 {
        u + 32
    } else {
        u as int
    }
}

/// Whether `a` and `b` are equal up to ASCII case, as `str::eq_ignore_ascii_case` decides.
pub open spec fn eq_ignore_ascii_case(a: Seq<char>, b: Seq<char>) -> bool {
    &&& a.len() == b.len()
    &&& forall|i: int| 0 <= i < a.len() ==> ascii_fold(a[i]) == ascii_fold(b[i])
}

fn fold_char(c: char) -> (r: u32)
    ensures
        r == ascii_fold(c),
{
    let u = c as u32;
    if 65 <= u && u <= 90 {
        u + 32
    } else {
        u
    }
}

/// Comparing two strings up to ASCII case.
pub fn eq_ignore_ascii_case_str(a: &str, b: &str) -> (r: bool)
    ensures
        r == eq_ignore_ascii_case(a@, b@),
{
    let ac = chars_of(a);
    let bc = chars_of(b);
    if ac.len() != bc.len() {
        return false;
    }
    let n = ac.len();
    let mut i: usize = 0;
    while i < n
        invariant
            ac@ == a@,
            bc@ == b@,
            n == ac.len(),
            n == bc.len(),
            i <= n,
            forall|j: int| 0 <= j < i ==> ascii_fold(a@[j]) == ascii_fold(b@[j]),
        decreases n - i,
    {
        if fold_char(ac[i]) != fold_char(bc[i]) {
            return false;
        }
        i = i + 1;
    }
    true
}

/// Whether `s` begins with `p`.
pub open spec fn starts_with(s: Seq<char>, p: Seq<char>) -> bool {
    p.len() <= s.len() && s.take(p.len() as int) == p
}

/// `s` without the prefix `p`, as `str::strip_prefix` gives it.
pub open spec fn strip_prefix(s: Seq<char>, p: Seq<char>) -> Option<Seq<char>> {
    if starts_with(s, p) {
        Some(s.skip(p.len() as int))
    } else {
        None
    }
}

/// Whether `p` occurs in `cs` at `i`.
fn occurs_at(cs: &Vec<char>, p: &Vec<char>, i: usize) -> (r: bool)
    requires
        i <= cs.len(),
    ensures
        r == starts_with(cs@.skip(i as int), p@),
{
    let n = cs.len();
    let m = p.len();
    if m > n - i {
        return false;
    }
    let mut k: usize = 0;
    while k < m
        invariant
            n == cs.len(),
            m == p.len(),
            i + m <= n,
            k <= m,
            forall|j: int| 0 <= j < k ==> cs@[i + j] == p@[j],
        decreases m - k,
    {
        if cs[i + k] != p[k] {
            assert(cs@.skip(i as int).take(m as int)[k as int] != p@[k as int]);
            return false;
        }
        k = k + 1;
    }
    assert(cs@.skip(i as int).take(m as int) == p@);
    true
}

/// Whether a string begins with `p`.
pub fn starts_with_str(s: &str, p: &str) -> (r: bool)
    ensures
        r == starts_with(s@, p@),
{
    let cs = chars_of(s);
    let ps = chars_of(p);
    assert(s@.skip(0) == s@);
    occurs_at(&cs, &ps, 0)
}

/// A string without the prefix `p`.
pub fn strip_prefix_str<'a>(s: &'a str, p: &str) -> (r: Option<&'a str>)
    ensures
        match r {
            Some(t) => strip_prefix(s@, p@) == Some(t@),
            None => strip_prefix(s@, p@) is None,
        },
{
    if starts_with_str(s, p) {
        let n = s.unicode_len();
        let m = p.unicode_len();
        Some(s.substring_char(m, n))
    } else {
        None
    }
}

/// The first index at or after `i` where `p` occurs in `s`.
pub open spec fn find_str_from(s: Seq<char>, p: Seq<char>, i: int) -> Option<int>
    decreases s.len() + 1 - i,
{
    if i < 0 || i > s.len() {
        None
    } else if starts_with(s.skip(i), p) {
        Some(i)
    } else {
        find_str_from(s, p, i + 1)
    }
}

/// The first index where `p` occurs in `s`, as `str::find` gives it.
pub open spec fn find_str(s: Seq<char>, p: Seq<char>) -> Option<int> {
    find_str_from(s, p, 0)
}

/// Whether `p` occurs in `s`, as `str::contains` decides.
pub open spec fn contains_str(s: Seq<char>, p: Seq<char>) -> bool {
    exists|i: int| 0 <= i <= s.len() && starts_with(#[trigger] s.skip(i), p)
}

/// `find_str_from` finds the first occurrence at or after its start.
pub proof fn lemma_find_str_from(s: Seq<char>, p: Seq<char>, i: int)
    requires
        0 <= i <= s.len() + 1,
    ensures
        find_str_from(s, p, i) matches Some(k) ==> i <= k <= s.len() && starts_with(s.skip(k), p)
            && forall|j: int| i <= j < k ==> !starts_with(#[trigger] s.skip(j), p),
        find_str_from(s, p, i) is None ==> forall|j: int|
            i <= j <= s.len() ==> !starts_with(#[trigger] s.skip(j), p),
    decreases s.len() + 1 - i,
{
    if i <= s.len() && !starts_with(s.skip(i), p) {
        lemma_find_str_from(s, p, i + 1);
    }
}

/// The first index where `p` occurs in a string.
pub fn find_str_in(s: &str, p: &str) -> (r: Option<usize>)
    ensures
        match r {
            Some(k) => find_str(s@, p@) == Some(k as int) && k <= s@.len(),
            None => find_str(s@, p@) is None,
        },
        r is Some == contains_str(s@, p@),
{
    let cs = chars_of(s);
    let ps = chars_of(p);
    let n = cs.len();
    let mut i: usize = 0;
    while i < n
        invariant
            cs@ == s@,
            ps@ == p@,
            n == cs.len(),
            i <= n,
            find_str(s@, p@) == find_str_from(s@, p@, i as int),
            forall|j: int| 0 <= j < i ==> !starts_with(#[trigger] s@.skip(j), p@),
        decreases n - i,
    {
        if occurs_at(&cs, &ps, i) {
            return Some(i);
        }
        i = i + 1;
    }
    if occurs_at(&cs, &ps, n) {
        return Some(n);
    }
    proof {
        lemma_find_str_from(s@, p@, 0);
    }
    None
}

/// Whether `p` occurs in a string.
pub fn contains_str_in(s: &str, p: &str) -> (r: bool)
    ensures
        r == contains_str(s@, p@),
{
    find_str_in(s, p).is_some()
}

/// `s` without all of its leading occurrences of `c`, as `str::trim_start_matches` gives it.
pub open spec fn trim_start_char(s: Seq<char>, c: char) -> Seq<char>
    decreases s.len(),
{
    if s.len() > 0 && s[0] == c {
        trim_start_char(s.drop_first(), c)
    } else {
        s
    }
}

/// A string without its leading occurrences of `c`.
pub fn trim_start_char_str(s: &str, c: char) -> (r: &str)
    ensures
        r@ == trim_start_char(s@, c),
{
    let cs = chars_of(s);
    let n = cs.len();
    let mut i: usize = 0;
    assert(s@.skip(0) == s@);
    while i < n && cs[i] == c
        invariant
            cs@ == s@,
            n == cs.len(),
            i <= n,
            trim_start_char(s@, c) == trim_start_char(s@.skip(i as int), c),
        decreases n - i,
    {
        assert(s@.skip(i as int).drop_first() == s@.skip(i + 1));
        i = i + 1;
    }
    s.substring_char(i, n)
}


// ---------------------------------------------------------------------------
// Conversions that std performs
// ---------------------------------------------------------------------------

/// The Unicode lower-case mapping of `s`, as `str::to_lowercase` computes it.
pub uninterp spec fn lowercase(s: Seq<char>) -> Seq<char>;

/// Whether every character of `s` is ASCII.
pub open spec fn is_ascii_text(s: Seq<char>) -> bool {
    forall|i: int| 0 <= i < s.len() ==> (s[i] as u32) < 128
}

/// `c` with an ASCII upper-case letter mapped to its lower-case one.
pub open spec fn ascii_lower_char(c: char) -> char {
    if 'A' <= c && c <= 'Z' {
        ((c as u32) + 32) as char
    } else {
        c
    }
}

/// The text that `str::to_lowercase` gives for `s`: on ASCII text each
/// upper-case letter becomes its lower-case one and every other character
/// stays; otherwise the Unicode mapping named `lowercase`.
pub open spec fn lower_text(s: Seq<char>) -> Seq<char> {
    if is_ascii_text(s) {
        s.map_values(|c: char| ascii_lower_char(c))
    } else {
        lowercase(s)
    }
}

/// `str::to_lowercase`: on ASCII text each upper-case letter becomes its
/// lower-case one and every other character stays, which is what the Unicode
/// mapping does there; beyond ASCII the result is that mapping, named
/// `lowercase` here and not spelled out.
#[verifier::external_body]
pub fn to_lowercase(s: &str) -> (r: String)
    ensures
        is_ascii_text(s@) ==> r@ == s@.map_values(|c: char| ascii_lower_char(c)),
        !is_ascii_text(s@) ==> r@ == lowercase(s@),
{
    s.to_lowercase()
}

/// The text that `String::from_utf8_lossy` decodes from `b`: invalid sequences
/// become U+FFFD.
pub uninterp spec fn utf8_lossy(b: Seq<u8>) -> Seq<char>;

/// The text that `String::from_utf8_lossy` gives for `b`: on valid UTF-8 the
/// decoded text, as std documents; otherwise the text named `utf8_lossy`.
pub open spec fn lossy_text(b: Seq<u8>) -> Seq<char> {
    if vstd::utf8::valid_utf8(b) {
        vstd::utf8::decode_utf8(b)
    } else {
        utf8_lossy(b)
    }
}

/// `String::from_utf8_lossy`, made an owned `String`: on valid UTF-8 its
/// result is the decoded text, as std documents; otherwise it is named
/// `utf8_lossy` and not spelled out.
#[verifier::external_body]
pub fn utf8_lossy_string(b: &[u8]) -> (r: String)
    ensures
        vstd::utf8::valid_utf8(b@) ==> r@ == vstd::utf8::decode_utf8(b@),
        !vstd::utf8::valid_utf8(b@) ==> r@ == utf8_lossy(b@),
{
    String::from_utf8_lossy(b).into_owned()
}

/// Whether two strings are equal.
pub fn str_eq(a: &str, b: &str) -> (r: bool)
    ensures
        r == (a@ == b@),
{
    let x = String::from_str(a);
    let y = String::from_str(b);
    x == y
}

/// The index of the last occurrence of `c` in `s`.
pub open spec fn rfind_char(s: Seq<char>, c: char) -> Option<int>
    decreases s.len(),
{
    if s.len() == 0 {
        None
    } else if s.last() == c {
        Some(s.len() - 1)
    } else {
        rfind_char(s.drop_last(), c)
    }
}

/// The last occurrence of `c` in a string, as an index.
pub fn rfind_char_in(s: &str, c: char) -> (r: Option<usize>)
    ensures
        match r {
            Some(i) => rfind_char(s@, c) == Some(i as int) && i < s@.len(),
            None => rfind_char(s@, c) is None,
        },
{
    let cs = chars_of(s);
    let mut j: usize = cs.len();
    assert(s@.take(j as int) == s@);
    while j > 0
        invariant
            cs@ == s@,
            j <= cs.len(),
            rfind_char(s@, c) == rfind_char(s@.take(j as int), c),
        decreases j,
    {
        let ghost t = s@.take(j as int);
        assert(t.last() == s@[j - 1]);
        if cs[j - 1] == c {
            return Some(j - 1);
        }
        assert(t.drop_last() == s@.take(j - 1));
        j = j - 1;
    }
    None
}


/// The length in bytes of the UTF-8 encoding of `s`, as `str::len` gives it.
pub open spec fn byte_len(s: Seq<char>) -> usize {
    vstd::utf8::encode_utf8(s).len() as usize
}

/// The length of a string in bytes.
pub fn str_byte_len(s: &str) -> (r: usize)
    ensures
        r == byte_len(s@),
{
    s.len()
}

/// The pieces `xs` joined with `sep` between them, as `join` on a slice of
/// strings gives it.
pub open spec fn join(xs: Seq<Seq<char>>, sep: Seq<char>) -> Seq<char>
    decreases xs.len(),
{
    if xs.len() == 0 {
        Seq::empty()
    } else if xs.len() == 1 {
        xs[0]
    } else {
        join(xs.drop_last(), sep) + sep + xs.last()
    }
}

/// Joining `xs[from..]` with `sep`.
pub fn join_from(xs: &Vec<&str>, from: usize, sep: &str) -> (r: String)
    requires
        from <= xs.len(),
    ensures
        r@ == join(views(xs@).skip(from as int), sep@),
{
    let n = xs.len();
    let mut out = String::new();
    let mut i: usize = from;
    let ghost vs = views(xs@).skip(from as int);
    assert(vs.take(0) == Seq::<Seq<char>>::empty());
    while i < n
        invariant
            n == xs.len(),
            from <= i <= n,
            vs == views(xs@).skip(from as int),
            vs.len() == n - from,
            out@ == join(vs.take(i - from), sep@),
        decreases n - i,
    {
        let ghost t = vs.take(i + 1 - from);
        assert(t.drop_last() == vs.take(i - from));
        assert(t.last() == xs@[i as int]@);
        if i > from {
            out.append(sep);
        } else {
            assert(t.len() == 1);
            assert(out@ == Seq::<char>::empty());
        }
        out.append(xs[i]);
        i = i + 1;
    }
    assert(vs.take(n - from) == vs);
    out
}

} // verus!
