//! The `Cookie` and `Set-Cookie` headers.
use vstd::prelude::*;
use vstd::hash_map::StringHashMap;
use crate::text::{
    find_char, is_ws, lemma_find_char, lemma_find_char_bounds, split, split_once, split_once_str,
    split_str, trim, trim_end, trim_start, trim_str, views,
};
use crate::number::{decimal, decimal_string};

verus! {

/// The name and value that one `;`-separated piece of a `Cookie` header
/// carries: the trimmed piece split at its first `=`.
pub open spec fn cookie_pair(piece: Seq<char>) -> Option<(Seq<char>, Seq<char>)> {
    split_once(trim(piece), '=')
}

/// The cookies that `pieces` carry, in order, a later one replacing an
/// earlier one of the same name; pieces without `=` carry none.
pub open spec fn cookie_fold(pieces: Seq<Seq<char>>) -> Map<Seq<char>, Seq<char>>
    decreases pieces.len(),
{
    if pieces.len() == 0 {
        Map::empty()
    } else {
        let m = cookie_fold(pieces.drop_last());
        match cookie_pair(pieces.last()) {
            Some((k, v)) => m.insert(k, v),
            None => m,
        }
    }
}

/// The cookies of a `Cookie` header: its `;`-separated pieces, folded.
pub open spec fn cookies(header: Seq<char>) -> Map<Seq<char>, Seq<char>> {
    cookie_fold(split(header, ';'))
}

/// The text view of a map whose values are strings.
pub open spec fn string_values(m: Map<Seq<char>, String>) -> Map<Seq<char>, Seq<char>> {
    m.map_values(|v: String| v@)
}

/// Parses a "Cookie" header string into a key-value map.
/// Example header: "session_id=abc123xyz; user=Alice"
pub fn parse_cookies(cookie_header: &str) -> (r: StringHashMap<String>)
    ensures
        string_values(r@) == cookies(cookie_header@),
{
    let pieces = split_str(cookie_header, ';');
    let ghost ps = split(cookie_header@, ';');
    let mut map: StringHashMap<String> = StringHashMap::new();
    let n = pieces.len();
    let mut i: usize = 0;
    assert(ps.take(0) == Seq::<Seq<char>>::empty());
    assert(string_values(map@) =~= cookie_fold(ps.take(0)));
    while i < n
        invariant
            views(pieces@) == ps,
            n == pieces.len(),
            i <= n,
            string_values(map@) == cookie_fold(ps.take(i as int)),
        decreases n - i,
    {
        let piece = trim_str(pieces[i]);
        let ghost t = ps.take(i + 1);
        proof {
            assert(t.drop_last() == ps.take(i as int));
            assert(t.last() == pieces@[i as int]@);
        }
        match split_once_str(piece, '=') {
            Some((k, v)) => {
                let ghost before = map@;
                map.insert(String::from_str(k), String::from_str(v));
                proof {
                    assert(string_values(map@) =~= string_values(before).insert(k@, v@));
                }
            },
            None => {},
        }
        i = i + 1;
    }
    proof {
        assert(ps.take(n as int) == ps);
    }
    map
}

/// The text of a `Set-Cookie` header for `name` and `value`, with a
/// `Max-Age` attribute where `max_age` is given.
pub open spec fn set_cookie_text(name: Seq<char>, value: Seq<char>, max_age: Option<u64>) -> Seq<char> {
    "Set-Cookie: "@ + name + "="@ + value + "; Path=/; HttpOnly"@ + match max_age {
        Some(age) => "; Max-Age="@ + decimal(age as nat),
        None => Seq::<char>::empty(),
    }
}

/// Formats a "Set-Cookie" header string.
pub fn create_set_cookie_header(name: &str, value: &str, max_age: Option<u64>) -> (r: String)
    ensures
        r@ == set_cookie_text(name@, value@, max_age),
{
    let mut header = String::from_str("Set-Cookie: ");
    header.append(name);
    header.append("=");
    header.append(value);
    header.append("; Path=/; HttpOnly");
    match max_age {
        Some(age) => {
            header.append("; Max-Age=");
            let digits = decimal_string(age as u128);
            header.append(digits.as_str());
        },
        None => {},
    }
    header
}


/// Whether `name=value` can stand in a `Cookie` header as it is: the name
/// is not empty, begins with no whitespace and holds no `=` or `;`, and the
/// value holds no `;` and ends in no whitespace.
pub open spec fn plain_pair(name: Seq<char>, value: Seq<char>) -> bool {
    &&& name.len() > 0
    &&& !is_ws(name[0])
    &&& forall|i: int| 0 <= i < name.len() ==> name[i] != '=' && name[i] != ';'
    &&& forall|i: int| 0 <= i < value.len() ==> value[i] != ';'
    &&& value.len() > 0 ==> !is_ws(value.last())
}

proof fn lemma_plain_pair(name: Seq<char>, value: Seq<char>)
    requires
        plain_pair(name, value),
    ensures
        forall|j: int|
            0 <= j < (name + seq!['='] + value).len() ==> (name + seq!['='] + value)[j] != ';',
        trim(name + seq!['='] + value) == name + seq!['='] + value,
        trim(seq![' '] + (name + seq!['='] + value)) == name + seq!['='] + value,
        split_once(name + seq!['='] + value, '=') == Some((name, value)),
{
    let s = name + seq!['='] + value;
    let k = name.len() as int;
    assert forall|j: int| 0 <= j < s.len() implies s[j] != ';' by {
        if j < k {
            assert(s[j] == name[j]);
        } else if j > k {
            assert(s[j] == value[j - k - 1]);
        }
    }
    assert(s[0] == name[0]);
    assert(trim_start(s) == s);
    let sp = seq![' '] + s;
    assert(sp.drop_first() == s);
    assert(is_ws(' '));
    assert(trim_start(sp) == s);
    if value.len() > 0 {
        assert(s.last() == value.last());
    } else {
        assert(s.last() == '=');
        assert(!is_ws('='));
    }
    assert(trim_end(s) == s);
    assert forall|j: int| 0 <= j < k implies s[j] != '=' by {
        assert(s[j] == name[j]);
    }
    lemma_find_char(s, '=', k);
    assert(s.take(k) == name);
    assert(s.skip(k + 1) == value);
}

/// A `Cookie` header that carries one cookie, `name=value`, parses to that
/// cookie alone, where the pair can stand in the header as it is.
pub proof fn lemma_single_cookie(name: Seq<char>, value: Seq<char>)
    requires
        name.len() > 0,
        !is_ws(name[0]),
        forall|i: int| 0 <= i < name.len() ==> name[i] != '=' && name[i] != ';',
        forall|i: int| 0 <= i < value.len() ==> value[i] != ';',
        value.len() > 0 ==> !is_ws(value.last()),
    ensures
        cookies(name + seq!['='] + value) == map![name => value],
{
    let s = name + seq!['='] + value;
    lemma_plain_pair(name, value);
    lemma_find_char(s, ';', s.len() as int);
    assert(split(s, ';') == seq![s]);
    assert(seq![s].drop_last() == Seq::<Seq<char>>::empty());
    assert(cookie_pair(s) == Some((name, value)));
    assert(seq![s].last() == s);
    assert(cookie_fold(Seq::<Seq<char>>::empty()) == Map::<Seq<char>, Seq<char>>::empty());
    assert(cookie_fold(seq![s]) =~= map![name => value]);
}

/// Splitting `x`, a separator, then `y` without separators gives the pieces
/// of `x`, then `y`.
proof fn lemma_split_append(x: Seq<char>, c: char, y: Seq<char>)
    requires
        forall|j: int| 0 <= j < y.len() ==> y[j] != c,
    ensures
        split(x + seq![c] + y, c) == split(x, c).push(y),
    decreases x.len(),
{
    let s = x + seq![c] + y;
    lemma_find_char_bounds(x, c);
    lemma_find_char(y, c, y.len() as int);
    assert(split(y, c) == seq![y]);
    match find_char(x, c) {
        Some(i) => {
            assert forall|j: int| 0 <= j < i implies s[j] != c by {
                assert(s[j] == x[j]);
            }
            assert(s[i] == x[i]);
            lemma_find_char(s, c, i);
            assert(s.take(i) == x.take(i));
            assert(s.skip(i + 1) == x.skip(i + 1) + seq![c] + y);
            lemma_split_append(x.skip(i + 1), c, y);
            assert(split(x, c) == seq![x.take(i)] + split(x.skip(i + 1), c));
            assert(seq![x.take(i)] + split(x.skip(i + 1), c).push(y) == (seq![x.take(i)] + split(
                x.skip(i + 1),
                c,
            )).push(y));
        },
        None => {
            let k = x.len() as int;
            assert forall|j: int| 0 <= j < k implies s[j] != c by {
                assert(s[j] == x[j]);
            }
            lemma_find_char(s, c, k);
            lemma_find_char(x, c, k);
            assert(s.take(k) == x);
            assert(s.skip(k + 1) == y);
            assert(split(x, c) == seq![x]);
            assert(seq![x] + seq![y] == seq![x].push(y));
        },
    }
}

/// The text of a `Cookie` header that carries `pairs`: each `name=value`,
/// separated by `; `.
pub open spec fn cookie_header_text(pairs: Seq<(Seq<char>, Seq<char>)>) -> Seq<char>
    decreases pairs.len(),
{
    if pairs.len() == 0 {
        Seq::empty()
    } else if pairs.len() == 1 {
        pairs[0].0 + seq!['='] + pairs[0].1
    } else {
        cookie_header_text(pairs.drop_last()) + seq![';'] + (seq![' '] + (pairs.last().0 + seq!['=']
            + pairs.last().1))
    }
}

/// The map of `pairs`, a later pair replacing an earlier one of the same name.
pub open spec fn pairs_map(pairs: Seq<(Seq<char>, Seq<char>)>) -> Map<Seq<char>, Seq<char>>
    decreases pairs.len(),
{
    if pairs.len() == 0 {
        Map::empty()
    } else {
        pairs_map(pairs.drop_last()).insert(pairs.last().0, pairs.last().1)
    }
}

/// A `Cookie` header that carries several cookies, separated by `; `,
/// parses back to them, where each pair can stand in the header as it is.
pub proof fn lemma_cookie_header_round_trip(pairs: Seq<(Seq<char>, Seq<char>)>)
    requires
        forall|i: int| 0 <= i < pairs.len() ==> plain_pair(#[trigger] pairs[i].0, pairs[i].1),
    ensures
        cookies(cookie_header_text(pairs)) == pairs_map(pairs),
    decreases pairs.len(),
{
    if pairs.len() == 0 {
        let e = Seq::<char>::empty();
        lemma_find_char(e, ';', 0);
        assert(split(e, ';') == seq![e]);
        assert(seq![e].drop_last() == Seq::<Seq<char>>::empty());
        assert(seq![e].last() == e);
        assert(trim(e) == e);
        lemma_find_char(e, '=', 0);
        assert(cookie_fold(Seq::<Seq<char>>::empty()) == Map::<Seq<char>, Seq<char>>::empty());
        assert(cookie_fold(seq![e]) =~= Map::<Seq<char>, Seq<char>>::empty());
    } else if pairs.len() == 1 {
        assert(plain_pair(pairs[0].0, pairs[0].1));
        lemma_single_cookie(pairs[0].0, pairs[0].1);
        assert(pairs.drop_last() =~= Seq::<(Seq<char>, Seq<char>)>::empty());
        assert(pairs.last() == pairs[0]);
        assert(pairs_map(pairs.drop_last()) == Map::<Seq<char>, Seq<char>>::empty());
        assert(pairs_map(pairs) =~= map![pairs[0].0 => pairs[0].1]);
    } else {
        let p = pairs.drop_last();
        let (n, v) = pairs.last();
        assert(plain_pair(pairs[pairs.len() - 1].0, pairs[pairs.len() - 1].1));
        assert forall|i: int| 0 <= i < p.len() implies plain_pair(#[trigger] p[i].0, p[i].1) by {
            assert(p[i] == pairs[i]);
        }
        lemma_cookie_header_round_trip(p);
        let t = n + seq!['='] + v;
        let y = seq![' '] + t;
        lemma_plain_pair(n, v);
        assert forall|j: int| 0 <= j < y.len() implies y[j] != ';' by {
            if j > 0 {
                assert(y[j] == t[j - 1]);
            }
        }
        lemma_split_append(cookie_header_text(p), ';', y);
        let ps = split(cookie_header_text(p), ';');
        assert(ps.push(y).drop_last() == ps);
        assert(ps.push(y).last() == y);
        assert(cookie_pair(y) == Some((n, v)));
    }
}

} // verus!
