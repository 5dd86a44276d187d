//! The stored form of a trail: a JSON object, written and read back exactly.

use vstd::prelude::*;
use vstd::string::{StrSliceExecFns, StringExecFns};
use crate::model::{texts, Opening, OpeningView, Trail, TrailView};

verus! {

/// The lower-case hexadecimal digit for `d`, below sixteen.
pub open spec fn hex_digit(d: nat) -> char {
    if d < 10 {
        ((d + 48) as u8) as char
    } else {
        ((d + 87) as u8) as char
    }
}

/// The text that stands for the character `c` inside a quoted string: a
/// quote and a backslash are escaped, and so is every control character
/// below U+0020, by its short form where JSON has one and as `\u00XX` otherwise.
pub open spec fn escape_char(c: char) -> Seq<char> {
    if c == '"' || c == '\\' {
        seq!['\\', c]
    } else if c == '\u{8}' {
        seq!['\\', 'b']
    } else if c == '\u{c}' {
        seq!['\\', 'f']
    } else if c == '\n' {
        seq!['\\', 'n']
    } else if c == '\r' {
        seq!['\\', 'r']
    } else if c == '\t' {
        seq!['\\', 't']
    } else if (c as u32) < 32 {
        seq!['\\', 'u', '0', '0', hex_digit((c as u32) as nat / 16), hex_digit((c as u32) as nat % 16)]
    } else {
        seq![c]
    }
}

/// The text that stands for `s` inside a quoted string.
pub open spec fn escaped(s: Seq<char>) -> Seq<char>
    decreases s.len(),
{
    if s.len() == 0 {
        Seq::empty()
    } else {
        escape_char(s[0]) + escaped(s.drop_first())
    }
}

/// The string `s` as a quoted JSON string.
pub open spec fn quoted(s: Seq<char>) -> Seq<char> {
    seq!['"'] + escaped(s) + seq!['"']
}

/// The items of a list of strings after its opening bracket, with the
/// closing bracket.
pub open spec fn items_text(l: Seq<Seq<char>>) -> Seq<char>
    decreases l.len(),
{
    if l.len() == 0 {
        seq![']']
    } else if l.len() == 1 {
        quoted(l[0]) + seq![']']
    } else {
        quoted(l[0]) + seq![','] + items_text(l.drop_first())
    }
}

/// A list of strings as a JSON array.
pub open spec fn list_text(l: Seq<Seq<char>>) -> Seq<char> {
    seq!['['] + items_text(l)
}

/// What opens the text of a trail, up to its opening's name.
pub open spec fn trail_head() -> Seq<char> {
    "{\"opening\":{\"name\":"@
}

/// What stands between an opening's name and its moves.
pub open spec fn moves_key() -> Seq<char> {
    ",\"moves\":"@
}

/// What stands between an opening's moves and the continuation.
pub open spec fn continuation_key() -> Seq<char> {
    "},\"continuation\":"@
}

/// The text of a trail: a JSON object with the fields `opening` (`name`,
/// `moves`) and `continuation`.
pub open spec fn trail_text(t: TrailView) -> Seq<char> {
    trail_head() + quoted(t.opening.name) + moves_key() + list_text(t.opening.moves)
        + continuation_key() + list_text(t.continuation) + seq!['}']
}

/// The result `r` of a parse, with `a` put before the value it read.
pub open spec fn with_prefix<T>(a: Seq<T>, r: Option<(Seq<T>, int)>) -> Option<(Seq<T>, int)> {
    match r {
        Some((v, j)) => Some((a + v, j)),
        None => None,
    }
}

/// The value of a lower-case hexadecimal digit.
pub open spec fn hex_value(c: char) -> Option<nat> {
    if 48 <= (c as u32) <= 57 {
        Some((c as u32 - 48) as nat)
    } else if 97 <= (c as u32) <= 102 {
        Some((c as u32 - 87) as nat)
    } else {
        None
    }
}

/// Reads the escape that follows a backslash at position `k` of `s`: the
/// character it stands for and the position after it.
pub open spec fn unescape(s: Seq<char>, k: int) -> Option<(char, int)> {
    if k < 0 || k >= s.len() {
        None
    } else if s[k] == '"' || s[k] == '\\' || s[k] == '/' {
        Some((s[k], k + 1))
    } else if s[k] == 'b' {
        Some(('\u{8}', k + 1))
    } else if s[k] == 'f' {
        Some(('\u{c}', k + 1))
    } else if s[k] == 'n' {
        Some(('\n', k + 1))
    } else if s[k] == 'r' {
        Some(('\r', k + 1))
    } else if s[k] == 't' {
        Some(('\t', k + 1))
    } else if s[k] == 'u' && k + 4 < s.len() && s[k + 1] == '0' && s[k + 2] == '0' && hex_value(
        s[k + 3],
    ) is Some && hex_value(s[k + 3])->0 < 2 && hex_value(s[k + 4]) is Some {
        Some(((16 * hex_value(s[k + 3])->0 + hex_value(s[k + 4])->0) as u8 as char, k + 5))
    } else {
        None
    }
}

/// Reads the rest of a quoted string from position `k` of `s`: the string and
/// the position after its closing quote.
pub open spec fn parse_body(s: Seq<char>, k: int) -> Option<(Seq<char>, int)>
    decreases s.len() - k,
{
    if k < 0 || k >= s.len() {
        None
    } else if s[k] == '"' {
        Some((Seq::empty(), k + 1))
    } else if s[k] == '\\' {
        match unescape(s, k + 1) {
            Some((c, j)) => if j > k {
                with_prefix(seq![c], parse_body(s, j))
            } else {
                None
            },
            None => None,
        }
    } else {
        with_prefix(seq![s[k]], parse_body(s, k + 1))
    }
}

/// Reads a quoted string at position `k` of `s`.
pub open spec fn parse_quoted(s: Seq<char>, k: int) -> Option<(Seq<char>, int)> {
    if 0 <= k < s.len() && s[k] == '"' {
        parse_body(s, k + 1)
    } else {
        None
    }
}

/// Reads the items of a list of strings from position `k` of `s`, up to and
/// with the closing bracket.
pub open spec fn parse_items(s: Seq<char>, k: int) -> Option<(Seq<Seq<char>>, int)>
    decreases s.len() - k,
{
    if k < 0 || k >= s.len() {
        None
    } else if s[k] == ']' {
        Some((Seq::empty(), k + 1))
    } else {
        match parse_quoted(s, k) {
            Some((v, j)) => if j <= k || j >= s.len() {
                None
            } else if s[j] == ']' {
                Some((seq![v], j + 1))
            } else if s[j] == ',' {
                with_prefix(seq![v], parse_items(s, j + 1))
            } else {
                None
            },
            None => None,
        }
    }
}

/// Reads a list of strings at position `k` of `s`.
pub open spec fn parse_list(s: Seq<char>, k: int) -> Option<(Seq<Seq<char>>, int)> {
    if 0 <= k < s.len() && s[k] == '[' {
        parse_items(s, k + 1)
    } else {
        None
    }
}

/// Whether `lit` stands at position `k` of `s`.
pub open spec fn starts_at(s: Seq<char>, k: int, lit: Seq<char>) -> bool {
    0 <= k && k + lit.len() <= s.len() && s.subrange(k, k + lit.len()) == lit
}

/// Reads a whole text as a trail.
pub open spec fn parse_trail(s: Seq<char>) -> Option<TrailView> {
    if !starts_at(s, 0, trail_head()) {
        None
    } else {
        match parse_quoted(s, trail_head().len() as int) {
            None => None,
            Some((name, a)) => if !starts_at(s, a, moves_key()) {
                None
            } else {
                match parse_list(s, a + moves_key().len()) {
                    None => None,
                    Some((moves, b)) => if !starts_at(s, b, continuation_key()) {
                        None
                    } else {
                        match parse_list(s, b + continuation_key().len()) {
                            None => None,
                            Some((continuation, c)) => if c + 1 == s.len() && s[c] == '}' {
                                Some(
                                    TrailView {
                                        opening: OpeningView { name, moves },
                                        continuation,
                                    },
                                )
                            } else {
                                None
                            },
                        }
                    },
                }
            },
        }
    }
}

proof fn lemma_with_prefix_push<T>(a: Seq<T>, c: T, r: Option<(Seq<T>, int)>)
    ensures
        with_prefix(a, with_prefix(seq![c], r)) == with_prefix(a.push(c), r),
{
    match r {
        Some((v, j)) => {
            assert(a + (seq![c] + v) =~= a.push(c) + v);
        },
        None => {},
    }
}

proof fn lemma_escaped_push(a: Seq<char>, c: char)
    ensures
        escaped(a.push(c)) == escaped(a) + escape_char(c),
    decreases a.len(),
{
    if a.len() == 0 {
        assert(a.push(c).drop_first() =~= Seq::<char>::empty());
        assert(a.push(c)[0] == c);
        assert(escaped(a.push(c).drop_first()) == Seq::<char>::empty());
        assert(escaped(a) == Seq::<char>::empty());
        assert(escaped(a.push(c)) =~= escaped(a) + escape_char(c));
    } else {
        assert(a.push(c).drop_first() =~= a.drop_first().push(c));
        lemma_escaped_push(a.drop_first(), c);
        assert(escaped(a.push(c)) =~= escaped(a) + escape_char(c));
    }
}

/// An escaped character reads back as itself.
proof fn lemma_unescape(s: Seq<char>, k: int, c: char)
    requires
        0 <= k,
        escape_char(c).len() > 1,
        k + escape_char(c).len() <= s.len(),
        s.subrange(k, k + escape_char(c).len()) == escape_char(c),
    ensures
        s[k] == '\\',
        unescape(s, k + 1) == Some((c, k + escape_char(c).len())),
{
    let e = escape_char(c);
    assert forall|j: int| 0 <= j < e.len() implies s[k + j] == e[j] by {
        assert(s.subrange(k, k + e.len())[j] == s[k + j]);
    }
    if (c as u32) < 32 && !(c == '\u{8}' || c == '\u{c}' || c == '\n' || c == '\r' || c == '\t') {
        let n = (c as u32) as nat;
        assert(s[k + 4] == hex_digit(n / 16));
        assert(s[k + 5] == hex_digit(n % 16));
        assert(hex_value(hex_digit(n / 16)) == Some(n / 16));
        assert(hex_value(hex_digit(n % 16)) == Some(n % 16));
        assert(16 * (n / 16) + n % 16 == n);
        assert(((n as u32) as u8) as char == c);
    }
}

/// A quoted string reads back as the string it quotes.
proof fn lemma_parse_body(s: Seq<char>, k: int, v: Seq<char>)
    requires
        0 <= k,
        starts_at(s, k, escaped(v) + seq!['"']),
    ensures
        parse_body(s, k) == Some((v, k + escaped(v).len() + 1)),
    decreases v.len(),
{
    let e = escaped(v) + seq!['"'];
    assert(s[k] == e[0]);
    if v.len() > 0 {
        let c = v[0];
        let rest = v.drop_first();
        assert(escaped(v) == escape_char(c) + escaped(rest));
        let w = escape_char(c).len() as int;
        assert(e =~= escape_char(c) + (escaped(rest) + seq!['"']));
        assert(s.subrange(k + w, k + w + escaped(rest).len() + 1) =~= escaped(rest) + seq!['"']) by {
            assert(s.subrange(k, k + e.len()).subrange(w, w + escaped(rest).len() + 1)
                =~= s.subrange(k + w, k + w + escaped(rest).len() + 1));
        }
        lemma_parse_body(s, k + w, rest);
        if w > 1 {
            assert(s.subrange(k, k + w) =~= escape_char(c)) by {
                assert(s.subrange(k, k + e.len()).subrange(0, w) =~= s.subrange(k, k + w));
            }
            lemma_unescape(s, k, c);
        }
        assert(seq![c] + rest =~= v);
    }
}

/// A list of strings reads back as that list.
proof fn lemma_parse_items(s: Seq<char>, k: int, l: Seq<Seq<char>>)
    requires
        0 <= k,
        starts_at(s, k, items_text(l)),
    ensures
        parse_items(s, k) == Some((l, k + items_text(l).len())),
    decreases l.len(),
{
    let t = items_text(l);
    assert(s[k] == t[0]);
    if l.len() > 0 {
        let q = quoted(l[0]);
        let e = escaped(l[0]) + seq!['"'];
        assert(t.subrange(0, q.len() as int) =~= q);
        assert(s.subrange(k, k + q.len()) =~= q) by {
            assert(s.subrange(k, k + t.len()).subrange(0, q.len() as int) =~= s.subrange(k, k + q.len()));
        }
        assert(s[k] == q[0]);
        assert(s.subrange(k + 1, k + 1 + e.len()) =~= e) by {
            assert(s.subrange(k, k + q.len()).subrange(1, 1 + e.len() as int) =~= s.subrange(k + 1, k + 1 + e.len()));
            assert(q.subrange(1, 1 + e.len() as int) =~= e);
        }
        lemma_parse_body(s, k + 1, l[0]);
        let j: int = k + q.len();
        assert(s[j] == t[q.len() as int]);
        if l.len() == 1 {
            assert(seq![l[0]] =~= l);
        } else {
            let rest = l.drop_first();
            let rt = items_text(rest);
            assert(t =~= q + seq![','] + rt);
            assert(s.subrange(j + 1, j + 1 + rt.len()) =~= rt) by {
                assert(s.subrange(k, k + t.len()).subrange(q.len() as int + 1, q.len() as int + 1 + rt.len())
                    =~= s.subrange(j + 1, j + 1 + rt.len()));
            }
            lemma_parse_items(s, j + 1, rest);
            assert(seq![l[0]] + rest =~= l);
        }
    }
}

/// A list of strings at position `k` reads back as that list.
proof fn lemma_parse_list(s: Seq<char>, k: int, l: Seq<Seq<char>>)
    requires
        0 <= k,
        starts_at(s, k, list_text(l)),
    ensures
        parse_list(s, k) == Some((l, k + list_text(l).len())),
{
    let t = list_text(l);
    assert(s[k] == t[0]);
    let it = items_text(l);
    assert(s.subrange(k + 1, k + 1 + it.len()) =~= it) by {
        assert(s.subrange(k, k + t.len()).subrange(1, 1 + it.len() as int) =~= s.subrange(k + 1, k + 1 + it.len()));
    }
    lemma_parse_items(s, k + 1, l);
}

/// The text of a trail reads back as that trail.
pub proof fn lemma_trail_round_trip(t: TrailView)
    ensures
        parse_trail(trail_text(t)) == Some(t),
{
    let s = trail_text(t);
    let h = trail_head();
    let q = quoted(t.opening.name);
    let mk = moves_key();
    let ml = list_text(t.opening.moves);
    let ck = continuation_key();
    let cl = list_text(t.continuation);
    let a: int = h.len() as int + q.len();
    let b: int = a + mk.len() + ml.len();
    let c: int = b + ck.len() + cl.len();
    assert(s.len() == c + 1);
    assert(s.subrange(0, h.len() as int) =~= h);
    let e = escaped(t.opening.name) + seq!['"'];
    assert(s.subrange(h.len() as int + 1, h.len() as int + 1 + e.len()) =~= e);
    assert(s[h.len() as int] == '"');
    lemma_parse_body(s, h.len() as int + 1, t.opening.name);
    assert(q.len() == e.len() + 1);
    assert(s.subrange(a, a + mk.len()) =~= mk);
    assert(s.subrange(a + mk.len(), a + mk.len() + ml.len()) =~= ml);
    lemma_parse_list(s, a + mk.len(), t.opening.moves);
    assert(s.subrange(b, b + ck.len()) =~= ck);
    assert(s.subrange(b + ck.len(), b + ck.len() + cl.len()) =~= cl);
    lemma_parse_list(s, b + ck.len(), t.continuation);
    assert(s[c] == '}');
}

/// Relies on `String::push`: the character is added at the end.
#[verifier::external_body]
pub(crate) fn push_char(s: &mut String, c: char)
    ensures
        final(s)@ == old(s)@.push(c),
{
    s.push(c)
}

/// The lower-case hexadecimal digit for `d`.
fn hex_char(d: u32) -> (c: char)
    requires
        d < 16,
    ensures
        c == hex_digit(d as nat),
{
    if d < 10 {
        ((d + 48) as u8) as char
    } else {
        ((d + 87) as u8) as char
    }
}

/// Adds the text that stands for `c` inside a quoted string to `out`.
fn push_escaped_char(out: &mut String, c: char)
    ensures
        final(out)@ == old(out)@ + escape_char(c),
{
    let ghost start = out@;
    if c == '"' || c == '\\' {
        push_char(out, '\\');
        push_char(out, c);
    } else if c == '\u{8}' {
        push_char(out, '\\');
        push_char(out, 'b');
    } else if c == '\u{c}' {
        push_char(out, '\\');
        push_char(out, 'f');
    } else if c == '\n' {
        push_char(out, '\\');
        push_char(out, 'n');
    } else if c == '\r' {
        push_char(out, '\\');
        push_char(out, 'r');
    } else if c == '\t' {
        push_char(out, '\\');
        push_char(out, 't');
    } else if (c as u32) < 32 {
        let n = c as u32;
        push_char(out, '\\');
        push_char(out, 'u');
        push_char(out, '0');
        push_char(out, '0');
        push_char(out, hex_char(n / 16));
        push_char(out, hex_char(n % 16));
    } else {
        push_char(out, c);
    }
    assert(out@ =~= start + escape_char(c));
}

/// Adds `s`, quoted, to `out`.
fn push_quoted(out: &mut String, s: &str)
    ensures
        final(out)@ == old(out)@ + quoted(s@),
{
    let ghost start = out@;
    push_char(out, '"');
    let n = s.unicode_len();
    let mut i: usize = 0;
    while i < n
        invariant
            n == s@.len(),
            i <= n,
            out@ == start + seq!['"'] + escaped(s@.subrange(0, i as int)),
        decreases n - i,
    {
        let c = s.get_char(i);
        proof {
            assert(s@.subrange(0, i + 1) =~= s@.subrange(0, i as int).push(c));
            lemma_escaped_push(s@.subrange(0, i as int), c);
        }
        push_escaped_char(out, c);
        i += 1;
        assert(out@ =~= start + seq!['"'] + escaped(s@.subrange(0, i as int)));
    }
    push_char(out, '"');
    assert(s@.subrange(0, n as int) =~= s@);
    assert(out@ =~= start + quoted(s@));
}

/// Adds the list `l`, as a JSON array of strings, to `out`.
fn push_list(out: &mut String, l: &Vec<String>)
    ensures
        final(out)@ == old(out)@ + list_text(texts(l@)),
{
    let ghost target = out@ + list_text(texts(l@));
    let ghost tl = texts(l@);
    push_char(out, '[');
    let n = l.len();
    if n == 0 {
        push_char(out, ']');
        assert(out@ =~= target);
        return;
    }
    let mut i: usize = 0;
    assert(tl.subrange(0, n as int) =~= tl);
    assert(out@ + items_text(tl.subrange(0, n as int)) =~= target);
    while i < n
        invariant
            n == l@.len(),
            tl == texts(l@),
            0 < n,
            i <= n,
            i < n ==> out@ + items_text(tl.subrange(i as int, n as int)) == target,
            i == n ==> out@ == target,
        decreases n - i,
    {
        let ghost before = out@;
        let ghost sub = tl.subrange(i as int, n as int);
        assert(sub[0] == l@[i as int]@);
        push_quoted(out, l[i].as_str());
        if i + 1 < n {
            push_char(out, ',');
            assert(sub.drop_first() =~= tl.subrange(i + 1, n as int));
            assert(out@ + items_text(tl.subrange(i + 1, n as int)) =~= before + items_text(sub));
        } else {
            push_char(out, ']');
            assert(out@ =~= before + items_text(sub));
        }
        i += 1;
    }
}

/// The text of a trail.
pub fn encode_trail(t: &Trail) -> (r: String)
    ensures
        r@ == trail_text(t@),
{
    let mut out = String::new();
    out.append("{\"opening\":{\"name\":");
    push_quoted(&mut out, t.opening.name.as_str());
    out.append(",\"moves\":");
    push_list(&mut out, &t.opening.moves);
    out.append("},\"continuation\":");
    push_list(&mut out, &t.continuation);
    push_char(&mut out, '}');
    assert(out@ =~= trail_text(t@));
    out
}

/// The value of a lower-case hexadecimal digit.
fn read_hex(c: char) -> (r: Option<u32>)
    ensures
        match r {
            Some(v) => hex_value(c) == Some(v as nat),
            None => hex_value(c) is None,
        },
{
    let u = c as u32;
    if 48 <= u && u <= 57 {
        Some(u - 48)
    } else if 97 <= u && u <= 102 {
        Some(u - 87)
    } else {
        None
    }
}

/// Reads the escape that follows a backslash at position `k` of `s`, which
/// has `n` characters.
fn read_escape(s: &str, n: usize, k: usize) -> (r: Option<(char, usize)>)
    requires
        n == s@.len(),
    ensures
        match r {
            Some((c, j)) => unescape(s@, k as int) == Some((c, j as int)),
            None => unescape(s@, k as int) is None,
        },
{
    if k >= n {
        return None;
    }
    let e = s.get_char(k);
    if e == '"' || e == '\\' || e == '/' {
        Some((e, k + 1))
    } else if e == 'b' {
        Some(('\u{8}', k + 1))
    } else if e == 'f' {
        Some(('\u{c}', k + 1))
    } else if e == 'n' {
        Some(('\n', k + 1))
    } else if e == 'r' {
        Some(('\r', k + 1))
    } else if e == 't' {
        Some(('\t', k + 1))
    } else if e == 'u' && 4 < n - k && s.get_char(k + 1) == '0' && s.get_char(k + 2) == '0' {
        match (read_hex(s.get_char(k + 3)), read_hex(s.get_char(k + 4))) {
            (Some(h), Some(l)) => if h < 2 {
                Some(((16 * h + l) as u8 as char, k + 5))
            } else {
                None
            },
            _ => None,
        }
    } else {
        None
    }
}

/// Reads the rest of a quoted string from position `k` of `s`, which has `n`
/// characters.
fn read_body(s: &str, n: usize, k: usize) -> (r: Option<(String, usize)>)
    requires
        n == s@.len(),
    ensures
        match r {
            Some((v, j)) => parse_body(s@, k as int) == Some((v@, j as int)),
            None => parse_body(s@, k as int) is None,
        },
{
    let mut acc = String::new();
    let mut i = k;
    assert(parse_body(s@, k as int) == with_prefix(acc@, parse_body(s@, i as int))) by {
        match parse_body(s@, k as int) {
            Some((v, j)) => {
                assert(acc@ + v =~= v);
            },
            None => {},
        }
    }
    loop
        invariant
            n == s@.len(),
            k <= i,
            parse_body(s@, k as int) == with_prefix(acc@, parse_body(s@, i as int)),
        decreases n - i,
    {
        if i >= n {
            return None;
        }
        let c = s.get_char(i);
        if c == '"' {
            assert(acc@ + Seq::<char>::empty() =~= acc@);
            return Some((acc, i + 1));
        }
        if c == '\\' {
            match read_escape(s, n, i + 1) {
                Some((d, j)) => {
                    if j <= i {
                        return None;
                    }
                    proof {
                        lemma_with_prefix_push(acc@, d, parse_body(s@, j as int));
                    }
                    push_char(&mut acc, d);
                    i = j;
                    continue;
                },
                None => {
                    return None;
                },
            }
        }
        proof {
            lemma_with_prefix_push(acc@, c, parse_body(s@, i + 1));
        }
        push_char(&mut acc, c);
        i = i + 1;
    }
}

/// Reads a quoted string at position `k` of `s`, which has `n` characters.
fn read_quoted(s: &str, n: usize, k: usize) -> (r: Option<(String, usize)>)
    requires
        n == s@.len(),
    ensures
        match r {
            Some((v, j)) => parse_quoted(s@, k as int) == Some((v@, j as int)),
            None => parse_quoted(s@, k as int) is None,
        },
{
    if k < n && s.get_char(k) == '"' {
        read_body(s, n, k + 1)
    } else {
        None
    }
}

/// Reads the items of a list of strings from position `k` of `s`, which has
/// `n` characters.
fn read_items(s: &str, n: usize, k: usize) -> (r: Option<(Vec<String>, usize)>)
    requires
        n == s@.len(),
    ensures
        match r {
            Some((v, j)) => parse_items(s@, k as int) == Some((texts(v@), j as int)),
            None => parse_items(s@, k as int) is None,
        },
{
    let mut acc: Vec<String> = Vec::new();
    let mut i = k;
    assert(parse_items(s@, k as int) == with_prefix(texts(acc@), parse_items(s@, i as int))) by {
        match parse_items(s@, k as int) {
            Some((v, j)) => {
                assert(texts(acc@) + v =~= v);
            },
            None => {},
        }
    }
    loop
        invariant
            n == s@.len(),
            k <= i,
            parse_items(s@, k as int) == with_prefix(texts(acc@), parse_items(s@, i as int)),
        decreases n - i,
    {
        if i >= n {
            return None;
        }
        if s.get_char(i) == ']' {
            assert(texts(acc@) + Seq::<Seq<char>>::empty() =~= texts(acc@));
            return Some((acc, i + 1));
        }
        match read_quoted(s, n, i) {
            None => {
                return None;
            },
            Some((v, j)) => {
                if j <= i || j >= n {
                    return None;
                }
                let d = s.get_char(j);
                let ghost before = texts(acc@);
                if d == ']' {
                    acc.push(v);
                    assert(texts(acc@) =~= before + seq![v@]);
                    return Some((acc, j + 1));
                }
                if d != ',' {
                    return None;
                }
                proof {
                    lemma_with_prefix_push(before, v@, parse_items(s@, j + 1));
                }
                acc.push(v);
                assert(texts(acc@) =~= before.push(v@));
                i = j + 1;
            },
        }
    }
}

/// Reads a list of strings at position `k` of `s`, which has `n` characters.
fn read_list(s: &str, n: usize, k: usize) -> (r: Option<(Vec<String>, usize)>)
    requires
        n == s@.len(),
    ensures
        match r {
            Some((v, j)) => parse_list(s@, k as int) == Some((texts(v@), j as int)),
            None => parse_list(s@, k as int) is None,
        },
{
    if k < n && s.get_char(k) == '[' {
        read_items(s, n, k + 1)
    } else {
        None
    }
}

/// Whether `lit` stands at position `k` of `s`, which has `n` characters.
fn read_literal(s: &str, n: usize, k: usize, lit: &str) -> (r: bool)
    requires
        n == s@.len(),
    ensures
        r == starts_at(s@, k as int, lit@),
{
    let m = lit.unicode_len();
    if m > n || k > n - m {
        return false;
    }
    let mut i: usize = 0;
    while i < m
        invariant
            n == s@.len(),
            m == lit@.len(),
            k + m <= n,
            i <= m,
            s@.subrange(k as int, k + i) == lit@.subrange(0, i as int),
        decreases m - i,
    {
        if s.get_char(k + i) != lit.get_char(i) {
            assert(s@.subrange(k as int, k + m)[i as int] == s@[k + i]);
            return false;
        }
        assert(s@.subrange(k as int, k + i + 1) =~= s@.subrange(k as int, k + i).push(s@[k + i]));
        assert(lit@.subrange(0, i + 1) =~= lit@.subrange(0, i as int).push(lit@[i as int]));
        i += 1;
    }
    assert(lit@.subrange(0, m as int) =~= lit@);
    true
}

/// The views of an optional trail.
pub open spec fn opt_trail(o: Option<Trail>) -> Option<TrailView> {
    match o {
        Some(t) => Some(t@),
        None => None,
    }
}

/// Reads a text as a trail; `None` where it is not the text of one.
pub fn decode_trail(s: &str) -> (r: Option<Trail>)
    ensures
        opt_trail(r) == parse_trail(s@),
{
    let n = s.unicode_len();
    if !read_literal(s, n, 0, "{\"opening\":{\"name\":") {
        return None;
    }
    proof {
        reveal_strlit("{\"opening\":{\"name\":");
    }
    let (name, a) = match read_quoted(s, n, 19) {
        Some(x) => x,
        None => {
            return None;
        },
    };
    if !read_literal(s, n, a, ",\"moves\":") {
        return None;
    }
    proof {
        reveal_strlit(",\"moves\":");
    }
    if a > n {
        return None;
    }
    let (moves, b) = match read_list(s, n, a + 9) {
        Some(x) => x,
        None => {
            return None;
        },
    };
    if !read_literal(s, n, b, "},\"continuation\":") {
        return None;
    }
    proof {
        reveal_strlit("},\"continuation\":");
    }
    if b > n {
        return None;
    }
    let (continuation, c) = match read_list(s, n, b + 17) {
        Some(x) => x,
        None => {
            return None;
        },
    };
    if c < n && c + 1 == n && s.get_char(c) == '}' {
        let t = Trail { opening: Opening { name, moves }, continuation };
        Some(t)
    } else {
        None
    }
}

/// The items of a list of trails after its opening bracket, with the closing
/// bracket.
pub open spec fn trail_items(ts: Seq<TrailView>) -> Seq<char>
    decreases ts.len(),
{
    if ts.len() == 0 {
        seq![']']
    } else if ts.len() == 1 {
        trail_text(ts[0]) + seq![']']
    } else {
        trail_text(ts[0]) + seq![','] + trail_items(ts.drop_first())
    }
}

/// A list of trails as a JSON array.
pub open spec fn trails_text(ts: Seq<TrailView>) -> Seq<char> {
    seq!['['] + trail_items(ts)
}

/// The text of a list of trails, as a JSON array.
pub fn encode_trails(ts: &Vec<Trail>) -> (r: String)
    ensures
        r@ == trails_text(ts@.map_values(|t: Trail| t@)),
{
    let ghost tv = ts@.map_values(|t: Trail| t@);
    let mut out = String::new();
    let ghost target = out@ + trails_text(tv);
    push_char(&mut out, '[');
    let n = ts.len();
    if n == 0 {
        push_char(&mut out, ']');
        assert(out@ =~= target);
        return out;
    }
    let mut i: usize = 0;
    assert(tv.subrange(0, n as int) =~= tv);
    assert(out@ + trail_items(tv.subrange(0, n as int)) =~= target);
    while i < n
        invariant
            n == ts@.len(),
            tv == ts@.map_values(|t: Trail| t@),
            0 < n,
            i <= n,
            i < n ==> out@ + trail_items(tv.subrange(i as int, n as int)) == target,
            i == n ==> out@ == target,
        decreases n - i,
    {
        let ghost before = out@;
        let ghost sub = tv.subrange(i as int, n as int);
        assert(sub[0] == ts@[i as int]@);
        let text = encode_trail(&ts[i]);
        out.append(text.as_str());
        if i + 1 < n {
            push_char(&mut out, ',');
            assert(sub.drop_first() =~= tv.subrange(i + 1, n as int));
            assert(out@ + trail_items(tv.subrange(i + 1, n as int)) =~= before + trail_items(sub));
        } else {
            push_char(&mut out, ']');
            assert(out@ =~= before + trail_items(sub));
        }
        i += 1;
    }
    out
}

} // verus!
