//! Movetext formatting.

use vstd::prelude::*;
use vstd::string::StringExecFns;
use crate::codec::push_char;
use crate::model::texts;

verus! {

/// The decimal digits of `n`.
pub open spec fn decimal(n: nat) -> Seq<char>
    decreases n,
{
    if n < 10 {
        seq![digit(n)]
    } else {
        decimal(n / 10).push(digit(n % 10))
    }
}

/// The digit for `d`, below ten.
pub open spec fn digit(d: nat) -> char {
    if d == 0 { '0' } else if d == 1 { '1' } else if d == 2 { '2' } else if d == 3 { '3' }
    else if d == 4 { '4' } else if d == 5 { '5' } else if d == 6 { '6' } else if d == 7 { '7' }
    else if d == 8 { '8' } else { '9' }
}

/// The tokens for the moves from index `idx` on, where `plies` plies were
/// played before the first of `moves`: a move number before each move of white.
pub open spec fn move_tokens(moves: Seq<Seq<char>>, plies: nat, idx: nat) -> Seq<Seq<char>>
    decreases moves.len() - idx,
{
    if idx >= moves.len() {
        Seq::empty()
    } else {
        let head = if (plies + idx) % 2 == 0 {
            seq![decimal((plies + idx) / 2 + 1) + "."@, moves[idx as int]]
        } else {
            seq![moves[idx as int]]
        };
        head + move_tokens(moves, plies, idx + 1)
    }
}

/// The tokens of the movetext for `moves` after `plies` plies: where black
/// moves first, the move number with an ellipsis opens it.
pub open spec fn pgn_tokens(moves: Seq<Seq<char>>, plies: nat) -> Seq<Seq<char>> {
    let first = if moves.len() > 0 && plies % 2 == 1 {
        seq![decimal((plies + 1) / 2) + "..."@]
    } else {
        Seq::empty()
    };
    first + move_tokens(moves, plies, 0)
}

/// Tokens joined by single spaces.
pub open spec fn joined(ts: Seq<Seq<char>>) -> Seq<char>
    decreases ts.len(),
{
    if ts.len() == 0 {
        Seq::empty()
    } else if ts.len() == 1 {
        ts[0]
    } else {
        ts[0] + seq![' '] + joined(ts.drop_first())
    }
}

/// The digit for `d`, below ten.
fn digit_char(d: usize) -> (c: char)
    requires
        d < 10,
    ensures
        c == digit(d as nat),
{
    if d == 0 { '0' } else if d == 1 { '1' } else if d == 2 { '2' } else if d == 3 { '3' }
    else if d == 4 { '4' } else if d == 5 { '5' } else if d == 6 { '6' } else if d == 7 { '7' }
    else if d == 8 { '8' } else { '9' }
}

/// Adds the decimal digits of `n` to `out`.
fn push_decimal(out: &mut String, n: usize)
    ensures
        final(out)@ == old(out)@ + decimal(n as nat),
    decreases n,
{
    if n >= 10 {
        push_decimal(out, n / 10);
        push_char(out, digit_char(n % 10));
        assert(final(out)@ =~= old(out)@ + decimal(n as nat));
    } else {
        push_char(out, digit_char(n));
        assert(n as nat % 10 == n as nat);
        assert(final(out)@ =~= old(out)@ + decimal(n as nat));
    }
}

/// The movetext of `moves` (standard algebraic notation) played after
/// `plies_moved` plies: each move of white gets its number, and where black
/// moves first the move number with an ellipsis opens the text.
pub fn sp_seq_to_pgn(moves: &Vec<String>, plies_moved: usize) -> (r: String)
    requires
        plies_moved + moves@.len() < usize::MAX,
    ensures
        r@ == joined(pgn_tokens(texts(moves@), plies_moved as nat)),
{
    let ghost mv = texts(moves@);
    let ghost target = pgn_tokens(mv, plies_moved as nat);
    let mut out: Vec<String> = Vec::new();
    let mut count = (plies_moved + 1) / 2;
    if moves.len() > 0 && plies_moved % 2 == 1 {
        let mut first = String::new();
        push_decimal(&mut first, count);
        first.append("...");
        out.push(first);
    }
    proof {
        assert(texts(out@) + move_tokens(mv, plies_moved as nat, 0) =~= target);
    }
    let mut idx: usize = 0;
    while idx < moves.len()
        invariant
            mv == texts(moves@),
            plies_moved + moves@.len() < usize::MAX,
            idx <= moves@.len(),
            count == (plies_moved + idx + 1) / 2,
            texts(out@) + move_tokens(mv, plies_moved as nat, idx as nat) == target,
        decreases moves.len() - idx,
    {
        let ghost before = texts(out@);
        if (plies_moved + idx) % 2 == 0 {
            count += 1;
            let mut number = String::new();
            push_decimal(&mut number, count);
            number.append(".");
            out.push(number);
        }
        out.push(moves[idx].clone());
        assert(texts(out@) + move_tokens(mv, plies_moved as nat, (idx + 1) as nat) =~= target) by {
            assert(move_tokens(mv, plies_moved as nat, idx as nat) == (if (plies_moved + idx) % 2 == 0 {
                seq![decimal(((plies_moved + idx) / 2 + 1) as nat) + "."@, mv[idx as int]]
            } else {
                seq![mv[idx as int]]
            }) + move_tokens(mv, plies_moved as nat, (idx + 1) as nat));
        }
        idx += 1;
    }
    assert(move_tokens(mv, plies_moved as nat, idx as nat) =~= Seq::<Seq<char>>::empty());
    assert(texts(out@) =~= target);
    join_spaced(&out)
}

/// Tokens joined by single spaces.
fn join_spaced(tokens: &Vec<String>) -> (r: String)
    ensures
        r@ == joined(texts(tokens@)),
{
    let ghost tv = texts(tokens@);
    let mut out = String::new();
    let n = tokens.len();
    if n == 0 {
        assert(out@ =~= joined(tv));
        return out;
    }
    let mut i: usize = 0;
    assert(tv.subrange(0, n as int) =~= tv);
    assert(out@ + joined(tv.subrange(0, n as int)) =~= joined(tv));
    while i < n
        invariant
            n == tokens@.len(),
            tv == texts(tokens@),
            0 < n,
            i <= n,
            i < n ==> out@ + joined(tv.subrange(i as int, n as int)) == joined(tv),
            i == n ==> out@ == joined(tv),
        decreases n - i,
    {
        let ghost before = out@;
        let ghost sub = tv.subrange(i as int, n as int);
        assert(sub[0] == tokens@[i as int]@);
        out.append(tokens[i].as_str());
        if i + 1 < n {
            push_char(&mut out, ' ');
            assert(sub.drop_first() =~= tv.subrange(i + 1, n as int));
            assert(out@ + joined(tv.subrange(i + 1, n as int)) =~= before + joined(sub));
        } else {
            assert(out@ =~= before + joined(sub));
        }
        i += 1;
    }
    out
}

} // verus!
