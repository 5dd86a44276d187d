//! The chess rules, from shakmaty: positions are handled as their FEN text.

use shakmaty::fen::Fen;
use shakmaty::san::SanPlus;
use shakmaty::{CastlingMode, Chess, EnPassantMode, Position};
use vstd::prelude::*;
use vstd::string::StrSliceExecFns;
use crate::model::texts;

verus! {

/// The FEN of the position reached by playing the move `san` (standard
/// algebraic notation) in the position given by the FEN `position`, or
/// `None` where either text does not parse or the move is not legal there.
pub uninterp spec fn fen_after(position: Seq<char>, san: Seq<char>) -> Option<Seq<char>>;

/// The FENs of the positions reached by each legal move in the position
/// given by the FEN `position`.
pub uninterp spec fn fen_successors(position: Seq<char>) -> Seq<Seq<char>>;

/// The canonical FEN of the position that the text `text` describes, or
/// `None` where the text is not a FEN.
pub uninterp spec fn fen_canonical(text: Seq<char>) -> Option<Seq<char>>;

/// The FEN of the standard starting position.
pub open spec fn start_fen() -> Seq<char> {
    "rnbqkbnr/pppppppp/8/8/8/8/PPPPPPPP/RNBQKBNR w KQkq - 0 1"@
}

/// The view of an optional string.
pub open spec fn opt_text(o: Option<String>) -> Option<Seq<char>> {
    match o {
        Some(s) => Some(s@),
        None => None,
    }
}

/// The FEN of the standard starting position.
pub fn start_position() -> (r: String)
    ensures
        r@ == start_fen(),
{
    String::from_str("rnbqkbnr/pppppppp/8/8/8/8/PPPPPPPP/RNBQKBNR w KQkq - 0 1")
}

/// Relies on shakmaty: `Fen::from_ascii` and `Fen::into_position` read the
/// position, `SanPlus::from_ascii` and `San::to_move` find the move,
/// `Position::play_unchecked` plays it and `Fen::from_position` (legal
/// en passant squares only) writes the result. `to_move` picks among the
/// legal moves only, so the result is one of the position's successors.
#[verifier::external_body]
pub(crate) fn play_san(position: &str, san: &str) -> (r: Option<String>)
    ensures
        opt_text(r) == fen_after(position@, san@),
        r is Some ==> fen_successors(position@).contains(r->0@),
{
    let fen = Fen::from_ascii(position.as_bytes()).ok()?;
    let mut pos: Chess = fen.into_position(CastlingMode::Standard).ok()?;
    let m = SanPlus::from_ascii(san.as_bytes()).ok()?.san.to_move(&pos).ok()?;
    pos.play_unchecked(&m);
    Some(Fen::from_position(pos, EnPassantMode::Legal).to_string())
}

/// Relies on shakmaty: `Position::legal_moves` lists the moves of the
/// position read by `Fen::from_ascii` and `Fen::into_position`; each is played
/// on a copy and written by `Fen::from_position` (legal en passant squares
/// only). Empty where the text is not a valid position.
#[verifier::external_body]
pub(crate) fn successor_fens(position: &str) -> (r: Vec<String>)
    ensures
        texts(r@) == fen_successors(position@),
{
    let Some(pos) = Fen::from_ascii(position.as_bytes())
        .ok()
        .and_then(|f| f.into_position::<Chess>(CastlingMode::Standard).ok()) else {
        return Vec::new();
    };
    pos.legal_moves()
        .iter()
        .map(|m| {
            let mut next = pos.clone();
            next.play_unchecked(m);
            Fen::from_position(next, EnPassantMode::Legal).to_string()
        })
        .collect()
}

/// Relies on shakmaty: `Fen::from_ascii` parses the text and its `Display`
/// writes it back in canonical form.
#[verifier::external_body]
pub(crate) fn canonical_fen(text: &str) -> (r: Option<String>)
    ensures
        opt_text(r) == fen_canonical(text@),
{
    Fen::from_ascii(text.as_bytes()).ok().map(|f| f.to_string())
}

/// Whether two texts are equal.
pub fn same_text(a: &str, b: &str) -> (r: bool)
    ensures
        r == (a@ == b@),
{
    let n = a.unicode_len();
    if n != b.unicode_len() {
        return false;
    }
    let mut i: usize = 0;
    while i < n
        invariant
            n == a@.len(),
            n == b@.len(),
            i <= n,
            a@.subrange(0, i as int) == b@.subrange(0, i as int),
        decreases n - i,
    {
        if a.get_char(i) != b.get_char(i) {
            return false;
        }
        assert(a@.subrange(0, i + 1) =~= a@.subrange(0, i as int).push(a@[i as int]));
        assert(b@.subrange(0, i + 1) =~= b@.subrange(0, i as int).push(b@[i as int]));
        i += 1;
    }
    assert(a@ =~= a@.subrange(0, n as int));
    assert(b@ =~= b@.subrange(0, n as int));
    true
}

} // verus!
