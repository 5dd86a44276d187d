//! The per-game walker: classifies every position that a game reaches.

use vstd::prelude::*;
use crate::chess::{fen_after, fen_successors, play_san, same_text, start_fen, start_position};
use crate::eco::{is_blank, valid_table, Eco};
use crate::model::{empty_trail, texts, FenTrail, FenTrailView, OpeningView, Trail, TrailView};

verus! {

/// The mathematical value of a [`TrailBlazer`].
pub ghost struct WalkView {
    pub ply: int,
    pub depth: int,
    pub valid: bool,
    pub position: Seq<char>,
    pub trail: TrailView,
    pub emitted: Seq<FenTrailView>,
}

/// The views of a sequence of records.
pub open spec fn records_view(v: Seq<FenTrail>) -> Seq<FenTrailView> {
    v.map_values(|r: FenTrail| r@)
}

/// The state at the start of a game: no ply played, the standard starting
/// position, the empty trail; records not yet handed out stay.
pub open spec fn begun(w: WalkView) -> WalkView {
    WalkView { ply: 0, valid: true, position: start_fen(), trail: empty_trail(), ..w }
}

/// Whether a header tag rules the game out: a set-up position, or a variant
/// other than standard chess.
pub open spec fn disallowed_tag(key: Seq<char>, value: Seq<char>) -> bool {
    key == "FEN"@ || (key == "Variation"@ && value != "Standard"@)
}

/// The state after a header tag.
pub open spec fn after_header(w: WalkView, key: Seq<char>, value: Seq<char>) -> WalkView {
    if disallowed_tag(key, value) {
        WalkView { valid: false, ..w }
    } else {
        w
    }
}

/// The state after the move `san`. A move counts only while the game is valid
/// and under the depth limit; an illegal one invalidates the game. A position
/// of the table starts the trail anew from its opening; any other adds the
/// move to the continuation. Each counted legal move emits a record.
pub open spec fn step(w: WalkView, table: Map<Seq<char>, OpeningView>, san: Seq<char>) -> WalkView {
    if w.valid && w.ply < w.depth {
        match fen_after(w.position, san) {
            None => WalkView { ply: w.ply + 1, valid: false, ..w },
            Some(fen) => {
                let trail = if table.contains_key(fen) {
                    TrailView { opening: table[fen], continuation: Seq::empty() }
                } else {
                    TrailView { continuation: w.trail.continuation.push(san), ..w.trail }
                };
                WalkView {
                    ply: w.ply + 1,
                    position: fen,
                    trail,
                    emitted: w.emitted.push(FenTrailView { fen, trail }),
                    ..w
                }
            },
        }
    } else {
        w
    }
}

/// While a game is valid, it stands at the starting position until a ply is
/// counted, and from then on its trail names an opening (a name that is not
/// blank): a move is added to a continuation only after an opening.
pub open spec fn opening_assigned(w: WalkView) -> bool {
    w.valid ==> ((w.ply == 0 ==> w.position == start_fen()) && (w.ply > 0 ==> !is_blank(
        w.trail.opening.name,
    )))
}

/// The state after the moves `moves`, one after the other.
pub open spec fn replay_moves(
    w: WalkView,
    table: Map<Seq<char>, OpeningView>,
    moves: Seq<Seq<char>>,
) -> WalkView
    decreases moves.len(),
{
    if moves.len() == 0 {
        w
    } else {
        replay_moves(step(w, table, moves[0]), table, moves.drop_first())
    }
}

/// Walks the moves of one game and emits a record for each position reached.
pub struct TrailBlazer {
    ply: u8,
    depth: u8,
    valid: bool,
    position: String,
    trail: Trail,
    fentrails: Vec<FenTrail>,
}

impl View for TrailBlazer {
    type V = WalkView;

    closed spec fn view(&self) -> WalkView {
        WalkView {
            ply: self.ply as int,
            depth: self.depth as int,
            valid: self.valid,
            position: self.position@,
            trail: self.trail@,
            emitted: records_view(self.fentrails@),
        }
    }
}

impl TrailBlazer {
    /// The bounds of the fields.
    pub open spec fn wf(&self) -> bool {
        0 <= self@.ply <= self@.depth <= 255
    }

    /// A walker that counts at most `depth` plies of each game; it waits for
    /// a game to begin.
    pub fn new(depth: u8) -> (r: TrailBlazer)
        ensures
            r.wf(),
            r@ == (WalkView {
                ply: 0,
                depth: depth as int,
                valid: false,
                position: start_fen(),
                trail: empty_trail(),
                emitted: Seq::empty(),
            }),
    {
        let r = TrailBlazer {
            ply: 0,
            depth,
            valid: false,
            position: start_position(),
            trail: Trail::empty(),
            fentrails: Vec::new(),
        };
        assert(records_view(r.fentrails@) =~= Seq::<FenTrailView>::empty());
        r
    }

    /// Starts a game from the standard starting position.
    pub fn begin_game(&mut self)
        ensures
            final(self).wf(),
            final(self)@ == begun(old(self)@),
            opening_assigned(final(self)@),
    {
        self.ply = 0;
        self.valid = true;
        self.position = start_position();
        self.trail = Trail::empty();
    }

    /// Reads one header tag of the game.
    pub fn header(&mut self, key: &str, value: &str)
        requires
            old(self).wf(),
        ensures
            final(self).wf(),
            final(self)@ == after_header(old(self)@, key@, value@),
            opening_assigned(old(self)@) ==> opening_assigned(final(self)@),
    {
        proof {
            reveal_strlit("FEN");
            reveal_strlit("Variation");
            reveal_strlit("Standard");
        }
        if same_text(key, "FEN") || (same_text(key, "Variation") && !same_text(value, "Standard")) {
            self.valid = false;
        }
    }

    /// Reads one move of the game's mainline, in standard algebraic notation.
    pub fn san(&mut self, eco: &Eco, san: &str)
        requires
            old(self).wf(),
        ensures
            final(self).wf(),
            final(self)@ == step(old(self)@, eco@, san@),
            old(self)@.valid && old(self)@.ply < old(self)@.depth && fen_after(old(self)@.position, san@) is Some
                ==> fen_successors(old(self)@.position).contains(fen_after(old(self)@.position, san@)->0),
            valid_table(eco@) && opening_assigned(old(self)@) ==> opening_assigned(final(self)@),
            valid_table(eco@) && opening_assigned(old(self)@) && old(self)@.valid && old(self)@.ply
                < old(self)@.depth && fen_after(old(self)@.position, san@) is Some && !eco@.contains_key(
                fen_after(old(self)@.position, san@)->0,
            ) ==> !is_blank(old(self)@.trail.opening.name),
    {
        let ghost w0 = self@;
        if self.valid && self.ply < self.depth {
            self.ply = self.ply + 1;
            match play_san(self.position.as_str(), san) {
                None => {
                    self.valid = false;
                },
                Some(fen) => {
                    proof {
                        if valid_table(eco@) && opening_assigned(w0) && w0.ply == 0 {
                            let succ = fen_successors(start_fen());
                            let i = choose|i: int| 0 <= i < succ.len() && succ[i] == fen@;
                            assert(eco@.contains_key(succ[i]));
                        }
                    }
                    match eco.get(fen.as_str()) {
                        Some(opening) => {
                            self.trail.opening = opening.snapshot();
                            self.trail.continuation = Vec::new();
                            assert(texts(self.trail.continuation@) =~= Seq::<Seq<char>>::empty());
                        },
                        None => {
                            let ghost before = texts(self.trail.continuation@);
                            self.trail.continuation.push(san.to_string());
                            assert(texts(self.trail.continuation@) =~= before.push(san@));
                        },
                    }
                    let ghost before = records_view(self.fentrails@);
                    let record = FenTrail { fen: fen.clone(), trail: self.trail.snapshot() };
                    self.fentrails.push(record);
                    assert(records_view(self.fentrails@) =~= before.push(record@));
                    self.position = fen;
                },
            }
        }
    }

    /// Ends the game and hands out the records it emitted.
    pub fn end_game(&mut self) -> (r: Vec<FenTrail>)
        requires
            old(self).wf(),
        ensures
            final(self).wf(),
            records_view(r@) == old(self)@.emitted,
            final(self)@ == (WalkView { emitted: Seq::empty(), ..old(self)@ }),
            opening_assigned(old(self)@) ==> opening_assigned(final(self)@),
    {
        let mut r: Vec<FenTrail> = Vec::new();
        core::mem::swap(&mut r, &mut self.fentrails);
        assert(records_view(self.fentrails@) =~= Seq::<FenTrailView>::empty());
        r
    }
}

/// One event of a game's mainline: a header tag, or a move.
pub ghost enum GameEvent {
    Header(Seq<char>, Seq<char>),
    Move(Seq<char>),
}

/// The state after the events `events`, one after the other.
pub open spec fn replay_events(
    w: WalkView,
    table: Map<Seq<char>, OpeningView>,
    events: Seq<GameEvent>,
) -> WalkView
    decreases events.len(),
{
    if events.len() == 0 {
        w
    } else {
        let next = match events[0] {
            GameEvent::Header(key, value) => after_header(w, key, value),
            GameEvent::Move(san) => step(w, table, san),
        };
        replay_events(next, table, events.drop_first())
    }
}

/// The state `w` with no records at hand.
pub open spec fn without_records(w: WalkView) -> WalkView {
    WalkView { emitted: Seq::empty(), ..w }
}

/// Records at hand before some events are kept, and the events add after them
/// what they would add to a walker with no records at hand.
pub proof fn lemma_records_added(w: WalkView, table: Map<Seq<char>, OpeningView>, events: Seq<GameEvent>)
    ensures
        replay_events(w, table, events) == (WalkView {
            emitted: w.emitted + replay_events(without_records(w), table, events).emitted,
            ..replay_events(without_records(w), table, events)
        }),
    decreases events.len(),
{
    let z = without_records(w);
    if events.len() == 0 {
        assert(w.emitted + z.emitted =~= w.emitted);
    } else {
        let next_w = match events[0] {
            GameEvent::Header(key, value) => after_header(w, key, value),
            GameEvent::Move(san) => step(w, table, san),
        };
        let next_z = match events[0] {
            GameEvent::Header(key, value) => after_header(z, key, value),
            GameEvent::Move(san) => step(z, table, san),
        };
        assert(next_w == (WalkView { emitted: w.emitted + next_z.emitted, ..next_z })) by {
            match events[0] {
                GameEvent::Header(key, value) => {
                    assert(z.emitted + Seq::<FenTrailView>::empty() =~= z.emitted);
                    assert(w.emitted + next_z.emitted =~= w.emitted);
                },
                GameEvent::Move(san) => {
                    if next_z.emitted.len() > 0 {
                        assert(w.emitted + next_z.emitted =~= next_w.emitted);
                    } else {
                        assert(w.emitted + next_z.emitted =~= w.emitted);
                    }
                },
            }
        }
        let rest = events.drop_first();
        lemma_records_added(next_w, table, rest);
        lemma_records_added(next_z, table, rest);
        assert(without_records(next_w) == without_records(next_z));
        assert(w.emitted + (next_z.emitted + replay_events(without_records(next_z), table, rest).emitted)
            =~= (w.emitted + next_z.emitted) + replay_events(without_records(next_w), table, rest).emitted);
    }
}

/// A game's records depend on the table, the depth limit and its events
/// alone: two walkers with the same depth add the same records for the same
/// header tags and moves, whatever game each of them walked before and
/// whatever records each still holds.
pub proof fn lemma_game_deterministic(
    a: WalkView,
    b: WalkView,
    table: Map<Seq<char>, OpeningView>,
    events: Seq<GameEvent>,
)
    requires
        a.depth == b.depth,
    ensures
        replay_events(begun(a), table, events).emitted.subrange(
            a.emitted.len() as int,
            replay_events(begun(a), table, events).emitted.len() as int,
        ) == replay_events(begun(b), table, events).emitted.subrange(
            b.emitted.len() as int,
            replay_events(begun(b), table, events).emitted.len() as int,
        ),
{
    lemma_records_added(begun(a), table, events);
    lemma_records_added(begun(b), table, events);
    assert(without_records(begun(a)) == without_records(begun(b)));
    let added = replay_events(without_records(begun(a)), table, events).emitted;
    assert(replay_events(begun(a), table, events).emitted.subrange(
        a.emitted.len() as int,
        replay_events(begun(a), table, events).emitted.len() as int,
    ) =~= added);
    assert(replay_events(begun(b), table, events).emitted.subrange(
        b.emitted.len() as int,
        replay_events(begun(b), table, events).emitted.len() as int,
    ) =~= added);
}

/// A move that reaches a position of the table emits a record whose trail
/// has that position's opening and no continuation, whatever continuation
/// was there before.
pub proof fn lemma_match_resets_continuation(
    w: WalkView,
    table: Map<Seq<char>, OpeningView>,
    san: Seq<char>,
)
    requires
        w.valid,
        w.ply < w.depth,
        fen_after(w.position, san) is Some,
        table.contains_key(fen_after(w.position, san)->0),
    ensures
        step(w, table, san).emitted.len() == w.emitted.len() + 1,
        step(w, table, san).emitted.last().fen == fen_after(w.position, san)->0,
        step(w, table, san).emitted.last().trail.opening == table[fen_after(w.position, san)->0],
        step(w, table, san).emitted.last().trail.continuation.len() == 0,
{
}

/// Once a game is invalid, no move emits a record, and the records emitted
/// before stay as they were.
pub proof fn lemma_invalid_game_emits_nothing(
    w: WalkView,
    table: Map<Seq<char>, OpeningView>,
    moves: Seq<Seq<char>>,
)
    requires
        !w.valid,
    ensures
        replay_moves(w, table, moves).emitted == w.emitted,
    decreases moves.len(),
{
    if moves.len() > 0 {
        lemma_invalid_game_emits_nothing(step(w, table, moves[0]), table, moves.drop_first());
    }
}

/// After an illegal move no further record is emitted for the game, and the
/// records emitted before it stay.
pub proof fn lemma_illegal_move_stops_game(
    w: WalkView,
    table: Map<Seq<char>, OpeningView>,
    san: Seq<char>,
    moves: Seq<Seq<char>>,
)
    requires
        w.valid,
        w.ply < w.depth,
        fen_after(w.position, san) is None,
    ensures
        replay_moves(step(w, table, san), table, moves).emitted == w.emitted,
{
    lemma_invalid_game_emits_nothing(step(w, table, san), table, moves);
}

/// After a disallowed header tag no further record is emitted for the game,
/// and the records emitted before it stay.
pub proof fn lemma_disallowed_tag_stops_game(
    w: WalkView,
    key: Seq<char>,
    value: Seq<char>,
    table: Map<Seq<char>, OpeningView>,
    moves: Seq<Seq<char>>,
)
    requires
        disallowed_tag(key, value),
    ensures
        replay_moves(after_header(w, key, value), table, moves).emitted == w.emitted,
{
    lemma_invalid_game_emits_nothing(after_header(w, key, value), table, moves);
}

} // verus!
