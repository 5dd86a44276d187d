//! The opening table: built from a catalog, and checked before use.

use vstd::prelude::*;
use vstd::hash_map::StringHashMap;
use vstd::string::{StrSliceExecFns, StringExecFns};
use crate::chess::{fen_after, fen_successors, opt_text, play_san, start_fen, start_position, successor_fens};
use crate::error::TrailError;
use crate::model::{copy_texts, texts, Opening, OpeningView};

verus! {

/// One row of an opening catalog: a name and the mainline of its movetext.
#[derive(Debug, Clone)]
pub struct CatalogRow {
    pub name: String,
    pub moves: Vec<String>,
}

impl View for CatalogRow {
    type V = OpeningView;

    open spec fn view(&self) -> OpeningView {
        OpeningView { name: self.name@, moves: texts(self.moves@) }
    }
}

/// The views of a sequence of catalog rows.
pub open spec fn rows_view(rows: Seq<CatalogRow>) -> Seq<OpeningView> {
    rows.map_values(|r: CatalogRow| r@)
}

/// The position reached by playing `moves` one after the other from
/// `position`, or `None` where one of them cannot be played.
pub open spec fn replay_from(position: Seq<char>, moves: Seq<Seq<char>>) -> Option<Seq<char>>
    decreases moves.len(),
{
    if moves.len() == 0 {
        Some(position)
    } else {
        match fen_after(position, moves[0]) {
            Some(next) => replay_from(next, moves.drop_first()),
            None => None,
        }
    }
}

/// The table that a catalog defines: each row whose line replays from the
/// starting position maps the position reached to the row's opening; a later
/// row replaces an earlier one that reaches the same position.
pub open spec fn table_of(rows: Seq<OpeningView>) -> Map<Seq<char>, OpeningView>
    decreases rows.len(),
{
    if rows.len() == 0 {
        Map::empty()
    } else {
        let earlier = table_of(rows.drop_last());
        match replay_from(start_fen(), rows.last().moves) {
            Some(fen) => earlier.insert(fen, rows.last()),
            None => earlier,
        }
    }
}

/// Whether `c` is white space in the sense of Unicode's `White_Space` property.
pub open spec fn is_white(c: char) -> bool {
    let u = c as u32;
    (0x9 <= u <= 0xd) || u == 0x20 || u == 0x85 || u == 0xa0 || u == 0x1680 || (0x2000 <= u
        <= 0x200a) || u == 0x2028 || u == 0x2029 || u == 0x202f || u == 0x205f || u == 0x3000
}

/// Whether a text holds nothing but white space.
pub open spec fn is_blank(s: Seq<char>) -> bool {
    forall|i: int| 0 <= i < s.len() ==> is_white(#[trigger] s[i])
}

/// Every legal first move from the starting position leads to a position of the table.
pub open spec fn covers_first_moves(table: Map<Seq<char>, OpeningView>) -> bool {
    forall|i: int|
        0 <= i < fen_successors(start_fen()).len() ==> table.contains_key(
            #[trigger] fen_successors(start_fen())[i],
        )
}

/// Every opening of the table has a name that is not blank.
pub open spec fn names_given(table: Map<Seq<char>, OpeningView>) -> bool {
    forall|k: Seq<char>| #[trigger] table.contains_key(k) ==> !is_blank(table[k].name)
}

/// A table that the walker may use.
pub open spec fn valid_table(table: Map<Seq<char>, OpeningView>) -> bool {
    covers_first_moves(table) && names_given(table)
}

/// The catalog that comes with the library: an opening for each legal first
/// move, and a few well-known lines.
pub open spec fn bundled_catalog() -> Seq<OpeningView> {
    seq![
        OpeningView { name: "Polish Opening"@, moves: seq!["b4"@] },
        OpeningView { name: "Nimzo-Larsen Attack"@, moves: seq!["b3"@] },
        OpeningView { name: "English Opening"@, moves: seq!["c4"@] },
        OpeningView { name: "Saragossa Opening"@, moves: seq!["c3"@] },
        OpeningView { name: "Queen's Pawn Game"@, moves: seq!["d4"@] },
        OpeningView { name: "Mieses Opening"@, moves: seq!["d3"@] },
        OpeningView { name: "King's Pawn Game"@, moves: seq!["e4"@] },
        OpeningView { name: "Van't Kruijs Opening"@, moves: seq!["e3"@] },
        OpeningView { name: "Bird Opening"@, moves: seq!["f4"@] },
        OpeningView { name: "Barnes Opening"@, moves: seq!["f3"@] },
        OpeningView { name: "Grob Opening"@, moves: seq!["g4"@] },
        OpeningView { name: "Hungarian Opening"@, moves: seq!["g3"@] },
        OpeningView { name: "Kadas Opening"@, moves: seq!["h4"@] },
        OpeningView { name: "Clemenz Opening"@, moves: seq!["h3"@] },
        OpeningView { name: "Ware Opening"@, moves: seq!["a4"@] },
        OpeningView { name: "Anderssen's Opening"@, moves: seq!["a3"@] },
        OpeningView { name: "Zukertort Opening"@, moves: seq!["Nf3"@] },
        OpeningView { name: "Amar Opening"@, moves: seq!["Nh3"@] },
        OpeningView { name: "Van Geet Opening"@, moves: seq!["Nc3"@] },
        OpeningView { name: "Durkin Opening"@, moves: seq!["Na3"@] },
        OpeningView { name: "Sicilian Defense"@, moves: seq!["e4"@, "c5"@] },
        OpeningView { name: "French Defense"@, moves: seq!["e4"@, "e6"@] },
        OpeningView { name: "Caro-Kann Defense"@, moves: seq!["e4"@, "c6"@] },
        OpeningView { name: "King's Knight Opening"@, moves: seq!["e4"@, "e5"@, "Nf3"@] },
        OpeningView { name: "Italian Game"@, moves: seq!["e4"@, "e5"@, "Nf3"@, "Nc6"@, "Bc4"@] },
        OpeningView { name: "Ruy Lopez"@, moves: seq!["e4"@, "e5"@, "Nf3"@, "Nc6"@, "Bb5"@] },
        OpeningView { name: "Queen's Gambit"@, moves: seq!["d4"@, "d5"@, "c4"@] },
        OpeningView { name: "Indian Defense"@, moves: seq!["d4"@, "Nf6"@] },
    ]
}

/// A table from positions (as FEN) to the openings they stand for.
pub struct Eco {
    map: StringHashMap<Opening>,
}

impl View for Eco {
    type V = Map<Seq<char>, OpeningView>;

    closed spec fn view(&self) -> Map<Seq<char>, OpeningView> {
        self.map@.map_values(|o: Opening| o@)
    }
}

/// Whether `c` is white space.
pub fn char_is_white(c: char) -> (r: bool)
    ensures
        r == is_white(c),
{
    let u = c as u32;
    (0x9 <= u && u <= 0xd) || u == 0x20 || u == 0x85 || u == 0xa0 || u == 0x1680 || (0x2000 <= u
        && u <= 0x200a) || u == 0x2028 || u == 0x2029 || u == 0x202f || u == 0x205f || u == 0x3000
}

/// Whether a text holds nothing but white space.
pub fn text_is_blank(s: &str) -> (r: bool)
    ensures
        r == is_blank(s@),
{
    let n = s.unicode_len();
    let mut i: usize = 0;
    while i < n
        invariant
            n == s@.len(),
            i <= n,
            forall|j: int| 0 <= j < i ==> is_white(#[trigger] s@[j]),
        decreases n - i,
    {
        if !char_is_white(s.get_char(i)) {
            return false;
        }
        i += 1;
    }
    true
}

/// The position reached by playing `moves` from the starting position.
pub fn replay(moves: &Vec<String>) -> (r: Option<String>)
    ensures
        opt_text(r) == replay_from(start_fen(), texts(moves@)),
{
    let mut pos = start_position();
    let mut i: usize = 0;
    assert(texts(moves@).subrange(0, moves@.len() as int) =~= texts(moves@));
    while i < moves.len()
        invariant
            i <= moves.len(),
            replay_from(start_fen(), texts(moves@)) == replay_from(
                pos@,
                texts(moves@).subrange(i as int, moves@.len() as int),
            ),
        decreases moves.len() - i,
    {
        let ghost rest = texts(moves@).subrange(i as int, moves@.len() as int);
        assert(rest.drop_first() =~= texts(moves@).subrange(i + 1, moves@.len() as int));
        assert(rest[0] == moves@[i as int]@);
        match play_san(pos.as_str(), moves[i].as_str()) {
            Some(next) => {
                pos = next;
            },
            None => {
                return None;
            },
        }
        i += 1;
    }
    assert(texts(moves@).subrange(moves@.len() as int, moves@.len() as int).len() == 0);
    Some(pos)
}

/// A catalog row whose line has 1 move.
fn row1(name: &str, m0: &str) -> (r: CatalogRow)
    ensures
        r@ == (OpeningView { name: name@, moves: seq![m0@] }),
{
    let mut moves: Vec<String> = Vec::new();
    moves.push(String::from_str(m0));
    assert(texts(moves@) =~= seq![m0@]);
    CatalogRow { name: String::from_str(name), moves }
}

/// A catalog row whose line has 2 moves.
fn row2(name: &str, m0: &str, m1: &str) -> (r: CatalogRow)
    ensures
        r@ == (OpeningView { name: name@, moves: seq![m0@, m1@] }),
{
    let mut moves: Vec<String> = Vec::new();
    moves.push(String::from_str(m0));
    moves.push(String::from_str(m1));
    assert(texts(moves@) =~= seq![m0@, m1@]);
    CatalogRow { name: String::from_str(name), moves }
}

/// A catalog row whose line has 3 moves.
fn row3(name: &str, m0: &str, m1: &str, m2: &str) -> (r: CatalogRow)
    ensures
        r@ == (OpeningView { name: name@, moves: seq![m0@, m1@, m2@] }),
{
    let mut moves: Vec<String> = Vec::new();
    moves.push(String::from_str(m0));
    moves.push(String::from_str(m1));
    moves.push(String::from_str(m2));
    assert(texts(moves@) =~= seq![m0@, m1@, m2@]);
    CatalogRow { name: String::from_str(name), moves }
}

/// A catalog row whose line has 5 moves.
fn row5(name: &str, m0: &str, m1: &str, m2: &str, m3: &str, m4: &str) -> (r: CatalogRow)
    ensures
        r@ == (OpeningView { name: name@, moves: seq![m0@, m1@, m2@, m3@, m4@] }),
{
    let mut moves: Vec<String> = Vec::new();
    moves.push(String::from_str(m0));
    moves.push(String::from_str(m1));
    moves.push(String::from_str(m2));
    moves.push(String::from_str(m3));
    moves.push(String::from_str(m4));
    assert(texts(moves@) =~= seq![m0@, m1@, m2@, m3@, m4@]);
    CatalogRow { name: String::from_str(name), moves }
}

impl Eco {
    /// The opening that the table gives to the position `fen`, if any.
    pub fn get(&self, fen: &str) -> (r: Option<&Opening>)
        ensures
            match r {
                Some(o) => self@.contains_key(fen@) && o@ == self@[fen@],
                None => !self@.contains_key(fen@),
            },
    {
        self.map.get(fen)
    }

    /// Whether the table covers every first move and names every opening;
    /// `keys` lists the table's positions.
    fn is_valid(&self, keys: &Vec<String>) -> (r: bool)
        requires
            forall|i: int| 0 <= i < keys@.len() ==> self@.contains_key(#[trigger] keys@[i]@),
            forall|k: Seq<char>|
                #[trigger] self@.contains_key(k) ==> exists|i: int|
                    0 <= i < keys@.len() && #[trigger] keys@[i]@ == k,
        ensures
            r == valid_table(self@),
    {
        let start = start_position();
        let firsts = successor_fens(start.as_str());
        let mut i: usize = 0;
        while i < firsts.len()
            invariant
                i <= firsts.len(),
                start@ == start_fen(),
                texts(firsts@) == fen_successors(start_fen()),
                forall|j: int| 0 <= j < i ==> self@.contains_key(#[trigger] firsts@[j]@),
            decreases firsts.len() - i,
        {
            if !self.map.contains_key(firsts[i].as_str()) {
                assert(fen_successors(start_fen())[i as int] == firsts@[i as int]@);
                return false;
            }
            i += 1;
        }
        assert(covers_first_moves(self@)) by {
            assert forall|j: int| 0 <= j < fen_successors(start_fen()).len() implies self@.contains_key(
                #[trigger] fen_successors(start_fen())[j],
            ) by {
                assert(fen_successors(start_fen())[j] == firsts@[j]@);
            }
        }
        let mut i: usize = 0;
        while i < keys.len()
            invariant
                i <= keys.len(),
                covers_first_moves(self@),
                forall|j: int| 0 <= j < keys@.len() ==> self@.contains_key(#[trigger] keys@[j]@),
                forall|j: int| 0 <= j < i ==> !is_blank(#[trigger] self@[keys@[j]@].name),
            decreases keys.len() - i,
        {
            match self.map.get(keys[i].as_str()) {
                Some(o) => {
                    if text_is_blank(o.name.as_str()) {
                        assert(keys@[i as int]@ == keys[i as int]@);
                        return false;
                    }
                },
                None => {},
            }
            i += 1;
        }
        assert(names_given(self@)) by {
            assert forall|k: Seq<char>| #[trigger] self@.contains_key(k) implies !is_blank(self@[k].name) by {
                let j = choose|j: int| 0 <= j < keys@.len() && #[trigger] keys@[j]@ == k;
                assert(!is_blank(self@[keys@[j]@].name));
            }
        }
        true
    }

    /// Builds the table of a catalog and checks it: every legal first move
    /// must lead to a position of the table, and every opening must be named.
    pub fn from_rows(rows: &Vec<CatalogRow>) -> (r: Result<Eco, TrailError>)
        ensures
            match r {
                Ok(eco) => eco@ == table_of(rows_view(rows@)) && valid_table(eco@),
                Err(e) => e is InvalidCatalog && !valid_table(table_of(rows_view(rows@))),
            },
    {
        let mut eco = Eco { map: StringHashMap::new() };
        let mut keys: Vec<String> = Vec::new();
        let mut i: usize = 0;
        assert(eco@ =~= Map::<Seq<char>, OpeningView>::empty());
        while i < rows.len()
            invariant
                i <= rows.len(),
                eco@ == table_of(rows_view(rows@).subrange(0, i as int)),
                forall|j: int| 0 <= j < keys@.len() ==> eco@.contains_key(#[trigger] keys@[j]@),
                forall|k: Seq<char>|
                    #[trigger] eco@.contains_key(k) ==> exists|j: int|
                        0 <= j < keys@.len() && #[trigger] keys@[j]@ == k,
            decreases rows.len() - i,
        {
            let ghost before = rows_view(rows@).subrange(0, i as int);
            let ghost upto = rows_view(rows@).subrange(0, i + 1);
            assert(upto.drop_last() =~= before);
            assert(upto.last() == rows@[i as int]@);
            let row = &rows[i];
            match replay(&row.moves) {
                Some(fen) => {
                    let opening = Opening { name: row.name.clone(), moves: copy_texts(&row.moves) };
                    let ghost old_keys = keys@;
                    let ghost old_eco = eco@;
                    keys.push(fen.clone());
                    eco.map.insert(fen, opening);
                    assert(eco@ =~= old_eco.insert(fen@, opening@));
                    assert forall|k: Seq<char>| #[trigger] eco@.contains_key(k) implies exists|j: int|
                        0 <= j < keys@.len() && #[trigger] keys@[j]@ == k by {
                        if k == fen@ {
                            assert(keys@[keys@.len() - 1]@ == k);
                        } else {
                            let j = choose|j: int| 0 <= j < old_keys.len() && #[trigger] old_keys[j]@ == k;
                            assert(keys@[j]@ == k);
                        }
                    }
                },
                None => {},
            }
            i += 1;
        }
        assert(rows_view(rows@).subrange(0, rows@.len() as int) =~= rows_view(rows@));
        if eco.is_valid(&keys) {
            Ok(eco)
        } else {
            Err(TrailError::InvalidCatalog)
        }
    }

    /// The table of the small catalog that comes with the library: an opening
    /// for each legal first move and a few well-known lines, not a full
    /// opening classification. A full catalog is loaded with `from_rows`.
    pub fn use_bundled() -> (r: Result<Eco, TrailError>)
        ensures
            match r {
                Ok(eco) => eco@ == table_of(bundled_catalog()) && valid_table(eco@),
                Err(e) => e is InvalidCatalog && !valid_table(table_of(bundled_catalog())),
            },
    {
        let mut rows: Vec<CatalogRow> = Vec::new();
        rows.push(row1("Polish Opening", "b4"));
        rows.push(row1("Nimzo-Larsen Attack", "b3"));
        rows.push(row1("English Opening", "c4"));
        rows.push(row1("Saragossa Opening", "c3"));
        rows.push(row1("Queen's Pawn Game", "d4"));
        rows.push(row1("Mieses Opening", "d3"));
        rows.push(row1("King's Pawn Game", "e4"));
        rows.push(row1("Van't Kruijs Opening", "e3"));
        rows.push(row1("Bird Opening", "f4"));
        rows.push(row1("Barnes Opening", "f3"));
        rows.push(row1("Grob Opening", "g4"));
        rows.push(row1("Hungarian Opening", "g3"));
        rows.push(row1("Kadas Opening", "h4"));
        rows.push(row1("Clemenz Opening", "h3"));
        rows.push(row1("Ware Opening", "a4"));
        rows.push(row1("Anderssen's Opening", "a3"));
        rows.push(row1("Zukertort Opening", "Nf3"));
        rows.push(row1("Amar Opening", "Nh3"));
        rows.push(row1("Van Geet Opening", "Nc3"));
        rows.push(row1("Durkin Opening", "Na3"));
        rows.push(row2("Sicilian Defense", "e4", "c5"));
        rows.push(row2("French Defense", "e4", "e6"));
        rows.push(row2("Caro-Kann Defense", "e4", "c6"));
        rows.push(row3("King's Knight Opening", "e4", "e5", "Nf3"));
        rows.push(row5("Italian Game", "e4", "e5", "Nf3", "Nc6", "Bc4"));
        rows.push(row5("Ruy Lopez", "e4", "e5", "Nf3", "Nc6", "Bb5"));
        rows.push(row3("Queen's Gambit", "d4", "d5", "c4"));
        rows.push(row2("Indian Defense", "d4", "Nf6"));
        assert(rows_view(rows@) =~= bundled_catalog());
        Eco::from_rows(&rows)
    }
}

/// A table that holds an opening with a blank name fails validation.
pub proof fn lemma_blank_name_invalidates(table: Map<Seq<char>, OpeningView>, fen: Seq<char>)
    requires
        table.contains_key(fen),
        is_blank(table[fen].name),
    ensures
        !valid_table(table),
{
}

/// In a valid table, every legal first move from the starting position leads
/// to a position of the table.
pub proof fn lemma_valid_table_covers_first_moves(table: Map<Seq<char>, OpeningView>, i: int)
    requires
        valid_table(table),
        0 <= i < fen_successors(start_fen()).len(),
    ensures
        table.contains_key(fen_successors(start_fen())[i]),
{
}

} // verus!
