//! Openings, trails and the records that tie a trail to a position.

use vstd::prelude::*;

verus! {

/// The mathematical value of an [`Opening`].
pub ghost struct OpeningView {
    pub name: Seq<char>,
    pub moves: Seq<Seq<char>>,
}

/// The mathematical value of a [`Trail`].
pub ghost struct TrailView {
    pub opening: OpeningView,
    pub continuation: Seq<Seq<char>>,
}

/// The mathematical value of a [`FenTrail`].
pub ghost struct FenTrailView {
    pub fen: Seq<char>,
    pub trail: TrailView,
}

/// The texts held by a sequence of strings.
pub open spec fn texts(v: Seq<String>) -> Seq<Seq<char>> {
    v.map_values(|s: String| s@)
}

/// The trail used before a game's first classified position.
pub open spec fn empty_trail() -> TrailView {
    TrailView {
        opening: OpeningView { name: Seq::empty(), moves: Seq::empty() },
        continuation: Seq::empty(),
    }
}

/// A chess opening: a name and the moves, in standard algebraic notation,
/// that define it.
#[derive(Debug, Clone)]
pub struct Opening {
    pub name: String,
    pub moves: Vec<String>,
}

/// How a position was reached: an opening, then the moves played after it.
#[derive(Debug, Clone)]
pub struct Trail {
    pub opening: Opening,
    pub continuation: Vec<String>,
}

/// A trail together with the fingerprint (FEN) of the position it leads to.
#[derive(Debug, Clone)]
pub struct FenTrail {
    pub fen: String,
    pub trail: Trail,
}

impl View for Opening {
    type V = OpeningView;

    open spec fn view(&self) -> OpeningView {
        OpeningView { name: self.name@, moves: texts(self.moves@) }
    }
}

impl View for Trail {
    type V = TrailView;

    open spec fn view(&self) -> TrailView {
        TrailView { opening: self.opening@, continuation: texts(self.continuation@) }
    }
}

impl View for FenTrail {
    type V = FenTrailView;

    open spec fn view(&self) -> FenTrailView {
        FenTrailView { fen: self.fen@, trail: self.trail@ }
    }
}

/// A copy of a list of strings.
pub fn copy_texts(v: &Vec<String>) -> (r: Vec<String>)
    ensures
        texts(r@) == texts(v@),
{
    let mut r: Vec<String> = Vec::new();
    let mut i: usize = 0;
    while i < v.len()
        invariant
            i <= v.len(),
            r@.len() == i,
            forall|j: int| 0 <= j < i ==> r@[j]@ == v@[j]@,
        decreases v.len() - i,
    {
        let c = v[i].clone();
        r.push(c);
        i += 1;
    }
    assert(texts(r@) =~= texts(v@));
    r
}

impl Opening {
    /// A copy of this opening.
    pub fn snapshot(&self) -> (r: Opening)
        ensures
            r@ == self@,
    {
        Opening { name: self.name.clone(), moves: copy_texts(&self.moves) }
    }
}

impl Trail {
    /// The trail with an unnamed opening and no continuation.
    pub fn empty() -> (r: Trail)
        ensures
            r@ == empty_trail(),
    {
        let r = Trail {
            opening: Opening { name: String::new(), moves: Vec::new() },
            continuation: Vec::new(),
        };
        assert(r@.opening.moves =~= Seq::<Seq<char>>::empty());
        assert(r@.continuation =~= Seq::<Seq<char>>::empty());
        r
    }

    /// A copy of this trail.
    pub fn snapshot(&self) -> (r: Trail)
        ensures
            r@ == self@,
    {
        Trail { opening: self.opening.snapshot(), continuation: copy_texts(&self.continuation) }
    }
}

} // verus!
