//! Queries of a store for one position.

use vstd::prelude::*;
use crate::chess::{canonical_fen, fen_canonical};
use crate::error::TrailError;
use crate::model::Trail;
use crate::store::{answers, trails_view, FenTrailStore};

verus! {

/// A query of a store for one position.
#[derive(Debug)]
pub struct Asker {
    /// The position, as FEN text.
    pub fen: String,
    /// The path of the store.
    pub store_path: String,
}

impl Asker {
    /// Every trail that the open store `store` holds for the position: its FEN
    /// text is read and written in canonical form, and the store is read under
    /// that key.
    pub fn ask_in(&self, store: &FenTrailStore) -> (r: Result<Vec<Trail>, TrailError>)
        ensures
            fen_canonical(self.fen@) is None <==> (r is Err && r->Err_0 is ParseFen),
            r is Err ==> (r->Err_0 is ParseFen || r->Err_0 is Store || r->Err_0 is Corrupted),
            r is Ok ==> answers(store.contents(), fen_canonical(self.fen@)->0, trails_view(r->Ok_0@)),
    {
        let fen = match canonical_fen(self.fen.as_str()) {
            Some(fen) => fen,
            None => {
                return Err(TrailError::ParseFen);
            },
        };
        store.read(fen.as_str())
    }

    /// Every trail stored for the position in the existing store at
    /// `store_path`: the FEN text is checked first, then the store is opened
    /// and asked as by `ask_in`.
    pub fn ask(&self) -> (r: Result<Vec<Trail>, TrailError>)
        ensures
            fen_canonical(self.fen@) is None <==> (r is Err && r->Err_0 is ParseFen),
            r is Err ==> (r->Err_0 is ParseFen || r->Err_0 is Store || r->Err_0 is Corrupted),
    {
        if canonical_fen(self.fen.as_str()).is_none() {
            return Err(TrailError::ParseFen);
        }
        let db = match FenTrailStore::open(self.store_path.as_str()) {
            Ok(db) => db,
            Err(e) => {
                return Err(e);
            },
        };
        self.ask_in(&db)
    }
}

} // verus!
