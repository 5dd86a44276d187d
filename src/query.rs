//! The replies of the network surface.

use vstd::prelude::*;
use crate::asker::Asker;
use crate::chess::{canonical_fen, fen_canonical};
use crate::codec::{encode_trails, trails_text};
use crate::error::TrailError;
use crate::model::{Trail, TrailView};
use crate::store::{answers, FenTrailStore};

verus! {

/// The answer to a request over the network: a status code and a body, which
/// is JSON where the status is 200.
#[derive(Debug)]
pub struct Reply {
    pub status: u16,
    pub body: String,
}

/// The reply to the outcome of a query: the trails as a JSON array, or an
/// empty reply with the status that the error calls for.
pub fn reply_for(outcome: Result<Vec<Trail>, TrailError>) -> (r: Reply)
    ensures
        match outcome {
            Ok(ts) => r.status == 200 && r.body@ == trails_text(ts@.map_values(|t: Trail| t@)),
            Err(TrailError::ParseFen) => r.status == 400 && r.body@.len() == 0,
            Err(_) => r.status == 500 && r.body@.len() == 0,
        },
{
    match outcome {
        Ok(ts) => Reply { status: 200, body: encode_trails(&ts) },
        Err(TrailError::ParseFen) => Reply { status: 400, body: String::new() },
        Err(_) => Reply { status: 500, body: String::new() },
    }
}

/// Answers a request against the open store `store`: only `POST` is
/// allowed, and its body is the FEN text of the position to look up.
pub fn handle_in(is_post: bool, body: &str, store: &FenTrailStore) -> (r: Reply)
    ensures
        !is_post ==> r.status == 405 && r.body@.len() == 0,
        is_post && fen_canonical(body@) is None ==> r.status == 400 && r.body@.len() == 0,
        is_post && fen_canonical(body@) is Some ==> (r.status == 500 && r.body@.len() == 0) || (
        r.status == 200 && exists|ts: Seq<TrailView>|
            answers(store.contents(), fen_canonical(body@)->0, ts) && r.body@ == trails_text(ts)),
{
    if !is_post {
        return Reply { status: 405, body: String::new() };
    }
    let asker = Asker { fen: body.to_string(), store_path: String::new() };
    let outcome = asker.ask_in(store);
    let r = reply_for(outcome);
    proof {
        if outcome is Ok {
            let ts = outcome->Ok_0@.map_values(|t: Trail| t@);
            assert(answers(store.contents(), fen_canonical(body@)->0, ts) && r.body@ == trails_text(ts));
        }
    }
    r
}

/// Answers a request against the existing store at `store_path`, as
/// `handle_in` does; a store that cannot be opened gives status 500.
pub fn handle(is_post: bool, body: &str, store_path: &str) -> (r: Reply)
    ensures
        !is_post ==> r.status == 405 && r.body@.len() == 0,
        is_post && fen_canonical(body@) is None ==> r.status == 400 && r.body@.len() == 0,
        is_post && fen_canonical(body@) is Some ==> (r.status == 500 || r.status == 200),
{
    if !is_post {
        return Reply { status: 405, body: String::new() };
    }
    if canonical_fen(body).is_none() {
        return Reply { status: 400, body: String::new() };
    }
    match FenTrailStore::open(store_path) {
        Ok(store) => handle_in(is_post, body, &store),
        Err(_) => Reply { status: 500, body: String::new() },
    }
}

} // verus!
