//! The persistent store, a redb multimap from FEN to trail texts.

use vstd::prelude::*;
use crate::codec::{decode_trail, encode_trail, lemma_trail_round_trip, parse_trail, trail_text};
use crate::error::TrailError;
use crate::model::{FenTrail, FenTrailView, Trail, TrailView};

verus! {

/// The error type of redb's operations.
#[verifier::external_type_specification]
#[verifier::external_body]
pub struct ExRedbError(redb::Error);

/// A redb database file.
#[verifier::external_type_specification]
#[verifier::external_body]
pub struct ExDatabase(redb::Database);

/// A redb write transaction.
#[verifier::external_type_specification]
#[verifier::external_body]
pub struct ExWriteTransaction(redb::WriteTransaction);

/// The pairs of key and value (as text) that the multimap table `table` of a
/// database holds; a table that does not exist holds none.
pub uninterp spec fn stored(db: redb::Database, table: Seq<char>) -> Set<(Seq<char>, Seq<char>)>;

/// The pairs of key and value (as text) that the multimap table `table` holds
/// as a write transaction sees it.
pub uninterp spec fn pending(txn: redb::WriteTransaction, table: Seq<char>) -> Set<(Seq<char>, Seq<char>)>;

/// Whether the write transaction `txn` was begun on the database `db`.
pub uninterp spec fn begun_on(txn: redb::WriteTransaction, db: redb::Database) -> bool;

/// The name of the multimap table from FEN to trail texts.
pub const TABLE_NAME: &'static str = "fen-trail";

/// Relies on `redb::Database::create`: opens the file at `path`, or creates it.
#[verifier::external_body]
fn create_database(path: &str) -> (r: Result<redb::Database, redb::Error>) {
    redb::Database::create(path).map_err(redb::Error::from)
}

/// Relies on `redb::Database::open`: opens an existing file.
#[verifier::external_body]
fn open_database(path: &str) -> (r: Result<redb::Database, redb::Error>) {
    redb::Database::open(path).map_err(redb::Error::from)
}

/// Relies on `redb::Database::begin_write`: the transaction starts from what
/// the database holds. It waits while another write transaction of the
/// database is live; the exclusive borrow stands for there being none (the
/// store holds a write transaction only inside `FenTrailStore::write`, which
/// borrows the store exclusively). Starting a transaction changes no table.
#[verifier::external_body]
fn begin_write(db: &mut redb::Database) -> (r: Result<redb::WriteTransaction, redb::Error>)
    ensures
        forall|t: Seq<char>| #[trigger] stored(*final(db), t) == stored(*old(db), t),
        r is Ok ==> forall|t: Seq<char>| #[trigger] pending(r->Ok_0, t) == stored(*old(db), t),
        r is Ok ==> begun_on(r->Ok_0, *final(db)),
{
    db.begin_write().map_err(redb::Error::from)
}

/// Relies on `redb::WriteTransaction::open_multimap_table`: opens the table
/// `table`, and creates it empty where it does not exist yet.
#[verifier::external_body]
fn open_table(txn: &redb::WriteTransaction, table: &str) -> (r: Result<(), redb::Error>) {
    let definition = redb::MultimapTableDefinition::<&[u8], &[u8]>::new(table);
    txn.open_multimap_table(definition).map_err(redb::Error::from)?;
    Ok(())
}

/// Relies on `redb::WriteTransaction::open_multimap_table` and
/// `redb::MultimapTable::insert`: adds the value `value` under the key `key`
/// (both as UTF-8 bytes) in the table `table`; a pair already there stays once.
#[verifier::external_body]
fn insert_pair(txn: &mut redb::WriteTransaction, table: &str, key: &str, value: &str) -> (r: Result<
    (),
    redb::Error,
>)
    ensures
        r is Ok ==> pending(*final(txn), table@) == pending(*old(txn), table@).insert((key@, value@)),
        forall|db: redb::Database| #[trigger] begun_on(*final(txn), db) == begun_on(*old(txn), db),
{
    let definition = redb::MultimapTableDefinition::<&[u8], &[u8]>::new(table);
    let mut t = txn.open_multimap_table(definition).map_err(redb::Error::from)?;
    t.insert(key.as_bytes(), value.as_bytes()).map_err(redb::Error::from)?;
    Ok(())
}

/// Relies on `redb::WriteTransaction::commit`: on success the database that
/// the transaction was begun on holds what the transaction saw. A transaction
/// dropped before it is committed is aborted by redb, and the database keeps
/// what it held.
#[verifier::external_body]
fn commit(db: &mut redb::Database, txn: redb::WriteTransaction) -> (r: Result<(), redb::Error>)
    requires
        begun_on(txn, *old(db)),
    ensures
        r is Ok ==> forall|t: Seq<char>| #[trigger] stored(*final(db), t) == pending(txn, t),
{
    txn.commit().map_err(redb::Error::from)
}

/// Relies on `redb::Database::begin_read`, `redb::ReadTransaction::open_multimap_table`
/// and `redb::ReadOnlyMultimapTable::get`: the values stored under `key` in the
/// table `table`, each once, as text, or `None` where its bytes are not UTF-8.
/// `Ok(None)` where the table does not exist (redb's `TableDoesNotExist`).
#[verifier::external_body]
fn values_under(db: &redb::Database, table: &str, key: &str) -> (r: Result<Option<Vec<Option<String>>>, redb::Error>)
    ensures
        r matches Ok(None) ==> stored(*db, table@) == Set::<(Seq<char>, Seq<char>)>::empty(),
        r matches Ok(Some(vs)) ==> (forall|i: int|
            0 <= i < vs@.len() && (#[trigger] vs@[i]) is Some ==> stored(*db, table@).contains(
                (key@, vs@[i]->0@),
            )),
        r matches Ok(Some(vs)) ==> (forall|v: Seq<char>|
            #[trigger] stored(*db, table@).contains((key@, v)) ==> exists|i: int|
                0 <= i < vs@.len() && vs@[i] is Some && vs@[i]->0@ == v),
        r matches Ok(Some(vs)) ==> (forall|i: int, j: int|
            0 <= i < j < vs@.len() && (#[trigger] vs@[i]) is Some && (#[trigger] vs@[j]) is Some
                ==> vs@[i]->0@ != vs@[j]->0@),
{
    let definition = redb::MultimapTableDefinition::<&[u8], &[u8]>::new(table);
    let txn = db.begin_read().map_err(redb::Error::from)?;
    let t = match txn.open_multimap_table(definition) {
        Ok(t) => t,
        Err(redb::TableError::TableDoesNotExist(_)) => return Ok(None),
        Err(e) => return Err(e.into()),
    };
    let mut values = Vec::new();
    for v in t.get(key.as_bytes()).map_err(redb::Error::from)? {
        values.push(String::from_utf8(v.map_err(redb::Error::from)?.value().to_vec()).ok());
    }
    Ok(Some(values))
}

/// The trails that stored texts stand for, or `None` where one of them is
/// not the text of a trail.
pub open spec fn decoded(values: Seq<Option<String>>) -> Option<Seq<TrailView>>
    decreases values.len(),
{
    if values.len() == 0 {
        Some(Seq::empty())
    } else {
        match (decoded(values.drop_last()), values.last()) {
            (Some(ts), Some(v)) => match parse_trail(v@) {
                Some(t) => Some(ts.push(t)),
                None => None,
            },
            _ => None,
        }
    }
}

/// The views of a sequence of trails.
pub open spec fn trails_view(ts: Seq<Trail>) -> Seq<TrailView> {
    ts.map_values(|t: Trail| t@)
}

/// The key and value under which a record is stored: its FEN, and the text of
/// its trail.
pub open spec fn stored_pair(record: FenTrailView) -> (Seq<char>, Seq<char>) {
    (record.fen, trail_text(record.trail))
}

/// The pairs under which a sequence of records is stored.
pub open spec fn stored_pairs(records: Seq<FenTrail>) -> Set<(Seq<char>, Seq<char>)> {
    Set::new(|p: (Seq<char>, Seq<char>)| exists|i: int| 0 <= i < records.len() && p == stored_pair(#[trigger] records[i]@))
}

/// Whether `ts` are the trails that the pairs `pairs` hold under `key`: each
/// value under the key reads back as one of them, and each of them was read
/// from a value under the key.
pub open spec fn answers(pairs: Set<(Seq<char>, Seq<char>)>, key: Seq<char>, ts: Seq<TrailView>) -> bool {
    &&& forall|v: Seq<char>| #[trigger] pairs.contains((key, v)) ==> exists|i: int|
        0 <= i < ts.len() && parse_trail(v) == Some(ts[i])
    &&& forall|i: int| 0 <= i < ts.len() ==> exists|v: Seq<char>|
        #[trigger] pairs.contains((key, v)) && parse_trail(v) == Some(#[trigger] ts[i])
}

/// Reads stored texts back as trails; a text that is missing or not the text
/// of a trail makes the whole read fail as corrupted.
pub fn decode_all(values: &Vec<Option<String>>) -> (r: Result<Vec<Trail>, TrailError>)
    ensures
        match r {
            Ok(ts) => decoded(values@) == Some(trails_view(ts@)),
            Err(e) => e is Corrupted && decoded(values@) is None,
        },
{
    let mut out: Vec<Trail> = Vec::new();
    let mut i: usize = 0;
    while i < values.len()
        invariant
            i <= values.len(),
            decoded(values@.subrange(0, i as int)) == Some(trails_view(out@)),
        decreases values.len() - i,
    {
        let ghost upto = values@.subrange(0, i + 1);
        assert(upto.drop_last() =~= values@.subrange(0, i as int));
        let ghost before = trails_view(out@);
        match &values[i] {
            Some(text) => match decode_trail(text.as_str()) {
                Some(t) => {
                    out.push(t);
                    assert(trails_view(out@) =~= before.push(t@));
                },
                None => {
                    proof {
                        lemma_decoded_fails_on(values@, i as int);
                    }
                    return Err(TrailError::Corrupted);
                },
            },
            None => {
                proof {
                    lemma_decoded_fails_on(values@, i as int);
                }
                return Err(TrailError::Corrupted);
            },
        }
        i += 1;
    }
    assert(values@.subrange(0, values@.len() as int) =~= values@);
    Ok(out)
}

/// Where the first `i + 1` values do not decode, the whole sequence does not.
proof fn lemma_decoded_fails_on(values: Seq<Option<String>>, i: int)
    requires
        0 <= i < values.len(),
        decoded(values.subrange(0, i + 1)) is None,
    ensures
        decoded(values) is None,
    decreases values.len(),
{
    if values.len() > i + 1 {
        assert(values.drop_last().subrange(0, i + 1) =~= values.subrange(0, i + 1));
        lemma_decoded_fails_on(values.drop_last(), i);
    } else {
        assert(values.subrange(0, i + 1) =~= values);
    }
}

/// Values that decode to `ts` do so one for one.
proof fn lemma_decoded_each(values: Seq<Option<String>>, ts: Seq<TrailView>)
    requires
        decoded(values) == Some(ts),
    ensures
        values.len() == ts.len(),
        forall|i: int|
            0 <= i < values.len() ==> (#[trigger] values[i]) is Some && parse_trail(values[i]->0@)
                == Some(ts[i]),
    decreases values.len(),
{
    if values.len() > 0 {
        let prev = decoded(values.drop_last())->0;
        lemma_decoded_each(values.drop_last(), prev);
        assert(ts == prev.push(parse_trail(values.last()->0@)->0));
        assert forall|i: int| 0 <= i < values.len() implies (#[trigger] values[i]) is Some
            && parse_trail(values[i]->0@) == Some(ts[i]) by {
            if i < values.len() - 1 {
                assert(values.drop_last()[i] == values[i]);
            }
        }
    }
}

/// Texts that are the texts of trails `ts`, one for one, read back as exactly
/// those trails.
pub proof fn lemma_decoded_texts(values: Seq<Option<String>>, ts: Seq<TrailView>)
    requires
        values.len() == ts.len(),
        forall|i: int|
            0 <= i < values.len() ==> (#[trigger] values[i]) is Some && values[i]->0@
                == trail_text(ts[i]),
    ensures
        decoded(values) == Some(ts),
    decreases values.len(),
{
    if values.len() > 0 {
        let n = values.len() - 1;
        assert forall|i: int| 0 <= i < values.drop_last().len() implies (
        #[trigger] values.drop_last()[i]) is Some && values.drop_last()[i]->0@ == trail_text(
            ts.drop_last()[i],
        ) by {
            assert(values.drop_last()[i] == values[i]);
        }
        lemma_decoded_texts(values.drop_last(), ts.drop_last());
        assert(values.last() == values[n]);
        lemma_trail_round_trip(ts[n]);
        assert(ts.drop_last().push(ts[n]) =~= ts);
    } else {
        assert(ts =~= Seq::<TrailView>::empty());
    }
}

/// A trail stored under a key is among what a read of that key answers.
pub proof fn lemma_read_after_write(
    pairs: Set<(Seq<char>, Seq<char>)>,
    key: Seq<char>,
    t: TrailView,
    ts: Seq<TrailView>,
)
    requires
        pairs.contains((key, trail_text(t))),
        answers(pairs, key, ts),
    ensures
        exists|i: int| 0 <= i < ts.len() && ts[i] == t,
{
    lemma_trail_round_trip(t);
    let i = choose|i: int| 0 <= i < ts.len() && parse_trail(trail_text(t)) == Some(ts[i]);
    assert(ts[i] == t);
}

/// A key under which nothing was stored answers no trail.
pub proof fn lemma_unwritten_key_answers_nothing(
    pairs: Set<(Seq<char>, Seq<char>)>,
    key: Seq<char>,
    ts: Seq<TrailView>,
)
    requires
        forall|v: Seq<char>| !pairs.contains((key, v)),
        answers(pairs, key, ts),
    ensures
        ts.len() == 0,
{
    if ts.len() > 0 {
        let v = choose|v: Seq<char>| #[trigger] pairs.contains((key, v)) && parse_trail(v) == Some(ts[0]);
        assert(pairs.contains((key, v)));
    }
}

/// A persistent multimap from positions (as FEN) to the trails that reached them.
pub struct FenTrailStore {
    db: redb::Database,
}

impl FenTrailStore {
    /// The pairs of FEN and trail text that the store holds.
    pub closed spec fn contents(&self) -> Set<(Seq<char>, Seq<char>)> {
        stored(self.db, TABLE_NAME@)
    }

    /// Opens the store at `path`, creating it where there is none.
    pub fn conn(path: &str) -> (r: Result<FenTrailStore, TrailError>)
        ensures
            r is Err ==> r->Err_0 is Store,
    {
        match create_database(path) {
            Ok(db) => Ok(FenTrailStore { db }),
            Err(e) => Err(TrailError::Store(e)),
        }
    }

    /// Opens the existing store at `path`.
    pub fn open(path: &str) -> (r: Result<FenTrailStore, TrailError>)
        ensures
            r is Err ==> r->Err_0 is Store,
    {
        match open_database(path) {
            Ok(db) => Ok(FenTrailStore { db }),
            Err(e) => Err(TrailError::Store(e)),
        }
    }

    /// Adds every record, its trail as text under its FEN, in one transaction:
    /// the transaction is committed only once every record has been added,
    /// and is abandoned (so nothing of it is kept) at the first failure. After
    /// a `Commit` error it is not known whether the records were kept: redb
    /// marks the transaction done before its commit work and does not say what
    /// a failure in that work leaves, so nothing is promised of that case.
    pub fn write(&mut self, fentrails: &Vec<FenTrail>) -> (r: Result<(), TrailError>)
        ensures
            r is Ok ==> final(self).contents() == old(self).contents().union(stored_pairs(fentrails@)),
            r is Err ==> (r->Err_0 is Store || r->Err_0 is Commit),
            r is Err && r->Err_0 is Store ==> final(self).contents() == old(self).contents(),
    {
        let mut txn = match begin_write(&mut self.db) {
            Ok(txn) => txn,
            Err(e) => {
                return Err(TrailError::Store(e));
            },
        };
        match open_table(&txn, TABLE_NAME) {
            Ok(()) => {},
            Err(e) => {
                return Err(TrailError::Store(e));
            },
        }
        let ghost start = self.contents();
        assert(start == old(self).contents());
        let mut i: usize = 0;
        assert(stored_pairs(fentrails@.subrange(0, 0)) =~= Set::<(Seq<char>, Seq<char>)>::empty());
        assert(start.union(stored_pairs(fentrails@.subrange(0, 0))) =~= start);
        while i < fentrails.len()
            invariant
                i <= fentrails.len(),
                start == self.contents(),
                start == old(self).contents(),
                begun_on(txn, self.db),
                pending(txn, TABLE_NAME@) == start.union(stored_pairs(fentrails@.subrange(0, i as int))),
            decreases fentrails.len() - i,
        {
            let record = &fentrails[i];
            let text = encode_trail(&record.trail);
            match insert_pair(&mut txn, TABLE_NAME, record.fen.as_str(), text.as_str()) {
                Ok(()) => {},
                Err(e) => {
                    return Err(TrailError::Store(e));
                },
            }
            proof {
                let before = stored_pairs(fentrails@.subrange(0, i as int));
                let after = stored_pairs(fentrails@.subrange(0, i + 1));
                assert(after =~= before.insert(stored_pair(fentrails@[i as int]@))) by {
                    assert forall|p| after.contains(p) implies before.insert(
                        stored_pair(fentrails@[i as int]@),
                    ).contains(p) by {
                        let j = choose|j: int| 0 <= j < i + 1 && p == stored_pair(
                            #[trigger] fentrails@.subrange(0, i + 1)[j]@,
                        );
                        if j < i {
                            assert(fentrails@.subrange(0, i as int)[j] == fentrails@.subrange(0, i + 1)[j]);
                        }
                    }
                    assert forall|p| before.insert(stored_pair(fentrails@[i as int]@)).contains(p) implies after.contains(p) by {
                        if p == stored_pair(fentrails@[i as int]@) {
                            assert(fentrails@.subrange(0, i + 1)[i as int] == fentrails@[i as int]);
                        } else {
                            let j = choose|j: int| 0 <= j < i && p == stored_pair(
                                #[trigger] fentrails@.subrange(0, i as int)[j]@,
                            );
                            assert(fentrails@.subrange(0, i as int)[j] == fentrails@.subrange(0, i + 1)[j]);
                        }
                    }
                }
                assert(start.union(after) =~= start.union(before).insert(stored_pair(fentrails@[i as int]@)));
            }
            i += 1;
        }
        assert(fentrails@.subrange(0, fentrails@.len() as int) =~= fentrails@);
        match commit(&mut self.db, txn) {
            Ok(()) => Ok(()),
            Err(e) => Err(TrailError::Commit(e)),
        }
    }

    /// Every trail stored under the FEN `fen`; none where the key is absent,
    /// and none where nothing was ever written to the store.
    pub fn read(&self, fen: &str) -> (r: Result<Vec<Trail>, TrailError>)
        ensures
            r is Ok ==> answers(self.contents(), fen@, trails_view(r->Ok_0@)),
            r is Err ==> (r->Err_0 is Store || r->Err_0 is Corrupted),
    {
        match values_under(&self.db, TABLE_NAME, fen) {
            Ok(None) => {
                let r: Vec<Trail> = Vec::new();
                proof {
                    assert(trails_view(r@) =~= Seq::<TrailView>::empty());
                }
                Ok(r)
            },
            Ok(Some(values)) => {
                let r = decode_all(&values);
                proof {
                    if r is Ok {
                        let ts = trails_view(r->Ok_0@);
                        lemma_decoded_each(values@, ts);
                        assert forall|v: Seq<char>| #[trigger] self.contents().contains((fen@, v)) implies exists|i: int|
                            0 <= i < ts.len() && parse_trail(v) == Some(ts[i]) by {
                            let i = choose|i: int|
                                0 <= i < values@.len() && values@[i] is Some && values@[i]->0@ == v;
                            assert(values@[i] is Some);
                        }
                        assert forall|i: int| 0 <= i < ts.len() implies exists|v: Seq<char>|
                            #[trigger] self.contents().contains((fen@, v)) && parse_trail(v) == Some(#[trigger] ts[i]) by {
                            assert(values@[i] is Some);
                            assert(self.contents().contains((fen@, values@[i]->0@)));
                        }
                    }
                }
                r
            },
            Err(e) => Err(TrailError::Store(e)),
        }
    }
}

} // verus!
