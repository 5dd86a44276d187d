use libft::codec::{decode_trail, encode_trail, encode_trails};
use libft::eco::{replay, CatalogRow, Eco};
use libft::error::TrailError;
use libft::model::{FenTrail, Opening, Trail};
use libft::query::{handle, handle_in, reply_for};
use libft::store::{decode_all, FenTrailStore};
use libft::util::sp_seq_to_pgn;
use libft::walker::TrailBlazer;
use libft::Asker;

const START: &str = "rnbqkbnr/pppppppp/8/8/8/8/PPPPPPPP/RNBQKBNR w KQkq - 0 1";
const AFTER_E4: &str = "rnbqkbnr/pppppppp/8/8/4P3/8/PPPP1PPP/RNBQKBNR b KQkq - 0 1";
const AFTER_E4_E5_NF3: &str = "rnbqkbnr/pppp1ppp/8/4p3/4P3/5N2/PPPP1PPP/RNBQKB1R b KQkq - 1 2";

fn strings(v: &[&str]) -> Vec<String> {
    v.iter().map(|s| s.to_string()).collect()
}

fn row(name: &str, moves: &[&str]) -> CatalogRow {
    CatalogRow { name: name.to_string(), moves: strings(moves) }
}

fn first_move_rows() -> Vec<CatalogRow> {
    let firsts = [
        "a3", "a4", "b3", "b4", "c3", "c4", "d3", "d4", "e3", "e4", "f3", "f4", "g3", "g4", "h3",
        "h4", "Na3", "Nc3", "Nf3", "Nh3",
    ];
    firsts.iter().map(|m| row(&format!("Opening {m}"), &[m])).collect()
}

fn walk(eco: &Eco, depth: u8, headers: &[(&str, &str)], moves: &[&str]) -> Vec<FenTrail> {
    let mut tb = TrailBlazer::new(depth);
    tb.begin_game();
    for (k, v) in headers {
        tb.header(k, v);
    }
    for m in moves {
        tb.san(eco, m);
    }
    tb.end_game()
}

fn trail(name: &str, moves: &[&str], continuation: &[&str]) -> Trail {
    Trail {
        opening: Opening { name: name.to_string(), moves: strings(moves) },
        continuation: strings(continuation),
    }
}

#[test]
fn bundled_catalog_is_valid() {
    let eco = Eco::use_bundled().expect("bundled catalog");
    assert!(eco.get(AFTER_E4).is_some());
    assert_eq!(eco.get(AFTER_E4).unwrap().name, "King's Pawn Game");
}

#[test]
fn replay_plays_moves() {
    assert_eq!(replay(&strings(&[])), Some(START.to_string()));
    assert_eq!(replay(&strings(&["e4"])), Some(AFTER_E4.to_string()));
    assert_eq!(replay(&strings(&["e4", "e5", "Nf3"])), Some(AFTER_E4_E5_NF3.to_string()));
    assert_eq!(replay(&strings(&["e4", "e5", "Nf3", "Nc3"])), None);
    assert_eq!(replay(&strings(&["e5"])), None);
}

#[test]
fn catalog_missing_a_first_move_is_refused() {
    let mut rows = first_move_rows();
    rows.retain(|r| r.moves[0] != "Nh3");
    assert!(matches!(Eco::from_rows(&rows), Err(TrailError::InvalidCatalog)));
    assert!(Eco::from_rows(&first_move_rows()).is_ok());
    assert!(matches!(Eco::from_rows(&Vec::new()), Err(TrailError::InvalidCatalog)));
}

#[test]
fn catalog_with_blank_name_is_refused() {
    let mut rows = first_move_rows();
    rows.push(row(" \t", &["e4", "e5"]));
    assert!(matches!(Eco::from_rows(&rows), Err(TrailError::InvalidCatalog)));
}

#[test]
fn later_row_replaces_earlier() {
    let mut rows = first_move_rows();
    rows.push(row("   ", &["e4"]));
    rows.push(row("King's Pawn", &["e4"]));
    let eco = Eco::from_rows(&rows).expect("valid");
    assert_eq!(eco.get(AFTER_E4).unwrap().name, "King's Pawn");
    assert_eq!(eco.get(AFTER_E4).unwrap().moves, strings(&["e4"]));
}

#[test]
fn row_with_illegal_move_is_dropped() {
    let mut rows = first_move_rows();
    rows.push(row("Italian Game", &["e4", "e5", "Nf3", "Nc3"]));
    let eco = Eco::from_rows(&rows).expect("valid");
    assert!(eco.get(AFTER_E4_E5_NF3).is_none());
    assert!(eco.get(AFTER_E4).is_some());
}

#[test]
fn depth_limit_of_four_plies() {
    let eco = Eco::from_rows(&first_move_rows()).expect("valid");
    let records = walk(&eco, 4, &[], &["e4", "e5", "Nf3", "Nc6", "Bb5", "a6"]);
    assert_eq!(records.len(), 4);
    assert_eq!(records[0].fen, AFTER_E4);
    assert_eq!(records[0].trail.opening.name, "Opening e4");
    assert!(records[0].trail.continuation.is_empty());
    assert_eq!(records[2].fen, AFTER_E4_E5_NF3);
    assert_eq!(records[3].trail.opening.name, "Opening e4");
    assert_eq!(records[3].trail.continuation, strings(&["e5", "Nf3", "Nc6"]));
}

#[test]
fn depth_limit_with_cataloged_knight_move() {
    let eco = Eco::use_bundled().expect("bundled catalog");
    let records = walk(&eco, 4, &[], &["e4", "e5", "Nf3", "Nc6"]);
    assert_eq!(records.len(), 4);
    assert_eq!(records[2].trail.opening.name, "King's Knight Opening");
    assert!(records[2].trail.continuation.is_empty());
    assert_eq!(records[3].trail.continuation, strings(&["Nc6"]));
}

#[test]
fn cataloged_position_resets_continuation() {
    let mut rows = first_move_rows();
    rows.push(row("Italian Game", &["e4", "e5", "Nf3", "Nc6", "Bc4"]));
    let eco = Eco::from_rows(&rows).expect("valid");
    let records = walk(&eco, 24, &[], &["e4", "e5", "Nf3", "Nc6", "Bc4", "Bc5"]);
    assert_eq!(records.len(), 6);
    assert_eq!(records[3].trail.continuation, strings(&["e5", "Nf3", "Nc6"]));
    assert_eq!(records[4].trail.opening.name, "Italian Game");
    assert!(records[4].trail.continuation.is_empty());
    assert_eq!(records[5].trail.continuation, strings(&["Bc5"]));
}

#[test]
fn same_moves_give_same_records() {
    let eco = Eco::use_bundled().expect("bundled catalog");
    let moves = ["d4", "d5", "c4", "e6", "Nc3", "Nf6"];
    let a = walk(&eco, 24, &[], &moves);
    let mut tb = TrailBlazer::new(24);
    tb.begin_game();
    for m in ["e4", "c5", "Nf3"] {
        tb.san(&eco, m);
    }
    tb.end_game();
    tb.begin_game();
    for m in moves {
        tb.san(&eco, m);
    }
    let b = tb.end_game();
    assert_eq!(a.len(), 6);
    assert_eq!(a.len(), b.len());
    for (x, y) in a.iter().zip(b.iter()) {
        assert_eq!(x.fen, y.fen);
        assert_eq!(encode_trail(&x.trail), encode_trail(&y.trail));
    }
}

#[test]
fn illegal_move_stops_game() {
    let eco = Eco::use_bundled().expect("bundled catalog");
    let records = walk(&eco, 24, &[], &["e4", "e5", "Ke3", "Nf3", "Nc6"]);
    assert_eq!(records.len(), 2);
    assert_eq!(records[1].trail.continuation, strings(&["e5"]));
}

#[test]
fn disallowed_tags_stop_game() {
    let eco = Eco::use_bundled().expect("bundled catalog");
    assert!(walk(&eco, 24, &[("FEN", START)], &["e4", "e5"]).is_empty());
    assert!(walk(&eco, 24, &[("Variation", "Chess960")], &["e4", "e5"]).is_empty());
    assert_eq!(walk(&eco, 24, &[("Variation", "Standard")], &["e4", "e5"]).len(), 2);
    assert_eq!(walk(&eco, 24, &[("White", "Someone")], &["e4", "e5"]).len(), 2);
}

#[test]
fn records_before_a_late_tag_stand() {
    let eco = Eco::use_bundled().expect("bundled catalog");
    let mut tb = TrailBlazer::new(24);
    tb.begin_game();
    tb.san(&eco, "e4");
    tb.header("FEN", START);
    tb.san(&eco, "e5");
    let records = tb.end_game();
    assert_eq!(records.len(), 1);
    assert_eq!(records[0].fen, AFTER_E4);
}

#[test]
fn trail_text_is_json() {
    let t = trail("Sicilian Defense", &["e4", "c5"], &["Nf3"]);
    assert_eq!(
        encode_trail(&t),
        r#"{"opening":{"name":"Sicilian Defense","moves":["e4","c5"]},"continuation":["Nf3"]}"#
    );
    let empty = trail("", &[], &[]);
    assert_eq!(encode_trail(&empty), r#"{"opening":{"name":"","moves":[]},"continuation":[]}"#);
}

#[test]
fn trail_text_round_trip() {
    let t = trail("Bird's \"Opening\" \\ Dutch", &["f4"], &["d5", "Nf3", "Bxc3+"]);
    let text = encode_trail(&t);
    assert!(text.contains(r#"Bird's \"Opening\" \\ Dutch"#));
    let back = decode_trail(&text).expect("decodes");
    assert_eq!(back.opening.name, t.opening.name);
    assert_eq!(back.opening.moves, t.opening.moves);
    assert_eq!(back.continuation, t.continuation);
}

#[test]
fn malformed_trail_text_is_refused() {
    assert!(decode_trail("").is_none());
    assert!(decode_trail("{}").is_none());
    assert!(decode_trail(r#"{"opening":{"name":"x","moves":[]},"continuation":[]"#).is_none());
    assert!(decode_trail(r#"{"opening":{"name":"x","moves":[]},"continuation":[]}x"#).is_none());
    let values = vec![Some(encode_trail(&trail("A", &["e4"], &[]))), Some("nonsense".to_string())];
    assert!(matches!(decode_all(&values), Err(TrailError::Corrupted)));
    assert!(matches!(decode_all(&vec![None]), Err(TrailError::Corrupted)));
    assert_eq!(decode_all(&values[..1].to_vec()).expect("decodes").len(), 1);
}

#[test]
fn trail_list_is_json_array() {
    assert_eq!(encode_trails(&Vec::new()), "[]");
    let a = trail("A", &["e4"], &[]);
    let b = trail("B", &["d4"], &["d5"]);
    assert_eq!(
        encode_trails(&vec![a.clone(), b.clone()]),
        format!("[{},{}]", encode_trail(&a), encode_trail(&b))
    );
}

#[test]
fn pgn_numbering() {
    assert!(sp_seq_to_pgn(&Vec::new(), 0).is_empty());
    assert_eq!(
        sp_seq_to_pgn(&strings(&["Nf3", "Nf6", "g3", "d5", "Bg2"]), 0),
        "1. Nf3 Nf6 2. g3 d5 3. Bg2"
    );
    assert_eq!(
        sp_seq_to_pgn(&strings(&["Bb5", "a6", "Bxc6", "dxc6", "O-O"]), 4),
        "3. Bb5 a6 4. Bxc6 dxc6 5. O-O"
    );
    assert_eq!(
        sp_seq_to_pgn(&strings(&["Bb4", "Qc2", "O-O", "a3", "Bxc3+"]), 5),
        "3... Bb4 4. Qc2 O-O 5. a3 Bxc3+"
    );
    assert_eq!(sp_seq_to_pgn(&strings(&["e4"]), 18), "10. e4");
}

#[test]
fn store_round_trip_and_absent_key() {
    let path = "/tmp/libft_store_round_trip.redb";
    let mut store = FenTrailStore::conn(path).expect("store");
    let t = trail("King's \"Pawn\"", &["e4"], &["e5", "Nf3"]);
    let records = vec![FenTrail { fen: AFTER_E4_E5_NF3.to_string(), trail: t.clone() }];
    store.write(&records).expect("write");
    let back = store.read(AFTER_E4_E5_NF3).expect("read");
    assert_eq!(back.len(), 1);
    assert_eq!(encode_trail(&back[0]), encode_trail(&t));
    assert!(store.read(START).expect("read").is_empty());
}

#[test]
fn ask_on_unwritten_position_is_empty() {
    let path = "/tmp/libft_ask_unwritten.redb";
    {
        let mut store = FenTrailStore::conn(path).expect("store");
        let records = vec![FenTrail { fen: AFTER_E4.to_string(), trail: trail("A", &["e4"], &[]) }];
        store.write(&records).expect("write");
    }
    let asker = Asker { fen: START.to_string(), store_path: path.to_string() };
    assert!(asker.ask().expect("ask").is_empty());
    let asker = Asker { fen: AFTER_E4.to_string(), store_path: path.to_string() };
    assert_eq!(asker.ask().expect("ask").len(), 1);
}

#[test]
fn ask_with_bad_fen_or_missing_store() {
    let asker = Asker { fen: "not a fen".to_string(), store_path: "/tmp/none".to_string() };
    assert!(matches!(asker.ask(), Err(TrailError::ParseFen)));
    let asker =
        Asker { fen: START.to_string(), store_path: "/tmp/libft_no_such_dir/x.redb".to_string() };
    assert!(matches!(asker.ask(), Err(TrailError::Store(_))));
}

#[test]
fn network_replies() {
    let r = handle(true, "not a fen", "/tmp/libft_no_such_dir/x.redb");
    assert_eq!(r.status, 400);
    assert!(r.body.is_empty());
    let r = handle(false, START, "/tmp/libft_no_such_dir/x.redb");
    assert_eq!(r.status, 405);
    assert!(r.body.is_empty());
    let r = handle(true, START, "/tmp/libft_no_such_dir/x.redb");
    assert_eq!(r.status, 500);
    assert!(r.body.is_empty());
    let r = reply_for(Ok(vec![trail("A", &["e4"], &[])]));
    assert_eq!(r.status, 200);
    assert_eq!(r.body, r#"[{"opening":{"name":"A","moves":["e4"]},"continuation":[]}]"#);
    assert_eq!(reply_for(Err(TrailError::Corrupted)).status, 500);
}

#[test]
fn ask_reads_fen_in_canonical_form() {
    let path = "/tmp/libft_ask_canonical.redb";
    {
        let mut store = FenTrailStore::conn(path).expect("store");
        let records = vec![FenTrail { fen: AFTER_E4.to_string(), trail: trail("A", &["e4"], &[]) }];
        store.write(&records).expect("write");
    }
    let loose = "rnbqkbnr/pppppppp/8/8/4P3/8/PPPP1PPP/RNBQKBNR_b_KQkq_-_0_1";
    let asker = Asker { fen: loose.to_string(), store_path: path.to_string() };
    assert_eq!(asker.ask().expect("ask").len(), 1);
}

#[test]
fn store_never_written_answers_empty() {
    let path = "/tmp/libft_never_written.redb";
    let store = FenTrailStore::conn(path).expect("store");
    assert!(store.read(START).expect("read").is_empty());
}

#[test]
fn control_characters_are_escaped_as_json() {
    let t = trail("a\nb\tc\u{1}d\u{8}e\u{c}f\rg\u{1f}", &[], &[]);
    let text = encode_trail(&t);
    assert_eq!(
        text,
        r#"{"opening":{"name":"a\nb\tc\u0001d\be\ff\rg\u001f","moves":[]},"continuation":[]}"#
    );
    let back = decode_trail(&text).expect("decodes");
    assert_eq!(back.opening.name, t.opening.name);
}

#[test]
fn escaped_slash_is_read() {
    let text = r#"{"opening":{"name":"a\/b","moves":["e4"]},"continuation":[]}"#;
    assert_eq!(decode_trail(text).expect("decodes").opening.name, "a/b");
    assert!(decode_trail(r#"{"opening":{"name":"\q","moves":[]},"continuation":[]}"#).is_none());
}

#[test]
fn ask_and_handle_in_open_store() {
    let path = "/tmp/libft_open_store.redb";
    let mut store = FenTrailStore::conn(path).expect("store");
    let t = trail("A", &["e4"], &[]);
    store.write(&vec![FenTrail { fen: AFTER_E4.to_string(), trail: t.clone() }]).expect("write");
    let asker = Asker { fen: AFTER_E4.to_string(), store_path: String::new() };
    assert_eq!(asker.ask_in(&store).expect("ask").len(), 1);
    let r = handle_in(true, AFTER_E4, &store);
    assert_eq!(r.status, 200);
    assert_eq!(r.body, format!("[{}]", encode_trail(&t)));
    assert_eq!(handle_in(true, "nonsense", &store).status, 400);
    assert_eq!(handle_in(false, AFTER_E4, &store).status, 405);
}
