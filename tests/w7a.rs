use w7a::w7a::{
    collect_comment, color, dur, ingest_header, ingest_moves, is_move, parse_move, parse_piece,
    scan_header_line, Color, GameComment, Header, Move, Moves, Piece, Position, Scanner, W7A,
};

fn lines(ls: &[&str]) -> Vec<String> {
    ls.iter().map(|l| l.to_string()).collect()
}

fn load_test_header() -> Vec<String> {
    lines(&[
        "[Black \"Habu Yoshiharu, Oi\"]",
        "[White \"Namekata Hisashi, Challenger\"]",
        "[Event \"54th Oi-sen, Game 1\"]",
        "[Date \"July 10th and 11th 2013\"]",
        "",
        "The 54th Oi title match opened in Sapporo.",
        "1.P7g-7f     00:00:00  00:00:00",
    ])
}

fn load_test_comment() -> Vec<String> {
    lines(&[
        "The 54th Oi title match opened in Sapporo.",
        "",
        "Habu defends the title against Namekata.",
    ])
}

fn load_game_comment() -> Vec<String> {
    lines(&[
        "[Black \"Habu Yoshiharu, Oi\"]",
        "[White \"Namekata Hisashi, Challenger\"]",
        "[Event \"54th Oi-sen, Game 1\"]",
        "[Date \"July 10th and 11th 2013\"]",
        "",
        "The 54th Oi title match opened in Sapporo.",
        "Habu defends the title against Namekata.",
    ])
}

fn mk_test_move(n: usize, seggs: u32) -> Move {
    Move {
        n,
        piece: Piece::PAWN,
        from: None,
        to: Position { x: 7, y: 'd' },
        promote: false,
        capture: false,
        drop: false,
        total_time: seggs,
        comment: None,
    }
}

#[test]
fn test_scan_header_line() {
    let line = &"[Black \"Habu Yoshiharu, Oi\"]".to_string();
    let scanned = scan_header_line(line);
    assert!(scanned.is_ok());
    let _ = scanned.and_then(|(k, v)| {
        assert_eq!("Black", &k);
        assert!(v.starts_with("Habu"));
        Ok("foo")
    });
}

#[test]
fn test_scan_header() {
    let file = load_test_header();
    let scanned = ingest_header(&file);
    assert!(scanned.is_ok());
    let (header, rest) = scanned.unwrap();
    assert!(!rest.is_empty());
    assert_eq!(4, header.header.len());
}

#[test]
fn test_create_header_from_scan() {
    let file = load_test_header();
    let (header, rest) = Header::ingest(&file).unwrap();
    assert!(!rest.is_empty());
    assert_eq!(4, header.header.len());
}

#[test]
fn test_read_just_a_comment() {
    let file = load_test_comment();
    let (comment, rest) = collect_comment(&file).unwrap();
    assert!(comment.is_some());
    assert!(!comment.unwrap().is_empty());
    assert!(rest.is_empty());
}

#[test]
fn test_ingest_game_comment() {
    let file = load_test_comment();
    let (game_comment, rest) = GameComment::ingest(&file).unwrap();
    assert!(game_comment.comment.is_some());
    assert!(!game_comment.comment.unwrap().is_empty());
    assert!(rest.is_empty());
}

#[test]
fn test_ingest_game_comment_no_moves() {
    let file = load_game_comment();
    let (game, rest) = W7A::ingest(&file).unwrap();
    assert!(game.game_comment.comment.is_some());
    assert!(!game.game_comment.comment.unwrap().is_empty());
    assert!(rest.is_empty());
}

#[test]
fn test_move_line() {
    assert!(is_move("75.G3bx3c    07:40:00  07:18:00"));
}

#[test]
fn fail_move_line() {
    let sentence1 = "This is the move that Namekata had put his hopes on";
    let sentence2 = "It defends against the mating";
    assert!(!is_move(&format!("{sentence1}. {sentence2}")));
}

#[test]
fn empty_line_is_no_move() {
    assert!(!is_move(""));
    assert!(!is_move("This is the move..."));
    assert!(is_move("1.P7g-7f     00:00:00  00:00:00"));
}

#[test]
fn test_duration_first_move() {
    let dur2 = mk_test_move(3, 3);
    assert_eq!(3, dur(None, &dur2));
}

#[test]
fn test_duration_later_move() {
    let dur1 = mk_test_move(15, 963);
    let dur2 = mk_test_move(17, 1150);
    assert_eq!(187, dur(Some(&dur1), &dur2));
}

#[test]
fn test_sente_color() {
    let sente = mk_test_move(17, 99);
    assert_eq!(Color::BLACK, color(&sente));
}

#[test]
fn test_gote_color() {
    let gote = mk_test_move(18, 999);
    assert_eq!(Color::WHITE, color(&gote));
}

#[test]
fn test_parse_piece() {
    let p = parse_piece('p').unwrap();
    assert_eq!(Piece::PAWN, p);
}

#[test]
fn fail_parse_piece() {
    let q = parse_piece('Q');
    assert!(q.is_err());
}

fn load_oi_game() -> Vec<String> {
    lines(&[
        "[Black \"Habu Yoshiharu, Oi\"]",
        "[White \"Namekata Hisashi, Challenger\"]",
        "[Event \"54th Oi-sen, Game 1\"]",
        "[Date \"July 10th and 11th 2013\"]",
        "",
        "The 54th Oi title match opened in Sapporo.",
        "",
        "1.P7g-7f     00:00:00  00:00:00",
        "2.P3c-3d     00:01:00  00:01:00",
        "A quiet opening.",
        "3.P2g-2f     00:02:00  00:03:00",
        "",
    ])
}

#[test]
fn test_create_w7a_from_scan() {
    let file = load_oi_game();
    let (game, rest) = W7A::ingest(&file).unwrap();
    assert!(rest.is_empty());
    assert_eq!(4, game.header.header.len());
    assert_eq!(3, game.moves.moves.len());
}

#[test]
fn parse_plain_move() {
    let m = parse_move(&"1.P7g-7f     00:00:00  00:00:00".to_string()).unwrap();
    assert_eq!(1, m.n);
    assert_eq!(Piece::PAWN, m.piece);
    assert_eq!(Some(Position { x: 7, y: 'g' }), m.from);
    assert_eq!(Position { x: 7, y: 'f' }, m.to);
    assert!(!m.promote && !m.capture && !m.drop);
    assert_eq!(0, m.total_time);
    assert_eq!(None, m.comment);
}

#[test]
fn parse_capture_promotion_and_drop() {
    let m = parse_move(&"24.P2dx2c+   00:10:00  01:02:03".to_string()).unwrap();
    assert_eq!(24, m.n);
    assert!(m.capture && m.promote && !m.drop);
    assert_eq!(Position { x: 2, y: 'c' }, m.to);
    assert_eq!(3723, m.total_time);
    let d = parse_move(&"31.P*5e   00:00:10  00:15:50".to_string()).unwrap();
    assert_eq!(None, d.from);
    assert!(d.drop && !d.capture && !d.promote);
    assert_eq!(Position { x: 5, y: 'e' }, d.to);
    assert_eq!(950, d.total_time);
}

#[test]
fn parse_move_errors() {
    // a piece outside the recognised set
    assert!(parse_move(&"75.G3bx3c    07:40:00  07:18:00".to_string()).is_err());
    // a malformed square
    assert!(parse_move(&"1.P0g-7f     00:00:00  00:00:00".to_string()).is_err());
    assert!(parse_move(&"1.P7g-7z     00:00:00  00:00:00".to_string()).is_err());
    // a malformed clock
    assert!(parse_move(&"1.P7g-7f     00:00:00  0:00".to_string()).is_err());
    // no times at all
    assert!(parse_move(&"1.P7g-7f".to_string()).is_err());
    // no number
    assert!(parse_move(&".P7g-7f     00:00:00  00:00:00".to_string()).is_err());
}

#[test]
fn moves_carry_their_comments() {
    let file = lines(&[
        "1.P7g-7f     00:00:00  00:00:00",
        "Black opens the bishop's diagonal.",
        "",
        "2.P3c-3d     00:01:00  00:01:00",
    ]);
    let (moves, rest) = Moves::ingest(&file).unwrap();
    assert!(rest.is_empty());
    assert_eq!(2, moves.moves.len());
    assert_eq!(
        Some("Black opens the bishop's diagonal. ".to_string()),
        moves.moves[0].comment
    );
    assert_eq!(None, moves.moves[1].comment);
    assert_eq!(60, moves.moves[1].total_time);
}

#[test]
fn move_numbers_must_run_on() {
    let file = lines(&[
        "1.P7g-7f     00:00:00  00:00:00",
        "3.P3c-3d     00:01:00  00:01:00",
    ]);
    assert!(ingest_moves(&file).is_err());
    let late_start = lines(&["2.P3c-3d     00:01:00  00:01:00"]);
    assert!(ingest_moves(&late_start).is_err());
}

#[test]
fn moves_need_a_move_line_first() {
    let file = lines(&["no moves here", "1.P7g-7f     00:00:00  00:00:00"]);
    let (moves, rest) = ingest_moves(&file).unwrap();
    assert!(moves.moves.is_empty());
    assert_eq!(file, rest);
}

#[test]
fn malformed_header_lines_are_dropped() {
    let file = lines(&[
        "[Black \"Habu Yoshiharu, Oi\"]",
        "[White \"Namekata",
        "[\"no key\"]",
        "[Event]",
        "not a header",
    ]);
    let (header, rest) = ingest_header(&file).unwrap();
    assert_eq!(1, header.header.len());
    assert_eq!("Habu Yoshiharu, Oi", header.get("Black").unwrap());
    assert!(header.get("White").is_none());
    assert_eq!(vec!["not a header".to_string()], rest);
}

#[test]
fn later_header_line_wins() {
    let file = lines(&["[Event \"first\"]", "[Event \"second\"]"]);
    let (header, _rest) = ingest_header(&file).unwrap();
    assert_eq!(1, header.header.len());
    assert_eq!("second", header.get("Event").unwrap());
}

#[test]
fn comment_stops_at_first_move() {
    let file = load_test_header();
    let (header, rest) = Header::ingest(&file).unwrap();
    assert_eq!(4, header.header.len());
    let (comment, tail) = collect_comment(&rest).unwrap();
    assert_eq!(
        Some(" The 54th Oi title match opened in Sapporo.".to_string()),
        comment
    );
    assert_eq!(vec!["1.P7g-7f     00:00:00  00:00:00".to_string()], tail);
}

#[test]
fn blank_lines_make_no_comment() {
    let (comment, tail) = collect_comment(&lines(&["", ""])).unwrap();
    assert_eq!(None, comment);
    assert!(tail.is_empty());
    let (comment, tail) = collect_comment(&[]).unwrap();
    assert_eq!(None, comment);
    assert!(tail.is_empty());
}

#[test]
fn non_ascii_field_names() {
    let (k, v) = scan_header_line(&"[É \"x\"]".to_string()).unwrap();
    assert_eq!("É", k);
    assert_eq!("x", v);
    let (k, _) = scan_header_line(&"[Éa \"x\"]".to_string()).unwrap();
    assert_eq!("Éa", k);
    let (header, _rest) = ingest_header(&lines(&["[先手 \"Habu\"]"])).unwrap();
    assert_eq!("Habu", header.get("先手").unwrap());
}

#[test]
fn move_lines_need_two_clock_fields() {
    assert!(parse_move(&"1.P7g-7f 00:00:00".to_string()).is_err());
    assert!(parse_move(&"1.P7g-7f garbage 00:00:00".to_string()).is_err());
    assert!(parse_move(&"1.P7g-7f 00:00:00 00:00:00 extra".to_string()).is_err());
    let m = parse_move(&"1.P7g-7f\t00:00:05\t00:00:05".to_string()).unwrap();
    assert_eq!(5, m.total_time);
}

#[test]
fn mover_total_time_cannot_go_down() {
    let file = lines(&[
        "1.P7g-7f     00:00:00  00:05:00",
        "2.P3c-3d     00:01:00  00:01:00",
        "3.P2g-2f     00:02:00  00:03:00",
    ]);
    assert!(ingest_moves(&file).is_err());
    let fine = lines(&[
        "1.P7g-7f     00:00:00  00:05:00",
        "2.P3c-3d     00:01:00  00:01:00",
        "3.P2g-2f     00:02:00  00:07:00",
    ]);
    assert_eq!(3, ingest_moves(&fine).unwrap().0.moves.len());
}
