use pgn4::{GameResult, Move, MoveError, PGN4Error, QuarterTurn, Visitor, VisitorCommon, PGN4};

const BASIC_GAME: &'static str = "1. d2-d3 .. b11-c11 .. k13-k12 .. m4-l4
2. h2-h3 .. b7-c7 .. g13-g12 .. m8-l8";

fn qturn_of(s: &str) -> QuarterTurn {
    QuarterTurn {
        main: Move::Normal(s.parse().unwrap()),
        modifier: None,
        extra_stalemate: false,
        description: None,
        alternatives: Vec::new(),
    }
}

#[test]
fn append_at_first_ply_makes_numbered_alternative() {
    let mut base: PGN4 = BASIC_GAME.parse().unwrap();
    let idx = base.append_move(&[0], qturn_of("j2-j3")).unwrap();
    assert_eq!(idx, 1, "a fresh alternative gets index 1");
    let alt = &base.turns[0].turns[0].alternatives[0];
    assert_eq!(alt.len(), 1);
    assert_eq!(alt[0].to_text(), "1.. j2-j3");
    let idx2 = base.append_move(&[1], qturn_of("b5-c5")).unwrap();
    assert_eq!(idx2, 1, "the slot one ply further starts its own list");
    let alt2 = &base.turns[0].turns[1].alternatives[0];
    assert_eq!(alt2[0].to_text(), ".. b5-c5");
}

#[test]
fn castle_and_check_counts_round_trip() {
    let m: Move = "O-O-O##".parse().unwrap();
    assert!(matches!(m, Move::QueenCastle(2)));
    assert_eq!(m.to_text(), "O-O-O##");

    let m2: Move = "Qi8-h9+++##".parse().unwrap();
    match m2 {
        Move::Normal(b) => {
            assert_eq!(b.checks, 3);
            assert_eq!(b.mates, 2);
        }
        _ => panic!("expected a basic move"),
    }
    assert_eq!(m2.to_text(), "Qi8-h9+++##");
}

#[test]
fn fifth_quarter_turn_fails() {
    let bad = "1. h2-h3 .. b7-c7 .. g13-g12 .. m8-l8 .. d2-d3";
    assert!(bad.parse::<PGN4>().is_err());
}

#[test]
fn even_length_paths_fail_every_editor_operation() {
    let mut base: PGN4 = BASIC_GAME.parse().unwrap();
    let snapshot = base.clone();
    assert!(base.append_move(&[1, 1], qturn_of("j2-j3")).is_err());
    assert_eq!(base, snapshot);
    assert!(base.promote_to_mainline(&[1, 1]).is_err());
    assert_eq!(base, snapshot);
    assert!(base.delete_from(&[1, 1]).is_err());
    assert_eq!(base, snapshot);
}

#[test]
fn appending_identical_content_twice_is_idempotent() {
    let mut doc = PGN4 { bracketed: vec![], turns: vec![] };
    assert_eq!(doc.append_move(&[0], qturn_of("d2-d3")).unwrap(), 0);
    let once = doc.clone();
    assert_eq!(doc.append_move(&[0], qturn_of("d2-d3")).unwrap(), 0);
    assert_eq!(doc, once, "repeating the same append changes nothing");
}

#[test]
fn construction_and_deletion_are_inverse() {
    let base: PGN4 = BASIC_GAME.parse().unwrap();
    let mut doc: PGN4 = BASIC_GAME.parse().unwrap();
    doc.append_move(&[8], qturn_of("d3-d4")).unwrap();
    doc.append_move(&[9], qturn_of("c11-d11")).unwrap();
    doc.delete_from(&[10]).unwrap();
    doc.delete_from(&[9]).unwrap();
    assert_eq!(doc, base, "deleting what was appended restores the tree");
}

#[test]
fn accepted_text_round_trips_through_format() {
    let texts = [
        "1. h2-h3",
        "",
        "1. h2-h3 .. b7-c7",
        "5.. Ka4-b5R",
        "1. d2-d3 { note } ( .. j2-j3 ) ",
    ];
    for t in texts {
        let parsed: PGN4 = t.parse().unwrap();
        let formatted = parsed.to_text();
        let reparsed: PGN4 = formatted.parse().unwrap();
        assert_eq!(parsed, reparsed, "formatted text re-parses to the same tree");
    }
}

#[test]
fn parse_error_kinds() {
    assert!(matches!("x".parse::<PGN4>(), Err(PGN4Error::Other(_))));
    assert!(matches!("[Tag oops]".parse::<PGN4>(), Err(PGN4Error::BadTagged(_))));
    assert!(matches!(
        "1. d2-d3 { open".parse::<PGN4>(),
        Err(PGN4Error::BadDescription(_))
    ));
    assert!(matches!(
        "1. zz99".parse::<PGN4>(),
        Err(PGN4Error::BadMove(_, _, _))
    ));
    assert!(matches!("O-Ox".parse::<Move>(), Err(MoveError::Castle)));
    assert!(matches!(
        "Ka4-z9".parse::<Move>(),
        Err(MoveError::PositionInvalid(_))
    ));
    assert!(matches!("".parse::<Move>(), Err(MoveError::Other)));
}

#[test]
fn error_location_lines_and_columns() {
    let err = "1. d2-d3\n2. xx".parse::<PGN4>().unwrap_err();
    match err {
        PGN4Error::BadMove(_, text, loc) => {
            assert_eq!(text, "xx");
            assert_eq!(loc.line, 2);
        }
        other => panic!("unexpected error {:?}", other),
    }
    let loc = pgn4::map_location(2, "ab\ncdef");
    assert_eq!(loc.line, 2);
    assert_eq!(loc.column, 2);
    assert_eq!(loc.raw_offset, 5);
    let loc = pgn4::map_location(2, "\u{3b4}x y");
    assert_eq!(loc.line, 1);
    assert_eq!(loc.column, 2, "columns count characters");
    assert_eq!(loc.raw_offset, 3, "the raw offset counts bytes");
}

#[test]
fn parse_errors_carry_locations() {
    match "[Tag oops]\n1. d2-d3".parse::<PGN4>() {
        Err(PGN4Error::BadTagged(loc)) => {
            assert_eq!(loc.line, 1);
            assert_eq!(loc.raw_offset, 1, "just past the opening bracket");
        }
        other => panic!("unexpected {:?}", other),
    }
    match "1. d2-d3\n2. \u{3b4}3-zz".parse::<PGN4>() {
        Err(PGN4Error::BadMove(_, text, loc)) => {
            assert_eq!(text, "\u{3b4}3-zz");
            assert_eq!(loc.line, 2);
            assert_eq!(loc.raw_offset, 18, "the move's end, in bytes");
        }
        other => panic!("unexpected {:?}", other),
    }
}

#[test]
fn header_tags_are_looked_up_in_order() {
    let doc: PGN4 = "[Variant \"Teams\"]\n[Red \"alice\"]\n[Red \"bob\"]\n\n\n\n1. d2-d3"
        .parse()
        .unwrap();
    assert_eq!(doc.tag("Variant"), Some("Teams"));
    assert_eq!(doc.tag("Red"), Some("alice"));
    assert_eq!(doc.tag("Missing"), None);
}

#[test]
fn ratings_and_players() {
    let doc: PGN4 = "[Red \"a\"]\n[Blue \"b\"]\n[Yellow \"c\"]\n[Green \"d\"]\n[RedElo \"1570\"]\n[BlueElo \"2243\"]\n[YellowElo \"1540\"]\n[GreenElo \"2062\"]\n\n\n\n1. d2-d3"
        .parse()
        .unwrap();
    assert_eq!(doc.ratings(), Some([1570, 2243, 1540, 2062]));
    assert_eq!(doc.players(), Some(["a", "b", "c", "d"]));
    let plain: PGN4 = "1. d2-d3".parse().unwrap();
    assert_eq!(plain.ratings(), None);
    assert_eq!(plain.players(), None);
}

#[test]
fn result_forms() {
    let team: PGN4 = "[Result \"1-0\"]\n\n\n\n1. d2-d3".parse().unwrap();
    assert_eq!(team.result(), GameResult::Team(true, false));
    let draw: PGN4 = "[Result \"Draw\"]\n\n\n\n1. d2-d3".parse().unwrap();
    assert_eq!(draw.result(), GameResult::Team(false, false));
    let aborted: PGN4 = "[Result \"Aborted\"]\n\n\n\n1. d2-d3".parse().unwrap();
    assert_eq!(aborted.result(), GameResult::Aborted);
    let none: PGN4 = "1. d2-d3".parse().unwrap();
    assert_eq!(none.result(), GameResult::Error);
    let ffa: PGN4 =
        "[Red \"a\"]\n[Blue \"b\"]\n[Yellow \"c\"]\n[Green \"d\"]\n[Result \"a: 1 - b: 2 - c: 3 - d: 20\"]\n\n\n\n1. d2-d3"
            .parse()
            .unwrap();
    assert_eq!(ffa.result(), GameResult::FFA([1, 2, 3, 20]));
    let bad: PGN4 =
        "[Red \"a\"]\n[Blue \"b\"]\n[Yellow \"c\"]\n[Green \"d\"]\n[Result \"a: 1 - wrong: 2 - c: 3 - d: 20\"]\n\n\n\n1. d2-d3"
            .parse()
            .unwrap();
    assert_eq!(bad.result(), GameResult::Error);
}

#[test]
fn visitor_walks_the_tree() {
    let mut base: PGN4 = BASIC_GAME.parse().unwrap();
    base.append_move(&[0], qturn_of("j2-j3")).unwrap();
    let v = Visitor::new(&base);
    assert!(!v.last());
    let v = v.next().unwrap();
    assert_eq!(v.qturn().unwrap().main.to_text(), "d2-d3");
    assert_eq!(v.alternatives(), 1);
    let inner = v.clone().into_alternative(1).unwrap();
    let inner = inner.next().unwrap();
    assert_eq!(inner.qturn().unwrap().main.to_text(), "j2-j3");
    assert!(inner.last());
    let v = v.next().unwrap();
    assert_eq!(v.qturn().unwrap().main.to_text(), "b11-c11");
}

#[test]
fn follow_path_matches_manual_walk() {
    let mut base: PGN4 = BASIC_GAME.parse().unwrap();
    base.append_move(&[0], qturn_of("j2-j3")).unwrap();
    let mut partial = pgn4::PartialPath::default();
    let v = Visitor::new(&base)
        .follow_path(&mut partial, &[1, 1, 1])
        .unwrap();
    assert_eq!(v.qturn().unwrap().main.to_text(), "j2-j3");
    assert!(partial.done(&[1, 1, 1]));

    let mut partial = pgn4::PartialPath::default();
    assert_eq!(
        Visitor::new(&base).follow_path(&mut partial, &[2, 2]).unwrap_err(),
        pgn4::VisitingError::EvenPath
    );
    let mut partial = pgn4::PartialPath::default();
    assert_eq!(
        Visitor::new(&base).follow_path(&mut partial, &[1, 1, 0]).unwrap_err(),
        pgn4::VisitingError::ZeroInPath
    );
}

#[test]
fn mutable_visitor_edits_in_place() {
    let mut base: PGN4 = BASIC_GAME.parse().unwrap();
    {
        let vm = pgn4::VisitorMut::new(&mut base);
        let mut vm = vm.next().unwrap();
        let q = vm.qturn_mut().unwrap();
        q.description = Some("first".to_owned());
    }
    assert_eq!(
        base.turns[0].turns[0].description.as_deref(),
        Some("first")
    );
}

#[test]
fn modifier_suffix_is_split_off() {
    let doc: PGN4 = "5.. Ka4-b5R".parse().unwrap();
    let qt = &doc.turns[0].turns[0];
    assert!(matches!(qt.main, Move::Normal(_)));
    assert_eq!(qt.modifier, Some(Move::Resign));
    assert_eq!(doc.to_text(), "5.. Ka4-b5R");
}

#[test]
fn extra_stalemate_marker_is_written() {
    let mut qt = qturn_of("d2-d3");
    qt.extra_stalemate = true;
    assert_eq!(qt.to_text(), "d2-d3S");
}

#[test]
fn deleting_a_ply_merges_promoted_alternatives_first() {
    let mut doc: PGN4 = "1. d2-d3 .. b11-c11".parse().unwrap();
    assert_eq!(doc.append_move(&[0], qturn_of("j2-j3")).unwrap(), 1);
    assert_eq!(doc.append_move(&[0], qturn_of("e2-e3")).unwrap(), 2);
    assert_eq!(doc.append_move(&[1, 1, 0], qturn_of("h2-h3")).unwrap(), 1);
    doc.delete_from(&[1]).unwrap();
    let promoted = &doc.turns[0].turns[0];
    assert_eq!(promoted.main.to_text(), "j2-j3");
    assert_eq!(
        promoted.alternatives.len(),
        2,
        "the promoted move keeps its own side line ahead of the slot's remaining one"
    );
    assert_eq!(promoted.alternatives[0][0].turns[0].main.to_text(), "h2-h3");
    assert_eq!(promoted.alternatives[1][0].turns[0].main.to_text(), "e2-e3");
}
