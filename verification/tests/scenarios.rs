use shogi_movegen::between::BetweenTable;
use shogi_movegen::movegen::MoveList;
use shogi_movegen::position::Position;
use shogi_movegen::tables::AttackTable;
use shogi_movegen::types::Color;
use shogi_movegen::types::Piece;
use shogi_movegen::types::PieceType;
use shogi_movegen::types::Square;

fn sq(file: u8, rank: u8) -> Square {
    Square(file * 9 + rank)
}

fn put(board: &mut Vec<Option<Piece>>, file: u8, rank: u8, c: Color, pt: PieceType) {
    board[(file * 9 + rank) as usize] = Some(Piece { color: c, piece_type: pt });
}

fn empty_board() -> Vec<Option<Piece>> {
    let mut v = Vec::new();
    for _ in 0..81 {
        v.push(None);
    }
    v
}

fn initial_board() -> Vec<Option<Piece>> {
    let mut b = empty_board();
    for f in 0..9 {
        put(&mut b, f, 6, Color::Black, PieceType::FU);
        put(&mut b, f, 2, Color::White, PieceType::FU);
    }
    let back = [
        PieceType::KY,
        PieceType::KE,
        PieceType::GI,
        PieceType::KI,
        PieceType::OU,
        PieceType::KI,
        PieceType::GI,
        PieceType::KE,
        PieceType::KY,
    ];
    for f in 0..9 {
        put(&mut b, f, 8, Color::Black, back[f as usize]);
        put(&mut b, f, 0, Color::White, back[f as usize]);
    }
    put(&mut b, 7, 7, Color::Black, PieceType::KA);
    put(&mut b, 1, 7, Color::Black, PieceType::HI);
    put(&mut b, 1, 1, Color::White, PieceType::KA);
    put(&mut b, 7, 1, Color::White, PieceType::HI);
    b
}

#[test]
fn table_sizes_match_declared() {
    let at = AttackTable::new().unwrap();
    assert_eq!(at.ka.size(), 20224);
    assert_eq!(at.hi.size(), 495616);
}

#[test]
fn initial_position_has_thirty_moves() {
    let at = AttackTable::new().unwrap();
    let bt = BetweenTable::new();
    let pos = Position::new(Color::Black, initial_board());
    let mut ml = MoveList::new();
    ml.generate_legals(&pos, &at, &bt);
    assert_eq!(ml.len(), 30);
}

#[test]
fn lone_king_has_eight_moves() {
    let at = AttackTable::new().unwrap();
    let bt = BetweenTable::new();
    let mut b = empty_board();
    put(&mut b, 4, 4, Color::Black, PieceType::OU);
    let pos = Position::new(Color::Black, b);
    let mut ml = MoveList::new();
    ml.generate_legals(&pos, &at, &bt);
    assert_eq!(ml.len(), 8);
    for i in 0..ml.len() {
        assert!(!ml.get(i).promotion);
    }
}

#[test]
fn rook_in_corner_attacks_file_and_rank_to_king() {
    let at = AttackTable::new().unwrap();
    let mut b = empty_board();
    put(&mut b, 0, 0, Color::Black, PieceType::HI);
    put(&mut b, 4, 0, Color::Black, PieceType::OU);
    let pos = Position::new(Color::Black, b);
    let occ = pos.pieces_p(PieceType::OCCUPIED);
    let atk = at.hi.attack(sq(0, 0), &occ);
    // The whole of file 1 below the rook.
    for r in 1..9 {
        assert!(atk.get(sq(0, r)));
    }
    // Along rank a up to and including the king's square, and no further.
    for f in 1..5 {
        assert!(atk.get(sq(f, 0)));
    }
    for f in 5..9 {
        assert!(!atk.get(sq(f, 0)));
    }
    assert_eq!(atk.count(), 12);
}

#[test]
fn bishop_rays_blocked_by_pawn() {
    let at = AttackTable::new().unwrap();
    let mut b = empty_board();
    put(&mut b, 4, 4, Color::Black, PieceType::KA);
    let pos = Position::new(Color::Black, b.clone());
    let occ = pos.pieces_p(PieceType::OCCUPIED);
    let atk = at.ka.attack(sq(4, 4), &occ);
    assert_eq!(atk.count(), 16);
    // A pawn on 3c blocks the north-east ray at its own square, inclusive.
    put(&mut b, 2, 2, Color::Black, PieceType::FU);
    let pos2 = Position::new(Color::Black, b);
    let occ2 = pos2.pieces_p(PieceType::OCCUPIED);
    let atk2 = at.ka.attack(sq(4, 4), &occ2);
    assert!(atk2.get(sq(3, 3)));
    assert!(atk2.get(sq(2, 2)));
    assert!(!atk2.get(sq(1, 1)));
    assert!(!atk2.get(sq(0, 0)));
    assert_eq!(atk2.count(), 14);
}

#[test]
fn pinned_gold_moves_only_on_its_file() {
    let at = AttackTable::new().unwrap();
    let bt = BetweenTable::new();
    let mut b = empty_board();
    put(&mut b, 4, 8, Color::Black, PieceType::OU);
    put(&mut b, 4, 4, Color::Black, PieceType::KI);
    put(&mut b, 4, 0, Color::White, PieceType::HI);
    let pos = Position::new(Color::Black, b);
    let pinned = pos.pinned(&at, &bt);
    assert!(pinned.get(sq(4, 4)));
    let mut ml = MoveList::new();
    ml.generate_legals(&pos, &at, &bt);
    let mut saw_north = false;
    let mut saw_south = false;
    for i in 0..ml.len() {
        let m = ml.get(i);
        if m.from == sq(4, 4) {
            assert!(m.to == sq(4, 3) || m.to == sq(4, 5));
            if m.to == sq(4, 3) {
                saw_north = true;
            }
            if m.to == sq(4, 5) {
                saw_south = true;
            }
        }
    }
    assert!(saw_north && saw_south);
}

#[test]
fn double_check_allows_only_king_moves() {
    let at = AttackTable::new().unwrap();
    let bt = BetweenTable::new();
    let mut b = empty_board();
    put(&mut b, 4, 4, Color::Black, PieceType::OU);
    put(&mut b, 4, 0, Color::White, PieceType::HI);
    put(&mut b, 0, 0, Color::White, PieceType::KA);
    // A black rook that could otherwise capture or interpose.
    put(&mut b, 8, 8, Color::Black, PieceType::HI);
    let pos = Position::new(Color::Black, b);
    assert!(pos.in_check(&at));
    assert_eq!(pos.checkers(&at).count(), 2);
    let mut ml = MoveList::new();
    ml.generate_legals(&pos, &at, &bt);
    assert!(ml.len() > 0);
    for i in 0..ml.len() {
        assert_eq!(ml.get(i).piece.piece_type, PieceType::OU);
    }
}

#[test]
fn generating_twice_gives_the_same_list() {
    let at = AttackTable::new().unwrap();
    let bt = BetweenTable::new();
    let pos = Position::new(Color::Black, initial_board());
    let mut ml1 = MoveList::new();
    ml1.generate_legals(&pos, &at, &bt);
    let mut ml2 = MoveList::new();
    ml2.generate_legals(&pos, &at, &bt);
    ml2.generate_legals(&pos, &at, &bt);
    assert_eq!(ml1.len(), ml2.len());
    for i in 0..ml1.len() {
        assert_eq!(ml1.get(i), ml2.get(i));
    }
}

#[test]
fn evasions_capture_or_interpose_under_single_check() {
    let at = AttackTable::new().unwrap();
    let bt = BetweenTable::new();
    let mut b = empty_board();
    put(&mut b, 4, 8, Color::Black, PieceType::OU);
    put(&mut b, 4, 0, Color::White, PieceType::HI);
    put(&mut b, 0, 4, Color::Black, PieceType::HI);
    let pos = Position::new(Color::Black, b);
    assert!(pos.in_check(&at));
    let mut ml = MoveList::new();
    ml.generate_legals(&pos, &at, &bt);
    // The black rook may capture the checker or interpose on file 5; the king
    // may step off the file.
    for i in 0..ml.len() {
        let m = ml.get(i);
        if m.piece.piece_type == PieceType::HI {
            assert_eq!(m.to.0 / 9, 4);
        }
    }
    let mut rook_interpositions = 0;
    for i in 0..ml.len() {
        if ml.get(i).piece.piece_type == PieceType::HI && !ml.get(i).promotion {
            rook_interpositions += 1;
        }
    }
    assert_eq!(rook_interpositions, 1);
}

#[test]
fn checked_king_cannot_flee_along_the_rook_ray() {
    let at = AttackTable::new().unwrap();
    let bt = BetweenTable::new();
    let mut b = empty_board();
    put(&mut b, 4, 4, Color::Black, PieceType::OU);
    put(&mut b, 4, 0, Color::White, PieceType::HI);
    let pos = Position::new(Color::Black, b);
    assert!(pos.in_check(&at));
    let mut ml = MoveList::new();
    ml.generate_legals(&pos, &at, &bt);
    // Every square of file 5 is on the rook's ray: six flights remain.
    assert_eq!(ml.len(), 6);
    for i in 0..ml.len() {
        let m = ml.get(i);
        assert_ne!(m.to.0 / 9, 4);
    }
}
