use shogi_movegen::between::BetweenTable;
use shogi_movegen::bitboard::Bitboard;
use shogi_movegen::position::Position;
use shogi_movegen::tables::LanceAttackTable;
use shogi_movegen::tables::PieceAttackTable;
use shogi_movegen::tables::SlidingAttackTable;
use shogi_movegen::tables::ka_deltas_vec;
use shogi_movegen::tables::ke_deltas_vec;
use shogi_movegen::types::Color;
use shogi_movegen::types::Piece;
use shogi_movegen::types::PieceType;
use shogi_movegen::types::Square;

fn sq(file: u8, rank: u8) -> Square {
    Square(file * 9 + rank)
}

#[test]
fn knight_attacks_stay_close_and_exclude_origin() {
    let ke = PieceAttackTable::new(
        ke_deltas_vec(Color::Black),
        ke_deltas_vec(Color::White),
    );
    for s in 0..81u8 {
        let from = Square(s);
        for c in [Color::Black, Color::White] {
            let atk = ke.attack(from, c);
            for t in 0..81u8 {
                if atk.get(Square(t)) {
                    let df = (t / 9) as i32 - (s / 9) as i32;
                    let dr = (t % 9) as i32 - (s % 9) as i32;
                    assert!(df.abs() <= 1);
                    assert!(dr.abs() <= 2);
                    assert_ne!(s, t);
                }
            }
        }
    }
    // A central black knight leaps to exactly the two squares two ranks up.
    let atk = ke.attack(sq(4, 4), Color::Black);
    assert_eq!(atk.count(), 2);
    assert!(atk.get(sq(3, 2)));
    assert!(atk.get(sq(5, 2)));
}

#[test]
fn blockers_never_enlarge_bishop_attacks() {
    let ka = SlidingAttackTable::new(ka_deltas_vec()).unwrap();
    let mut b: Vec<Option<Piece>> = Vec::new();
    for _ in 0..81 {
        b.push(None);
    }
    b[20] = Some(Piece { color: Color::Black, piece_type: PieceType::FU });
    b[60] = Some(Piece { color: Color::White, piece_type: PieceType::FU });
    let pos = Position::new(Color::Black, b);
    let occ = pos.pieces_p(PieceType::OCCUPIED);
    for s in 0..81u8 {
        let from = Square(s);
        let pseudo = ka.pseudo_attack(from);
        let atk = ka.attack(from, &occ);
        for t in 0..81u8 {
            if atk.get(Square(t)) {
                assert!(pseudo.get(Square(t)));
            }
        }
    }
}

#[test]
fn between_table_is_symmetric_and_empty_on_the_diagonal_pairs() {
    let bt = BetweenTable::new();
    for a in 0..81u8 {
        assert_eq!(bt.at(Square(a), Square(a)).count(), 0);
    }
    for a in [0u8, 13, 40, 77] {
        for b in 0..81u8 {
            let ab = bt.at(Square(a), Square(b));
            let ba = bt.at(Square(b), Square(a));
            for t in 0..81u8 {
                assert_eq!(ab.get(Square(t)), ba.get(Square(t)));
            }
        }
    }
    // Aligned distinct squares carry max(|df|, |dr|) - 1 open squares.
    let diag = bt.at(sq(0, 0), sq(4, 4));
    assert_eq!(diag.count(), 3);
    assert!(diag.get(sq(1, 1)) && diag.get(sq(2, 2)) && diag.get(sq(3, 3)));
    assert_eq!(bt.at(sq(0, 0), sq(0, 8)).count(), 7);
    assert_eq!(bt.at(sq(2, 5), sq(7, 5)).count(), 4);
    // Unaligned squares have nothing between them.
    assert_eq!(bt.at(sq(0, 0), sq(1, 2)).count(), 0);
}

#[test]
fn lance_lookup_matches_blockers() {
    let ky = LanceAttackTable::new();
    let mut occ = Bitboard::empty();
    occ = occ.insert(sq(4, 3));
    // A black lance on 5i runs north up to and including the blocker on 5d.
    let atk = ky.attack(sq(4, 8), Color::Black, &occ);
    assert_eq!(atk.count(), 5);
    for r in 3..8 {
        assert!(atk.get(sq(4, r)));
    }
    assert!(!atk.get(sq(4, 2)));
    // A white lance on the same file runs south from 5a to the same blocker.
    let atk_w = ky.attack(sq(4, 0), Color::White, &occ);
    assert_eq!(atk_w.count(), 3);
    for r in 1..4 {
        assert!(atk_w.get(sq(4, r)));
    }
    // The blocker square itself is outside the seven-bit mask rows only at
    // the board edges: an edge blocker does not change the lookup.
    let mut occ_edge = Bitboard::empty();
    occ_edge = occ_edge.insert(sq(4, 0));
    let free = ky.attack(sq(4, 8), Color::Black, &Bitboard::empty());
    let edged = ky.attack(sq(4, 8), Color::Black, &occ_edge);
    assert_eq!(free.count(), edged.count());
    assert_eq!(free.count(), 8);
}
