//! Building positions: the empty board, the start position, FEN in and out,
//! and full key recomputation.
use vstd::prelude::*;

use crate::board::bitboard::{bit, lemma_zero_iff_no_bits};
use crate::board::makemove::piece_of;
use crate::board::position::{
    lemma_xor, FenError, PosState, Position, board_hash, pawn_hash, full_key, square_term, pawn_term,
    state_ok, has_king, holds_king, ep_term, stm_term, ep_capturable_spec,
};
use crate::board::types::{
    CastlingRights, Color, Piece, PieceType, Square, file_of, rank_of, square_at, type_of_index,
    piece_chars, square_name, opposite,
};
use crate::board::zobrist::{
    piece_square_key, castling_rights_key, ep_file_key, black_to_move, castling_key,
    black_to_move_key,
};
use crate::board::Bitboard;
use crate::text::{chars_of, decimal_text, fields, push_char, push_decimal, split_fields, split_on, split_parts, parse_u16, u16_text};

verus! {

/// The FEN of the standard start position.
pub const START_FEN: &'static str = "rnbqkbnr/pppppppp/8/8/8/8/PPPPPPPP/RNBQKBNR w KQkq - 0 1";

/// Board hash and pawn hash of a board with no pieces on squares `0..n`.
pub proof fn lemma_hash_of_empty(b: Seq<Option<Piece>>, n: int)
    requires
        forall|i: int| 0 <= i < n ==> #[trigger] b[i] is None,
    ensures
        board_hash(b, n) == 0u64,
        pawn_hash(b, n) == 0u64,
    decreases n,
{
    if n > 0 {
        lemma_hash_of_empty(b, n - 1);
        assert(square_term(b, n - 1) == 0u64);
        assert(pawn_term(b, n - 1) == 0u64);
        lemma_xor(0, 0, 0, 0, 0);
    }
}

/// Piece type on file `f` of the back rank at the start.
pub open spec fn back_rank_type(f: int) -> PieceType {
    if f == 0 || f == 7 {
        PieceType::Rook
    } else if f == 1 || f == 6 {
        PieceType::Knight
    } else if f == 2 || f == 5 {
        PieceType::Bishop
    } else if f == 3 {
        PieceType::Queen
    } else {
        PieceType::King
    }
}

/// The piece on square `i` in the start position.
pub open spec fn start_piece(i: int) -> Option<Piece> {
    let f = file_of(i);
    let r = rank_of(i);
    if r == 0 {
        Some(piece_of(Color::White, back_rank_type(f)))
    } else if r == 1 {
        Some(piece_of(Color::White, PieceType::Pawn))
    } else if r == 6 {
        Some(piece_of(Color::Black, PieceType::Pawn))
    } else if r == 7 {
        Some(piece_of(Color::Black, back_rank_type(f)))
    } else {
        None
    }
}

/// The start position as a value.
pub open spec fn start_state() -> PosState {
    let b = Seq::new(64, |i: int| start_piece(i));
    PosState {
        board: b,
        stm: Color::White,
        castling: 15u8,
        ep: None,
        halfmove: 0,
        fullmove: 1,
        key: full_key(b, Color::White, 15u8, None),
        pawn_key: pawn_hash(b, 64),
    }
}

impl Position {
    /// An empty board, white to move, no rights, no history.
    fn new_empty() -> (p: Position)
        ensures
            p.boards_ok(),
            forall|i: int| 0 <= i < 64 ==> #[trigger] p.board()[i] is None,
            p.key_rest() == 0u64,
            p.pawn_rest() == 0u64,
            p.state().stm == Color::White,
            p.state().castling == 0u8,
            p.state().ep is None,
            p.state().halfmove == 0,
            p.state().fullmove == 1,
            p.trail() == (Seq::<PosState>::empty(), Seq::<crate::board::position::Undo>::empty(), Seq::<u64>::empty()),
    {
        let e = Bitboard::empty();
        let p = Position {
            pieces: [e, e, e, e, e, e, e, e, e, e, e, e],
            occ: [e, e],
            occ_all: e,
            mailbox: [None; 64],
            stm: Color::White,
            castling: CastlingRights::none(),
            ep: None,
            halfmove: 0,
            fullmove: 1,
            key: 0,
            pawn_key: 0,
            undo_stack: Vec::new(),
            key_history: Vec::new(),
            prev: Ghost(Seq::empty()),
        };
        proof {
            reveal(Position::history_ok);
            lemma_hash_of_empty(p.board(), 64);
            lemma_xor(0, 0, 0, 0, 0);
            assert(p.trail().0 =~= Seq::<PosState>::empty());
            assert(p.trail().1 =~= Seq::<crate::board::position::Undo>::empty());
            assert(p.trail().2 =~= Seq::<u64>::empty());
        }
        p
    }

    /// Full key recomputation (a check on the incremental key).
    pub fn compute_key(&self) -> (k: u64)
        requires
            self.boards_ok(),
        ensures
            k == full_key(
                self.state().board,
                self.state().stm,
                self.state().castling,
                self.state().ep,
            ),
    {
        let mut key = 0u64;
        let mut i: usize = 0;
        while i < 64
            invariant
                i <= 64,
                self.boards_ok(),
                key == board_hash(self.board(), i as int),
            decreases 64 - i,
        {
            match self.mailbox[i] {
                Some(p) => {
                    key = key ^ piece_square_key(p.index(), i);
                },
                None => {
                    proof {
                        lemma_xor(key, 0, 0, 0, 0);
                    }
                },
            }
            i += 1;
        }
        let c = castling_rights_key(self.castling.bits());
        let e = match self.ep {
            Some(ep) => ep_file_key(ep.file()),
            None => 0u64,
        };
        let s = if self.stm == Color::Black {
            black_to_move()
        } else {
            0u64
        };
        proof {
            assert(e == ep_term(self.ep));
            assert(s == stm_term(self.stm));
            lemma_xor(key, c, e, s, 0);
        }
        key ^ c ^ e ^ s
    }

    /// Pawn-only key recomputation.
    pub fn compute_pawn_key(&self) -> (k: u64)
        requires
            self.boards_ok(),
        ensures
            k == pawn_hash(self.state().board, 64),
    {
        let mut key = 0u64;
        let mut i: usize = 0;
        while i < 64
            invariant
                i <= 64,
                self.boards_ok(),
                key == pawn_hash(self.board(), i as int),
            decreases 64 - i,
        {
            match self.mailbox[i] {
                Some(p) => {
                    if p.piece_type() == PieceType::Pawn {
                        key = key ^ piece_square_key(p.index(), i);
                    } else {
                        proof {
                            lemma_xor(key, 0, 0, 0, 0);
                        }
                    }
                },
                None => {
                    proof {
                        lemma_xor(key, 0, 0, 0, 0);
                    }
                },
            }
            i += 1;
        }
        key
    }

    /// Places the start position's pieces on file `f`.
    fn put_start_file(&mut self, f: u8, pt: PieceType)
        requires
            old(self).boards_ok(),
            f < 8,
            old(self).board() == start_upto(f as int),
            pt == back_rank_type(f as int),
        ensures
            final(self).boards_ok(),
            final(self).board() == start_upto(f + 1),
            final(self).same_state(old(self)),
            final(self).key_rest() == old(self).key_rest(),
            final(self).pawn_rest() == old(self).pawn_rest(),
    {
        let wb = Piece::new(Color::White, pt);
        let wp = Piece::new(Color::White, PieceType::Pawn);
        let bp = Piece::new(Color::Black, PieceType::Pawn);
        let bb = Piece::new(Color::Black, pt);
        let s0 = Square::from_fr(f, 0);
        let s1 = Square::from_fr(f, 1);
        let s6 = Square::from_fr(f, 6);
        let s7 = Square::from_fr(f, 7);
        proof {
            lemma_start_step(f as int);
            lemma_start_kings(f as int);
            assert(wb == piece_of(Color::White, pt));
            assert(bb == piece_of(Color::Black, pt));
            assert(wp == piece_of(Color::White, PieceType::Pawn));
            assert(bp == piece_of(Color::Black, PieceType::Pawn));
        }
        self.put_piece(wb, s0);
        self.put_piece(wp, s1);
        self.put_piece(bp, s6);
        self.put_piece(bb, s7);
    }

    /// The standard start position.
    pub fn startpos() -> (p: Position)
        ensures
            p.wf(),
            p.state() == start_state(),
            p.depth() == 0,
    {
        proof {
            reveal(Position::wf);
        }
        let mut pos = Position::new_empty();
        let back = [
            PieceType::Rook,
            PieceType::Knight,
            PieceType::Bishop,
            PieceType::Queen,
            PieceType::King,
            PieceType::Bishop,
            PieceType::Knight,
            PieceType::Rook,
        ];
        proof {
            assert(pos.board() =~= start_upto(0));
            lemma_start_kings(0);
        }
        let mut f: u8 = 0;
        while f < 8
            invariant
                f <= 8,
                pos.boards_ok(),
                pos.key_rest() == 0u64,
                pos.pawn_rest() == 0u64,
                pos.state().stm == Color::White,
                pos.state().castling == 0u8,
                pos.state().ep is None,
                pos.state().halfmove == 0,
                pos.state().fullmove == 1,
                pos.trail() == (Seq::<PosState>::empty(), Seq::<crate::board::position::Undo>::empty(), Seq::<u64>::empty()),
                forall|j: int| 0 <= j < 8 ==> #[trigger] back@[j] == back_rank_type(j),
                pos.board() == start_upto(f as int),
            decreases 8 - f,
        {
            pos.put_start_file(f, back[f as usize]);
            f += 1;
        }
        proof {
            lemma_start_kings(8);
        }
        pos.castling = CastlingRights::all();
        let ghost h = board_hash(pos.board(), 64);
        let ck = castling_rights_key(15u8);
        let ghost k0 = pos.key;
        pos.key = pos.key ^ ck;
        proof {
            let b = pos.board();
            assert(b =~= start_state().board);
            assert(k0 ^ h == 0u64);
            assert(ep_term(None) == 0u64);
            assert(stm_term(Color::White) == 0u64);
            lemma_xor(k0, ck, h, 0, 0);
            let pk = pos.pawn_key;
            let ph = pawn_hash(b, 64);
            lemma_xor(pk, ph, 0, 0, 0);
            assert(pos.state() == start_state());
            reveal(Position::history_ok);
        }
        pos
    }
}


/// Index of a FEN piece letter in `PNBRQKpnbrqk`; -1 for any other
/// character.
pub open spec fn letter_index(c: char) -> int {
    if c == 'P' {
        0
    } else if c == 'N' {
        1
    } else if c == 'B' {
        2
    } else if c == 'R' {
        3
    } else if c == 'Q' {
        4
    } else if c == 'K' {
        5
    } else if c == 'p' {
        6
    } else if c == 'n' {
        7
    } else if c == 'b' {
        8
    } else if c == 'r' {
        9
    } else if c == 'q' {
        10
    } else if c == 'k' {
        11
    } else {
        -1
    }
}

/// The file reached after the first `n` characters of a FEN rank, or -1
/// once the rank is malformed (a skip past the eighth file, a piece beyond
/// it, or a character that is neither a digit nor a piece letter).
pub open spec fn row_file(row: Seq<char>, n: int) -> int
    decreases n,
{
    if n <= 0 {
        0
    } else {
        let f = row_file(row, n - 1);
        let c = row[n - 1];
        if f < 0 {
            -1
        } else if '0' <= c && c <= '9' {
            if f + (c as int - '0' as int) > 8 {
                -1
            } else {
                f + (c as int - '0' as int)
            }
        } else if letter_index(c) >= 0 {
            if f >= 8 {
                -1
            } else {
                f + 1
            }
        } else {
            -1
        }
    }
}

/// A FEN rank that covers exactly the eight files.
pub open spec fn row_ok(row: Seq<char>) -> bool {
    row_file(row, row.len() as int) == 8
}

/// Board `b` with the pieces of the first `n` characters of `row` placed
/// on rank `rank`.
pub closed spec fn row_place(row: Seq<char>, n: int, rank: int, b: Seq<Option<Piece>>) -> Seq<Option<Piece>>
    decreases n,
{
    if n <= 0 {
        b
    } else {
        let b1 = row_place(row, n - 1, rank, b);
        let k = letter_index(row[n - 1]);
        if k >= 0 {
            b1.update(square_at(row_file(row, n - 1), rank), Some(Piece(k as u8)))
        } else {
            b1
        }
    }
}

/// The board of the first `i` ranks of a FEN placement (rank 8 first).
pub open spec fn fen_board(ranks: Seq<Seq<char>>, i: int) -> Seq<Option<Piece>>
    decreases i,
{
    if i <= 0 {
        Seq::new(64, |_s: int| None)
    } else {
        row_place(ranks[i - 1], ranks[i - 1].len() as int, 7 - (i - 1), fen_board(ranks, i - 1))
    }
}

/// Two kings of color `c` on the board.
pub open spec fn two_kings(b: Seq<Option<Piece>>, c: Color) -> bool {
    exists|i: int, j: int| 0 <= i < 64 && 0 <= j < 64 && i != j && #[trigger] holds_king(b, i, c) && #[trigger] holds_king(b, j, c)
}

/// Exactly one king of each color.
pub open spec fn kings_ok(b: Seq<Option<Piece>>) -> bool {
    &&& has_king(b, Color::White)
    &&& has_king(b, Color::Black)
    &&& !two_kings(b, Color::White)
    &&& !two_kings(b, Color::Black)
}

/// The castling bit of a FEN castling letter.
pub open spec fn castle_letter_bit(c: char) -> u8 {
    if c == 'K' {
        1
    } else if c == 'Q' {
        2
    } else if c == 'k' {
        4
    } else {
        8
    }
}

/// A castling letter.
pub open spec fn castle_letter(c: char) -> bool {
    c == 'K' || c == 'Q' || c == 'k' || c == 'q'
}

/// The castling mask of the first `n` letters of `c`.
pub open spec fn castle_value(c: Seq<char>, n: int) -> u8
    decreases n,
{
    if n <= 0 {
        0
    } else {
        castle_value(c, n - 1) | castle_letter_bit(c[n - 1])
    }
}

/// The FEN ranks of text `s`.
pub open spec fn fen_ranks(s: Seq<char>) -> Seq<Seq<char>> {
    split_parts(fields(s)[0], '/')
}

/// The board of FEN text `s`.
pub open spec fn fen_board_of(s: Seq<char>) -> Seq<Option<Piece>> {
    fen_board(fen_ranks(s), 8)
}

/// The side to move of FEN text `s`.
pub open spec fn fen_stm(s: Seq<char>) -> Color {
    if fields(s)[1] == seq!['w'] {
        Color::White
    } else {
        Color::Black
    }
}

/// The castling mask of FEN text `s`.
pub open spec fn fen_castling(s: Seq<char>) -> u8 {
    if fields(s)[2] == seq!['-'] {
        0
    } else {
        castle_value(fields(s)[2], fields(s)[2].len() as int)
    }
}

/// The named en-passant square of FEN text `s`, if it names one.
pub open spec fn fen_ep_named(s: Seq<char>) -> int {
    choose|q: int| 0 <= q < 64 && square_name(q) == fields(s)[3]
}

/// The en-passant square kept from FEN text `s`: the named square when an
/// enemy pawn could capture onto it.
pub open spec fn fen_ep(s: Seq<char>) -> Option<int> {
    if fields(s)[3] == seq!['-'] {
        None
    } else if ep_capturable_spec(fen_board_of(s), fen_ep_named(s), opposite(fen_stm(s))) {
        Some(fen_ep_named(s))
    } else {
        None
    }
}

/// The halfmove counter of FEN text `s` (0 when absent).
pub open spec fn fen_half(s: Seq<char>) -> Option<u16> {
    if fields(s).len() > 4 {
        u16_text(fields(s)[4])
    } else {
        Some(0)
    }
}

/// The fullmove counter of FEN text `s` (1 when absent).
pub open spec fn fen_full(s: Seq<char>) -> Option<u16> {
    if fields(s).len() > 5 {
        u16_text(fields(s)[5])
    } else {
        Some(1)
    }
}

/// The FEN checks before the castling field pass: four fields, eight
/// good ranks, a side to move.
pub open spec fn fen_head_ok(s: Seq<char>) -> bool {
    &&& fields(s).len() >= 4
    &&& fen_ranks(s).len() == 8
    &&& forall|i: int| 0 <= i < 8 ==> #[trigger] row_ok(fen_ranks(s)[i])
    &&& (fields(s)[1] == seq!['w'] || fields(s)[1] == seq!['b'])
}

/// The error `from_fen` gives on text `s`, checked in field order, or
/// `None` when `s` is a good FEN.
pub open spec fn fen_error(s: Seq<char>) -> Option<FenError> {
    let f = fields(s);
    if f.len() < 4 {
        Some(FenError::MissingFields)
    } else if !(fen_ranks(s).len() == 8 && forall|i: int| 0 <= i < 8 ==> #[trigger] row_ok(fen_ranks(s)[i])) {
        Some(FenError::BadBoard)
    } else if !(f[1] == seq!['w'] || f[1] == seq!['b']) {
        Some(FenError::BadColor)
    } else if !(f[2] == seq!['-'] || forall|j: int| 0 <= j < f[2].len() ==> castle_letter(#[trigger] f[2][j])) {
        Some(FenError::BadCastling)
    } else if !(f[3] == seq!['-'] || exists|q: int|
        0 <= q < 64 && #[trigger] square_name(q) == f[3] && (rank_of(q) == 2 || rank_of(q) == 5)) {
        Some(FenError::BadEpSquare)
    } else if fen_half(s) is None || fen_full(s) is None {
        Some(FenError::BadCounter)
    } else if !kings_ok(fen_board_of(s)) {
        Some(FenError::BadKings)
    } else {
        None
    }
}


impl Position {
    /// Places the pieces of FEN rank `row` on rank `rank` of a board whose
    /// squares from this rank down are empty; `fb` is the board every piece
    /// placed so far makes. A second king of a color is not placed and sets
    /// `extra_king` instead. Returns whether the rank is well formed.
    fn place_row(&mut self, row: &Vec<char>, rank: u8, extra_king: &mut bool, Ghost(fb): Ghost<Seq<Option<Piece>>>) -> (ok: bool)
        requires
            old(self).boards_ok(),
            rank < 8,
            fb.len() == 64,
            forall|s: int| 0 <= s < 64 && rank_of(s) <= rank ==> #[trigger] old(self).board()[s] is None,
            forall|s: int| 0 <= s < 64 && rank_of(s) <= rank ==> #[trigger] fb[s] is None,
            !*old(extra_king) ==> old(self).board() == fb,
            *old(extra_king) ==> two_kings(fb, Color::White) || two_kings(fb, Color::Black),
        ensures
            final(self).boards_ok(),
            final(self).same_state(old(self)),
            final(self).key_rest() == old(self).key_rest(),
            final(self).pawn_rest() == old(self).pawn_rest(),
            ok == row_ok(row@),
            ok ==> {
                let fb2 = row_place(row@, row@.len() as int, rank as int, fb);
                &&& fb2.len() == 64
                &&& forall|s: int| 0 <= s < 64 && rank_of(s) < rank ==> #[trigger] final(self).board()[s] is None
                &&& forall|s: int| 0 <= s < 64 && rank_of(s) < rank ==> #[trigger] fb2[s] is None
                &&& !*final(extra_king) ==> final(self).board() == fb2
                &&& *final(extra_king) ==> two_kings(fb2, Color::White) || two_kings(fb2, Color::Black)
            },
    {
        let ghost r = rank as int;
        let mut file: u32 = 0;
        let mut j: usize = 0;
        while j < row.len()
            invariant
                rank < 8,
                r == rank as int,
                j <= row.len(),
                file <= 8,
                file == row_file(row@, j as int),
                self.boards_ok(),
                self.same_state(old(self)),
                self.key_rest() == old(self).key_rest(),
                self.pawn_rest() == old(self).pawn_rest(),
                row_place(row@, j as int, r, fb).len() == 64,
                forall|s: int|
                    0 <= s < 64 && (rank_of(s) < rank || (rank_of(s) == rank && file_of(s) >= file)) ==> #[trigger] self.board()[s] is None,
                forall|s: int|
                    0 <= s < 64 && (rank_of(s) < rank || (rank_of(s) == rank && file_of(s) >= file)) ==> #[trigger] row_place(row@, j as int, r, fb)[s] is None,
                !*extra_king ==> self.board() == row_place(row@, j as int, r, fb),
                *extra_king ==> two_kings(row_place(row@, j as int, r, fb), Color::White) || two_kings(
                    row_place(row@, j as int, r, fb),
                    Color::Black,
                ),
            decreases row.len() - j,
        {
            let c = row[j];
            let ghost cur = row_place(row@, j as int, r, fb);
            proof {
                assert(row@.take(j + 1).len() == j + 1);
            }
            if '0' <= c && c <= '9' {
                file = file + (c as u32 - '0' as u32);
                if file > 8 {
                    proof {
                        lemma_row_file_bad(row@, j + 1);
                    }
                    return false;
                }
                proof {
                    assert(letter_index(c) < 0);
                    assert(row_place(row@, j + 1, r, fb) == cur);
                }
            } else {
                match Piece::from_char(c) {
                    None => {
                        proof {
                            assert(letter_index(c) < 0) by {
                                if letter_index(c) >= 0 {
                                    assert(piece_chars()[letter_index(c)] == c);
                                }
                            }
                            lemma_row_file_bad(row@, j + 1);
                        }
                        return false;
                    },
                    Some(p) => {
                        proof {
                            assert(p@ == letter_index(c));
                        }
                        if file >= 8 {
                            proof {
                                lemma_row_file_bad(row@, j + 1);
                            }
                            return false;
                        }
                        let sq = Square::from_fr(file as u8, rank);
                        proof {
                            lemma_square_at_coords(file as int, rank as int);
                            assert(p == Piece(letter_index(c) as u8));
                        }
                        let ghost next = cur.update(sq@, Some(p));
                        let color = p.color();
                        let kbb = self.piece_bb(color, PieceType::King);
                        if p.piece_type() == PieceType::King && kbb.any() {
                            proof {
                                let k = choose|k: int| 0 <= k < 64 && #[trigger] kbb.has(k);
                                assert(holds_king(self.board(), k, color));
                                assert(k != sq@);
                                if !*extra_king {
                                    assert(holds_king(next, k, color));
                                    assert(holds_king(next, sq@, color));
                                    if color == Color::White {
                                        assert(two_kings(next, Color::White));
                                    } else {
                                        assert(two_kings(next, Color::Black));
                                    }
                                } else {
                                    lemma_two_kings_keep(cur, sq@, Some(p));
                                }
                            }
                            *extra_king = true;
                        } else {
                            proof {
                                if p@ == 5 && has_king(self.board(), Color::White) {
                                    let k = choose|k: int| 0 <= k < 64 && #[trigger] holds_king(self.board(), k, Color::White);
                                    assert(kbb.has(k));
                                }
                                if p@ == 11 && has_king(self.board(), Color::Black) {
                                    let k = choose|k: int| 0 <= k < 64 && #[trigger] holds_king(self.board(), k, Color::Black);
                                    assert(kbb.has(k));
                                }
                                if *extra_king {
                                    lemma_two_kings_keep(cur, sq@, Some(p));
                                }
                            }
                            self.put_piece(p, sq);
                        }
                        file += 1;
                        proof {
                            assert(row_place(row@, j + 1, r, fb) == next);
                        }
                    },
                }
            }
            j += 1;
        }
        if file != 8 {
            return false;
        }
        true
    }
}

/// A square name names one square.
proof fn lemma_square_name_unique(s: int)
    requires
        0 <= s < 64,
    ensures
        forall|q: int| 0 <= q < 64 && #[trigger] square_name(q) == square_name(s) ==> q == s,
{
    assert forall|q: int| 0 <= q < 64 && #[trigger] square_name(q) == square_name(s) implies q == s by {
        assert(square_name(q)[0] == square_name(s)[0]);
        assert(square_name(q)[1] == square_name(s)[1]);
        assert(file_of(q) == file_of(s));
        assert(rank_of(q) == rank_of(s));
    }
}

/// Once a rank is malformed it stays so.
proof fn lemma_row_file_bad(row: Seq<char>, n: int)
    requires
        0 <= n <= row.len(),
        row_file(row, n) == -1,
    ensures
        !row_ok(row),
    decreases row.len() - n,
{
    if n < row.len() {
        assert(row_file(row, n + 1) == -1);
        lemma_row_file_bad(row, n + 1);
    }
}

/// Filling an empty square keeps two kings of a color.
proof fn lemma_two_kings_keep(b: Seq<Option<Piece>>, s: int, x: Option<Piece>)
    requires
        b.len() == 64,
        0 <= s < b.len(),
        b[s] is None,
        two_kings(b, Color::White) || two_kings(b, Color::Black),
    ensures
        two_kings(b.update(s, x), Color::White) || two_kings(b.update(s, x), Color::Black),
{
    let b2 = b.update(s, x);
    if two_kings(b, Color::White) {
        let (i, j) = choose|i: int, j: int| 0 <= i < 64 && 0 <= j < 64 && i != j && #[trigger] holds_king(b, i, Color::White) && #[trigger] holds_king(b, j, Color::White);
        assert(i != s && j != s);
        assert(b2[i] == b[i] && b2[j] == b[j]);
        assert(holds_king(b2, i, Color::White) && holds_king(b2, j, Color::White));
    } else {
        let (i, j) = choose|i: int, j: int| 0 <= i < 64 && 0 <= j < 64 && i != j && #[trigger] holds_king(b, i, Color::Black) && #[trigger] holds_king(b, j, Color::Black);
        assert(i != s && j != s);
        assert(b2[i] == b[i] && b2[j] == b[j]);
        assert(holds_king(b2, i, Color::Black) && holds_king(b2, j, Color::Black));
    }
}

impl Position {
    /// Parses a FEN string: board, side to move, castling rights, en-passant
    /// square and the two optional counters. An en-passant square is kept only
    /// when an enemy pawn could capture onto it.
    #[verifier::spinoff_prover]
    #[verifier::rlimit(100)]
    pub fn from_fen(fen: &str) -> (r: Result<Position, FenError>)
        ensures
            r matches Ok(p) ==> p.wf() && p.depth() == 0,
            fen_error(fen@) matches Some(e) ==> r == Err::<Position, FenError>(e),
            fen_error(fen@) is None ==> (r matches Ok(p) && {
                &&& p.state().board == fen_board_of(fen@)
                &&& p.state().stm == fen_stm(fen@)
                &&& p.state().castling == fen_castling(fen@)
                &&& (match fen_ep(fen@) {
                    Some(q) => p.state().ep matches Some(e) && e@ == q,
                    None => p.state().ep is None,
                })
                &&& fen_half(fen@) == Some(p.state().halfmove)
                &&& fen_full(fen@) == Some(p.state().fullmove)
            }),
    {
        proof {
            reveal(Position::wf);
        }
        let chars = chars_of(fen);
        let fields = split_fields(&chars);
        let ghost fs = crate::text::fields(fen@);
        proof {
            assert(fields@.map_values(|v: Vec<char>| v@) == fs);
            assert(fields@.len() == fs.len());
        }
        if fields.len() < 4 {
            return Err(FenError::MissingFields);
        }
        proof {
            assert(fields@[0]@ == fs[0]);
            assert(fields@[1]@ == fs[1]);
            assert(fields@[2]@ == fs[2]);
            assert(fields@[3]@ == fs[3]);
        }
        let mut pos = Position::new_empty();

        // piece placement: ranks 8..1 separated by '/'
        let ranks = split_on(&fields[0], '/');
        let ghost rk = ranks@.map_values(|v: Vec<char>| v@);
        proof {
            assert(rk == fen_ranks(fen@));
        }
        if ranks.len() != 8 {
            return Err(FenError::BadBoard);
        }
        let mut extra_king = false;
        let mut i: usize = 0;
        while i < 8
            invariant
                i <= 8,
                ranks.len() == 8,
                rk == ranks@.map_values(|v: Vec<char>| v@),
                pos.boards_ok(),
                pos.key_rest() == 0u64,
                pos.pawn_rest() == 0u64,
                pos.state().stm == Color::White,
                pos.state().castling == 0u8,
                pos.state().ep is None,
                pos.state().halfmove == 0,
                pos.state().fullmove == 1,
                pos.trail() == (Seq::<PosState>::empty(), Seq::<crate::board::position::Undo>::empty(), Seq::<u64>::empty()),
                fen_board(rk, i as int).len() == 64,
                rk == fen_ranks(fen@),
                fs == crate::text::fields(fen@),
                fs.len() >= 4,
                forall|s: int| 0 <= s < 64 && rank_of(s) <= 7 - i ==> #[trigger] pos.board()[s] is None,
                forall|s: int| 0 <= s < 64 && rank_of(s) <= 7 - i ==> #[trigger] fen_board(rk, i as int)[s] is None,
                !extra_king ==> pos.board() == fen_board(rk, i as int),
                extra_king ==> two_kings(fen_board(rk, i as int), Color::White) || two_kings(
                    fen_board(rk, i as int),
                    Color::Black,
                ),
                forall|k: int| 0 <= k < i ==> #[trigger] row_ok(rk[k]),
            decreases 8 - i,
        {
            let rank: u8 = (7 - i) as u8;
            let ghost fb = fen_board(rk, i as int);
            let ghost p0 = pos;
            proof {
                assert(ranks@[i as int]@ == rk[i as int]);
            }
            let ok = pos.place_row(&ranks[i], rank, &mut extra_king, Ghost(fb));
            if !ok {
                proof {
                    assert(!row_ok(fen_ranks(fen@)[i as int]));
                    assert(fen_error(fen@) == Some(FenError::BadBoard));
                }
                return Err(FenError::BadBoard);
            }
            proof {
                assert(fen_board(rk, i + 1) == row_place(rk[i as int], rk[i as int].len() as int, rank as int, fb));
                assert(pos.trail() == p0.trail());
            }
            i += 1;
        }
        let ghost bd = fen_board(rk, 8);
        proof {
            assert(bd == fen_board_of(fen@));
            assert(forall|k: int| 0 <= k < 8 ==> #[trigger] row_ok(fen_ranks(fen@)[k]));
        }

        let col = &fields[1];
        if col.len() == 1 && col[0] == 'w' {
            pos.stm = Color::White;
            proof {
                assert(col@ =~= seq!['w']);
            }
        } else if col.len() == 1 && col[0] == 'b' {
            pos.stm = Color::Black;
            proof {
                assert(col@ =~= seq!['b']);
            }
        } else {
            proof {
                assert(col@ != seq!['w']) by {
                    if col@ == seq!['w'] {
                        assert(col@.len() == 1 && col@[0] == 'w');
                    }
                }
                assert(col@ != seq!['b']) by {
                    if col@ == seq!['b'] {
                        assert(col@.len() == 1 && col@[0] == 'b');
                    }
                }
            }
            return Err(FenError::BadColor);
        }
        proof {
            assert(pos.stm == fen_stm(fen@));
            assert(fen_head_ok(fen@));
        }

        let cas = &fields[2];
        let is_dash = cas.len() == 1 && cas[0] == '-';
        proof {
            if is_dash {
                assert(cas@ =~= seq!['-']);
            } else {
                assert(cas@ != seq!['-']) by {
                    if cas@ == seq!['-'] {
                        assert(cas@.len() == 1 && cas@[0] == '-');
                    }
                }
            }
        }
        if !is_dash {
            let mut j: usize = 0;
            while j < cas.len()
                invariant
                    j <= cas.len(),
                    cas@ == fs[2],
                    fs == crate::text::fields(fen@),
                    fen_head_ok(fen@),
                    cas@ != seq!['-'],
                    pos.boards_ok(),
                    pos.key_rest() == 0u64,
                    pos.pawn_rest() == 0u64,
                    pos.state().castling < 16,
                    pos.state().castling == castle_value(cas@, j as int),
                    forall|k: int| 0 <= k < j ==> castle_letter(#[trigger] cas@[k]),
                    pos.state().ep is None,
                    pos.state().halfmove == 0,
                    pos.state().fullmove == 1,
                    pos.state().stm == fen_stm(fen@),
                    !extra_king ==> pos.board() == bd,
                    pos.trail() == (Seq::<PosState>::empty(), Seq::<crate::board::position::Undo>::empty(), Seq::<u64>::empty()),
                decreases cas.len() - j,
            {
                let c = cas[j];
                let right = if c == 'K' {
                    CastlingRights::wk()
                } else if c == 'Q' {
                    CastlingRights::wq()
                } else if c == 'k' {
                    CastlingRights::bk()
                } else if c == 'q' {
                    CastlingRights::bq()
                } else {
                    proof {
                        assert(!castle_letter(cas@[j as int]));
                        assert(fen_error(fen@) == Some(FenError::BadCastling));
                    }
                    return Err(FenError::BadCastling);
                };
                let before = pos.castling.bits();
                pos.castling = pos.castling.union(right);
                proof {
                    let rb = right@;
                    assert(before < 16 && (rb == 1 || rb == 2 || rb == 4 || rb == 8) ==> (before | rb)
                        < 16) by (bit_vector);
                    assert(rb == castle_letter_bit(c));
                }
                j += 1;
            }
        }
        proof {
            assert(pos.state().castling == fen_castling(fen@));
        }

        let epf = &fields[3];
        let ep_dash = epf.len() == 1 && epf[0] == '-';
        proof {
            if ep_dash {
                assert(epf@ =~= seq!['-']);
            } else {
                assert(epf@ != seq!['-']) by {
                    if epf@ == seq!['-'] {
                        assert(epf@.len() == 1 && epf@[0] == '-');
                    }
                }
            }
        }
        if !ep_dash {
            match Square::from_chars(epf) {
                None => {
                    proof {
                        assert(fen_error(fen@) == Some(FenError::BadEpSquare));
                    }
                    return Err(FenError::BadEpSquare);
                },
                Some(sq) => {
                    proof {
                        lemma_square_name_unique(sq@);
                        assert(fen_ep_named(fen@) == sq@);
                    }
                    if sq.rank() != 2 && sq.rank() != 5 {
                        proof {
                            assert(fen_error(fen@) == Some(FenError::BadEpSquare));
                        }
                        return Err(FenError::BadEpSquare);
                    }
                    // pusher is the side that is NOT to move
                    if pos.ep_capturable(sq, pos.stm.flip()) {
                        pos.ep = Some(sq);
                    }
                },
            }
        }
        let ghost ep_board = pos.board();

        let halfmove = if fields.len() > 4 {
            proof {
                assert(fields@[4]@ == fs[4]);
            }
            parse_u16(&fields[4])
        } else {
            Some(0)
        };
        let fullmove = if fields.len() > 5 {
            proof {
                assert(fields@[5]@ == fs[5]);
            }
            parse_u16(&fields[5])
        } else {
            Some(1)
        };
        match halfmove {
            Some(h) => {
                pos.halfmove = h;
            },
            None => {
                return Err(FenError::BadCounter);
            },
        }
        match fullmove {
            Some(f) => {
                pos.fullmove = f;
            },
            None => {
                return Err(FenError::BadCounter);
            },
        }

        let wkb = pos.piece_bb(Color::White, PieceType::King);
        let bkb = pos.piece_bb(Color::Black, PieceType::King);
        let wk = wkb.any();
        let bk = bkb.any();
        if extra_king || !wk || !bk {
            proof {
                if extra_king {
                    assert(!kings_ok(bd));
                } else if !wk {
                    assert(!has_king(bd, Color::White)) by {
                        if has_king(bd, Color::White) {
                            let k = choose|k: int| 0 <= k < 64 && #[trigger] holds_king(bd, k, Color::White);
                            assert(wkb.has(k));
                        }
                    }
                } else {
                    assert(!has_king(bd, Color::Black)) by {
                        if has_king(bd, Color::Black) {
                            let k = choose|k: int| 0 <= k < 64 && #[trigger] holds_king(bd, k, Color::Black);
                            assert(bkb.has(k));
                        }
                    }
                }
                assert(fen_error(fen@) == Some(FenError::BadKings));
            }
            return Err(FenError::BadKings);
        }
        proof {
            assert(pos.board() == bd);
            assert(!two_kings(bd, Color::White));
            assert(!two_kings(bd, Color::Black));
            let b = pos.board();
            let kw = choose|k: int| 0 <= k < 64 && #[trigger] wkb.has(k);
            assert(holds_king(b, kw, Color::White));
            let kb = choose|k: int| 0 <= k < 64 && #[trigger] bkb.has(k);
            assert(holds_king(b, kb, Color::Black));
        }

        // piece placement already XORed via put_piece; add the rest
        let ghost k0 = pos.key;
        let ghost h = board_hash(pos.board(), 64);
        let ck = castling_rights_key(pos.castling.bits());
        let ek = match pos.ep {
            Some(ep) => ep_file_key(ep.file()),
            None => 0u64,
        };
        let sk = if pos.stm == Color::Black {
            black_to_move()
        } else {
            0u64
        };
        pos.key = pos.key ^ ck ^ ek ^ sk;
        proof {
            assert(ek == ep_term(pos.ep));
            assert(sk == stm_term(pos.stm));
            assert(k0 ^ h == 0u64);
            lemma_xor(k0, ck, ek, sk, h);
            let pk = pos.pawn_key;
            let ph = pawn_hash(pos.board(), 64);
            lemma_xor(pk, ph, 0, 0, 0);
            reveal(Position::history_ok);
        }
        Ok(pos)
    }
}

/// The digit for a run of `e` (1..8) empty squares.
pub open spec fn empty_digit(e: int) -> Seq<char> {
    if e > 0 {
        seq![(48 + e) as char]
    } else {
        Seq::empty()
    }
}

/// FEN text of files `f..8` of rank `r`, with `e` empty squares pending.
pub open spec fn rank_text(b: Seq<Option<Piece>>, r: int, f: int, e: int) -> Seq<char>
    decreases 8 - f,
{
    if f >= 8 {
        empty_digit(e)
    } else {
        match b[square_at(f, r)] {
            Some(p) => empty_digit(e) + seq![piece_chars()[p@]] + rank_text(b, r, f + 1, 0),
            None => rank_text(b, r, f + 1, e + 1),
        }
    }
}

/// FEN piece placement of ranks `r` down to 0, `/`-separated.
pub open spec fn placement_text(b: Seq<Option<Piece>>, r: int) -> Seq<char>
    decreases r,
{
    if r <= 0 {
        rank_text(b, 0, 0, 0)
    } else {
        rank_text(b, r, 0, 0) + seq!['/'] + placement_text(b, r - 1)
    }
}

/// FEN castling field.
pub open spec fn castling_text(c: u8) -> Seq<char> {
    if c == 0 {
        seq!['-']
    } else {
        (if c & 1 != 0 { seq!['K'] } else { Seq::empty() }) + (if c & 2 != 0 { seq!['Q'] } else { Seq::empty() })
            + (if c & 4 != 0 { seq!['k'] } else { Seq::empty() }) + (if c & 8 != 0 { seq!['q'] } else { Seq::empty() })
    }
}

/// The FEN text of a position.
pub open spec fn fen_text(s: PosState) -> Seq<char> {
    placement_text(s.board, 7) + seq![' ', if s.stm == Color::White { 'w' } else { 'b' }, ' ']
        + castling_text(s.castling) + seq![' '] + (match s.ep {
        Some(e) => square_name(e@),
        None => seq!['-'],
    }) + seq![' '] + decimal_text(s.halfmove as nat) + seq![' '] + decimal_text(s.fullmove as nat)
}

impl Position {
    /// The FEN of the position.
    #[verifier::spinoff_prover]
    #[verifier::rlimit(50)]
    pub fn to_fen(&self) -> (out: String)
        requires
            self.wf(),
        ensures
            out@ == fen_text(self.state()),
    {
        proof {
            reveal(Position::wf);
        }
        let ghost b = self.state().board;
        let mut out = String::new();
        let mut rank: u8 = 8;
        while rank > 0
            invariant
                rank <= 8,
                b == self.state().board,
                out@ + (if rank > 0 { placement_text(b, rank - 1) } else { Seq::empty() }) == placement_text(b, 7),
            decreases rank,
        {
            rank -= 1;
            let ghost before = out@;
            let ghost rest = if rank > 0 { seq!['/'] + placement_text(b, rank - 1) } else { Seq::<char>::empty() };
            proof {
                assert(placement_text(b, rank as int) =~= rank_text(b, rank as int, 0, 0) + rest);
            }
            let mut empty: u8 = 0;
            let mut file: u8 = 0;
            while file < 8
                invariant
                    file <= 8,
                    rank < 8,
                    empty <= file,
                    b == self.state().board,
                    out@ + rank_text(b, rank as int, file as int, empty as int) == before + rank_text(b, rank as int, 0, 0),
                decreases 8 - file,
            {
                let ghost o = out@;
                let ghost e0 = empty as int;
                match self.mailbox[Square::from_fr(file, rank).index()] {
                    Some(p) => {
                        if empty > 0 {
                            push_char(&mut out, (48u8 + empty) as char);
                            empty = 0;
                        }
                        push_char(&mut out, p.to_char());
                        proof {
                            assert(out@ + rank_text(b, rank as int, file + 1, 0) =~= o + rank_text(b, rank as int, file as int, e0));
                        }
                    },
                    None => {
                        empty += 1;
                    },
                }
                file += 1;
            }
            if empty > 0 {
                push_char(&mut out, (48u8 + empty) as char);
            }
            proof {
                assert(out@ =~= before + rank_text(b, rank as int, 0, 0));
            }
            if rank > 0 {
                push_char(&mut out, '/');
            }
            proof {
                assert(out@ + (if rank > 0 { placement_text(b, rank - 1) } else { Seq::empty() }) =~= before + placement_text(b, rank as int));
            }
        }
        push_char(&mut out, ' ');
        push_char(
            &mut out,
            if self.stm == Color::White {
                'w'
            } else {
                'b'
            },
        );
        push_char(&mut out, ' ');
        let ghost c = self.state().castling;
        let ghost o1 = out@;
        if self.castling.bits() == 0 {
            push_char(&mut out, '-');
        } else {
            if self.castling.has(CastlingRights::wk()) {
                push_char(&mut out, 'K');
            }
            if self.castling.has(CastlingRights::wq()) {
                push_char(&mut out, 'Q');
            }
            if self.castling.has(CastlingRights::bk()) {
                push_char(&mut out, 'k');
            }
            if self.castling.has(CastlingRights::bq()) {
                push_char(&mut out, 'q');
            }
        }
        proof {
            assert(out@ =~= o1 + castling_text(c));
        }
        push_char(&mut out, ' ');
        match self.ep {
            Some(sq) => sq.push_name(&mut out),
            None => push_char(&mut out, '-'),
        }
        push_char(&mut out, ' ');
        push_decimal(&mut out, self.halfmove as u32);
        push_char(&mut out, ' ');
        push_decimal(&mut out, self.fullmove as u32);
        proof {
            assert(out@ =~= fen_text(self.state()));
        }
        out
    }
}

/// The start position's pieces on files `0..f` only.
pub open spec fn start_upto(f: int) -> Seq<Option<Piece>> {
    Seq::new(
        64,
        |s: int|
            if file_of(s) < f {
                start_piece(s)
            } else {
                None
            },
    )
}

/// Filling in file `f` (squares on ranks 1, 2, 7, 8) extends the prefix.
pub proof fn lemma_start_step(f: int)
    requires
        0 <= f < 8,
    ensures
        start_upto(f)[square_at(f, 0)] is None,
        start_upto(f)[square_at(f, 1)] is None,
        start_upto(f)[square_at(f, 6)] is None,
        start_upto(f)[square_at(f, 7)] is None,
        f <= 4 ==> !has_king(
            start_upto(f).update(
                square_at(f, 0),
                Some(piece_of(Color::White, back_rank_type(f))),
            ).update(square_at(f, 1), Some(piece_of(Color::White, PieceType::Pawn))).update(
                square_at(f, 6),
                Some(piece_of(Color::Black, PieceType::Pawn)),
            ),
            Color::Black,
        ),
        f <= 4 ==> !has_king(start_upto(f), Color::White),
        start_upto(f).update(
            square_at(f, 0),
            Some(piece_of(Color::White, back_rank_type(f))),
        ).update(square_at(f, 1), Some(piece_of(Color::White, PieceType::Pawn))).update(
            square_at(f, 6),
            Some(piece_of(Color::Black, PieceType::Pawn)),
        ).update(square_at(f, 7), Some(piece_of(Color::Black, back_rank_type(f)))) == start_upto(
            f + 1,
        ),
{
    let b = start_upto(f).update(
        square_at(f, 0),
        Some(piece_of(Color::White, back_rank_type(f))),
    ).update(square_at(f, 1), Some(piece_of(Color::White, PieceType::Pawn))).update(
        square_at(f, 6),
        Some(piece_of(Color::Black, PieceType::Pawn)),
    ).update(square_at(f, 7), Some(piece_of(Color::Black, back_rank_type(f))));
    assert forall|s: int| 0 <= s < 64 implies #[trigger] b[s] == start_upto(f + 1)[s] by {
        if file_of(s) == f {
            lemma_square_at_inverse(s);
        }
    }
    assert(b =~= start_upto(f + 1));
    let b3 = start_upto(f).update(
        square_at(f, 0),
        Some(piece_of(Color::White, back_rank_type(f))),
    ).update(square_at(f, 1), Some(piece_of(Color::White, PieceType::Pawn))).update(
        square_at(f, 6),
        Some(piece_of(Color::Black, PieceType::Pawn)),
    );
    if f <= 4 {
        assert forall|i: int| 0 <= i < 64 implies !#[trigger] holds_king(b3, i, Color::Black) by {
            if file_of(i) == f {
                lemma_square_at_inverse(i);
            }
        }
        assert forall|i: int| 0 <= i < 64 implies !#[trigger] holds_king(start_upto(f), i, Color::White) by {}
    }
}

/// The kings stand on file 4.
pub proof fn lemma_start_kings(f: int)
    requires
        0 <= f <= 8,
    ensures
        has_king(start_upto(f), Color::White) == (f > 4),
        has_king(start_upto(f), Color::Black) == (f > 4),
{
    let b = start_upto(f);
    if f > 4 {
        assert(holds_king(b, 4, Color::White));
        assert(holds_king(b, 60, Color::Black));
    } else {
        assert forall|i: int| 0 <= i < 64 implies !#[trigger] holds_king(b, i, Color::White) by {}
        assert forall|i: int| 0 <= i < 64 implies !#[trigger] holds_king(b, i, Color::Black) by {}
    }
}

pub proof fn lemma_square_at_coords(f: int, r: int)
    requires
        0 <= f < 8,
        0 <= r < 8,
    ensures
        file_of(square_at(f, r)) == f,
        rank_of(square_at(f, r)) == r,
        0 <= square_at(f, r) < 64,
{
}

pub proof fn lemma_square_at_inverse(s: int)
    requires
        0 <= s < 64,
    ensures
        square_at(file_of(s), rank_of(s)) == s,
        0 <= file_of(s) < 8,
        0 <= rank_of(s) < 8,
{
}

} // verus!
