use vstd::prelude::*;
use crate::castling::{CastlingRights, BLACK_KING_SIDE, BLACK_QUEEN_SIDE, WHITE_KING_SIDE, WHITE_QUEEN_SIDE};
use crate::chess_move::push_square;
use crate::coords::{square_name, Color, Square};
use crate::piece::{Piece, PieceType};
use crate::position::Position;
use crate::text::{all_digits, chars_of, decimal, digits_value, is_digit, parse_decimal, push_char, push_decimal};

verus! {

/// The FEN letter of a piece: upper case for White.
pub open spec fn piece_char(p: Piece) -> char {
    let c = if p.id / 2 == 0 {
        'p'
    } else if p.id / 2 == 1 {
        'n'
    } else if p.id / 2 == 2 {
        'b'
    } else if p.id / 2 == 3 {
        'r'
    } else if p.id / 2 == 4 {
        'q'
    } else {
        'k'
    };
    if p.id % 2 == 0 {
        ((c as u8) - 32) as char
    } else {
        c
    }
}

/// A count of empty squares, written only when positive.
pub open spec fn gap_text(n: nat) -> Seq<char> {
    if n > 0 {
        decimal(n)
    } else {
        Seq::empty()
    }
}

/// FEN text of rank `r` from file `f` on, after `empty` empty squares.
pub open spec fn rank_text(b: Seq<Piece>, r: int, f: int, empty: nat) -> Seq<char>
    decreases 8 - f,
{
    if f >= 8 {
        gap_text(empty)
    } else if b[r * 8 + f].id == 12 {
        rank_text(b, r, f + 1, empty + 1)
    } else {
        gap_text(empty).push(piece_char(b[r * 8 + f])) + rank_text(b, r, f + 1, 0)
    }
}

/// FEN text of the ranks from `r` down to the first.
pub open spec fn board_text(b: Seq<Piece>, r: int) -> Seq<char>
    decreases r + 1,
{
    if r < 0 {
        Seq::empty()
    } else if r == 0 {
        rank_text(b, 0, 0, 0)
    } else {
        rank_text(b, r, 0, 0).push('/') + board_text(b, r - 1)
    }
}

/// FEN castling field.
pub open spec fn castling_text(bits: u8) -> Seq<char> {
    if bits & 15 == 0 {
        seq!['-']
    } else {
        (if bits & 1 != 0 { seq!['K'] } else { Seq::empty() }) + (if bits & 2 != 0 {
            seq!['Q']
        } else {
            Seq::empty()
        }) + (if bits & 4 != 0 { seq!['k'] } else { Seq::empty() }) + (if bits & 8 != 0 {
            seq!['q']
        } else {
            Seq::empty()
        })
    }
}

/// The FEN text of a position.
pub open spec fn fen_text(p: Position) -> Seq<char> {
    board_text(p.pieces@, 7) + seq![' ', if p.stm == Color::White { 'w' } else { 'b' }, ' ']
        + castling_text(p.castling_rights.bits) + seq![' '] + (if p.enpassant.idx >= 64 {
        seq!['-']
    } else {
        square_name(p.enpassant.idx as int)
    }) + seq![' '] + decimal(p.halfm as nat) + seq![' '] + decimal(p.fullm as nat)
}

fn piece_letter(p: Piece) -> (c: char)
    requires
        p.id < 12,
    ensures
        c == piece_char(p),
{
    let c = if p.id / 2 == 0 {
        'p'
    } else if p.id / 2 == 1 {
        'n'
    } else if p.id / 2 == 2 {
        'b'
    } else if p.id / 2 == 3 {
        'r'
    } else if p.id / 2 == 4 {
        'q'
    } else {
        'k'
    };
    if p.id % 2 == 0 {
        ((c as u8) - 32) as char
    } else {
        c
    }
}

fn push_gap(s: &mut String, n: u32)
    ensures
        final(s)@ == old(s)@ + gap_text(n as nat),
{
    if n > 0 {
        push_decimal(s, n);
    } else {
        assert(s@ =~= old(s)@ + gap_text(n as nat));
    }
}

fn push_rank(s: &mut String, pieces: &[Piece; 64], r: u32)
    requires
        r < 8,
        forall|i: int| 0 <= i < 64 ==> pieces@[i].id <= 12,
    ensures
        final(s)@ == old(s)@ + rank_text(pieces@, r as int, 0, 0),
{
    let mut empty: u32 = 0;
    let mut f: u32 = 0;
    while f < 8
        invariant
            f <= 8,
            empty <= f,
            r < 8,
            forall|i: int| 0 <= i < 64 ==> pieces@[i].id <= 12,
            s@ + rank_text(pieces@, r as int, f as int, empty as nat) == old(s)@ + rank_text(
                pieces@,
                r as int,
                0,
                0,
            ),
        decreases 8 - f,
    {
        let p = pieces[(r * 8 + f) as usize];
        if p.id == 12 {
            empty = empty + 1;
        } else {
            let ghost before = s@;
            let ghost empty_before = empty;
            push_gap(s, empty);
            push_char(s, piece_letter(p));
            empty = 0;
            proof {
                assert(s@ + rank_text(pieces@, r as int, (f + 1) as int, 0) =~= before + rank_text(
                    pieces@,
                    r as int,
                    f as int,
                    empty_before as nat,
                ));
            }
        }
        f = f + 1;
    }
    let ghost before = s@;
    push_gap(s, empty);
    assert(s@ =~= before + rank_text(pieces@, r as int, 8, empty as nat));
}

fn push_board(s: &mut String, pieces: &[Piece; 64])
    requires
        forall|i: int| 0 <= i < 64 ==> pieces@[i].id <= 12,
    ensures
        final(s)@ == old(s)@ + board_text(pieces@, 7),
{
    let mut r: u32 = 8;
    while r > 0
        invariant
            r <= 8,
            forall|i: int| 0 <= i < 64 ==> pieces@[i].id <= 12,
            s@ + board_text(pieces@, r - 1) == old(s)@ + board_text(pieces@, 7),
        decreases r,
    {
        let ghost before = s@;
        push_rank(s, pieces, r - 1);
        if r > 1 {
            push_char(s, '/');
        }
        proof {
            assert(s@ + board_text(pieces@, r - 2) =~= before + board_text(pieces@, r - 1));
        }
        r = r - 1;
    }
    assert(s@ =~= old(s)@ + board_text(pieces@, 7));
}

fn push_castling(s: &mut String, cr: u8)
    ensures
        final(s)@ == old(s)@ + castling_text(cr),
{
    if cr & 15 == 0 {
        push_char(s, '-');
    } else {
        if cr & 1 != 0 {
            push_char(s, 'K');
        }
        if cr & 2 != 0 {
            push_char(s, 'Q');
        }
        if cr & 4 != 0 {
            push_char(s, 'k');
        }
        if cr & 8 != 0 {
            push_char(s, 'q');
        }
    }
    assert(s@ =~= old(s)@ + castling_text(cr));
}

fn push_ep(s: &mut String, ep: Square)
    ensures
        final(s)@ == old(s)@ + (if ep.idx >= 64 {
            seq!['-']
        } else {
            square_name(ep.idx as int)
        }),
{
    if ep.idx >= 64 {
        push_char(s, '-');
    } else {
        push_square(s, ep);
    }
}

impl Position {
    /// The position in Forsyth-Edwards notation.
    pub fn fen(&self) -> (r: String)
        requires
            self.wf(),
        ensures
            r@ == fen_text(*self),
    {
        let mut s = String::new();
        proof {
            assert forall|i: int| 0 <= i < 64 implies self.pieces@[i].id <= 12 by {
                assert(crate::position::square_agrees(*self, i));
            }
        }
        push_board(&mut s, &self.pieces);
        push_char(&mut s, ' ');
        push_char(
            &mut s,
            if self.stm == Color::White {
                'w'
            } else {
                'b'
            },
        );
        push_char(&mut s, ' ');
        push_castling(&mut s, self.castling_rights.bits);
        push_char(&mut s, ' ');
        push_ep(&mut s, self.enpassant);
        push_char(&mut s, ' ');
        push_decimal(&mut s, self.halfm as u32);
        push_char(&mut s, ' ');
        push_decimal(&mut s, self.fullm as u32);
        proof {
            assert(s@ =~= fen_text(*self));
        }
        s
    }
}

pub open spec fn is_blank(c: char) -> bool {
    c == ' ' || c == '\t' || c == '\n' || c == '\r'
}

fn is_space(c: char) -> (r: bool)
    ensures
        r == is_blank(c),
{
    c == ' ' || c == '\t' || c == '\n' || c == '\r'
}

/// The words finished within `s` and the word still open at its end.
pub open spec fn split_state(s: Seq<char>) -> (Seq<Seq<char>>, Seq<char>)
    decreases s.len(),
{
    if s.len() == 0 {
        (Seq::empty(), Seq::empty())
    } else {
        let (out, cur) = split_state(s.drop_last());
        let c = s.last();
        if is_blank(c) {
            if cur.len() > 0 {
                (out.push(cur), Seq::empty())
            } else {
                (out, Seq::empty())
            }
        } else {
            (out, cur.push(c))
        }
    }
}

/// The blank-separated words of `s`.
pub open spec fn words(s: Seq<char>) -> Seq<Seq<char>> {
    let (out, cur) = split_state(s);
    if cur.len() > 0 {
        out.push(cur)
    } else {
        out
    }
}

/// Splits `text` into its runs of non-blank characters.
fn split_fields(text: &Vec<char>) -> (r: Vec<Vec<char>>)
    ensures
        r@.map_values(|v: Vec<char>| v@) == words(text@),
{
    let mut out: Vec<Vec<char>> = Vec::new();
    let mut cur: Vec<char> = Vec::new();
    let mut i: usize = 0;
    while i < text.len()
        invariant
            i <= text@.len(),
            (out@.map_values(|v: Vec<char>| v@), cur@) == split_state(text@.subrange(0, i as int)),
        decreases text@.len() - i,
    {
        let c = text[i];
        proof {
            assert(text@.subrange(0, i + 1).drop_last() =~= text@.subrange(0, i as int));
        }
        let ghost before = out@.map_values(|v: Vec<char>| v@);
        if is_space(c) {
            if cur.len() > 0 {
                let ghost cv = cur@;
                out.push(cur);
                cur = Vec::new();
                proof {
                    assert(out@.map_values(|v: Vec<char>| v@) =~= before.push(cv));
                }
            } else {
                cur = Vec::new();
            }
        } else {
            cur.push(c);
        }
        i = i + 1;
    }
    proof {
        assert(text@.subrange(0, i as int) =~= text@);
    }
    let ghost before = out@.map_values(|v: Vec<char>| v@);
    if cur.len() > 0 {
        let ghost cv = cur@;
        out.push(cur);
        proof {
            assert(out@.map_values(|v: Vec<char>| v@) =~= before.push(cv));
        }
    }
    out
}

fn string_of(chars: &Vec<char>) -> (r: String)
    ensures
        r@ == chars@,
{
    let mut s = String::new();
    let mut i: usize = 0;
    while i < chars.len()
        invariant
            i <= chars@.len(),
            s@ == chars@.subrange(0, i as int),
        decreases chars@.len() - i,
    {
        push_char(&mut s, chars[i]);
        i = i + 1;
        proof {
            assert(s@ =~= chars@.subrange(0, i as int));
        }
    }
    proof {
        assert(chars@.subrange(0, i as int) =~= chars@);
    }
    s
}

/// The piece a FEN letter names.
pub open spec fn letter_piece(c: char) -> Option<Piece> {
    if c == 'P' {
        Some(Piece { id: 0 })
    } else if c == 'p' {
        Some(Piece { id: 1 })
    } else if c == 'N' {
        Some(Piece { id: 2 })
    } else if c == 'n' {
        Some(Piece { id: 3 })
    } else if c == 'B' {
        Some(Piece { id: 4 })
    } else if c == 'b' {
        Some(Piece { id: 5 })
    } else if c == 'R' {
        Some(Piece { id: 6 })
    } else if c == 'r' {
        Some(Piece { id: 7 })
    } else if c == 'Q' {
        Some(Piece { id: 8 })
    } else if c == 'q' {
        Some(Piece { id: 9 })
    } else if c == 'K' {
        Some(Piece { id: 10 })
    } else if c == 'k' {
        Some(Piece { id: 11 })
    } else {
        None
    }
}

fn piece_of_letter(c: char) -> (r: Option<Piece>)
    ensures
        r == letter_piece(c),
{
    let (pt, color) = match c {
        'P' => (PieceType::Pawn, Color::White),
        'N' => (PieceType::Knight, Color::White),
        'B' => (PieceType::Bishop, Color::White),
        'R' => (PieceType::Rook, Color::White),
        'Q' => (PieceType::Queen, Color::White),
        'K' => (PieceType::King, Color::White),
        'p' => (PieceType::Pawn, Color::Black),
        'n' => (PieceType::Knight, Color::Black),
        'b' => (PieceType::Bishop, Color::Black),
        'r' => (PieceType::Rook, Color::Black),
        'q' => (PieceType::Queen, Color::Black),
        'k' => (PieceType::King, Color::Black),
        _ => {
            return None;
        },
    };
    Some(Piece::new(pt, color))
}

/// The empty board.
pub open spec fn empty_board() -> Seq<Piece> {
    Seq::new(64, |i: int| Piece { id: 12 })
}

/// One character of the board field read: rank, file and board so far, or a failure.
pub open spec fn board_step(st: Option<(int, int, Seq<Piece>)>, c: char) -> Option<(int, int, Seq<Piece>)> {
    match st {
        None => None,
        Some((rank, file, b)) => {
            if c == '/' {
                if rank == 0 {
                    None
                } else {
                    Some((rank - 1, 0, b))
                }
            } else if '1' <= c <= '8' {
                let d = (c as int) - ('0' as int);
                if file + d > 8 {
                    None
                } else {
                    Some((rank, file + d, b))
                }
            } else if letter_piece(c).is_some() {
                if file >= 8 {
                    None
                } else {
                    Some((rank, file + 1, b.update(rank * 8 + file, letter_piece(c).unwrap())))
                }
            } else {
                None
            }
        },
    }
}

/// The board field read from the start: ranks from the eighth down, files from a.
pub open spec fn board_fold(tok: Seq<char>) -> Option<(int, int, Seq<Piece>)>
    decreases tok.len(),
{
    if tok.len() == 0 {
        Some((7, 0, empty_board()))
    } else {
        board_step(board_fold(tok.drop_last()), tok.last())
    }
}

/// The castling field: `-`, or letters among `KQkq`.
pub open spec fn castle_fold(tok: Seq<char>) -> Option<u8>
    decreases tok.len(),
{
    if tok == seq!['-'] {
        Some(0)
    } else if tok.len() == 0 {
        Some(0)
    } else {
        match castle_fold_letters(tok) {
            Some(b) => Some(b),
            None => None,
        }
    }
}

pub open spec fn castle_fold_letters(tok: Seq<char>) -> Option<u8>
    decreases tok.len(),
{
    if tok.len() == 0 {
        Some(0)
    } else {
        let c = tok.last();
        let f: u8 = if c == 'K' {
            WHITE_KING_SIDE
        } else if c == 'Q' {
            WHITE_QUEEN_SIDE
        } else if c == 'k' {
            BLACK_KING_SIDE
        } else {
            BLACK_QUEEN_SIDE
        };
        match castle_fold_letters(tok.drop_last()) {
            None => None,
            Some(b) => if c == 'K' || c == 'Q' || c == 'k' || c == 'q' {
                Some(b | f)
            } else {
                None
            },
        }
    }
}

/// The en-passant field: `-` for none, or a square name.
pub open spec fn ep_of(tok: Seq<char>) -> Option<int> {
    if tok == seq!['-'] {
        Some(64)
    } else if tok.len() == 2 && 'a' <= tok[0] <= 'h' && '1' <= tok[1] <= '8' {
        Some(((tok[1] as int) - ('1' as int)) * 8 + (tok[0] as int) - ('a' as int))
    } else {
        None
    }
}

/// A counter field no larger than `max`.
pub open spec fn number_ok(tok: Seq<char>, max: int) -> bool {
    tok.len() > 0 && all_digits(tok) && digits_value(tok) <= max
}

/// The text is a FEN this reader takes: six or more words, each of the first six well formed.
pub open spec fn fen_ok(s: Seq<char>) -> bool {
    let w = words(s);
    &&& w.len() >= 6
    &&& board_fold(w[0]).is_some()
    &&& (w[1] == seq!['w'] || w[1] == seq!['b'])
    &&& castle_fold(w[2]).is_some()
    &&& ep_of(w[3]).is_some()
    &&& number_ok(w[4], 255)
    &&& number_ok(w[5], 0xFFFF)
}

proof fn lemma_board_fold_none(tok: Seq<char>, i: int)
    requires
        0 <= i <= tok.len(),
        board_fold(tok.subrange(0, i)).is_none(),
    ensures
        board_fold(tok).is_none(),
    decreases tok.len() - i,
{
    if i < tok.len() {
        assert(tok.subrange(0, i + 1).drop_last() =~= tok.subrange(0, i));
        lemma_board_fold_none(tok, i + 1);
    } else {
        assert(tok.subrange(0, i) =~= tok);
    }
}

proof fn lemma_castle_letters_none(tok: Seq<char>, i: int)
    requires
        0 <= i <= tok.len(),
        castle_fold_letters(tok.subrange(0, i)).is_none(),
    ensures
        castle_fold_letters(tok).is_none(),
    decreases tok.len() - i,
{
    if i < tok.len() {
        assert(tok.subrange(0, i + 1).drop_last() =~= tok.subrange(0, i));
        lemma_castle_letters_none(tok, i + 1);
    } else {
        assert(tok.subrange(0, i) =~= tok);
    }
}

/// Reads the board field onto an empty position.
fn parse_board(tok: &Vec<char>) -> (r: Option<Position>)
    ensures
        r.is_some() == board_fold(tok@).is_some(),
        r.is_some() ==> r.unwrap().wf() && r.unwrap().pieces@ == board_fold(tok@).unwrap().2
            && r.unwrap().stm == Color::White && r.unwrap().castling_rights.bits == 0
            && r.unwrap().halfm == 0 && r.unwrap().fullm == 1 && r.unwrap().enpassant.idx == 64,
{
    let mut pos = Position::new();
    proof {
        assert(pos.pieces@ =~= empty_board());
        assert(tok@.subrange(0, 0) =~= Seq::<char>::empty());
    }
    let mut rank: u32 = 7;
    let mut file: u32 = 0;
    let mut i: usize = 0;
    while i < tok.len()
        invariant
            pos.wf(),
            rank < 8,
            file <= 8,
            i <= tok@.len(),
            board_fold(tok@.subrange(0, i as int)) == Some((rank as int, file as int, pos.pieces@)),
            pos.stm == Color::White,
            pos.castling_rights.bits == 0,
            pos.halfm == 0,
            pos.fullm == 1,
            pos.enpassant.idx == 64,
        decreases tok@.len() - i,
    {
        let c = tok[i];
        proof {
            assert(tok@.subrange(0, i + 1).drop_last() =~= tok@.subrange(0, i as int));
        }
        if c == '/' {
            if rank == 0 {
                proof {
                    lemma_board_fold_none(tok@, i + 1);
                }
                return None;
            }
            rank = rank - 1;
            file = 0;
        } else if '1' <= c && c <= '8' {
            let d = ((c as u8) - ('0' as u8)) as u32;
            if file + d > 8 {
                proof {
                    lemma_board_fold_none(tok@, i + 1);
                }
                return None;
            }
            file = file + d;
        } else {
            match piece_of_letter(c) {
                Some(pc) => {
                    if file >= 8 {
                        proof {
                            lemma_board_fold_none(tok@, i + 1);
                        }
                        return None;
                    }
                    pos.place(pc, Square::from_file_rank(file, rank));
                    file = file + 1;
                },
                None => {
                    proof {
                        lemma_board_fold_none(tok@, i + 1);
                    }
                    return None;
                },
            }
        }
        i = i + 1;
    }
    proof {
        assert(tok@.subrange(0, i as int) =~= tok@);
    }
    Some(pos)
}

/// Reads the castling field.
fn parse_castling(tok: &Vec<char>) -> (r: Option<CastlingRights>)
    ensures
        r.is_some() == castle_fold(tok@).is_some(),
        r.is_some() ==> r.unwrap().bits == castle_fold(tok@).unwrap() && r.unwrap().valid(),
{
    if tok.len() == 1 && tok[0] == '-' {
        proof {
            assert(tok@ =~= seq!['-']);
        }
        return Some(CastlingRights::none());
    }
    proof {
        assert(tok@ != seq!['-']) by {
            if tok@ == seq!['-'] {
                assert(tok@[0] == '-');
                assert(tok@.len() == 1);
            }
        }
        assert(tok@.subrange(0, 0) =~= Seq::<char>::empty());
    }
    let mut rights = CastlingRights::none();
    let mut k: usize = 0;
    while k < tok.len()
        invariant
            rights.valid(),
            k <= tok@.len(),
            castle_fold_letters(tok@.subrange(0, k as int)) == Some(rights.bits),
            tok@ != seq!['-'],
        decreases tok@.len() - k,
    {
        let c = tok[k];
        proof {
            assert(tok@.subrange(0, k + 1).drop_last() =~= tok@.subrange(0, k as int));
        }
        if c == 'K' {
            rights.add(WHITE_KING_SIDE);
        } else if c == 'Q' {
            rights.add(WHITE_QUEEN_SIDE);
        } else if c == 'k' {
            rights.add(BLACK_KING_SIDE);
        } else if c == 'q' {
            rights.add(BLACK_QUEEN_SIDE);
        } else {
            proof {
                lemma_castle_letters_none(tok@, k + 1);
            }
            return None;
        }
        k = k + 1;
    }
    proof {
        assert(tok@.subrange(0, k as int) =~= tok@);
    }
    Some(rights)
}

/// The square a two-character name such as `e3` stands for.
fn parse_square(t: &Vec<char>) -> (r: Option<Square>)
    ensures
        t@ != seq!['-'] ==> (r.is_some() == ep_of(t@).is_some()),
        r.is_some() ==> r.unwrap().on_board() && r.unwrap().idx == ep_of(t@).unwrap(),
{
    if t.len() != 2 {
        return None;
    }
    let f = t[0];
    let rk = t[1];
    if !('a' <= f && f <= 'h' && '1' <= rk && rk <= '8') {
        return None;
    }
    proof {
        assert(t@ != seq!['-']) by {
            if t@ == seq!['-'] {
                assert(t@.len() == 1);
            }
        }
    }
    Some(Square::from_file_rank(((f as u8) - ('a' as u8)) as u32, ((rk as u8) - ('1' as u8)) as u32))
}

impl Position {
    /// Reads a position from Forsyth-Edwards notation; a malformed field is returned as the error.
    pub fn from_fen(fen: &str) -> (r: Result<Position, String>)
        ensures
            r.is_ok() == fen_ok(fen@),
            r.is_err() ==> (words(fen@).len() < 6 && r->Err_0@ == fen@) || (exists|k: int|
                0 <= k < 6 && k < words(fen@).len() && r->Err_0@ == words(fen@)[k]),
            r.is_ok() ==> ({
                let p = r.unwrap();
                let w = words(fen@);
                &&& p.wf()
                &&& p.pieces@ == board_fold(w[0]).unwrap().2
                &&& p.stm == (if w[1] == seq!['w'] {
                    Color::White
                } else {
                    Color::Black
                })
                &&& p.castling_rights.bits == castle_fold(w[2]).unwrap()
                &&& p.enpassant.idx == ep_of(w[3]).unwrap()
                &&& p.halfm == digits_value(w[4])
                &&& p.fullm == digits_value(w[5])
            }),
    {
        let text = chars_of(fen);
        let fields = split_fields(&text);
        let ghost w = words(fen@);
        proof {
            assert(fields@.len() == w.len());
            assert forall|k: int| 0 <= k < fields@.len() implies fields@[k]@ == w[k] by {
                assert(fields@.map_values(|v: Vec<char>| v@)[k] == fields@[k]@);
            }
        }
        if fields.len() < 6 {
            return Err(string_of(&text));
        }
        let mut pos = match parse_board(&fields[0]) {
            Some(p) => p,
            None => {
                return Err(string_of(&fields[0]));
            },
        };
        let ghost board_pos = pos;
        let side = &fields[1];
        if side.len() == 1 && side[0] == 'w' {
            proof {
                assert(side@ =~= seq!['w']);
            }
            pos.stm = Color::White;
        } else if side.len() == 1 && side[0] == 'b' {
            proof {
                assert(side@ =~= seq!['b']);
                assert(side@ != seq!['w']);
            }
            pos.stm = Color::Black;
        } else {
            proof {
                if side@ == seq!['w'] || side@ == seq!['b'] {
                    assert(side@.len() == 1);
                }
                assert(side@ == w[1]);
            }
            return Err(string_of(side));
        }
        match parse_castling(&fields[2]) {
            Some(rights) => {
                pos.castling_rights = rights;
            },
            None => {
                return Err(string_of(&fields[2]));
            },
        }
        let ep = &fields[3];
        if ep.len() == 1 && ep[0] == '-' {
            proof {
                assert(ep@ =~= seq!['-']);
            }
            pos.enpassant = Square::none();
        } else {
            proof {
                if ep@ == seq!['-'] {
                    assert(ep@.len() == 1);
                }
            }
            match parse_square(ep) {
                Some(sq) => {
                    pos.enpassant = sq;
                },
                None => {
                    return Err(string_of(ep));
                },
            }
        }
        match parse_decimal(fields[4].as_slice(), 255) {
            Some(v) => {
                pos.halfm = v as u8;
            },
            None => {
                return Err(string_of(&fields[4]));
            },
        }
        match parse_decimal(fields[5].as_slice(), 0xFFFF) {
            Some(v) => {
                pos.fullm = v as u16;
            },
            None => {
                return Err(string_of(&fields[5]));
            },
        }
        proof {
            crate::position::lemma_same_board_wf(board_pos, pos);
        }
        Ok(pos)
    }
}

/// The board field read from state `st` on.
pub open spec fn board_run(st: Option<(int, int, Seq<Piece>)>, y: Seq<char>) -> Option<(int, int, Seq<Piece>)>
    decreases y.len(),
{
    if y.len() == 0 {
        st
    } else {
        board_step(board_run(st, y.drop_last()), y.last())
    }
}

proof fn lemma_board_fold_run(y: Seq<char>)
    ensures
        board_fold(y) == board_run(Some((7, 0, empty_board())), y),
    decreases y.len(),
{
    if y.len() > 0 {
        lemma_board_fold_run(y.drop_last());
    }
}

proof fn lemma_board_run_concat(st: Option<(int, int, Seq<Piece>)>, x: Seq<char>, y: Seq<char>)
    ensures
        board_run(st, x + y) == board_run(board_run(st, x), y),
    decreases y.len(),
{
    if y.len() == 0 {
        assert(x + y =~= x);
    } else {
        lemma_board_run_concat(st, x, y.drop_last());
        assert((x + y).drop_last() =~= x + y.drop_last());
        assert((x + y).last() == y.last());
    }
}

proof fn lemma_run_single(st: Option<(int, int, Seq<Piece>)>, t: Seq<char>)
    requires
        t.len() == 1,
    ensures
        board_run(st, t) == board_step(st, t[0]),
{
    assert(t.drop_last() =~= Seq::<char>::empty());
    assert(board_run(st, t.drop_last()) == st);
}

/// `acc` with the pieces of rank `r` of `b` from file `f` on written in.
pub open spec fn fill_rank(acc: Seq<Piece>, b: Seq<Piece>, r: int, f: int) -> Seq<Piece>
    decreases 8 - f,
{
    if f >= 8 {
        acc
    } else if b[r * 8 + f].id == 12 {
        fill_rank(acc, b, r, f + 1)
    } else {
        fill_rank(acc.update(r * 8 + f, b[r * 8 + f]), b, r, f + 1)
    }
}

proof fn lemma_fill_rank_len(acc: Seq<Piece>, b: Seq<Piece>, r: int, f: int)
    requires
        0 <= r < 8,
        0 <= f <= 8,
        acc.len() == 64,
        b.len() == 64,
    ensures
        fill_rank(acc, b, r, f).len() == 64,
        forall|s: int|
            0 <= s < 64 ==> fill_rank(acc, b, r, f)[s] == (if s / 8 == r && s % 8 >= f && b[s].id
                != 12 {
                b[s]
            } else {
                acc[s]
            }),
    decreases 8 - f,
{
    if f < 8 {
        if b[r * 8 + f].id == 12 {
            lemma_fill_rank_len(acc, b, r, f + 1);
        } else {
            lemma_fill_rank_len(acc.update(r * 8 + f, b[r * 8 + f]), b, r, f + 1);
        }
    }
}

proof fn lemma_letter_of_piece(pc: Piece)
    requires
        pc.id < 12,
    ensures
        letter_piece(piece_char(pc)) == Some(pc),
{
}

proof fn lemma_digit_step(r: int, f: int, e: int, acc: Seq<Piece>)
    requires
        1 <= e <= 8,
        0 <= f,
        f + e <= 8,
    ensures
        decimal(e as nat) == seq![(('0' as u8) + e) as char],
        board_step(Some((r, f, acc)), (('0' as u8) + e) as char) == Some((r, f + e, acc)),
{
}

/// Reading the text of rank `r` from file `f` on, after `e` empty squares.
proof fn lemma_rank_run(b: Seq<Piece>, r: int, f: int, e: int, acc: Seq<Piece>)
    requires
        b.len() == 64,
        forall|s: int| 0 <= s < 64 ==> b[s].id <= 12,
        0 <= r < 8,
        0 <= e <= f <= 8,
        acc.len() == 64,
    ensures
        board_run(Some((r, f - e, acc)), rank_text(b, r, f, e as nat)) == Some(
            (r, 8int, fill_rank(acc, b, r, f)),
        ),
    decreases 8 - f,
{
    if f >= 8 {
        if e > 0 {
            lemma_digit_step(r, f - e, e, acc);
            let t = seq![(('0' as u8) + e) as char];
            assert(rank_text(b, r, f, e as nat) == t);
            lemma_run_single(Some((r, f - e, acc)), t);
        } else {
            assert(rank_text(b, r, f, e as nat) =~= Seq::<char>::empty());
        }
    } else if b[r * 8 + f].id == 12 {
        lemma_rank_run(b, r, f + 1, e + 1, acc);
    } else {
        let pc = b[r * 8 + f];
        let gap = gap_text(e as nat);
        let acc2 = acc.update(r * 8 + f, pc);
        lemma_letter_of_piece(pc);
        let head = gap.push(piece_char(pc));
        assert(board_run(Some((r, f - e, acc)), gap) == Some((r, f, acc))) by {
            if e > 0 {
                lemma_digit_step(r, f - e, e, acc);
                let t = seq![(('0' as u8) + e) as char];
                assert(gap == t);
                lemma_run_single(Some((r, f - e, acc)), t);
            } else {
                assert(gap =~= Seq::<char>::empty());
            }
        }
        assert(head.drop_last() =~= gap);
        assert(board_run(Some((r, f - e, acc)), head) == Some((r, f + 1, acc2)));
        lemma_rank_run(b, r, f + 1, 0, acc2);
        lemma_board_run_concat(Some((r, f - e, acc)), head, rank_text(b, r, f + 1, 0));
    }
}

/// Reading the board text of the ranks from `r` down.
proof fn lemma_board_run(b: Seq<Piece>, r: int, acc: Seq<Piece>)
    requires
        b.len() == 64,
        forall|s: int| 0 <= s < 64 ==> b[s].id <= 12,
        0 <= r < 8,
        acc.len() == 64,
    ensures
        board_run(Some((r, 0int, acc)), board_text(b, r)) == Some((0int, 8int, fill_ranks(acc, b, r))),
    decreases r,
{
    lemma_rank_run(b, r, 0, 0, acc);
    lemma_fill_rank_len(acc, b, r, 0);
    assert(fill_ranks(acc, b, r) == fill_ranks(fill_rank(acc, b, r, 0), b, r - 1));
    if r == 0 {
        assert(fill_ranks(fill_rank(acc, b, 0, 0), b, -1) == fill_rank(acc, b, 0, 0));
        assert(board_text(b, 0) == rank_text(b, 0, 0, 0));
    }
    if r > 0 {
        let rt = rank_text(b, r, 0, 0);
        let acc2 = fill_rank(acc, b, r, 0);
        assert(rt.push('/').drop_last() =~= rt);
        assert(board_run(Some((r, 0int, acc)), rt.push('/')) == board_step(
            board_run(Some((r, 0int, acc)), rt),
            '/',
        ));
        assert(board_run(Some((r, 0int, acc)), rt.push('/')) == Some((r - 1, 0int, acc2)));
        assert(board_text(b, r) == rt.push('/') + board_text(b, r - 1));
        lemma_board_run(b, r - 1, acc2);
        lemma_board_run_concat(Some((r, 0int, acc)), rt.push('/'), board_text(b, r - 1));
    }
}

/// `acc` with ranks `r` down to the first of `b` written in.
pub open spec fn fill_ranks(acc: Seq<Piece>, b: Seq<Piece>, r: int) -> Seq<Piece>
    decreases r + 1,
{
    if r < 0 {
        acc
    } else {
        fill_ranks(fill_rank(acc, b, r, 0), b, r - 1)
    }
}

proof fn lemma_fill_ranks(acc: Seq<Piece>, b: Seq<Piece>, r: int)
    requires
        -1 <= r < 8,
        acc.len() == 64,
        b.len() == 64,
    ensures
        fill_ranks(acc, b, r).len() == 64,
        forall|s: int|
            0 <= s < 64 ==> fill_ranks(acc, b, r)[s] == (if s / 8 <= r && b[s].id != 12 {
                b[s]
            } else {
                acc[s]
            }),
    decreases r + 1,
{
    if r >= 0 {
        lemma_fill_rank_len(acc, b, r, 0);
        lemma_fill_ranks(fill_rank(acc, b, r, 0), b, r - 1);
    }
}

/// The board text reads back as the board.
pub proof fn lemma_board_text_round_trip(b: Seq<Piece>)
    requires
        b.len() == 64,
        forall|s: int| 0 <= s < 64 ==> b[s].id <= 12,
    ensures
        board_fold(board_text(b, 7)) == Some((0int, 8int, b)),
{
    lemma_board_fold_run(board_text(b, 7));
    lemma_board_run(b, 7, empty_board());
    lemma_fill_ranks(empty_board(), b, 7);
    assert(fill_ranks(empty_board(), b, 7) =~= b);
}

pub open spec fn no_blank(x: Seq<char>) -> bool {
    forall|i: int| 0 <= i < x.len() ==> !is_blank(x[i])
}

proof fn lemma_split_concat(x: Seq<char>, y: Seq<char>)
    requires
        no_blank(y),
    ensures
        split_state(x + y) == (split_state(x).0, split_state(x).1 + y),
    decreases y.len(),
{
    if y.len() == 0 {
        assert(x + y =~= x);
        assert(split_state(x).1 + y =~= split_state(x).1);
    } else {
        lemma_split_concat(x, y.drop_last());
        assert((x + y).drop_last() =~= x + y.drop_last());
        assert((x + y).last() == y.last());
        assert(split_state(x).1 + y =~= (split_state(x).1 + y.drop_last()).push(y.last()));
    }
}

proof fn lemma_split_space(x: Seq<char>)
    requires
        split_state(x).1.len() > 0,
    ensures
        split_state(x.push(' ')) == (split_state(x).0.push(split_state(x).1), Seq::<char>::empty()),
{
    assert(x.push(' ').drop_last() =~= x);
}

proof fn lemma_decimal(n: nat)
    ensures
        decimal(n).len() > 0,
        all_digits(decimal(n)),
        no_blank(decimal(n)),
        digits_value(decimal(n)) == n,
    decreases n,
{
    if n >= 10 {
        lemma_decimal(n / 10);
        let d = decimal(n);
        assert(d.drop_last() == decimal(n / 10));
        let c = ((('0' as u8) + (n % 10)) as char);
        assert(d.last() == c);
        assert((c as u8) - ('0' as u8) == n % 10);
        assert((n / 10) * 10 + n % 10 == n);
        assert(digits_value(d) == digits_value(d.drop_last()) * 10 + ((d.last() as u8) - ('0' as u8)) as nat);
        assert forall|i: int| 0 <= i < d.len() implies is_digit(d[i]) by {
            if i < d.len() - 1 {
                assert(d[i] == decimal(n / 10)[i]);
            }
        }
    } else {
        let d = decimal(n);
        assert(d.drop_last() =~= Seq::<char>::empty());
        let c = ((('0' as u8) + n) as char);
        assert(d.last() == c);
        assert((c as u8) - ('0' as u8) == n);
        assert(digits_value(d.drop_last()) == 0);
        assert(digits_value(d) == digits_value(d.drop_last()) * 10 + ((d.last() as u8) - ('0' as u8)) as nat);
    }
}

proof fn lemma_board_text_no_blank(b: Seq<Piece>, r: int)
    requires
        0 <= r < 8,
        b.len() == 64,
        forall|s: int| 0 <= s < 64 ==> b[s].id <= 12,
    ensures
        no_blank(board_text(b, r)),
        board_text(b, r).len() > 0,
    decreases r,
{
    lemma_rank_text_no_blank(b, r, 0, 0);
    if r > 0 {
        lemma_board_text_no_blank(b, r - 1);
        let x = rank_text(b, r, 0, 0).push('/');
        let y = board_text(b, r - 1);
        assert forall|i: int| 0 <= i < (x + y).len() implies !is_blank((x + y)[i]) by {
            if i < x.len() {
                if i < x.len() - 1 {
                    assert((x + y)[i] == rank_text(b, r, 0, 0)[i]);
                }
            } else {
                assert((x + y)[i] == y[i - x.len()]);
            }
        }
    }
}

proof fn lemma_rank_text_no_blank(b: Seq<Piece>, r: int, f: int, e: nat)
    requires
        0 <= r < 8,
        0 <= f <= 8,
        e <= f,
        b.len() == 64,
        forall|s: int| 0 <= s < 64 ==> b[s].id <= 12,
    ensures
        no_blank(rank_text(b, r, f, e)),
        (f < 8 || e > 0) ==> rank_text(b, r, f, e).len() > 0,
    decreases 8 - f,
{
    if e > 0 {
        lemma_decimal(e);
    }
    if f < 8 {
        if b[r * 8 + f].id == 12 {
            lemma_rank_text_no_blank(b, r, f + 1, e + 1);
        } else {
            lemma_rank_text_no_blank(b, r, f + 1, 0);
            let g = gap_text(e);
            let x = g.push(piece_char(b[r * 8 + f]));
            let y = rank_text(b, r, f + 1, 0);
            assert forall|i: int| 0 <= i < (x + y).len() implies !is_blank((x + y)[i]) by {
                if i < x.len() {
                    if i < g.len() {
                        assert((x + y)[i] == g[i]);
                    }
                } else {
                    assert((x + y)[i] == y[i - x.len()]);
                }
            }
        }
    } else if e == 0 {
        assert(rank_text(b, r, f, e) =~= Seq::<char>::empty());
    }
}

proof fn lemma_castling_text(bits: u8)
    requires
        bits < 16,
    ensures
        castle_fold(castling_text(bits)) == Some(bits),
        castling_text(bits).len() > 0,
        no_blank(castling_text(bits)),
{
    let t = castling_text(bits);
    if bits & 15 == 0 {
        assert(bits == 0) by (bit_vector)
            requires
                bits < 16,
                bits & 15 == 0,
        ;
    } else {
        let k: Seq<char> = if bits & 1 != 0 { seq!['K'] } else { Seq::empty() };
        let q: Seq<char> = if bits & 2 != 0 { seq!['Q'] } else { Seq::empty() };
        let k2: Seq<char> = if bits & 4 != 0 { seq!['k'] } else { Seq::empty() };
        let q2: Seq<char> = if bits & 8 != 0 { seq!['q'] } else { Seq::empty() };
        assert(t == k + q + k2 + q2);
        let a1: u8 = if bits & 1 != 0 { 1 } else { 0 };
        let a2: u8 = if bits & 2 != 0 { a1 | 2 } else { a1 };
        let a3: u8 = if bits & 4 != 0 { a2 | 4 } else { a2 };
        let a4: u8 = if bits & 8 != 0 { a3 | 8 } else { a3 };
        assert(castle_fold_letters(Seq::<char>::empty()) == Some(0u8));
        assert(castle_fold_letters(k) == Some(a1)) by {
            if bits & 1 != 0 {
                assert(k.drop_last() =~= Seq::<char>::empty());
                assert(0u8 | 1u8 == 1u8) by (bit_vector);
            }
        }
        lemma_letters_step(k, q, a1, 'Q', bits & 2 != 0);
        lemma_letters_step(k + q, k2, a2, 'k', bits & 4 != 0);
        lemma_letters_step(k + q + k2, q2, a3, 'q', bits & 8 != 0);
        assert(a4 == bits) by (bit_vector)
            requires
                bits < 16,
                a1 == (if bits & 1 != 0 { 1u8 } else { 0u8 }),
                a2 == (if bits & 2 != 0 { a1 | 2 } else { a1 }),
                a3 == (if bits & 4 != 0 { a2 | 4 } else { a2 }),
                a4 == (if bits & 8 != 0 { a3 | 8 } else { a3 }),
        ;
        assert(t.len() > 0) by {
            assert(bits & 15 != 0 ==> (bits & 1 != 0 || bits & 2 != 0 || bits & 4 != 0 || bits & 8
                != 0)) by (bit_vector);
            if t.len() == 0 {
                assert(k.len() == 0 && q.len() == 0 && k2.len() == 0 && q2.len() == 0);
            }
        }
        assert(t != seq!['-']) by {
            if t == seq!['-'] {
                assert(t[0] == '-');
                if k.len() > 0 {
                    assert(t[0] == 'K');
                } else if q.len() > 0 {
                    assert(t[0] == 'Q');
                } else if k2.len() > 0 {
                    assert(t[0] == 'k');
                } else {
                    assert(t[0] == 'q');
                }
            }
        }
        assert forall|i: int| 0 <= i < t.len() implies !is_blank(t[i]) by {
            assert(t[i] == 'K' || t[i] == 'Q' || t[i] == 'k' || t[i] == 'q');
        }
    }
}

/// One optional castling letter more.
proof fn lemma_letters_step(x: Seq<char>, y: Seq<char>, a: u8, c: char, present: bool)
    requires
        castle_fold_letters(x) == Some(a),
        y == (if present { seq![c] } else { Seq::<char>::empty() }),
        c == 'Q' || c == 'k' || c == 'q',
    ensures
        castle_fold_letters(x + y) == Some(if present {
            a | (if c == 'Q' { 2u8 } else if c == 'k' { 4u8 } else { 8u8 })
        } else {
            a
        }),
{
    if present {
        assert((x + y).drop_last() =~= x);
    } else {
        assert(x + y =~= x);
    }
}

proof fn lemma_word_step(x: Seq<char>, t: Seq<char>)
    requires
        split_state(x).1.len() > 0,
        no_blank(t),
        t.len() > 0,
    ensures
        split_state(x.push(' ') + t) == (split_state(x).0.push(split_state(x).1), t),
{
    lemma_split_space(x);
    lemma_split_concat(x.push(' '), t);
    assert(Seq::<char>::empty() + t =~= t);
}

/// Six blank-free words joined by single spaces split back into those words.
proof fn lemma_six_words(
    t0: Seq<char>,
    t1: Seq<char>,
    t2: Seq<char>,
    t3: Seq<char>,
    t4: Seq<char>,
    t5: Seq<char>,
)
    requires
        no_blank(t0) && t0.len() > 0,
        no_blank(t1) && t1.len() > 0,
        no_blank(t2) && t2.len() > 0,
        no_blank(t3) && t3.len() > 0,
        no_blank(t4) && t4.len() > 0,
        no_blank(t5) && t5.len() > 0,
    ensures
        words((((((t0.push(' ') + t1).push(' ') + t2).push(' ') + t3).push(' ') + t4).push(' ') + t5))
            == seq![t0, t1, t2, t3, t4, t5],
{
    let e: Seq<char> = Seq::empty();
    lemma_split_concat(e, t0);
    assert(e + t0 =~= t0);
    assert(split_state(e) == (Seq::<Seq<char>>::empty(), e));
    assert(split_state(t0) == (Seq::<Seq<char>>::empty(), t0));
    let s1 = t0.push(' ') + t1;
    lemma_word_step(t0, t1);
    let s2 = s1.push(' ') + t2;
    lemma_word_step(s1, t2);
    let s3 = s2.push(' ') + t3;
    lemma_word_step(s2, t3);
    let s4 = s3.push(' ') + t4;
    lemma_word_step(s3, t4);
    let s5 = s4.push(' ') + t5;
    lemma_word_step(s4, t5);
    assert(split_state(s5).0 =~= seq![t0, t1, t2, t3, t4]);
    assert(words(s5) =~= seq![t0, t1, t2, t3, t4, t5]);
}

/// The FEN text of a position reads back as the position.
pub proof fn lemma_fen_round_trip(p: Position)
    requires
        p.wf(),
    ensures
        fen_ok(fen_text(p)),
        ({
            let w = words(fen_text(p));
            &&& board_fold(w[0]).unwrap().2 == p.pieces@
            &&& (if w[1] == seq!['w'] { Color::White } else { Color::Black }) == p.stm
            &&& castle_fold(w[2]).unwrap() == p.castling_rights.bits
            &&& ep_of(w[3]).unwrap() == p.enpassant.idx
            &&& digits_value(w[4]) == p.halfm
            &&& digits_value(w[5]) == p.fullm
        }),
{
    let b = p.pieces@;
    assert forall|s: int| 0 <= s < 64 implies b[s].id <= 12 by {
        assert(crate::position::square_agrees(p, s));
    }
    let t0 = board_text(b, 7);
    let t1: Seq<char> = seq![if p.stm == Color::White { 'w' } else { 'b' }];
    let t2 = castling_text(p.castling_rights.bits);
    let t3: Seq<char> = if p.enpassant.idx >= 64 {
        seq!['-']
    } else {
        square_name(p.enpassant.idx as int)
    };
    let t4 = decimal(p.halfm as nat);
    let t5 = decimal(p.fullm as nat);
    lemma_board_text_no_blank(b, 7);
    lemma_board_text_round_trip(b);
    lemma_castling_text(p.castling_rights.bits);
    lemma_decimal(p.halfm as nat);
    lemma_decimal(p.fullm as nat);
    assert(no_blank(t1));
    assert(no_blank(t3)) by {
        if p.enpassant.idx < 64 {
            let i = p.enpassant.idx as int;
            assert(t3[0] == (('a' as u8) + i % 8) as char);
            assert(t3[1] == (('1' as u8) + i / 8) as char);
        }
    }
    lemma_six_words(t0, t1, t2, t3, t4, t5);
    assert(fen_text(p) =~= t0.push(' ') + t1 + seq![' '] + t2 + seq![' '] + t3 + seq![' '] + t4
        + seq![' '] + t5);
    assert(t0.push(' ') + t1 + seq![' '] + t2 + seq![' '] + t3 + seq![' '] + t4 + seq![' '] + t5
        =~= (((((t0.push(' ') + t1).push(' ') + t2).push(' ') + t3).push(' ') + t4).push(' ') + t5));
    let w = words(fen_text(p));
    assert(w == seq![t0, t1, t2, t3, t4, t5]);
    assert(w[0] == t0 && w[1] == t1 && w[2] == t2 && w[3] == t3 && w[4] == t4 && w[5] == t5);
    if p.enpassant.idx < 64 {
        let i = p.enpassant.idx as int;
        assert(t3 != seq!['-']) by {
            assert(t3.len() == 2);
        }
        assert(t3[0] == (('a' as u8) + i % 8) as char);
        assert(t3[1] == (('1' as u8) + i / 8) as char);
        assert(((t3[1] as int) - ('1' as int)) * 8 + (t3[0] as int) - ('a' as int) == (i / 8) * 8 + i % 8);
        assert((i / 8) * 8 + i % 8 == i);
        assert(ep_of(t3) == Some(i));
    } else {
        assert(ep_of(t3) == Some(64int));
    }
    if p.stm == Color::White {
        assert(t1 == seq!['w']);
    } else {
        assert(t1 != seq!['w']) by {
            assert(t1[0] == 'b');
        }
    }
}

} // verus!
