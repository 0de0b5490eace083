use vstd::prelude::*;
use arrayvec::ArrayVec;
use crate::attacks::{self, pawn_target, piece_target};
use crate::bits::{bit, lemma_pop_lowest, squares, squares_from};
use crate::castling::{BLACK_KING_SIDE, BLACK_QUEEN_SIDE, WHITE_KING_SIDE, WHITE_QUEEN_SIDE};
use crate::chess_move::{Move, MoveType};
use crate::coords::{Color, Square};
use crate::piece::{piece_id, Piece, PieceType};
use crate::position::{attacked, holds, Position};

verus! {

#[verifier::external_type_specification]
#[verifier::external_body]
#[verifier::reject_recursive_types(T)]
pub struct ExArrayVec<T, const CAP: usize>(ArrayVec<T, CAP>);

/// The moves a move list holds, in order.
pub uninterp spec fn move_list(v: ArrayVec<Move, 256>) -> Seq<Move>;

/// Relies on `ArrayVec::new`: an empty list.
#[verifier::external_body]
fn new_move_list() -> (r: ArrayVec<Move, 256>)
    ensures
        move_list(r) == Seq::<Move>::empty(),
{
    ArrayVec::new()
}

/// Relies on `ArrayVec::try_push`: appends while below capacity, else leaves the list as it was.
#[verifier::external_body]
fn try_push_move(v: &mut ArrayVec<Move, 256>, m: Move)
    ensures
        move_list(*old(v)).len() < 256 ==> move_list(*final(v)) == move_list(*old(v)).push(m),
        move_list(*old(v)).len() >= 256 ==> move_list(*final(v)) == move_list(*old(v)),
{
    let _ = v.try_push(m);
}

/// At most the first 256 moves of `s`: what a move list keeps.
pub open spec fn cap(s: Seq<Move>) -> Seq<Move> {
    if s.len() <= 256 {
        s
    } else {
        s.subrange(0, 256)
    }
}

/// The move from `from` to `to` of type `t` with promotion piece id `promo`.
pub open spec fn mk(from: int, to: int, t: MoveType, promo: u8) -> Move {
    Move {
        from: Square { idx: from as u32 },
        to: Square { idx: to as u32 },
        move_type: t,
        promoted_piece: Piece { id: promo },
    }
}

/// The squares from `i` on that satisfy `f`, ascending.
pub open spec fn list_where(f: spec_fn(int) -> bool, i: nat) -> Seq<u32>
    decreases 64 - i,
{
    if i >= 64 {
        Seq::empty()
    } else if f(i as int) {
        seq![i as u32] + list_where(f, i + 1)
    } else {
        list_where(f, i + 1)
    }
}

/// The side to move may land on `t`: it is empty or holds an enemy piece.
pub open spec fn can_land(p: Position, t: int) -> bool {
    p.pieces@[t].id == 12 || p.pieces@[t].id % 2 != p.stm.spec_ordinal()
}

/// Normal moves from `from` to the squares of `ts` the mover may land on, in order.
pub open spec fn target_moves(p: Position, from: int, ts: Seq<u32>) -> Seq<Move>
    decreases ts.len(),
{
    if ts.len() == 0 {
        Seq::empty()
    } else {
        target_moves(p, from, ts.drop_last()) + (if can_land(p, ts.last() as int) {
            seq![mk(from, ts.last() as int, MoveType::Normal, 12)]
        } else {
            Seq::empty()
        })
    }
}

/// The four promotions from `from` to `to`: queen, rook, bishop, knight.
pub open spec fn promos(from: int, to: int, c: Color) -> Seq<Move> {
    seq![
        mk(from, to, MoveType::Promotion, piece_id(PieceType::Queen, c)),
        mk(from, to, MoveType::Promotion, piece_id(PieceType::Rook, c)),
        mk(from, to, MoveType::Promotion, piece_id(PieceType::Bishop, c)),
        mk(from, to, MoveType::Promotion, piece_id(PieceType::Knight, c)),
    ]
}

/// A pawn of colour `c` promotes on reaching `t`.
pub open spec fn promo_rank(c: Color, t: int) -> bool {
    if c == Color::White {
        t >= 56
    } else {
        t < 8
    }
}

/// The pushes of the pawn on `from`: one step (or its promotions), then two from the start rank.
pub open spec fn pawn_push_moves(p: Position, from: int) -> Seq<Move> {
    let white = p.stm == Color::White;
    let one = if white { from + 8 } else { from - 8 };
    let two = if white { from + 16 } else { from - 16 };
    let start = if white { 1int } else { 6int };
    if 0 <= one < 64 && p.pieces@[one].id == 12 {
        if promo_rank(p.stm, one) {
            promos(from, one, p.stm)
        } else {
            seq![mk(from, one, MoveType::Normal, 12)] + (if from / 8 == start && 0 <= two < 64
                && p.pieces@[two].id == 12 {
                seq![mk(from, two, MoveType::Normal, 12)]
            } else {
                Seq::empty()
            })
        }
    } else {
        Seq::empty()
    }
}

/// The capture of the pawn on `from` onto `t`, if any.
pub open spec fn pawn_capture(p: Position, from: int, t: int) -> Seq<Move> {
    let ep = p.enpassant.idx as int;
    if ep != 64 && t == ep {
        seq![mk(from, t, MoveType::EnPassant, 12)]
    } else if p.pieces@[t].id != 12 && p.pieces@[t].id % 2 != p.stm.spec_ordinal() {
        if promo_rank(p.stm, t) {
            promos(from, t, p.stm)
        } else {
            seq![mk(from, t, MoveType::Normal, 12)]
        }
    } else {
        Seq::empty()
    }
}

pub open spec fn pawn_captures(p: Position, from: int, ts: Seq<u32>) -> Seq<Move>
    decreases ts.len(),
{
    if ts.len() == 0 {
        Seq::empty()
    } else {
        pawn_captures(p, from, ts.drop_last()) + pawn_capture(p, from, ts.last() as int)
    }
}

/// The squares a pawn of the side to move on `from` attacks.
pub open spec fn pawn_attack_list(p: Position, from: int) -> Seq<u32> {
    list_where(|t: int| pawn_target(p.stm, from, t), 0)
}

/// The squares a piece of type `pt` on `from` attacks.
pub open spec fn attack_list(p: Position, pt: PieceType, from: int) -> Seq<u32> {
    list_where(|t: int| piece_target(pt, from, p.occ(), t), 0)
}

/// The moves of the piece of type `pt` on `from`.
pub open spec fn moves_from(p: Position, pt: PieceType, from: int) -> Seq<Move> {
    if pt == PieceType::Pawn {
        pawn_push_moves(p, from) + pawn_captures(p, from, pawn_attack_list(p, from))
    } else {
        target_moves(p, from, attack_list(p, pt, from))
    }
}

pub open spec fn piece_moves(p: Position, pt: PieceType, srcs: Seq<u32>) -> Seq<Move>
    decreases srcs.len(),
{
    if srcs.len() == 0 {
        Seq::empty()
    } else {
        piece_moves(p, pt, srcs.drop_last()) + moves_from(p, pt, srcs.last() as int)
    }
}

/// The squares of the pieces of type `pt` of the side to move, ascending.
pub open spec fn sources(p: Position, pt: PieceType) -> Seq<u32> {
    list_where(|j: int| holds(p, j, pt, p.stm), 0)
}

/// `k` holds the lowest king of the side to move.
pub open spec fn lowest_king(p: Position, k: int) -> bool {
    0 <= k < 64 && holds(p, k, PieceType::King, p.stm) && forall|j: int|
        0 <= j < k ==> !holds(p, j, PieceType::King, p.stm)
}

/// The castling moves: none when the side to move has no king or stands in check; short, then
/// long, each when its right is held, the squares between are empty and those the king crosses
/// are not attacked.
pub open spec fn castle_moves(p: Position) -> Seq<Move> {
    let c = p.stm;
    let enemy = c.spec_flip();
    let base: int = if c == Color::White { 0 } else { 56 };
    let (ks, qs) = if c == Color::White {
        (WHITE_KING_SIDE, WHITE_QUEEN_SIDE)
    } else {
        (BLACK_KING_SIDE, BLACK_QUEEN_SIDE)
    };
    if !(exists|k: int| lowest_king(p, k)) {
        Seq::empty()
    } else {
        let k = choose|k: int| lowest_king(p, k);
        if attacked(p, k, enemy) {
            Seq::empty()
        } else {
            (if p.castling_rights.has(ks) && !attacked(p, base + 5, enemy) && !attacked(
                p,
                base + 6,
                enemy,
            ) && p.pieces@[base + 5].id == 12 && p.pieces@[base + 6].id == 12 {
                seq![mk(k, base + 7, MoveType::Castle, 12)]
            } else {
                Seq::empty()
            }) + (if p.castling_rights.has(qs) && !attacked(p, base + 2, enemy) && !attacked(
                p,
                base + 3,
                enemy,
            ) && p.pieces@[base + 1].id == 12 && p.pieces@[base + 2].id == 12 && p.pieces@[base
                + 3].id == 12 {
                seq![mk(k, base, MoveType::Castle, 12)]
            } else {
                Seq::empty()
            })
        }
    }
}

/// Every pseudo-legal move in generation order.
pub open spec fn pseudo_moves(p: Position) -> Seq<Move> {
    piece_moves(p, PieceType::Pawn, sources(p, PieceType::Pawn)) + piece_moves(
        p,
        PieceType::Knight,
        sources(p, PieceType::Knight),
    ) + piece_moves(p, PieceType::Bishop, sources(p, PieceType::Bishop)) + piece_moves(
        p,
        PieceType::Rook,
        sources(p, PieceType::Rook),
    ) + piece_moves(p, PieceType::Queen, sources(p, PieceType::Queen)) + piece_moves(
        p,
        PieceType::King,
        sources(p, PieceType::King),
    ) + castle_moves(p)
}

/// The ascending squares of a value whose bits match `f` are those `list_where` gives.
proof fn lemma_list_where_bits(x: u64, f: spec_fn(int) -> bool, i: nat)
    requires
        forall|j: int| 0 <= j < 64 ==> bit(x, j) == f(j),
    ensures
        squares_from(x, i) == list_where(f, i),
    decreases 64 - i,
{
    if i < 64 {
        lemma_list_where_bits(x, f, i + 1);
    }
}

proof fn lemma_cap_push(s: Seq<Move>, m: Move)
    ensures
        cap(s).len() < 256 ==> cap(s.push(m)) == cap(s).push(m),
        cap(s).len() >= 256 ==> cap(s.push(m)) == cap(s),
{
    if s.len() < 256 {
        assert(cap(s.push(m)) == s.push(m));
    } else {
        assert(cap(s.push(m)) =~= cap(s));
    }
}

fn push_move(list: &mut ArrayVec<Move, 256>, m: Move, Ghost(full): Ghost<Seq<Move>>)
    requires
        move_list(*old(list)) == cap(full),
    ensures
        move_list(*final(list)) == cap(full.push(m)),
{
    proof {
        lemma_cap_push(full, m);
    }
    try_push_move(list, m);
}

fn push_promotions(
    list: &mut ArrayVec<Move, 256>,
    from: Square,
    to: Square,
    side: Color,
    Ghost(full): Ghost<Seq<Move>>,
)
    requires
        move_list(*old(list)) == cap(full),
    ensures
        move_list(*final(list)) == cap(full + promos(from.idx as int, to.idx as int, side)),
{
    push_move(list, Move::promotion(from, to, Piece::new(PieceType::Queen, side)), Ghost(full));
    let ghost f1 = full.push(mk(from.idx as int, to.idx as int, MoveType::Promotion, piece_id(PieceType::Queen, side)));
    push_move(list, Move::promotion(from, to, Piece::new(PieceType::Rook, side)), Ghost(f1));
    let ghost f2 = f1.push(mk(from.idx as int, to.idx as int, MoveType::Promotion, piece_id(PieceType::Rook, side)));
    push_move(list, Move::promotion(from, to, Piece::new(PieceType::Bishop, side)), Ghost(f2));
    let ghost f3 = f2.push(mk(from.idx as int, to.idx as int, MoveType::Promotion, piece_id(PieceType::Bishop, side)));
    push_move(list, Move::promotion(from, to, Piece::new(PieceType::Knight, side)), Ghost(f3));
    proof {
        let f4 = f3.push(mk(from.idx as int, to.idx as int, MoveType::Promotion, piece_id(PieceType::Knight, side)));
        assert(f4 =~= full + promos(from.idx as int, to.idx as int, side));
    }
}

fn push_pawn_pushes(list: &mut ArrayVec<Move, 256>, pos: &Position, from_idx: u32, Ghost(full): Ghost<Seq<Move>>)
    requires
        move_list(*old(list)) == cap(full),
        from_idx < 64,
    ensures
        move_list(*final(list)) == cap(full + pawn_push_moves(*pos, from_idx as int)),
{
    let side = pos.stm;
    let from_sq = Square::new(from_idx);
    let white = side == Color::White;
    let one_step: i32 = if white {
        from_idx as i32 + 8
    } else {
        from_idx as i32 - 8
    };
    let ghost pm = pawn_push_moves(*pos, from_idx as int);
    if 0 <= one_step && one_step < 64 {
        let to_sq = Square::new(one_step as u32);
        if pos.piece_at(to_sq).id == 12 {
            if (white && one_step >= 56) || (!white && one_step < 8) {
                push_promotions(list, from_sq, to_sq, side, Ghost(full));
            } else {
                let m1 = Move::normal(from_sq, to_sq);
                push_move(list, m1, Ghost(full));
                let start_rank: u32 = if white {
                    1
                } else {
                    6
                };
                let two_step: i32 = if white {
                    from_idx as i32 + 16
                } else {
                    from_idx as i32 - 16
                };
                if from_idx / 8 == start_rank && 0 <= two_step && two_step < 64 && pos.piece_at(
                    Square::new(two_step as u32),
                ).id == 12 {
                    push_move(list, Move::normal(from_sq, Square::new(two_step as u32)), Ghost(full.push(m1)));
                    proof {
                        assert(full.push(m1).push(mk(from_idx as int, two_step as int, MoveType::Normal, 12)) =~= full + pm);
                    }
                } else {
                    proof {
                        assert(full.push(m1) =~= full + pm);
                    }
                }
            }
            return;
        }
    }
    proof {
        assert(full =~= full + pm);
    }
}

fn push_pawn_captures(list: &mut ArrayVec<Move, 256>, pos: &Position, from_idx: u32, Ghost(full): Ghost<Seq<Move>>)
    requires
        move_list(*old(list)) == cap(full),
        from_idx < 64,
    ensures
        move_list(*final(list)) == cap(
            full + pawn_captures(*pos, from_idx as int, pawn_attack_list(*pos, from_idx as int)),
        ),
{
    let side = pos.stm;
    let from_sq = Square::new(from_idx);
    let white = side == Color::White;
    let ep_square = pos.ep_square();
    let att = attacks::pawn(side, from_sq);
    let targets = att.data;
    proof {
        assert forall|j: int| 0 <= j < 64 implies bit(targets, j) == pawn_target(pos.stm, from_idx as int, j) by {
            assert(att.has(j) == pawn_target(pos.stm, from_idx as int, j));
        }
        lemma_list_where_bits(targets, |t: int| pawn_target(pos.stm, from_idx as int, t), 0);
        crate::bits::lemma_squares_members(targets, 0);
    }
    let mut rem = targets;
    let ghost mut done: Seq<u32> = Seq::empty();
    while rem != 0
        invariant
            from_sq.idx == from_idx,
            from_idx < 64,
            side == pos.stm,
            white == (side == Color::White),
            ep_square == pos.enpassant,
            squares(targets) == done + squares(rem),
            forall|j: int| 0 <= j < squares(targets).len() ==> squares(targets)[j] < 64,
            move_list(*list) == cap(full + pawn_captures(*pos, from_idx as int, done)),
        decreases squares(rem).len(),
    {
        proof {
            lemma_pop_lowest(rem);
        }
        let to_idx = rem.trailing_zeros();
        let ghost before = full + pawn_captures(*pos, from_idx as int, done);
        proof {
            assert(squares(targets)[done.len() as int] == to_idx);
        }
        rem = rem & (rem - 1);
        let to_sq = Square::new(to_idx);
        let ghost add = pawn_capture(*pos, from_idx as int, to_idx as int);
        if ep_square.idx != 64 && to_sq.idx == ep_square.idx {
            push_move(list, Move::en_passant(from_sq, to_sq), Ghost(before));
            proof {
                assert(before.push(mk(from_idx as int, to_idx as int, MoveType::EnPassant, 12)) =~= before + add);
            }
        } else {
            let target = pos.piece_at(to_sq);
            if target.id != 12 && target.id % 2 != side.ordinal() {
                if (white && to_idx >= 56) || (!white && to_idx < 8) {
                    push_promotions(list, from_sq, to_sq, side, Ghost(before));
                } else {
                    push_move(list, Move::normal(from_sq, to_sq), Ghost(before));
                    proof {
                        assert(before.push(mk(from_idx as int, to_idx as int, MoveType::Normal, 12)) =~= before + add);
                    }
                }
            } else {
                proof {
                    assert(before =~= before + add);
                }
            }
        }
        proof {
            let nd = done.push(to_idx);
            assert(nd.drop_last() =~= done);
            assert(squares(targets) =~= nd + squares(rem));
            assert(full + pawn_captures(*pos, from_idx as int, nd) =~= before + add);
            done = nd;
        }
    }
    proof {
        crate::bits::lemma_squares_zero();
        assert(done =~= squares(targets));
    }
}

/// Pushes a normal move from `from_idx` to each square of `targets` the mover may land on.
fn push_target_moves(
    list: &mut ArrayVec<Move, 256>,
    pos: &Position,
    from_idx: u32,
    targets: u64,
    Ghost(full): Ghost<Seq<Move>>,
)
    requires
        move_list(*old(list)) == cap(full),
        from_idx < 64,
    ensures
        move_list(*final(list)) == cap(full + target_moves(*pos, from_idx as int, squares(targets))),
{
    let side = pos.stm;
    let from_sq = Square::new(from_idx);
    let mut rem = targets;
    let ghost mut done: Seq<u32> = Seq::empty();
    proof {
        crate::bits::lemma_squares_members(targets, 0);
    }
    while rem != 0
        invariant
            from_sq.idx == from_idx,
            side == pos.stm,
            squares(targets) == done + squares(rem),
            forall|j: int| 0 <= j < squares(targets).len() ==> squares(targets)[j] < 64,
            move_list(*list) == cap(full + target_moves(*pos, from_idx as int, done)),
        decreases squares(rem).len(),
    {
        proof {
            lemma_pop_lowest(rem);
        }
        let to_idx = rem.trailing_zeros();
        let ghost before = full + target_moves(*pos, from_idx as int, done);
        proof {
            assert(squares(targets)[done.len() as int] == to_idx);
        }
        rem = rem & (rem - 1);
        let to_sq = Square::new(to_idx);
        let target = pos.piece_at(to_sq);
        let ghost nd = done.push(to_idx);
        if target.id == 12 || target.id % 2 != side.ordinal() {
            push_move(list, Move::normal(from_sq, to_sq), Ghost(before));
            proof {
                assert(nd.drop_last() =~= done);
                assert(full + target_moves(*pos, from_idx as int, nd) =~= before.push(
                    mk(from_idx as int, to_idx as int, MoveType::Normal, 12),
                ));
            }
        } else {
            proof {
                assert(nd.drop_last() =~= done);
                assert(full + target_moves(*pos, from_idx as int, nd) =~= before);
            }
        }
        proof {
            assert(squares(targets) =~= nd + squares(rem));
            done = nd;
        }
    }
    proof {
        crate::bits::lemma_squares_zero();
        assert(done =~= squares(targets));
    }
}

/// Pushes the moves of every piece of type `pt` of the side to move.
fn push_piece_moves(list: &mut ArrayVec<Move, 256>, pos: &Position, pt: PieceType, Ghost(full): Ghost<Seq<Move>>)
    requires
        pos.wf(),
        move_list(*old(list)) == cap(full),
        pt != PieceType::Empty,
    ensures
        move_list(*final(list)) == cap(full + piece_moves(*pos, pt, sources(*pos, pt))),
{
    let side = pos.stm;
    let occupancy = pos.occupied();
    let own = pos.pieces_bb_color(side, pt);
    proof {
        assert forall|j: int| 0 <= j < 64 implies bit(own.data, j) == holds(*pos, j, pt, pos.stm) by {
            assert(own.has(j) == holds(*pos, j, pt, pos.stm));
        }
        lemma_list_where_bits(own.data, |j: int| holds(*pos, j, pt, pos.stm), 0);
        crate::bits::lemma_squares_members(own.data, 0);
    }
    let mut rem = own.data;
    let ghost mut done: Seq<u32> = Seq::empty();
    while rem != 0
        invariant
            pos.wf(),
            pt != PieceType::Empty,
            side == pos.stm,
            occupancy.data == pos.occ(),
            squares(own.data) == sources(*pos, pt),
            squares(own.data) == done + squares(rem),
            forall|j: int| 0 <= j < squares(own.data).len() ==> squares(own.data)[j] < 64,
            move_list(*list) == cap(full + piece_moves(*pos, pt, done)),
        decreases squares(rem).len(),
    {
        proof {
            lemma_pop_lowest(rem);
        }
        let from_idx = rem.trailing_zeros();
        let ghost before = full + piece_moves(*pos, pt, done);
        proof {
            assert(squares(own.data)[done.len() as int] == from_idx);
        }
        rem = rem & (rem - 1);
        let ghost nd = done.push(from_idx);
        if pt == PieceType::Pawn {
            push_pawn_pushes(list, pos, from_idx, Ghost(before));
            let ghost mid = before + pawn_push_moves(*pos, from_idx as int);
            push_pawn_captures(list, pos, from_idx, Ghost(mid));
            proof {
                assert(nd.drop_last() =~= done);
                assert(full + piece_moves(*pos, pt, nd) =~= mid + pawn_captures(
                    *pos,
                    from_idx as int,
                    pawn_attack_list(*pos, from_idx as int),
                ));
            }
        } else {
            let targets = attacks::piece_attacks(pt, Square::new(from_idx), occupancy);
            proof {
                assert forall|j: int| 0 <= j < 64 implies bit(targets.data, j) == piece_target(pt, from_idx as int, pos.occ(), j) by {
                    assert(targets.has(j) == piece_target(pt, from_idx as int, pos.occ(), j));
                }
                lemma_list_where_bits(targets.data, |t: int| piece_target(pt, from_idx as int, pos.occ(), t), 0);
            }
            push_target_moves(list, pos, from_idx, targets.data, Ghost(before));
            proof {
                assert(nd.drop_last() =~= done);
                assert(full + piece_moves(*pos, pt, nd) =~= before + target_moves(
                    *pos,
                    from_idx as int,
                    squares(targets.data),
                ));
            }
        }
        proof {
            assert(squares(own.data) =~= nd + squares(rem));
            done = nd;
        }
    }
    proof {
        crate::bits::lemma_squares_zero();
        assert(done =~= squares(own.data));
    }
}

fn push_castling(list: &mut ArrayVec<Move, 256>, pos: &Position, Ghost(full): Ghost<Seq<Move>>)
    requires
        pos.wf(),
        move_list(*old(list)) == cap(full),
    ensures
        move_list(*final(list)) == cap(full + castle_moves(*pos)),
{
    let side = pos.stm;
    let king_sq = pos.king_sq(side);
    if king_sq.idx == 64 {
        proof {
            assert(!(exists|k: int| lowest_king(*pos, k)));
            assert(full + castle_moves(*pos) =~= full);
        }
        return;
    }
    proof {
        assert(lowest_king(*pos, king_sq.idx as int));
        let k = choose|k: int| lowest_king(*pos, k);
        assert(k == king_sq.idx) by {
            if k < king_sq.idx {
                assert(!holds(*pos, k, PieceType::King, pos.stm));
            } else if k > king_sq.idx {
                assert(!holds(*pos, king_sq.idx as int, PieceType::King, pos.stm));
            }
        }
    }
    if pos.is_attacked(king_sq, side.flip()) {
        proof {
            assert(full + castle_moves(*pos) =~= full);
        }
        return;
    }
    let rights = pos.castling_rights();
    let (ks, qs, base): (u8, u8, u32) = match side {
        Color::White => (WHITE_KING_SIDE, WHITE_QUEEN_SIDE, 0),
        Color::Black => (BLACK_KING_SIDE, BLACK_QUEEN_SIDE, 56),
    };
    let enemy = side.flip();
    let short_ok = rights.contains(ks) && !pos.is_attacked(Square::new(base + 5), enemy)
        && !pos.is_attacked(Square::new(base + 6), enemy) && pos.pieces[(base + 5) as usize].id == 12
        && pos.pieces[(base + 6) as usize].id == 12;
    let ghost mid = full;
    if short_ok {
        push_move(list, Move::castle(king_sq, Square::new(base + 7)), Ghost(full));
        proof {
            mid = full.push(mk(king_sq.idx as int, base + 7, MoveType::Castle, 12));
        }
    }
    let long_ok = rights.contains(qs) && !pos.is_attacked(Square::new(base + 2), enemy)
        && !pos.is_attacked(Square::new(base + 3), enemy) && pos.pieces[(base + 1) as usize].id == 12
        && pos.pieces[(base + 2) as usize].id == 12 && pos.pieces[(base + 3) as usize].id == 12;
    if long_ok {
        push_move(list, Move::castle(king_sq, Square::new(base)), Ghost(mid));
        proof {
            assert(mid.push(mk(king_sq.idx as int, base as int, MoveType::Castle, 12)) =~= full + castle_moves(*pos));
        }
    } else {
        proof {
            assert(mid =~= full + castle_moves(*pos));
        }
    }
}

/// Every pseudo-legal move of the position: pawns, knights, bishops, rooks, queens, kings, then
/// castling; each piece's moves by ascending origin, then ascending destination. The list keeps
/// the first 256 of them.
pub fn pseudo_legal_moves(pos: &Position) -> (r: ArrayVec<Move, 256>)
    requires
        pos.wf(),
    ensures
        move_list(r) == cap(pseudo_moves(*pos)),
{
    let mut moves = new_move_list();
    let ghost s0: Seq<Move> = Seq::empty();
    proof {
        assert(cap(s0) =~= s0);
    }
    push_piece_moves(&mut moves, pos, PieceType::Pawn, Ghost(s0));
    let ghost s1 = s0 + piece_moves(*pos, PieceType::Pawn, sources(*pos, PieceType::Pawn));
    push_piece_moves(&mut moves, pos, PieceType::Knight, Ghost(s1));
    let ghost s2 = s1 + piece_moves(*pos, PieceType::Knight, sources(*pos, PieceType::Knight));
    push_piece_moves(&mut moves, pos, PieceType::Bishop, Ghost(s2));
    let ghost s3 = s2 + piece_moves(*pos, PieceType::Bishop, sources(*pos, PieceType::Bishop));
    push_piece_moves(&mut moves, pos, PieceType::Rook, Ghost(s3));
    let ghost s4 = s3 + piece_moves(*pos, PieceType::Rook, sources(*pos, PieceType::Rook));
    push_piece_moves(&mut moves, pos, PieceType::Queen, Ghost(s4));
    let ghost s5 = s4 + piece_moves(*pos, PieceType::Queen, sources(*pos, PieceType::Queen));
    push_piece_moves(&mut moves, pos, PieceType::King, Ghost(s5));
    let ghost s6 = s5 + piece_moves(*pos, PieceType::King, sources(*pos, PieceType::King));
    push_castling(&mut moves, pos, Ghost(s6));
    proof {
        assert(s6 + castle_moves(*pos) =~= pseudo_moves(*pos));
    }
    moves
}

/// The en-passant square, when set, lies behind an enemy pawn that has just advanced two squares,
/// and any castling right of the side to move has its king on the home square as its lowest king.
pub open spec fn consistent(p: Position) -> bool {
    let ep = p.enpassant.idx as int;
    let white = p.stm == Color::White;
    let home: int = if white { 4 } else { 60 };
    let own: u8 = if white { 3 } else { 12 };
    &&& ep == 64 || (white && ep / 8 == 5 && p.pieces@[ep - 8].id == 1) || (!white && ep / 8 == 2
        && p.pieces@[ep + 8].id == 0)
    &&& p.castling_rights.bits & own != 0 ==> lowest_king(p, home)
}

/// Every move in `s` is one the chain code carries.
pub open spec fn all_carried(p: Position, s: Seq<Move>) -> bool {
    forall|i: int| 0 <= i < s.len() ==> crate::chain::chain_move_ok(p, #[trigger] s[i])
}

proof fn lemma_carried_concat(p: Position, a: Seq<Move>, b: Seq<Move>)
    requires
        all_carried(p, a),
        all_carried(p, b),
    ensures
        all_carried(p, a + b),
{
    assert forall|i: int| 0 <= i < (a + b).len() implies crate::chain::chain_move_ok(
        p,
        #[trigger] (a + b)[i],
    ) by {
        if i < a.len() {
            assert((a + b)[i] == a[i]);
        } else {
            assert((a + b)[i] == b[i - a.len()]);
        }
    }
}

proof fn lemma_list_where_members(f: spec_fn(int) -> bool, i: nat)
    ensures
        forall|k: int|
            0 <= k < list_where(f, i).len() ==> i <= list_where(f, i)[k] < 64 && f(
                list_where(f, i)[k] as int,
            ),
    decreases 64 - i,
{
    if i < 64 {
        lemma_list_where_members(f, i + 1);
        let rest = list_where(f, i + 1);
        if f(i as int) {
            let l = seq![i as u32] + rest;
            assert forall|k: int| 0 <= k < l.len() implies i <= l[k] < 64 && f(l[k] as int) by {
                if k > 0 {
                    assert(l[k] == rest[k - 1]);
                }
            }
        }
    }
}

/// Occupancy and emptiness agree.
proof fn lemma_occ_bit(p: Position, s: int)
    requires
        p.wf(),
        0 <= s < 64,
    ensures
        bit(p.occ(), s) == (p.pieces@[s].id != 12),
        bit(p.bb_color@[p.stm.spec_ordinal() as int], s) == (p.pieces@[s].id != 12
            && p.pieces@[s].id % 2 == p.stm.spec_ordinal()),
        bit(p.bb_color@[1 - p.stm.spec_ordinal() as int], s) == (p.pieces@[s].id != 12
            && p.pieces@[s].id % 2 != p.stm.spec_ordinal()),
{
    assert(crate::position::square_agrees(p, s));
    crate::bits::lemma_bit_or(p.bb_color@[0], p.bb_color@[1], s as u64);
}

proof fn lemma_target_moves_carried(p: Position, pt: PieceType, from: int, ts: Seq<u32>)
    requires
        p.wf(),
        0 <= from < 64,
        pt != PieceType::Pawn,
        pt != PieceType::Empty,
        holds(p, from, pt, p.stm),
        forall|k: int|
            0 <= k < ts.len() ==> ts[k] < 64 && piece_target(pt, from, p.occ(), ts[k] as int),
    ensures
        all_carried(p, target_moves(p, from, ts)),
    decreases ts.len(),
{
    if ts.len() > 0 {
        lemma_target_moves_carried(p, pt, from, ts.drop_last());
        let t = ts.last() as int;
        if can_land(p, t) {
            lemma_occ_bit(p, t);
            let m = mk(from, t, MoveType::Normal, 12);
            assert(p.pieces@[from].spec_type() == pt);
            assert(crate::chain::chain_move_ok(p, m));
            assert(all_carried(p, seq![m]));
            lemma_carried_concat(p, target_moves(p, from, ts.drop_last()), seq![m]);
        } else {
            assert(target_moves(p, from, ts) =~= target_moves(p, from, ts.drop_last()));
        }
    }
}

proof fn lemma_promos_carried(p: Position, from: int, to: int)
    requires
        p.wf(),
        0 <= from < 64,
        0 <= to < 64,
        holds(p, from, PieceType::Pawn, p.stm),
        crate::chain::promoting(p, from),
        crate::chain::dest(p, from, to),
    ensures
        all_carried(p, promos(from, to, p.stm)),
{
    let s = promos(from, to, p.stm);
    assert forall|i: int| 0 <= i < s.len() implies crate::chain::chain_move_ok(p, #[trigger] s[i]) by {
        assert(p.pieces@[from].spec_type() == PieceType::Pawn);
    }
}

proof fn lemma_pawn_pushes_carried(p: Position, from: int)
    requires
        p.wf(),
        consistent(p),
        0 <= from < 64,
        holds(p, from, PieceType::Pawn, p.stm),
    ensures
        all_carried(p, pawn_push_moves(p, from)),
{
    let white = p.stm == Color::White;
    let one = if white { from + 8 } else { from - 8 };
    let two = if white { from + 16 } else { from - 16 };
    assert(p.pieces@[from].spec_type() == PieceType::Pawn);
    if 0 <= one < 64 && p.pieces@[one].id == 12 {
        lemma_occ_bit(p, one);
        if promo_rank(p.stm, one) {
            assert(crate::chain::promoting(p, from));
            assert(crate::chain::dest(p, from, one));
            lemma_promos_carried(p, from, one);
        } else {
            let m1 = mk(from, one, MoveType::Normal, 12);
            assert(!crate::chain::promoting(p, from));
            assert(one != p.enpassant.idx);
            assert(crate::chain::dest(p, from, one));
            assert(crate::chain::chain_move_ok(p, m1));
            let start = if white { 1int } else { 6int };
            if from / 8 == start && 0 <= two < 64 && p.pieces@[two].id == 12 {
                lemma_occ_bit(p, two);
                let m2 = mk(from, two, MoveType::Normal, 12);
                assert(two != p.enpassant.idx);
                assert(crate::chain::dest(p, from, two));
                assert(crate::chain::chain_move_ok(p, m2));
                let l = seq![m1] + seq![m2];
                assert forall|i: int| 0 <= i < l.len() implies crate::chain::chain_move_ok(p, #[trigger] l[i]) by {
                    if i == 0 {
                        assert(l[i] == m1);
                    } else {
                        assert(l[i] == m2);
                    }
                }
            } else {
                let l = seq![m1] + Seq::<Move>::empty();
                assert forall|i: int| 0 <= i < l.len() implies crate::chain::chain_move_ok(p, #[trigger] l[i]) by {
                    assert(l[i] == m1);
                }
            }
        }
    }
}

proof fn lemma_pawn_captures_carried(p: Position, from: int, ts: Seq<u32>)
    requires
        p.wf(),
        consistent(p),
        0 <= from < 64,
        holds(p, from, PieceType::Pawn, p.stm),
        forall|k: int| 0 <= k < ts.len() ==> ts[k] < 64 && pawn_target(p.stm, from, ts[k] as int),
    ensures
        all_carried(p, pawn_captures(p, from, ts)),
    decreases ts.len(),
{
    if ts.len() > 0 {
        lemma_pawn_captures_carried(p, from, ts.drop_last());
        let t = ts.last() as int;
        lemma_occ_bit(p, t);
        assert(p.pieces@[from].spec_type() == PieceType::Pawn);
        let add = pawn_capture(p, from, t);
        let ep = p.enpassant.idx as int;
        if ep != 64 && t == ep {
            let m = mk(from, t, MoveType::EnPassant, 12);
            assert(!crate::chain::promoting(p, from));
            assert(crate::chain::dest(p, from, t));
            assert(crate::chain::chain_move_ok(p, m));
            assert forall|i: int| 0 <= i < add.len() implies crate::chain::chain_move_ok(p, #[trigger] add[i]) by {
                assert(add[i] == m);
            }
        } else if p.pieces@[t].id != 12 && p.pieces@[t].id % 2 != p.stm.spec_ordinal() {
            assert(crate::chain::dest(p, from, t));
            if promo_rank(p.stm, t) {
                assert(crate::chain::promoting(p, from));
                lemma_promos_carried(p, from, t);
            } else {
                let m = mk(from, t, MoveType::Normal, 12);
                assert(!crate::chain::promoting(p, from));
                assert(crate::chain::chain_move_ok(p, m));
                assert forall|i: int| 0 <= i < add.len() implies crate::chain::chain_move_ok(p, #[trigger] add[i]) by {
                    assert(add[i] == m);
                }
            }
        }
        lemma_carried_concat(p, pawn_captures(p, from, ts.drop_last()), add);
    }
}

proof fn lemma_piece_moves_carried(p: Position, pt: PieceType, srcs: Seq<u32>)
    requires
        p.wf(),
        consistent(p),
        pt != PieceType::Empty,
        forall|k: int| 0 <= k < srcs.len() ==> srcs[k] < 64 && holds(p, srcs[k] as int, pt, p.stm),
    ensures
        all_carried(p, piece_moves(p, pt, srcs)),
    decreases srcs.len(),
{
    if srcs.len() > 0 {
        lemma_piece_moves_carried(p, pt, srcs.drop_last());
        let from = srcs.last() as int;
        if pt == PieceType::Pawn {
            lemma_pawn_pushes_carried(p, from);
            let f = |t: int| pawn_target(p.stm, from, t);
            lemma_list_where_members(f, 0);
            lemma_pawn_captures_carried(p, from, pawn_attack_list(p, from));
            lemma_carried_concat(p, pawn_push_moves(p, from), pawn_captures(p, from, pawn_attack_list(p, from)));
        } else {
            let f = |t: int| piece_target(pt, from, p.occ(), t);
            lemma_list_where_members(f, 0);
            lemma_target_moves_carried(p, pt, from, attack_list(p, pt, from));
        }
        lemma_carried_concat(p, piece_moves(p, pt, srcs.drop_last()), moves_from(p, pt, from));
    }
}

proof fn lemma_castle_moves_carried(p: Position)
    requires
        p.wf(),
        consistent(p),
    ensures
        all_carried(p, castle_moves(p)),
{
    let c = p.stm;
    let white = c == Color::White;
    let cr = p.castling_rights.bits;
    if exists|k: int| lowest_king(p, k) {
        let k = choose|k: int| lowest_king(p, k);
        let home: int = if white { 4 } else { 60 };
        let s = castle_moves(p);
        if s.len() > 0 {
            if white {
                assert((cr & 1 == 1 || cr & 2 == 2) ==> cr & 3 != 0) by (bit_vector);
            } else {
                assert((cr & 4 == 4 || cr & 8 == 8) ==> cr & 12 != 0) by (bit_vector);
            }
            assert(lowest_king(p, home));
            assert(k == home) by {
                if k < home {
                    assert(!holds(p, k, PieceType::King, p.stm));
                } else if k > home {
                    assert(!holds(p, home, PieceType::King, p.stm));
                }
            }
            assert(p.pieces@[k].spec_type() == PieceType::King);
            assert forall|i: int| 0 <= i < s.len() implies crate::chain::chain_move_ok(p, #[trigger] s[i]) by {
            }
        }
    }
}

/// Every pseudo-legal move of a position whose en-passant square and castling rights are
/// consistent is a move the chain code carries: the move generator and the chain codec agree
/// on the moves of each piece.
pub proof fn lemma_generated_moves_carried(p: Position)
    requires
        p.wf(),
        consistent(p),
    ensures
        all_carried(p, pseudo_moves(p)),
{
    let pts = seq![PieceType::Pawn, PieceType::Knight, PieceType::Bishop, PieceType::Rook, PieceType::Queen, PieceType::King];
    assert forall|j: int| 0 <= j < 6 implies all_carried(p, piece_moves(p, #[trigger] pts[j], sources(p, pts[j]))) by {
        let pt = pts[j];
        let f = |s: int| holds(p, s, pt, p.stm);
        lemma_list_where_members(f, 0);
        lemma_piece_moves_carried(p, pt, sources(p, pt));
    }
    lemma_castle_moves_carried(p);
    let a = piece_moves(p, PieceType::Pawn, sources(p, PieceType::Pawn));
    let b = piece_moves(p, PieceType::Knight, sources(p, PieceType::Knight));
    let c = piece_moves(p, PieceType::Bishop, sources(p, PieceType::Bishop));
    let d = piece_moves(p, PieceType::Rook, sources(p, PieceType::Rook));
    let e = piece_moves(p, PieceType::Queen, sources(p, PieceType::Queen));
    let f = piece_moves(p, PieceType::King, sources(p, PieceType::King));
    assert(all_carried(p, a) && all_carried(p, b) && all_carried(p, c));
    assert(all_carried(p, d) && all_carried(p, e) && all_carried(p, f));
    lemma_carried_concat(p, a, b);
    lemma_carried_concat(p, a + b, c);
    lemma_carried_concat(p, a + b + c, d);
    lemma_carried_concat(p, a + b + c + d, e);
    lemma_carried_concat(p, a + b + c + d + e, f);
    lemma_carried_concat(p, a + b + c + d + e + f, castle_moves(p));
}

} // verus!
