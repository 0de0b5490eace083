use vstd::prelude::*;
use crate::bitboard::Bitboard;
use crate::bits::{bit, lemma_bit_or, lemma_bit_single, lemma_bit_zero};
use crate::coords::{file_of, rank_of, Color, Square};
use crate::piece::PieceType;

verus! {

/// The square `df` files and `dr` ranks away from `s`, if it lies on the board.
pub open spec fn step(s: int, df: int, dr: int) -> Option<int> {
    let f = file_of(s) + df;
    let r = rank_of(s) + dr;
    if 0 <= f < 8 && 0 <= r < 8 {
        Some(r * 8 + f)
    } else {
        None
    }
}

/// `k` units in direction `d` (one of -1, 0, 1).
pub open spec fn scaled(k: int, d: int) -> int {
    if d > 0 {
        k
    } else if d < 0 {
        -k
    } else {
        0
    }
}

/// Whether the `k`-th square from `s` in direction (`df`, `dr`) lies on the board.
pub open spec fn on_ray(s: int, df: int, dr: int, k: int) -> bool {
    0 <= file_of(s) + scaled(k, df) < 8 && 0 <= rank_of(s) + scaled(k, dr) < 8
}

/// The `k`-th square from `s` in direction (`df`, `dr`).
pub open spec fn ray_sq(s: int, df: int, dr: int, k: int) -> int {
    (rank_of(s) + scaled(k, dr)) * 8 + file_of(s) + scaled(k, df)
}

/// A slider on `s` moving in direction (`df`, `dr`) reaches `t` over the occupancy `occ`:
/// `t` lies on the ray and no square before it is occupied.
pub open spec fn slides_to(s: int, occ: u64, df: int, dr: int, t: int) -> bool {
    exists|k: int|
        1 <= k < 8 && on_ray(s, df, dr, k) && ray_sq(s, df, dr, k) == t && (forall|m: int|
            1 <= m < k ==> !bit(occ, ray_sq(s, df, dr, m)))
}

pub open spec fn knight_target(s: int, t: int) -> bool {
    step(s, 1, 2) == Some(t) || step(s, 2, 1) == Some(t) || step(s, 2, -1) == Some(t) || step(
        s,
        1,
        -2,
    ) == Some(t) || step(s, -1, -2) == Some(t) || step(s, -2, -1) == Some(t) || step(s, -2, 1)
        == Some(t) || step(s, -1, 2) == Some(t)
}

pub open spec fn king_target(s: int, t: int) -> bool {
    step(s, 1, 1) == Some(t) || step(s, 1, 0) == Some(t) || step(s, 1, -1) == Some(t) || step(
        s,
        0,
        -1,
    ) == Some(t) || step(s, -1, -1) == Some(t) || step(s, -1, 0) == Some(t) || step(s, -1, 1)
        == Some(t) || step(s, 0, 1) == Some(t)
}

/// The squares a pawn of colour `c` on `s` attacks.
pub open spec fn pawn_target(c: Color, s: int, t: int) -> bool {
    let dr = if c == Color::White { 1int } else { -1int };
    step(s, -1, dr) == Some(t) || step(s, 1, dr) == Some(t)
}

pub open spec fn rook_target(s: int, occ: u64, t: int) -> bool {
    slides_to(s, occ, 0, 1, t) || slides_to(s, occ, 0, -1, t) || slides_to(s, occ, 1, 0, t)
        || slides_to(s, occ, -1, 0, t)
}

pub open spec fn bishop_target(s: int, occ: u64, t: int) -> bool {
    slides_to(s, occ, 1, 1, t) || slides_to(s, occ, 1, -1, t) || slides_to(s, occ, -1, 1, t)
        || slides_to(s, occ, -1, -1, t)
}

/// Adds to `acc` the square `df` files and `dr` ranks away from `sq`, if on the board.
fn add_step(acc: u64, sq: u32, df: i32, dr: i32) -> (r: u64)
    requires
        sq < 64,
        -2 <= df <= 2,
        -2 <= dr <= 2,
    ensures
        forall|j: int|
            0 <= j < 64 ==> bit(r, j) == (bit(acc, j) || step(sq as int, df as int, dr as int)
                == Some(j)),
{
    let f = (sq % 8) as i32 + df;
    let rk = (sq / 8) as i32 + dr;
    if 0 <= f && f < 8 && 0 <= rk && rk < 8 {
        let t = (rk * 8 + f) as u32;
        let r = acc | (1u64 << t);
        proof {
            assert forall|j: int| 0 <= j < 64 implies bit(r, j) == (bit(acc, j) || step(
                sq as int,
                df as int,
                dr as int,
            ) == Some(j)) by {
                lemma_bit_or(acc, 1u64 << t, j as u64);
                lemma_bit_single(t as u64, j as u64);
            }
        }
        r
    } else {
        acc
    }
}

proof fn lemma_off_ray_stays_off(s: int, df: int, dr: int, k: int, m: int)
    requires
        0 <= s < 64,
        -1 <= df <= 1,
        -1 <= dr <= 1,
        1 <= k <= m,
        !on_ray(s, df, dr, k),
    ensures
        !on_ray(s, df, dr, m),
{
}

/// Every square of the ray before the `k`-th is on the board and empty.
#[verifier::opaque]
spec fn clear_upto(s: int, occ: u64, df: int, dr: int, k: int) -> bool {
    forall|m: int| 1 <= m < k ==> on_ray(s, df, dr, m) && !bit(occ, ray_sq(s, df, dr, m))
}

/// `res` holds the bits of `acc` and the ray squares before the `k`-th.
#[verifier::opaque]
spec fn hits_upto(res: u64, acc: u64, s: int, df: int, dr: int, k: int) -> bool {
    forall|j: int|
        0 <= j < 64 ==> bit(res, j) == (bit(acc, j) || exists|m: int|
            1 <= m < k && ray_sq(s, df, dr, m) == j)
}

proof fn lemma_ray_start(acc: u64, s: int, occ: u64, df: int, dr: int)
    ensures
        clear_upto(s, occ, df, dr, 1),
        hits_upto(acc, acc, s, df, dr, 1),
{
    reveal(clear_upto);
    reveal(hits_upto);
}

proof fn lemma_ray_step(res: u64, acc: u64, s: int, occ: u64, df: int, dr: int, k: int, t: u64)
    requires
        clear_upto(s, occ, df, dr, k),
        hits_upto(res, acc, s, df, dr, k),
        on_ray(s, df, dr, k),
        ray_sq(s, df, dr, k) == t,
        t < 64,
        k >= 1,
    ensures
        hits_upto(res | (1u64 << t), acc, s, df, dr, k + 1),
        !bit(occ, t as int) ==> clear_upto(s, occ, df, dr, k + 1),
{
    reveal(clear_upto);
    reveal(hits_upto);
    let r2 = res | (1u64 << t);
    assert forall|j: int| 0 <= j < 64 implies bit(r2, j) == (bit(acc, j) || exists|m: int|
        1 <= m < k + 1 && ray_sq(s, df, dr, m) == j) by {
        lemma_bit_or(res, 1u64 << t, j as u64);
        lemma_bit_single(t, j as u64);
        if exists|m: int| 1 <= m < k + 1 && ray_sq(s, df, dr, m) == j {
            let m = choose|m: int| 1 <= m < k + 1 && ray_sq(s, df, dr, m) == j;
            if m < k {
                assert(exists|m: int| 1 <= m < k && ray_sq(s, df, dr, m) == j);
            }
        }
    }
    if !bit(occ, t as int) {
        assert forall|m: int| 1 <= m < k + 1 implies on_ray(s, df, dr, m) && !bit(
            occ,
            ray_sq(s, df, dr, m),
        ) by {
            if m < k {
            }
        }
    }
}

/// The ray ends: the `k`-th square is off the board, or the one before it is occupied.
proof fn lemma_ray_end(res: u64, acc: u64, s: int, occ: u64, df: int, dr: int, k: int)
    requires
        0 <= s < 64,
        -1 <= df <= 1,
        -1 <= dr <= 1,
        1 <= k <= 8,
        hits_upto(res, acc, s, df, dr, k),
        (clear_upto(s, occ, df, dr, k) && (k == 8 || !on_ray(s, df, dr, k))) || (k >= 2
            && clear_upto(s, occ, df, dr, k - 1) && on_ray(s, df, dr, k - 1) && bit(
            occ,
            ray_sq(s, df, dr, k - 1),
        )),
    ensures
        forall|j: int| 0 <= j < 64 ==> bit(res, j) == (bit(acc, j) || slides_to(s, occ, df, dr, j)),
{
    reveal(clear_upto);
    reveal(hits_upto);
    assert forall|j: int| 0 <= j < 64 implies bit(res, j) == (bit(acc, j) || slides_to(
        s,
        occ,
        df,
        dr,
        j,
    )) by {
        if slides_to(s, occ, df, dr, j) {
            let m = choose|m: int|
                1 <= m < 8 && on_ray(s, df, dr, m) && ray_sq(s, df, dr, m) == j && (forall|q: int|
                    1 <= q < m ==> !bit(occ, ray_sq(s, df, dr, q)));
            if m >= k {
                if clear_upto(s, occ, df, dr, k) && (k == 8 || !on_ray(s, df, dr, k)) {
                    lemma_off_ray_stays_off(s, df, dr, k, m);
                } else {
                    assert(!bit(occ, ray_sq(s, df, dr, k - 1)));
                }
            }
            assert(m < k);
            assert(exists|m: int| 1 <= m < k && ray_sq(s, df, dr, m) == j);
        }
        if exists|m: int| 1 <= m < k && ray_sq(s, df, dr, m) == j {
            let m = choose|m: int| 1 <= m < k && ray_sq(s, df, dr, m) == j;
            if clear_upto(s, occ, df, dr, k) && (k == 8 || !on_ray(s, df, dr, k)) {
                assert(on_ray(s, df, dr, m));
            } else {
                if m < k - 1 {
                    assert(on_ray(s, df, dr, m));
                }
            }
            assert(forall|q: int| 1 <= q < m ==> !bit(occ, ray_sq(s, df, dr, q)));
            assert(1 <= m < 8 && on_ray(s, df, dr, m) && ray_sq(s, df, dr, m) == j && (forall|
                q: int,
            | 1 <= q < m ==> !bit(occ, ray_sq(s, df, dr, q))));
        }
    }
}

/// Adds to `acc` the squares a slider on `sq` reaches in direction (`df`, `dr`) over `occ`.
fn add_ray(acc: u64, sq: u32, occ: u64, df: i32, dr: i32) -> (r: u64)
    requires
        sq < 64,
        -1 <= df <= 1,
        -1 <= dr <= 1,
        df != 0 || dr != 0,
    ensures
        forall|j: int|
            0 <= j < 64 ==> bit(r, j) == (bit(acc, j) || slides_to(
                sq as int,
                occ,
                df as int,
                dr as int,
                j,
            )),
{
    let ghost s = sq as int;
    let f0 = (sq % 8) as i32;
    let r0 = (sq / 8) as i32;
    let mut k: i32 = 1;
    let mut f = f0 + df;
    let mut rk = r0 + dr;
    let mut res = acc;
    let mut blocked = false;
    proof {
        lemma_ray_start(acc, s, occ, df as int, dr as int);
    }
    while k < 8 && !blocked
        invariant
            1 <= k <= 8,
            -1 <= df <= 1,
            -1 <= dr <= 1,
            f0 == file_of(s),
            r0 == rank_of(s),
            s == sq,
            0 <= s < 64,
            f == f0 + scaled(k as int, df as int),
            rk == r0 + scaled(k as int, dr as int),
            hits_upto(res, acc, s, df as int, dr as int, k as int),
            !blocked ==> clear_upto(s, occ, df as int, dr as int, k as int),
            blocked ==> k >= 2 && clear_upto(s, occ, df as int, dr as int, k - 1) && on_ray(
                s,
                df as int,
                dr as int,
                k - 1,
            ) && bit(occ, ray_sq(s, df as int, dr as int, k - 1)),
        decreases 8 - k,
    {
        if !(0 <= f && f < 8 && 0 <= rk && rk < 8) {
            proof {
                lemma_ray_end(res, acc, s, occ, df as int, dr as int, k as int);
            }
            return res;
        }
        let t = (rk * 8 + f) as u32;
        let hit = (occ >> (t as u64)) & 1 == 1;
        proof {
            lemma_ray_step(res, acc, s, occ, df as int, dr as int, k as int, t as u64);
        }
        res = res | (1u64 << t);
        blocked = hit;
        k = k + 1;
        f = f + df;
        rk = rk + dr;
    }
    proof {
        lemma_ray_end(res, acc, s, occ, df as int, dr as int, k as int);
    }
    res
}

/// Pseudo attacks of a pawn of colour `color` on `sq`.
pub fn pawn(color: Color, sq: Square) -> (r: Bitboard)
    requires
        sq.on_board(),
    ensures
        forall|j: int| 0 <= j < 64 ==> r.has(j) == pawn_target(color, sq.idx as int, j),
{
    let dr: i32 = match color {
        Color::White => 1,
        Color::Black => -1,
    };
    proof {
        assert forall|j: int| 0 <= j < 64 implies !bit(0u64, j) by {
            lemma_bit_zero(j as u64);
        }
    }
    let a = add_step(0u64, sq.idx, -1, dr);
    let b = add_step(a, sq.idx, 1, dr);
    Bitboard::new(b)
}

/// Pseudo attacks of a knight on `sq`.
pub fn knight(sq: Square) -> (r: Bitboard)
    requires
        sq.on_board(),
    ensures
        forall|j: int| 0 <= j < 64 ==> r.has(j) == knight_target(sq.idx as int, j),
{
    proof {
        assert forall|j: int| 0 <= j < 64 implies !bit(0u64, j) by {
            lemma_bit_zero(j as u64);
        }
    }
    let s = sq.idx;
    let mut b = add_step(0u64, s, 1, 2);
    b = add_step(b, s, 2, 1);
    b = add_step(b, s, 2, -1);
    b = add_step(b, s, 1, -2);
    b = add_step(b, s, -1, -2);
    b = add_step(b, s, -2, -1);
    b = add_step(b, s, -2, 1);
    b = add_step(b, s, -1, 2);
    Bitboard::new(b)
}

/// Pseudo attacks of a king on `sq`.
pub fn king(sq: Square) -> (r: Bitboard)
    requires
        sq.on_board(),
    ensures
        forall|j: int| 0 <= j < 64 ==> r.has(j) == king_target(sq.idx as int, j),
{
    proof {
        assert forall|j: int| 0 <= j < 64 implies !bit(0u64, j) by {
            lemma_bit_zero(j as u64);
        }
    }
    let s = sq.idx;
    let mut b = add_step(0u64, s, 1, 1);
    b = add_step(b, s, 1, 0);
    b = add_step(b, s, 1, -1);
    b = add_step(b, s, 0, -1);
    b = add_step(b, s, -1, -1);
    b = add_step(b, s, -1, 0);
    b = add_step(b, s, -1, 1);
    b = add_step(b, s, 0, 1);
    Bitboard::new(b)
}

/// Pseudo attacks of a bishop on `sq` over the occupied squares `occupied`.
pub fn bishop(sq: Square, occupied: Bitboard) -> (r: Bitboard)
    requires
        sq.on_board(),
    ensures
        forall|j: int| 0 <= j < 64 ==> r.has(j) == bishop_target(sq.idx as int, occupied.data, j),
{
    proof {
        assert forall|j: int| 0 <= j < 64 implies !bit(0u64, j) by {
            lemma_bit_zero(j as u64);
        }
    }
    let s = sq.idx;
    let o = occupied.data;
    let mut b = add_ray(0u64, s, o, 1, 1);
    b = add_ray(b, s, o, 1, -1);
    b = add_ray(b, s, o, -1, 1);
    b = add_ray(b, s, o, -1, -1);
    Bitboard::new(b)
}

/// Pseudo attacks of a rook on `sq` over the occupied squares `occupied`.
pub fn rook(sq: Square, occupied: Bitboard) -> (r: Bitboard)
    requires
        sq.on_board(),
    ensures
        forall|j: int| 0 <= j < 64 ==> r.has(j) == rook_target(sq.idx as int, occupied.data, j),
{
    proof {
        assert forall|j: int| 0 <= j < 64 implies !bit(0u64, j) by {
            lemma_bit_zero(j as u64);
        }
    }
    let s = sq.idx;
    let o = occupied.data;
    let mut b = add_ray(0u64, s, o, 0, 1);
    b = add_ray(b, s, o, 0, -1);
    b = add_ray(b, s, o, 1, 0);
    b = add_ray(b, s, o, -1, 0);
    Bitboard::new(b)
}

/// Pseudo attacks of a queen on `sq` over the occupied squares `occupied`.
pub fn queen(sq: Square, occupied: Bitboard) -> (r: Bitboard)
    requires
        sq.on_board(),
    ensures
        forall|j: int|
            0 <= j < 64 ==> r.has(j) == (bishop_target(sq.idx as int, occupied.data, j)
                || rook_target(sq.idx as int, occupied.data, j)),
{
    let b = bishop(sq, occupied);
    let r = rook(sq, occupied);
    let q = Bitboard::from_u64(b.data | r.data);
    proof {
        assert forall|j: int| 0 <= j < 64 implies q.has(j) == (b.has(j) || r.has(j)) by {
            lemma_bit_or(b.data, r.data, j as u64);
        }
    }
    q
}

/// The squares a piece of type `pt` on `s` attacks over `occ`; pawns are left to [`pawn`].
pub open spec fn piece_target(pt: PieceType, s: int, occ: u64, t: int) -> bool {
    match pt {
        PieceType::Knight => knight_target(s, t),
        PieceType::Bishop => bishop_target(s, occ, t),
        PieceType::Rook => rook_target(s, occ, t),
        PieceType::Queen => bishop_target(s, occ, t) || rook_target(s, occ, t),
        PieceType::King => king_target(s, t),
        _ => false,
    }
}

/// Pseudo attacks of a piece of type `pt` (knight to king) on `sq` over `occupied`.
pub fn piece_attacks(pt: PieceType, sq: Square, occupied: Bitboard) -> (r: Bitboard)
    requires
        sq.on_board(),
        pt != PieceType::Pawn,
        pt != PieceType::Empty,
    ensures
        forall|j: int| 0 <= j < 64 ==> r.has(j) == piece_target(pt, sq.idx as int, occupied.data, j),
{
    match pt {
        PieceType::Knight => knight(sq),
        PieceType::Bishop => bishop(sq, occupied),
        PieceType::Rook => rook(sq, occupied),
        PieceType::Queen => queen(sq, occupied),
        _ => king(sq),
    }
}

} // verus!
