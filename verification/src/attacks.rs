//! Attack geometry: which squares a piece on a square attacks, given the
//! occupancy.  Knight, king and pawn attacks are offset walks; sliding
//! attacks walk each ray until the first blocker, which is included.

use vstd::prelude::*;
use crate::bits::bit64;
use crate::bitboard::Bitboard;
use crate::tile::Tile;

verus! {

broadcast use crate::bits::group_bit_lemmas;

/// The knight's eight jumps.
pub open spec fn knight_off(k: int) -> (int, int) {
    if k == 0 {
        (1, 2)
    } else if k == 1 {
        (2, 1)
    } else if k == 2 {
        (2, -1)
    } else if k == 3 {
        (1, -2)
    } else if k == 4 {
        (-1, -2)
    } else if k == 5 {
        (-2, -1)
    } else if k == 6 {
        (-2, 1)
    } else {
        (-1, 2)
    }
}

/// The king's eight steps.
pub open spec fn king_off(k: int) -> (int, int) {
    if k == 0 {
        (1, 0)
    } else if k == 1 {
        (1, 1)
    } else if k == 2 {
        (0, 1)
    } else if k == 3 {
        (-1, 1)
    } else if k == 4 {
        (-1, 0)
    } else if k == 5 {
        (-1, -1)
    } else if k == 6 {
        (0, -1)
    } else {
        (1, -1)
    }
}

/// A knight on `t` attacks `j`.
pub open spec fn knight_has(t: Tile, j: Tile) -> bool {
    exists|k: int| 0 <= k < 8 && t.spec_offset(knight_off(k).0, knight_off(k).1) == Some(j)
}

/// A king on `t` attacks `j`.
pub open spec fn king_has(t: Tile, j: Tile) -> bool {
    exists|k: int| 0 <= k < 8 && t.spec_offset(king_off(k).0, king_off(k).1) == Some(j)
}

/// A pawn of the given colour on `t` attacks `j`: one forward-diagonal
/// step either way.
pub open spec fn pawn_has(t: Tile, white: bool, j: Tile) -> bool {
    let dy: int = if white {
        1
    } else {
        -1
    };
    t.spec_offset(-1, dy) == Some(j) || t.spec_offset(1, dy) == Some(j)
}

/// The square `n` steps from `t` along direction `(dx, dy)`, or nothing
/// once the walk has left the board.
pub open spec fn ray_sq(t: Tile, dx: int, dy: int, n: nat) -> Option<Tile>
    decreases n,
{
    if n == 0 {
        Some(t)
    } else {
        match ray_sq(t, dx, dy, (n - 1) as nat) {
            Some(s) => s.spec_offset(dx, dy),
            None => None,
        }
    }
}

/// A slider on `t` attacks `j` along direction `(dx, dy)` given the
/// occupancy `occ`: `j` lies some steps out and every square strictly
/// before it is empty.  The first occupied square is attacked itself.
pub open spec fn ray_has(t: Tile, dx: int, dy: int, occ: u64, j: Tile) -> bool {
    exists|n: nat|
        1 <= n && ray_sq(t, dx, dy, n) == Some(j) && (forall|m: nat|
            1 <= m < n ==> (#[trigger] ray_sq(t, dx, dy, m) matches Some(s) && !bit64(
                occ,
                s.0 as u64,
            )))
}

/// A rook on `t` attacks `j` given the occupancy.
pub open spec fn rook_has(t: Tile, occ: u64, j: Tile) -> bool {
    ||| ray_has(t, 1, 0, occ, j)
    ||| ray_has(t, -1, 0, occ, j)
    ||| ray_has(t, 0, 1, occ, j)
    ||| ray_has(t, 0, -1, occ, j)
}

/// A bishop on `t` attacks `j` given the occupancy.
pub open spec fn bishop_has(t: Tile, occ: u64, j: Tile) -> bool {
    ||| ray_has(t, 1, 1, occ, j)
    ||| ray_has(t, 1, -1, occ, j)
    ||| ray_has(t, -1, 1, occ, j)
    ||| ray_has(t, -1, -1, occ, j)
}

/// A queen on `t` attacks `j` given the occupancy.
pub open spec fn queen_has(t: Tile, occ: u64, j: Tile) -> bool {
    rook_has(t, occ, j) || bishop_has(t, occ, j)
}

/// The sign of the step from `a` towards `b`, per axis.
pub open spec fn step_sign(a: int, b: int) -> int {
    if a < b {
        1
    } else if a > b {
        -1
    } else {
        0
    }
}

/// The two squares share a rank, file or diagonal.
pub open spec fn aligned(a: Tile, b: Tile) -> bool {
    let df = b.spec_file() - a.spec_file();
    let dr = b.spec_rank() - a.spec_rank();
    (a != b) && (df == 0 || dr == 0 || df == dr || df == -dr)
}

/// How many king steps lie between the squares along their line.
pub open spec fn line_dist(a: Tile, b: Tile) -> int {
    let df = b.spec_file() - a.spec_file();
    let dr = b.spec_rank() - a.spec_rank();
    let adf = if df < 0 {
        -df
    } else {
        df
    };
    let adr = if dr < 0 {
        -dr
    } else {
        dr
    };
    if adf > adr {
        adf
    } else {
        adr
    }
}

/// `j` lies strictly between `a` and `b` on their shared line.
pub open spec fn between_has(a: Tile, b: Tile, j: Tile) -> bool {
    let sx = step_sign(a.spec_file() as int, b.spec_file() as int);
    let sy = step_sign(a.spec_rank() as int, b.spec_rank() as int);
    aligned(a, b) && exists|n: nat| 1 <= n < line_dist(a, b) && ray_sq(a, sx, sy, n) == Some(j)
}

/// The coordinates of an offset square.
pub proof fn lemma_offset_coords(a: Tile, b: Tile, dx: int, dy: int)
    requires
        a.wf(),
        a.spec_offset(dx, dy) == Some(b),
    ensures
        b.wf(),
        b.spec_file() == a.spec_file() + dx,
        b.spec_rank() == a.spec_rank() + dy,
{
    assert(b.0 == (a.spec_rank() + dy) * 8 + (a.spec_file() + dx));
    assert(b.spec_file() == a.spec_file() + dx && b.spec_rank() == a.spec_rank() + dy)
        by (nonlinear_arith)
        requires
            0 <= a.spec_file() + dx < 8,
            0 <= a.spec_rank() + dy < 8,
            b.0 == (a.spec_rank() + dy) * 8 + (a.spec_file() + dx),
            b.spec_file() == b.0 % 8,
            b.spec_rank() == b.0 / 8,
    ;
}

/// A king step changes file and rank by at most one.
pub proof fn lemma_king_reach_close(t: Tile, to: Tile)
    requires
        t.wf(),
        king_has(t, to),
    ensures
        to.wf(),
        -1 <= to.spec_file() - t.spec_file() <= 1,
        -1 <= to.spec_rank() - t.spec_rank() <= 1,
{
    let k = choose|k: int|
        0 <= k < 8 && t.spec_offset(king_off(k).0, king_off(k).1) == Some(to);
    lemma_offset_coords(t, to, king_off(k).0, king_off(k).1);
}

/// One step there is the mirrored step back.
pub proof fn lemma_offset_symm(a: Tile, b: Tile, dx: int, dy: int)
    requires
        a.wf(),
    ensures
        a.spec_offset(dx, dy) == Some(b) ==> b.wf() && b.spec_offset(-dx, -dy) == Some(a),
{
    if a.spec_offset(dx, dy) == Some(b) {
        assert(b.0 == (a.spec_rank() + dy) * 8 + (a.spec_file() + dx));
        assert(b.spec_file() == a.spec_file() + dx && b.spec_rank() == a.spec_rank() + dy)
            by (nonlinear_arith)
            requires
                0 <= a.spec_file() + dx < 8,
                0 <= a.spec_rank() + dy < 8,
                b.0 == (a.spec_rank() + dy) * 8 + (a.spec_file() + dx),
                b.spec_file() == b.0 % 8,
                b.spec_rank() == b.0 / 8,
        ;
        assert(a.0 == a.spec_rank() * 8 + a.spec_file()) by (nonlinear_arith)
            requires
                a.spec_file() == a.0 % 8,
                a.spec_rank() == a.0 / 8,
                a.0 < 64,
        ;
        assert(b.spec_offset(-dx, -dy) == Some(Tile((a.spec_rank() * 8 + a.spec_file()) as u8)));
    }
}

/// A pawn attack read backwards: a pawn of colour `w` on `j` attacks `t`
/// exactly when a pawn of the other colour on `t` would attack `j`.
pub proof fn lemma_pawn_symm(j: Tile, t: Tile, w: bool)
    requires
        j.wf(),
        t.wf(),
    ensures
        pawn_has(j, w, t) == pawn_has(t, !w, j),
{
    let dy: int = if w {
        1
    } else {
        -1
    };
    lemma_offset_symm(j, t, -1, dy);
    lemma_offset_symm(j, t, 1, dy);
    lemma_offset_symm(t, j, -1, -dy);
    lemma_offset_symm(t, j, 1, -dy);
}

/// Once a ray has left the board it stays off it.
pub proof fn lemma_ray_none_stays(t: Tile, dx: int, dy: int, m: nat, n: nat)
    requires
        m <= n,
        ray_sq(t, dx, dy, m) is None,
    ensures
        ray_sq(t, dx, dy, n) is None,
    decreases n,
{
    if n > m {
        lemma_ray_none_stays(t, dx, dy, m, (n - 1) as nat);
    }
}

/// Multiplying by a unit step keeps, negates or kills the count.
pub proof fn lemma_mul_sign(n: int, d: int)
    ensures
        d == 1 ==> n * d == n,
        d == -1 ==> n * d == -n,
        d == 0 ==> n * d == 0,
{
    assert(d == 1 ==> n * d == n) by (nonlinear_arith);
    assert(d == -1 ==> n * d == -n) by (nonlinear_arith);
    assert(d == 0 ==> n * d == 0) by (nonlinear_arith);
}

/// The coordinates of a ray square: `n` steps move the file by `n * dx`
/// and the rank by `n * dy`.
pub proof fn lemma_ray_coords(t: Tile, dx: int, dy: int, n: nat)
    requires
        t.wf(),
        -1 <= dx <= 1,
        -1 <= dy <= 1,
        ray_sq(t, dx, dy, n) is Some,
    ensures
        ray_sq(t, dx, dy, n) matches Some(s) && s.wf() && s.spec_file() == t.spec_file() + n * dx
            && s.spec_rank() == t.spec_rank() + n * dy,
    decreases n,
{
    if n > 0 {
        lemma_ray_coords(t, dx, dy, (n - 1) as nat);
        let prev = ray_sq(t, dx, dy, (n - 1) as nat)->Some_0;
        assert(n * dx == (n - 1) * dx + dx) by (nonlinear_arith);
        assert(n * dy == (n - 1) * dy + dy) by (nonlinear_arith);
        let s = prev.spec_offset(dx, dy)->Some_0;
        assert(s.spec_file() == (prev.spec_rank() + dy) * 8 + (prev.spec_file() + dx) - ((
        prev.spec_rank() + dy) * 8) == prev.spec_file() + dx) by (nonlinear_arith)
            requires
                0 <= prev.spec_file() + dx < 8,
                0 <= prev.spec_rank() + dy < 8,
                s.0 == (prev.spec_rank() + dy) * 8 + (prev.spec_file() + dx),
                s.spec_file() == s.0 % 8,
                s.spec_rank() == s.0 / 8,
        ;
        assert(s.spec_rank() == prev.spec_rank() + dy) by (nonlinear_arith)
            requires
                0 <= prev.spec_file() + dx < 8,
                0 <= prev.spec_rank() + dy < 8,
                s.0 == (prev.spec_rank() + dy) * 8 + (prev.spec_file() + dx),
                s.spec_rank() == s.0 / 8,
        ;
    } else {
        assert(n * dx == 0) by (nonlinear_arith)
            requires
                n == 0,
        ;
        assert(n * dy == 0) by (nonlinear_arith)
            requires
                n == 0,
        ;
    }
}

/// No ray survives eight steps.
pub proof fn lemma_ray_ends(t: Tile, dx: int, dy: int)
    requires
        t.wf(),
        -1 <= dx <= 1,
        -1 <= dy <= 1,
        !(dx == 0 && dy == 0),
    ensures
        ray_sq(t, dx, dy, 8) is None,
{
    if ray_sq(t, dx, dy, 8) is Some {
        lemma_ray_coords(t, dx, dy, 8);
        assert(8 * dx == 8 * dx) by (nonlinear_arith);
        assert(dx == 1 ==> 8 * dx == 8) by (nonlinear_arith);
        assert(dx == -1 ==> 8 * dx == -8) by (nonlinear_arith);
        assert(dy == 1 ==> 8 * dy == 8) by (nonlinear_arith);
        assert(dy == -1 ==> 8 * dy == -8) by (nonlinear_arith);
        assert(dx == 0 ==> 8 * dx == 0) by (nonlinear_arith);
        assert(dy == 0 ==> 8 * dy == 0) by (nonlinear_arith);
    }
}

/// The squares a knight on `t` attacks.
pub fn knight_attacks_on(t: Tile) -> (r: Bitboard)
    requires
        t.wf(),
    ensures
        forall|j: Tile| j.wf() ==> (#[trigger] bit64(r.0, j.0 as u64) <==> knight_has(t, j)),
        forall|i: u64| bit64(r.0, i) ==> i < 64,
{
    let mut out: u64 = 0;
    let mut k: usize = 0;
    while k < 8
        invariant
            t.wf(),
            k <= 8,
            forall|j: Tile|
                j.wf() ==> (#[trigger] bit64(out, j.0 as u64) <==> exists|m: int|
                    0 <= m < k && t.spec_offset(knight_off(m).0, knight_off(m).1) == Some(j)),
            forall|i: u64| bit64(out, i) ==> i < 64,
        decreases 8 - k,
    {
        let (dx, dy): (i8, i8) = match k {
            0 => (1, 2),
            1 => (2, 1),
            2 => (2, -1),
            3 => (1, -2),
            4 => (-1, -2),
            5 => (-2, -1),
            6 => (-2, 1),
            _ => (-1, 2),
        };
        proof {
            assert((dx as int, dy as int) == knight_off(k as int));
        }
        if let Some(s) = t.offset(dx, dy) {
            out = out | (1u64 << s.0);
        }
        k = k + 1;
    }
    Bitboard(out)
}

/// The squares a king on `t` attacks.
pub fn king_attacks_on(t: Tile) -> (r: Bitboard)
    requires
        t.wf(),
    ensures
        forall|j: Tile| j.wf() ==> (#[trigger] bit64(r.0, j.0 as u64) <==> king_has(t, j)),
        forall|i: u64| bit64(r.0, i) ==> i < 64,
{
    let mut out: u64 = 0;
    let mut k: usize = 0;
    while k < 8
        invariant
            t.wf(),
            k <= 8,
            forall|j: Tile|
                j.wf() ==> (#[trigger] bit64(out, j.0 as u64) <==> exists|m: int|
                    0 <= m < k && t.spec_offset(king_off(m).0, king_off(m).1) == Some(j)),
            forall|i: u64| bit64(out, i) ==> i < 64,
        decreases 8 - k,
    {
        let (dx, dy): (i8, i8) = match k {
            0 => (1, 0),
            1 => (1, 1),
            2 => (0, 1),
            3 => (-1, 1),
            4 => (-1, 0),
            5 => (-1, -1),
            6 => (0, -1),
            _ => (1, -1),
        };
        proof {
            assert((dx as int, dy as int) == king_off(k as int));
        }
        if let Some(s) = t.offset(dx, dy) {
            out = out | (1u64 << s.0);
        }
        k = k + 1;
    }
    Bitboard(out)
}

/// The squares a pawn of the given colour on `t` attacks.
pub fn pawn_attacks_on(t: Tile, white: bool) -> (r: Bitboard)
    requires
        t.wf(),
    ensures
        forall|j: Tile| j.wf() ==> (#[trigger] bit64(r.0, j.0 as u64) <==> pawn_has(t, white, j)),
        forall|i: u64| bit64(r.0, i) ==> i < 64,
{
    let dy: i8 = if white {
        1
    } else {
        -1
    };
    let mut out: u64 = 0;
    if let Some(s) = t.offset(-1, dy) {
        out = out | (1u64 << s.0);
    }
    if let Some(s) = t.offset(1, dy) {
        out = out | (1u64 << s.0);
    }
    Bitboard(out)
}

/// The squares a slider on `t` attacks along one direction, walking until
/// the first occupied square, which is included.
fn ray_attacks(t: Tile, dx: i8, dy: i8, occ: Bitboard) -> (r: Bitboard)
    requires
        t.wf(),
        -1 <= dx <= 1,
        -1 <= dy <= 1,
        !(dx == 0 && dy == 0),
    ensures
        forall|j: Tile|
            j.wf() ==> (#[trigger] bit64(r.0, j.0 as u64) <==> ray_has(
                t,
                dx as int,
                dy as int,
                occ.0,
                j,
            )),
        forall|i: u64| bit64(r.0, i) ==> i < 64,
{
    let ghost dxi = dx as int;
    let ghost dyi = dy as int;
    let mut out: u64 = 0;
    let mut cur = t;
    let mut n: u8 = 0;
    while n < 8
        invariant
            t.wf(),
            cur.wf(),
            -1 <= dx <= 1,
            -1 <= dy <= 1,
            !(dx == 0 && dy == 0),
            dxi == dx as int,
            dyi == dy as int,
            n <= 8,
            ray_sq(t, dxi, dyi, n as nat) == Some(cur),
            forall|m: nat|
                1 <= m <= n ==> (#[trigger] ray_sq(t, dxi, dyi, m) matches Some(s) && !bit64(
                    occ.0,
                    s.0 as u64,
                )),
            forall|j: Tile|
                j.wf() ==> (#[trigger] bit64(out, j.0 as u64) <==> exists|m: nat|
                    1 <= m <= n && ray_sq(t, dxi, dyi, m) == Some(j)),
            forall|i: u64| bit64(out, i) ==> i < 64,
        decreases 8 - n,
    {
        match cur.offset(dx, dy) {
            None => {
                proof {
                    assert(ray_sq(t, dxi, dyi, (n + 1) as nat) is None);
                    assert forall|j: Tile| j.wf() implies (#[trigger] bit64(out, j.0 as u64)
                        <==> ray_has(t, dxi, dyi, occ.0, j)) by {
                        if ray_has(t, dxi, dyi, occ.0, j) {
                            let w = choose|w: nat|
                                1 <= w && ray_sq(t, dxi, dyi, w) == Some(j) && (forall|m: nat|
                                    1 <= m < w ==> (#[trigger] ray_sq(t, dxi, dyi, m) matches Some(
                                        s,
                                    ) && !bit64(occ.0, s.0 as u64)));
                            if w > n {
                                lemma_ray_none_stays(t, dxi, dyi, (n + 1) as nat, w);
                            }
                        }
                    }
                }
                return Bitboard(out);
            },
            Some(s) => {
                out = out | (1u64 << s.0);
                let blocked = occ.get_bit(s);
                proof {
                    assert(ray_sq(t, dxi, dyi, (n + 1) as nat) == Some(s));
                    assert forall|j: Tile| j.wf() implies (#[trigger] bit64(out, j.0 as u64)
                        <==> exists|m: nat|
                        1 <= m <= n + 1 && ray_sq(t, dxi, dyi, m) == Some(j)) by {
                        if bit64(out, j.0 as u64) {
                            if j == s {
                                assert(ray_sq(t, dxi, dyi, (n + 1) as nat) == Some(j));
                            }
                        }
                    }
                }
                if blocked {
                    proof {
                        assert forall|j: Tile| j.wf() implies (#[trigger] bit64(out, j.0 as u64)
                            <==> ray_has(t, dxi, dyi, occ.0, j)) by {
                            if bit64(out, j.0 as u64) {
                                let m = choose|m: nat|
                                    1 <= m <= n + 1 && ray_sq(t, dxi, dyi, m) == Some(j);
                                assert(ray_has(t, dxi, dyi, occ.0, j));
                            }
                            if ray_has(t, dxi, dyi, occ.0, j) {
                                let w = choose|w: nat|
                                    1 <= w && ray_sq(t, dxi, dyi, w) == Some(j) && (forall|m: nat|
                                        1 <= m < w ==> (#[trigger] ray_sq(
                                            t,
                                            dxi,
                                            dyi,
                                            m,
                                        ) matches Some(s2) && !bit64(occ.0, s2.0 as u64)));
                                if w > n + 1 {
                                    assert(ray_sq(t, dxi, dyi, (n + 1) as nat) matches Some(s3)
                                        && !bit64(occ.0, s3.0 as u64));
                                    assert(false);
                                }
                            }
                        }
                    }
                    return Bitboard(out);
                }
                cur = s;
            },
        }
        n = n + 1;
    }
    proof {
        lemma_ray_ends(t, dxi, dyi);
        assert(false);
    }
    Bitboard(out)
}

/// The squares a rook on `t` attacks given the occupancy.
pub fn rook_attacks_on(t: Tile, occ: Bitboard) -> (r: Bitboard)
    requires
        t.wf(),
    ensures
        forall|j: Tile| j.wf() ==> (#[trigger] bit64(r.0, j.0 as u64) <==> rook_has(t, occ.0, j)),
        forall|i: u64| bit64(r.0, i) ==> i < 64,
{
    let a = ray_attacks(t, 1, 0, occ);
    let b = ray_attacks(t, -1, 0, occ);
    let c = ray_attacks(t, 0, 1, occ);
    let d = ray_attacks(t, 0, -1, occ);
    Bitboard(a.0 | b.0 | c.0 | d.0)
}

/// The squares a bishop on `t` attacks given the occupancy.
pub fn bishop_attacks_on(t: Tile, occ: Bitboard) -> (r: Bitboard)
    requires
        t.wf(),
    ensures
        forall|j: Tile| j.wf() ==> (#[trigger] bit64(r.0, j.0 as u64) <==> bishop_has(t, occ.0, j)),
        forall|i: u64| bit64(r.0, i) ==> i < 64,
{
    let a = ray_attacks(t, 1, 1, occ);
    let b = ray_attacks(t, 1, -1, occ);
    let c = ray_attacks(t, -1, 1, occ);
    let d = ray_attacks(t, -1, -1, occ);
    Bitboard(a.0 | b.0 | c.0 | d.0)
}

/// The squares a queen on `t` attacks given the occupancy.
pub fn queen_attacks_on(t: Tile, occ: Bitboard) -> (r: Bitboard)
    requires
        t.wf(),
    ensures
        forall|j: Tile| j.wf() ==> (#[trigger] bit64(r.0, j.0 as u64) <==> queen_has(t, occ.0, j)),
        forall|i: u64| bit64(r.0, i) ==> i < 64,
{
    let a = rook_attacks_on(t, occ);
    let b = bishop_attacks_on(t, occ);
    Bitboard(a.0 | b.0)
}

/// The squares strictly between two squares on a shared rank, file or
/// diagonal; empty when the squares do not share a line.
pub fn between_tiles(a: Tile, b: Tile) -> (r: Bitboard)
    requires
        a.wf(),
        b.wf(),
    ensures
        forall|j: Tile| j.wf() ==> (#[trigger] bit64(r.0, j.0 as u64) <==> between_has(a, b, j)),
        forall|i: u64| bit64(r.0, i) ==> i < 64,
{
    let (af, ar) = a.get_coords();
    let (bf, br) = b.get_coords();
    let df = bf as i8 - af as i8;
    let dr = br as i8 - ar as i8;
    let adf = if df < 0 {
        -df
    } else {
        df
    };
    let adr = if dr < 0 {
        -dr
    } else {
        dr
    };
    let is_aligned = (a.to_u8() != b.to_u8()) && (df == 0 || dr == 0 || adf == adr);
    proof {
        assert(is_aligned == aligned(a, b));
    }
    if !is_aligned {
        proof {
            assert(forall|j: Tile| !between_has(a, b, j));
            assert(forall|i: u64| !bit64(0u64, i));
        }
        return Bitboard(0);
    }
    let sx: i8 = if af < bf {
        1
    } else if af > bf {
        -1
    } else {
        0
    };
    let sy: i8 = if ar < br {
        1
    } else if ar > br {
        -1
    } else {
        0
    };
    let dist: u8 = if adf > adr {
        adf as u8
    } else {
        adr as u8
    };
    let ghost dxi = sx as int;
    let ghost dyi = sy as int;
    let mut out: u64 = 0;
    let mut cur = a;
    let mut n: u8 = 0;
    while n + 1 < dist
        invariant
            a.wf(),
            b.wf(),
            cur.wf(),
            aligned(a, b),
            dxi == step_sign(a.spec_file() as int, b.spec_file() as int),
            dyi == step_sign(a.spec_rank() as int, b.spec_rank() as int),
            sx as int == dxi,
            sy as int == dyi,
            dist == line_dist(a, b),
            1 <= dist <= 7,
            n < dist,
            ray_sq(a, dxi, dyi, n as nat) == Some(cur),
            forall|j: Tile|
                j.wf() ==> (#[trigger] bit64(out, j.0 as u64) <==> exists|m: nat|
                    1 <= m <= n && ray_sq(a, dxi, dyi, m) == Some(j)),
            forall|i: u64| bit64(out, i) ==> i < 64,
        decreases dist - n,
    {
        proof {
            lemma_ray_coords(a, dxi, dyi, n as nat);
            lemma_mul_sign(n as int, dxi);
            lemma_mul_sign(n as int, dyi);
            assert(dxi != 0 ==> dist == (if a.spec_file() < b.spec_file() {
                b.spec_file() - a.spec_file()
            } else {
                a.spec_file() - b.spec_file()
            }));
            assert(dyi != 0 ==> dist == (if a.spec_rank() < b.spec_rank() {
                b.spec_rank() - a.spec_rank()
            } else {
                a.spec_rank() - b.spec_rank()
            }));
            if cur.spec_offset(dxi, dyi) is None {
                assert(dxi == 1 ==> cur.spec_file() == a.spec_file() + n);
                assert(dxi == -1 ==> cur.spec_file() == a.spec_file() - n);
                assert(dxi == 0 ==> cur.spec_file() == a.spec_file());
                assert(dyi == 1 ==> cur.spec_rank() == a.spec_rank() + n);
                assert(dyi == -1 ==> cur.spec_rank() == a.spec_rank() - n);
                assert(dyi == 0 ==> cur.spec_rank() == a.spec_rank());
                assert(0 <= cur.spec_file() + dxi < 8);
                assert(0 <= cur.spec_rank() + dyi < 8);
                assert(false);
            }
        }
        let s = cur.offset(sx, sy).unwrap();
        out = out | (1u64 << s.0);
        proof {
            assert(ray_sq(a, dxi, dyi, (n + 1) as nat) == Some(s));
            assert forall|j: Tile| j.wf() implies (#[trigger] bit64(out, j.0 as u64) <==> exists|
                m: nat,
            | 1 <= m <= n + 1 && ray_sq(a, dxi, dyi, m) == Some(j)) by {
                if bit64(out, j.0 as u64) && j == s {
                    assert(ray_sq(a, dxi, dyi, (n + 1) as nat) == Some(j));
                }
            }
        }
        cur = s;
        n = n + 1;
    }
    proof {
        assert forall|j: Tile| j.wf() implies (#[trigger] bit64(out, j.0 as u64) <==> between_has(
            a,
            b,
            j,
        )) by {
            if bit64(out, j.0 as u64) {
                let m = choose|m: nat| 1 <= m <= n && ray_sq(a, dxi, dyi, m) == Some(j);
                assert(m < dist);
                assert(between_has(a, b, j));
            }
            if between_has(a, b, j) {
                let m = choose|m: nat| 1 <= m < line_dist(a, b) && ray_sq(a, dxi, dyi, m) == Some(
                    j,
                );
                assert(m <= n);
            }
        }
    }
    Bitboard(out)
}

} // verus!
