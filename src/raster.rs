//! Pixel computations for the graphics collaborator: the points of a line and
//! the RGBA bytes of a one-bit-per-pixel sprite.
use vstd::prelude::*;

use crate::util::{append_u32, le_bytes};

verus! {

/// `|a - b|`.
pub open spec fn dist(a: int, b: int) -> int {
    if a <= b {
        b - a
    } else {
        a - b
    }
}

/// One step of a line: each coordinate stays or moves by one towards the end.
pub open spec fn line_step(p: (u32, u32), q: (u32, u32), end: (u32, u32)) -> bool {
    &&& dist(q.0 as int, end.0 as int) <= dist(p.0 as int, end.0 as int)
    &&& dist(q.1 as int, end.1 as int) <= dist(p.1 as int, end.1 as int)
    &&& dist(p.0 as int, q.0 as int) <= 1
    &&& dist(p.1 as int, q.1 as int) <= 1
    &&& p != q
}

/// The points of Bresenham's walk from (x, y) towards (ex, ey), with error
/// term `error`, distances `dx` and `dd` and steps `sx` and `sy`: the point
/// itself, then, unless it is the end, the walk from the next point. A
/// coordinate takes its step when twice the error term allows it.
pub open spec fn bresenham_walk(
    x: int,
    y: int,
    error: int,
    ex: int,
    ey: int,
    dx: int,
    dd: int,
    sx: int,
    sy: int,
    fuel: nat,
) -> Seq<(u32, u32)>
    decreases fuel,
{
    if fuel == 0 || (x == ex && y == ey) {
        seq![(x as u32, y as u32)]
    } else {
        let move_x = 2 * error >= -dd;
        let move_y = 2 * error <= dx;
        seq![(x as u32, y as u32)] + bresenham_walk(
            if move_x { x + sx } else { x },
            if move_y { y + sy } else { y },
            error - (if move_x { dd } else { 0 }) + (if move_y { dx } else { 0 }),
            ex,
            ey,
            dx,
            dd,
            sx,
            sy,
            (fuel - 1) as nat,
        )
    }
}

/// The points Bresenham's algorithm picks for the line from (x0, y0) to (x1, y1).
pub open spec fn bresenham(x0: u32, y0: u32, x1: u32, y1: u32) -> Seq<(u32, u32)> {
    let dx = dist(x0 as int, x1 as int);
    let dd = dist(y0 as int, y1 as int);
    bresenham_walk(
        x0 as int,
        y0 as int,
        dx - dd,
        x1 as int,
        y1 as int,
        dx,
        dd,
        if x0 < x1 { 1 } else { -1 },
        if y0 < y1 { 1 } else { -1 },
        (dx + dd + 1) as nat,
    )
}

/// The points of the line from (x0, y0) to (x1, y1) by Bresenham's
/// algorithm: the start, then one step at a time towards the end, which is
/// the last point.
pub fn line_points(x0: u32, y0: u32, x1: u32, y1: u32) -> (r: Vec<(u32, u32)>)
    ensures
        r@ == bresenham(x0, y0, x1, y1),
        r@.len() >= 1,
        r@[0] == (x0, y0),
        r@.last() == (x1, y1),
        r@.len() == 1 + if dist(x0 as int, x1 as int) >= dist(y0 as int, y1 as int) {
            dist(x0 as int, x1 as int)
        } else {
            dist(y0 as int, y1 as int)
        },
        forall|k: int| 0 <= k < r@.len() - 1 ==> #[trigger] line_step(r@[k], r@[k + 1], (x1, y1)),
{
    let ex = x1 as i128;
    let ey = y1 as i128;
    let mut x = x0 as i128;
    let mut y = y0 as i128;
    let dx: i128 = if x <= ex { ex - x } else { x - ex };
    let step_x: i128 = if x < ex { 1 } else { -1 };
    let dd: i128 = if y <= ey { ey - y } else { y - ey };
    let step_y: i128 = if y < ey { 1 } else { -1 };
    let mut error: i128 = dx - dd;
    let mut out: Vec<(u32, u32)> = Vec::new();
    let ghost mut i: int = 0;
    let ghost mut j: int = 0;
    let ghost mut fuel: nat = (dx + dd + 1) as nat;
    out.push((x as u32, y as u32));
    proof {
        assert(out@.drop_last() + bresenham_walk(
            x as int,
            y as int,
            error as int,
            ex as int,
            ey as int,
            dx as int,
            dd as int,
            step_x as int,
            step_y as int,
            fuel,
        ) =~= bresenham(x0, y0, x1, y1));
    }
    loop
        invariant
            0 <= dx <= u32::MAX,
            0 <= dd <= u32::MAX,
            0 <= i <= dx,
            0 <= j <= dd,
            ex == x1,
            ey == y1,
            0 <= x <= u32::MAX,
            0 <= y <= u32::MAX,
            step_x == 1 || step_x == -1,
            step_y == 1 || step_y == -1,
            x != ex ==> (step_x == 1 <==> x < ex),
            y != ey ==> (step_y == 1 <==> y < ey),
            dist(x as int, ex as int) == dx - i,
            dist(y as int, ey as int) == dd - j,
            error == dx * (j + 1) - dd * (i + 1),
            dx == dist(x0 as int, x1 as int),
            dd == dist(y0 as int, y1 as int),
            dx >= dd ==> 2 * error >= -dd && out@.len() == i + 1,
            dd >= dx ==> 2 * error <= dx && out@.len() == j + 1,
            fuel >= 1 + (dx - i) + (dd - j),
            bresenham(x0, y0, x1, y1) == out@.drop_last() + bresenham_walk(
                x as int,
                y as int,
                error as int,
                ex as int,
                ey as int,
                dx as int,
                dd as int,
                step_x as int,
                step_y as int,
                fuel,
            ),
            out@.len() >= 1,
            out@[0] == (x0, y0),
            out@.last() == (x as u32, y as u32),
            forall|k: int|
                0 <= k < out@.len() - 1 ==> #[trigger] line_step(out@[k], out@[k + 1], (x1, y1)),
        decreases (dx - i) + (dd - j),
    {
        if x == ex && y == ey {
            proof {
                assert(out@ =~= out@.drop_last() + seq![(x as u32, y as u32)]);
            }
            return out;
        }
        proof {
            assert(-0x4_0000_0000_0000_0000 <= error <= 0x4_0000_0000_0000_0000) by (nonlinear_arith)
                requires
                    error == dx * (j + 1) - dd * (i + 1),
                    0 <= i <= dx <= 0xffff_ffff,
                    0 <= j <= dd <= 0xffff_ffff,
            ;
        }
        let error_2 = 2 * error;
        let move_x = error_2 >= -dd;
        let move_y = error_2 <= dx;
        proof {
            if i == dx && j < dd {
                assert(dx * (j + 1 - dd) <= 0) by (nonlinear_arith)
                    requires
                        j + 1 - dd <= 0,
                        dx >= 0,
                ;
                assert(error == dx * (j + 1 - dd) - dd) by (nonlinear_arith)
                    requires
                        error == dx * (j + 1) - dd * (i + 1),
                        i == dx,
                ;
            }
            if j == dd && i < dx {
                assert(dd * (dx - i - 1) >= 0) by (nonlinear_arith)
                    requires
                        dx - i - 1 >= 0,
                        dd >= 0,
                ;
                assert(error == dx + dd * (dx - i - 1)) by (nonlinear_arith)
                    requires
                        error == dx * (j + 1) - dd * (i + 1),
                        j == dd,
                ;
            }
        }
        let ghost (ei, ej, ee) = (i, j, error);
        let ghost prev = (x as u32, y as u32);
        let ghost before = out@;
        let ghost (ox, oy) = (x as int, y as int);
        if move_x {
            error = error - dd;
            x = x + step_x;
            proof {
                i = i + 1;
            }
        }
        if move_y {
            error = error + dx;
            y = y + step_y;
            proof {
                j = j + 1;
            }
        }
        proof {
            assert(error == dx * (j + 1) - dd * (i + 1)) by (nonlinear_arith)
                requires
                    ee == dx * (ej + 1) - dd * (ei + 1),
                    error == ee - (if move_x { dd } else { 0 }) + (if move_y { dx } else { 0 }),
                    i == ei + (if move_x { 1int } else { 0 }),
                    j == ej + (if move_y { 1int } else { 0 }),
            ;
            assert(line_step(prev, (x as u32, y as u32), (x1, y1)));
            fuel = (fuel - 1) as nat;
        }
        out.push((x as u32, y as u32));
        proof {
            assert(out@.drop_last() =~= before.drop_last() + seq![prev]);
            let w = bresenham_walk(
                x as int,
                y as int,
                error as int,
                ex as int,
                ey as int,
                dx as int,
                dd as int,
                step_x as int,
                step_y as int,
                fuel,
            );
            assert(bresenham_walk(
                ox,
                oy,
                ee as int,
                ex as int,
                ey as int,
                dx as int,
                dd as int,
                step_x as int,
                step_y as int,
                fuel + 1,
            ) == seq![prev] + w);
            assert(before.drop_last() + (seq![prev] + w) =~= out@.drop_last() + w);
        }
    }
}

/// The RGBA bytes of the low `n` bits of `b`, most significant first: `color`
/// for a set bit, zero for a clear one, each least significant byte first.
pub open spec fn bits_pixels(b: u8, color: u32, n: nat) -> Seq<u8>
    decreases n,
{
    if n == 0 {
        Seq::empty()
    } else {
        let bit = (b >> ((n - 1) as u8)) & 1u8;
        le_bytes(if bit != 0 { color } else { 0u32 }) + bits_pixels(b, color, (n - 1) as nat)
    }
}

/// The RGBA bytes of a one-bit-per-pixel sprite, row by row.
pub open spec fn sprite_pixels(data: Seq<u8>, color: u32) -> Seq<u8>
    decreases data.len(),
{
    if data.len() == 0 {
        Seq::empty()
    } else {
        sprite_pixels(data.drop_last(), color) + bits_pixels(data.last(), color, 8)
    }
}

/// The RGBA bytes of a one-bit-per-pixel sprite: each byte gives eight
/// pixels, its most significant bit first.
pub fn mono_sprite_pixels(data: &Vec<u8>, color: u32) -> (r: Vec<u8>)
    ensures
        r@ == sprite_pixels(data@, color),
{
    let mut out: Vec<u8> = Vec::new();
    let mut i: usize = 0;
    while i < data.len()
        invariant
            i <= data@.len(),
            out@ == sprite_pixels(data@.subrange(0, i as int), color),
        decreases data@.len() - i,
    {
        let byte = data[i];
        let ghost before = out@;
        let mut bit_index: u8 = 8;
        while bit_index > 0
            invariant
                bit_index <= 8,
                before + bits_pixels(byte, color, 8) == out@ + bits_pixels(
                    byte,
                    color,
                    bit_index as nat,
                ),
            decreases bit_index,
        {
            let bit = (byte >> (bit_index - 1)) & 1u8;
            let ghost rest = bits_pixels(byte, color, (bit_index - 1) as nat);
            let ghost old_out = out@;
            append_u32(&mut out, if bit != 0 { color } else { 0 });
            proof {
                assert(bits_pixels(byte, color, bit_index as nat) == le_bytes(
                    if bit != 0 { color } else { 0u32 },
                ) + rest);
                assert(old_out + (le_bytes(if bit != 0 { color } else { 0u32 }) + rest) =~= out@
                    + rest);
            }
            bit_index = bit_index - 1;
        }
        proof {
            assert(out@ + bits_pixels(byte, color, 0) =~= out@);
            assert(data@.subrange(0, i + 1).drop_last() =~= data@.subrange(0, i as int));
        }
        i = i + 1;
    }
    proof {
        assert(data@.subrange(0, data@.len() as int) =~= data@);
    }
    out
}

} // verus!
