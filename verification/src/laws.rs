use vstd::prelude::*;
use vstd::arithmetic::div_mod::{lemma_div_pos_is_pos, lemma_fundamental_div_mod};

use crate::cpu::{
    draw_collide, draw_hit, draw_spec, font_loaded, font_spec, op_at, op_fam, op_kk, op_n, op_x,
    op_y, spr_bit, spr_h, spr_row, spr_w, step_spec, tgt_idx, timer_step, wf, CpuView,
    TICK_MICROS,
};

verus! {

/// 8XY4: the sum wraps modulo 256 and VF reports the carry. Stated for
/// destination registers other than VF itself, whose value the flag write
/// overwrites.
pub proof fn lemma_add_carry(c: CpuView, r: u8)
    requires
        wf(c),
        op_fam(op_at(c)) == 8,
        op_n(op_at(c)) == 4,
        op_x(op_at(c)) != 15,
    ensures
        step_spec(c, r).v[op_x(op_at(c))] == (c.v[op_x(op_at(c))] + c.v[op_y(op_at(c))]) % 256,
        step_spec(c, r).v[15] == (if c.v[op_x(op_at(c))] + c.v[op_y(op_at(c))] > 255 {
            1u8
        } else {
            0u8
        }),
{
}

/// 8XY5: the difference wraps modulo 256 and VF is 1 exactly when Vx >= Vy
/// (the no-borrow convention). Stated for destination registers other than
/// VF itself.
pub proof fn lemma_sub_borrow(c: CpuView, r: u8)
    requires
        wf(c),
        op_fam(op_at(c)) == 8,
        op_n(op_at(c)) == 5,
        op_x(op_at(c)) != 15,
    ensures
        step_spec(c, r).v[op_x(op_at(c))] == (c.v[op_x(op_at(c))] - c.v[op_y(op_at(c))]) % 256,
        step_spec(c, r).v[15] == 1 <==> c.v[op_x(op_at(c))] >= c.v[op_y(op_at(c))],
{
}

/// A screen clear, then any sprite draw, then another screen clear leave
/// every pixel of the frame buffer clear: no draw survives the second CLS.
pub proof fn lemma_cls_draw_cls(c: CpuView, r1: u8, r2: u8, r3: u8)
    requires
        op_at(c) == 0x00E0,
        op_fam(op_at(step_spec(c, r1))) == 13,
        op_at(step_spec(step_spec(c, r1), r2)) == 0x00E0,
    ensures
        step_spec(step_spec(step_spec(c, r1), r2), r3).pixels == Seq::new(8192, |p: int| false),
{
}

/// Drawing the single sprite byte 0xFF twice at the same position restores
/// the frame buffer exactly (XOR is its own inverse), and the second draw
/// reports a collision exactly when the first left any of its eight pixels
/// lit.
pub proof fn lemma_draw_twice_restores(c: CpuView, r1: u8, r2: u8)
    requires
        wf(c),
        op_fam(op_at(c)) == 13,
        op_n(op_at(c)) == 1,
        op_x(op_at(c)) != 15,
        op_y(op_at(c)) != 15,
        c.mem[(c.i as int) % 4096] == 0xFF,
        op_at(step_spec(c, r1)) == op_at(c),
    ensures
        step_spec(step_spec(c, r1), r2).pixels == c.pixels,
        (step_spec(step_spec(c, r1), r2).v[15] == 1) <==> (exists|k: int|
            0 <= k < 8 && step_spec(c, r1).pixels[tgt_idx(c, op_at(c), 0, k)]),
{
    let op = op_at(c);
    let c1 = step_spec(c, r1);
    let c2 = step_spec(c1, r2);
    assert(c1 == draw_spec(c, op));
    assert(c2 == draw_spec(c1, op));
    assert(spr_w(c, op) == 8 && spr_h(c, op) == 1);
    assert(spr_w(c1, op) == 8 && spr_h(c1, op) == 1);
    assert(c1.mem == c.mem && c1.i == c.i);
    assert(c1.v[op_x(op)] == c.v[op_x(op)]);
    assert(c1.v[op_y(op)] == c.v[op_y(op)]);
    assert forall|j: int, k: int| 0 <= j < 1 && 0 <= k < 8 implies (#[trigger] spr_bit(
        c1,
        op,
        j,
        k,
    ) == spr_bit(c, op, j, k)) && tgt_idx(c1, op, j, k) == tgt_idx(c, op, j, k) by {
        assert(spr_row(c1, op, j) == spr_row(c, op, j));
    };
    assert(spr_row(c, op, 0) == 0xFF);
    assert forall|k: int| 0 <= k < 8 implies #[trigger] spr_bit(c, op, 0, k) by {
        let sh = (8 - 1 - k) as u16;
        assert(sh < 8);
        assert((0xFFu16 >> sh) & 1 == 1) by (bit_vector)
            requires
                sh < 8,
        ;
    };
    assert forall|p: int| #[trigger] draw_hit(c1, op, p) == draw_hit(c, op, p) by {
        if draw_hit(c1, op, p) {
            let (a, b) = choose|a: int, b: int|
                0 <= a < spr_h(c1, op) && 0 <= b < spr_w(c1, op) && #[trigger] spr_bit(
                    c1,
                    op,
                    a,
                    b,
                ) && p == tgt_idx(c1, op, a, b);
            assert(spr_bit(c, op, a, b) && p == tgt_idx(c, op, a, b));
            assert(draw_hit(c, op, p));
        }
        if draw_hit(c, op, p) {
            let (a, b) = choose|a: int, b: int|
                0 <= a < spr_h(c, op) && 0 <= b < spr_w(c, op) && #[trigger] spr_bit(c, op, a, b)
                    && p == tgt_idx(c, op, a, b);
            assert(spr_bit(c1, op, a, b) && p == tgt_idx(c1, op, a, b));
            assert(draw_hit(c1, op, p));
        }
    };
    assert(c2.pixels =~= c.pixels) by {
        assert forall|p: int| 0 <= p < 8192 implies c2.pixels[p] == c.pixels[p] by {
            assert(c2.pixels[p] == (c1.pixels[p] != draw_hit(c1, op, p)));
            assert(c1.pixels[p] == (c.pixels[p] != draw_hit(c, op, p)));
        };
    };
    assert(c2.v[15] == 1 <==> draw_collide(c1, op));
    if draw_collide(c1, op) {
        let (a, b) = choose|a: int, b: int|
            0 <= a < spr_h(c1, op) && 0 <= b < spr_w(c1, op) && #[trigger] spr_bit(c1, op, a, b)
                && c1.pixels[tgt_idx(c1, op, a, b)];
        assert(a == 0);
        assert(c1.pixels[tgt_idx(c, op, 0, b)]);
        assert(exists|k: int| 0 <= k < 8 && c1.pixels[tgt_idx(c, op, 0, k)]);
    }
    if exists|k: int| 0 <= k < 8 && c1.pixels[tgt_idx(c, op, 0, k)] {
        let k = choose|k: int| 0 <= k < 8 && c1.pixels[tgt_idx(c, op, 0, k)];
        assert(spr_bit(c1, op, 0, k));
        assert(c1.pixels[tgt_idx(c1, op, 0, k)]);
        assert(draw_collide(c1, op));
    }
}

/// A CALL followed immediately by a RET lands two bytes past the call and
/// restores the stack pointer to its pre-call value.
pub proof fn lemma_call_ret(c: CpuView, r1: u8, r2: u8)
    requires
        wf(c),
        op_fam(op_at(c)) == 2,
        op_at(step_spec(c, r1)) == 0x00EE,
    ensures
        step_spec(step_spec(c, r1), r2).pc == c.pc.wrapping_add(2),
        step_spec(step_spec(c, r1), r2).sp == c.sp,
{
    let c1 = step_spec(c, r1);
    assert(c1.sp == (c.sp + 1) % 16);
    assert(((c1.sp + 15) % 16) as u16 == c.sp);
    assert(c1.stack[c.sp as int] == c.pc);
}

/// Total elapsed time, in microseconds, of a sequence of timer calls.
pub open spec fn sum_dts(dts: Seq<u32>) -> int
    decreases dts.len(),
{
    if dts.len() == 0 {
        0
    } else {
        dts[0] + sum_dts(dts.drop_first())
    }
}

/// A timer and its accumulator run through a whole sequence of calls, one
/// `timer_step` per call.
pub open spec fn run_timer(t: u8, acc: u64, dts: Seq<u32>) -> (u8, u64)
    decreases dts.len(),
{
    if dts.len() == 0 {
        (t, acc)
    } else {
        let s = timer_step(t, acc, dts[0] as u64);
        run_timer(s.0, s.1, dts.drop_first())
    }
}

proof fn lemma_sum_nonneg(dts: Seq<u32>)
    ensures
        sum_dts(dts) >= 0,
    decreases dts.len(),
{
    if dts.len() > 0 {
        lemma_sum_nonneg(dts.drop_first());
    }
}

/// A timer of `t` ticks with accumulator `acc` reaches exactly zero, with
/// nothing left over, when the elapsed time totals exactly the missing
/// `t` periods, no matter how the calls split that time. The timer value is
/// unsigned, so it can never pass below zero.
pub proof fn lemma_timer_drain(t: u8, acc: u64, dts: Seq<u32>)
    requires
        t > 0 ==> acc < TICK_MICROS,
        t == 0 ==> acc == 0,
        acc + sum_dts(dts) == t * TICK_MICROS,
    ensures
        run_timer(t, acc, dts) == (0u8, 0u64),
    decreases dts.len(),
{
    lemma_sum_nonneg(dts);
    if dts.len() == 0 {
        assert(t == 0);
    } else {
        let dt = dts[0] as u64;
        let s = timer_step(t, acc, dt);
        lemma_sum_nonneg(dts.drop_first());
        if t == 0 {
            assert(sum_dts(dts) == 0);
            assert(dts[0] == 0 && sum_dts(dts.drop_first()) == 0);
            lemma_timer_drain(s.0, s.1, dts.drop_first());
        } else {
            let total = acc + dt;
            let p = TICK_MICROS as int;
            lemma_fundamental_div_mod(total as int, p);
            let q = total as int / p;
            let d = if q < t { q } else { t as int };
            assert(s.0 == t - d && s.1 == total - d * p);
            assert(d * p <= q * p) by (nonlinear_arith)
                requires
                    d <= q,
                    p > 0,
            ;
            assert(s.1 + sum_dts(dts.drop_first()) == (t - d) * p);
            if s.0 > 0 {
                assert(d == q);
                assert(s.1 == total as int % p);
            } else {
                assert(s.1 + sum_dts(dts.drop_first()) == 0);
                assert(s.1 == 0);
            }
            lemma_timer_drain(s.0, s.1, dts.drop_first());
        }
    }
}

/// Timer values never increase across any sequence of timer calls: the
/// decrements are monotonic.
pub proof fn lemma_timer_monotonic(t: u8, acc: u64, dts: Seq<u32>)
    ensures
        run_timer(t, acc, dts).0 <= t,
    decreases dts.len(),
{
    if dts.len() > 0 {
        let s = timer_step(t, acc, dts[0] as u64);
        if t > 0 {
            lemma_div_pos_is_pos((acc + dts[0]) as int, TICK_MICROS as int);
        }
        assert(s.0 <= t);
        lemma_timer_monotonic(s.0, s.1, dts.drop_first());
    }
}

/// FX29 points the index register at the five-byte glyph for the hex digit
/// in Vx, inside the preloaded font at the bottom of memory.
pub proof fn lemma_font_lookup(c: CpuView, r: u8)
    requires
        wf(c),
        font_loaded(c),
        op_fam(op_at(c)) == 15,
        op_kk(op_at(c)) == 0x29,
        c.v[op_x(op_at(c))] < 16,
    ensures
        step_spec(c, r).i == 5 * c.v[op_x(op_at(c))],
        step_spec(c, r).mem.subrange(
            step_spec(c, r).i as int,
            step_spec(c, r).i + 5,
        ) == font_spec().subrange(
            5 * c.v[op_x(op_at(c))],
            5 * c.v[op_x(op_at(c))] + 5,
        ),
{
    let d = c.v[op_x(op_at(c))] as int;
    let post = step_spec(c, r);
    assert(post.i == 5 * d);
    assert(post.mem == c.mem);
    assert(post.mem.subrange(5 * d, 5 * d + 5) =~= font_spec().subrange(5 * d, 5 * d + 5));
}

} // verus!


