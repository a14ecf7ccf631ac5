//! Systematic (low-variance) resampling of a particle population.
//!
//! Weights are fixed-point tick counts. With `n` particles and total weight
//! `W`, the walk visits the positions `u + i * W / n` for `i < n`, with one
//! offset `u` in `[0, W / n]`, and moves on from a particle only while the
//! position exceeds the cumulative weight so far: each position goes to the
//! first particle whose cumulative weight reaches it. Everything is scaled by
//! `n` so that the walk stays in integers: position `i` is `offset + i * W`
//! with `offset <= W`, and particle `j` takes the positions in
//! `(n * prefix(j), n * prefix(j + 1)]`, the first particle also those at or
//! below zero.
use vstd::prelude::*;

verus! {

/// Sum of the first `j` weights.
pub open spec fn prefix_weight(w: Seq<u32>, j: int) -> nat
    decreases j,
{
    if j <= 0 || w.len() == 0 {
        0
    } else if j > w.len() {
        prefix_weight(w, w.len() as int)
    } else {
        prefix_weight(w, j - 1) + w[j - 1] as nat
    }
}

/// Sum of all weights.
pub open spec fn total_weight(w: Seq<u32>) -> nat {
    prefix_weight(w, w.len() as int)
}

/// Scaled position of the `i`-th draw of the walk.
pub open spec fn draw_position(w: Seq<u32>, offset: int, i: int) -> int {
    offset + i * total_weight(w)
}

/// Particle `j` is the first whose cumulative weight, scaled by the
/// population size, reaches `pos`.
pub open spec fn owns_position(w: Seq<u32>, j: int, pos: int) -> bool {
    &&& 0 <= j < w.len()
    &&& pos <= w.len() * prefix_weight(w, j + 1)
    &&& (j == 0 || w.len() * prefix_weight(w, j) < pos)
}

/// `picks` is the generation that the walk with this offset draws: one pick
/// per particle slot, the `i`-th being the first particle whose cumulative
/// weight reaches the `i`-th position.
pub open spec fn is_systematic_draw(w: Seq<u32>, offset: int, picks: Seq<usize>) -> bool {
    &&& picks.len() == w.len()
    &&& forall|i: int|
        0 <= i < picks.len() ==> owns_position(w, #[trigger] picks[i] as int, draw_position(w, offset, i))
}

/// The offset, in `[0, total]`, that a uniform 32-bit draw `r` stands for:
/// `total * r / 2^32`, rounded up. Positions and cumulative weights are
/// whole numbers, so the rounded walk picks what the exact one would.
pub open spec fn scaled_offset(r: u32, total: nat) -> nat {
    ((r as nat) * total + 0xffff_ffff) / 0x1_0000_0000
}

/// Outcome of one resampling round.
#[derive(Debug)]
pub enum Resampling {
    /// Total weight vanished: no particle is drawn, and the caller resets
    /// every weight.
    Reset,
    /// Indices of the particles that make up the next generation, slot by slot.
    Draw(Vec<usize>),
}

proof fn lemma_prefix_step(w: Seq<u32>, j: int)
    requires
        0 <= j < w.len(),
    ensures
        prefix_weight(w, j + 1) == prefix_weight(w, j) + w[j] as nat,
{
}

proof fn lemma_prefix_monotone(w: Seq<u32>, a: int, b: int)
    requires
        0 <= a <= b <= w.len(),
    ensures
        prefix_weight(w, a) <= prefix_weight(w, b),
    decreases b - a,
{
    if a < b {
        lemma_prefix_monotone(w, a, b - 1);
    }
}

proof fn lemma_prefix_bound(w: Seq<u32>, j: int)
    requires
        0 <= j <= w.len(),
    ensures
        prefix_weight(w, j) <= j * 0xffff_ffff,
    decreases j,
{
    if j > 0 {
        lemma_prefix_bound(w, j - 1);
    }
}

/// Sum of the weights, with its bound.
fn sum_weights(ticks: &Vec<u32>) -> (total: u64)
    requires
        ticks.len() <= 0xffff_ffff,
    ensures
        total as nat == total_weight(ticks@),
{
    let mut total: u64 = 0;
    let mut k: usize = 0;
    while k < ticks.len()
        invariant
            k <= ticks.len() <= 0xffff_ffff,
            total as nat == prefix_weight(ticks@, k as int),
        decreases ticks.len() - k,
    {
        proof {
            lemma_prefix_step(ticks@, k as int);
            lemma_prefix_bound(ticks@, k as int + 1);
            assert((k as int + 1) * 0xffff_ffff <= 0x1_0000_0000 * 0xffff_ffff) by (nonlinear_arith)
                requires
                    k as int + 1 <= 0x1_0000_0000,
            ;
        }
        total = total + ticks[k] as u64;
        k = k + 1;
    }
    total
}

/// Draws the next generation by the systematic walk with the given scaled
/// offset, one pick per particle.
pub fn systematic_draw(ticks: &Vec<u32>, offset: u64) -> (picks: Vec<usize>)
    requires
        0 < ticks.len() <= 0xffff_ffff,
        0 < total_weight(ticks@),
        offset <= total_weight(ticks@),
    ensures
        is_systematic_draw(ticks@, offset as int, picks@),
{
    let ghost w = ticks@;
    let n: usize = ticks.len();
    let nn: u128 = n as u128;
    let total: u128 = sum_weights(ticks) as u128;
    proof {
        lemma_prefix_bound(w, n as int);
        assert(n as int * total <= 0x1_0000_0000 * (0x1_0000_0000 * 0xffff_ffff)) by (nonlinear_arith)
            requires
                n as int <= 0x1_0000_0000,
                total <= n as int * 0xffff_ffff,
        ;
        lemma_prefix_step(w, 0);
        assert(nn * ticks[0] as u128 <= 0x1_0000_0000 * 0xffff_ffff) by (nonlinear_arith)
            requires
                nn <= 0x1_0000_0000,
                ticks[0] <= 0xffff_ffff,
        ;
    }
    let mut picks: Vec<usize> = Vec::new();
    let mut position: u128 = offset as u128;
    let mut j: usize = 0;
    let mut upper: u128 = nn * (ticks[0] as u128);
    let mut i: usize = 0;
    while i < n
        invariant
            w == ticks@,
            n == w.len(),
            nn == n,
            0 < n <= 0xffff_ffff,
            total == total_weight(w),
            0 < total <= 0x1_0000_0000 * 0xffff_ffff,
            offset <= total,
            n as int * total <= 0x1_0000_0000 * (0x1_0000_0000 * 0xffff_ffff),
            i <= n,
            j < n,
            picks.len() == i,
            position == draw_position(w, offset as int, i as int),
            upper == n * prefix_weight(w, j + 1),
            j == 0 || n * prefix_weight(w, j as int) < position,
            forall|k: int|
                0 <= k < i ==> owns_position(w, #[trigger] picks@[k] as int, draw_position(w, offset as int, k)),
        decreases n - i,
    {
        proof {
            assert(position <= n * total) by (nonlinear_arith)
                requires
                    position == offset + i * total,
                    offset <= total,
                    i + 1 <= n,
            ;
        }
        while position > upper
            invariant
                w == ticks@,
                n == w.len(),
                nn == n,
                0 < n <= 0xffff_ffff,
                total == total_weight(w),
                n as int * total <= 0x1_0000_0000 * (0x1_0000_0000 * 0xffff_ffff),
                j < n,
                position <= n * total,
                upper == n * prefix_weight(w, j + 1),
                j == 0 || n * prefix_weight(w, j as int) < position,
            decreases n - j,
        {
            proof {
                if j + 1 >= n {
                    assert(j + 1 == n);
                    assert(false);
                }
                lemma_prefix_step(w, j + 1);
                lemma_prefix_monotone(w, j + 2, n as int);
                assert(n * prefix_weight(w, j + 2) <= n * total) by (nonlinear_arith)
                    requires
                        prefix_weight(w, j + 2) <= total,
                ;
                assert(n * prefix_weight(w, j + 2) == n * prefix_weight(w, j + 1) + nn * ticks[j + 1] as int)
                    by (nonlinear_arith)
                    requires
                        nn == n,
                        prefix_weight(w, j + 2) == prefix_weight(w, j + 1) + ticks[j + 1] as int,
                ;
            }
            j = j + 1;
            upper = upper + nn * (ticks[j] as u128);
        }
        picks.push(j);
        proof {
            assert(draw_position(w, offset as int, i + 1) == position + total) by (nonlinear_arith)
                requires
                    position == offset + i * total,
                    draw_position(w, offset as int, i + 1) == offset + (i + 1) * total,
            ;
        }
        assert(position + total <= 0x1_0000_0000 * (0x1_0000_0000 * 0xffff_ffff) + 0x1_0000_0000 * 0xffff_ffff);
        position = position + total;
        i = i + 1;
    }
    picks
}

/// Relies on macroquad::rand::rand: one draw of the shared generator, which
/// may be any `u32`.
#[verifier::external_body]
fn random_u32() -> (r: u32) {
    macroquad::rand::rand()
}

proof fn lemma_scaled_offset_range(r: u32, total: nat)
    requires
        total > 0,
    ensures
        scaled_offset(r, total) <= total,
        r > 0 ==> scaled_offset(r, total) > 0,
{
    let a = (r as nat) * total + 0xffff_ffff;
    assert(a < 0x1_0000_0000 * total + 0x1_0000_0000) by (nonlinear_arith)
        requires
            a == (r as nat) * total + 0xffff_ffff,
            (r as nat) < 0x1_0000_0000,
            total > 0,
    ;
    assert(a / 0x1_0000_0000 <= total) by (nonlinear_arith)
        requires
            a < 0x1_0000_0000 * total + 0x1_0000_0000,
    ;
    if r > 0 {
        assert(a >= 0x1_0000_0000) by (nonlinear_arith)
            requires
                a == (r as nat) * total + 0xffff_ffff,
                r >= 1,
                total >= 1,
        ;
    }
}

/// One resampling round, with `r` standing for the uniform draw that places
/// the walk's offset: no draw at all when the weights have collapsed to zero,
/// else the systematic walk whose offset `r` gives.
pub fn plan_resampling(ticks: &Vec<u32>, r: u32) -> (plan: Resampling)
    requires
        ticks.len() <= 0xffff_ffff,
    ensures
        (plan is Reset) <==> total_weight(ticks@) == 0,
        plan matches Resampling::Draw(picks) ==> is_systematic_draw(
            ticks@,
            scaled_offset(r, total_weight(ticks@)) as int,
            picks@,
        ),
{
    let total: u64 = sum_weights(ticks);
    if total == 0 {
        return Resampling::Reset;
    }
    proof {
        lemma_scaled_offset_range(r, total as nat);
        assert((r as u128) * (total as u128) <= 0xffff_ffff * 0xffff_ffff_ffff_ffff) by (nonlinear_arith)
            requires
                r <= 0xffff_ffff,
                total <= 0xffff_ffff_ffff_ffff,
        ;
    }
    let offset: u64 = (((r as u128) * (total as u128) + 0xffff_ffff) / 0x1_0000_0000) as u64;
    Resampling::Draw(systematic_draw(ticks, offset))
}

/// One resampling round with a fresh random offset: no draw when the weights
/// have collapsed to zero, else the systematic walk for some offset in
/// `[0, total]`.
pub fn resample(ticks: &Vec<u32>) -> (plan: Resampling)
    requires
        ticks.len() <= 0xffff_ffff,
    ensures
        (plan is Reset) <==> total_weight(ticks@) == 0,
        plan matches Resampling::Draw(picks) ==> exists|offset: int|
            0 <= offset <= total_weight(ticks@) && #[trigger] is_systematic_draw(ticks@, offset, picks@),
{
    let r = random_u32();
    let plan = plan_resampling(ticks, r);
    proof {
        if plan is Draw {
            lemma_scaled_offset_range(r, total_weight(ticks@));
            let offset = scaled_offset(r, total_weight(ticks@)) as int;
            assert(0 <= offset <= total_weight(ticks@));
        }
    }
    plan
}

/// The next generation: slot `i` is a deep copy of particle `picks[i]`.
/// With the picks of a systematic draw, the population keeps its size.
pub fn next_generation<T: Clone>(population: &Vec<T>, picks: &Vec<usize>) -> (r: Vec<T>)
    requires
        forall|i: int| 0 <= i < picks@.len() ==> #[trigger] picks@[i] < population@.len(),
    ensures
        r@.len() == picks@.len(),
        forall|i: int| 0 <= i < r@.len() ==> cloned(population@[picks@[i] as int], #[trigger] r@[i]),
{
    let mut r: Vec<T> = Vec::new();
    let mut i: usize = 0;
    while i < picks.len()
        invariant
            i <= picks@.len(),
            r@.len() == i,
            forall|k: int| 0 <= k < picks@.len() ==> #[trigger] picks@[k] < population@.len(),
            forall|k: int| 0 <= k < i ==> cloned(population@[picks@[k] as int], #[trigger] r@[k]),
        decreases picks@.len() - i,
    {
        let copy = population[picks[i]].clone();
        r.push(copy);
        i = i + 1;
    }
    r
}

proof fn lemma_owner_unique(w: Seq<u32>, a: int, b: int, pos: int)
    requires
        owns_position(w, a, pos),
        owns_position(w, b, pos),
    ensures
        a == b,
{
    if a < b {
        lemma_prefix_monotone(w, a + 1, b);
        assert(w.len() * prefix_weight(w, a + 1) <= w.len() * prefix_weight(w, b)) by (nonlinear_arith)
            requires
                prefix_weight(w, a + 1) <= prefix_weight(w, b),
        ;
    } else if b < a {
        lemma_prefix_monotone(w, b + 1, a);
        assert(w.len() * prefix_weight(w, b + 1) <= w.len() * prefix_weight(w, a)) by (nonlinear_arith)
            requires
                prefix_weight(w, b + 1) <= prefix_weight(w, a),
        ;
    }
}

/// The walk with a given offset draws exactly one generation: each position
/// has exactly one first particle whose cumulative weight reaches it.
pub proof fn lemma_systematic_draw_unique(w: Seq<u32>, offset: int, p: Seq<usize>, q: Seq<usize>)
    requires
        is_systematic_draw(w, offset, p),
        is_systematic_draw(w, offset, q),
    ensures
        p == q,
{
    assert forall|i: int| 0 <= i < p.len() implies p[i] == q[i] by {
        lemma_owner_unique(w, p[i] as int, q[i] as int, draw_position(w, offset, i));
    }
    assert(p =~= q);
}

/// A systematic draw fills exactly as many slots as there are particles, and
/// each slot names one of them.
pub proof fn lemma_draw_keeps_population_size(w: Seq<u32>, offset: int, picks: Seq<usize>)
    requires
        is_systematic_draw(w, offset, picks),
    ensures
        picks.len() == w.len(),
        forall|i: int| 0 <= i < picks.len() ==> #[trigger] picks[i] < w.len(),
{
    assert forall|i: int| 0 <= i < picks.len() implies #[trigger] picks[i] < w.len() by {
        assert(owns_position(w, picks[i] as int, draw_position(w, offset, i)));
    }
}

/// A position above zero only ever goes to a particle with weight. (A walk
/// that starts exactly at zero gives its first slot to the first particle,
/// whatever its weight.)
pub proof fn lemma_drawn_particles_have_weight(w: Seq<u32>, offset: int, picks: Seq<usize>, i: int)
    requires
        is_systematic_draw(w, offset, picks),
        0 <= i < picks.len(),
        draw_position(w, offset, i) > 0,
    ensures
        w[picks[i] as int] > 0,
{
    let j = picks[i] as int;
    assert(owns_position(w, j, draw_position(w, offset, i)));
    lemma_prefix_step(w, j);
    if w[j] == 0 {
        if j == 0 {
            assert(prefix_weight(w, 1) == 0);
            assert(w.len() * prefix_weight(w, 1) == 0) by (nonlinear_arith)
                requires
                    prefix_weight(w, 1) == 0,
            ;
        } else {
            assert(w.len() * prefix_weight(w, j) == w.len() * prefix_weight(w, j + 1));
        }
    }
}

/// When every position of the walk lies in the span of one particle `d`
/// (above the cumulative weight before it, at most the cumulative weight
/// through it), every slot of the next generation is a copy of `d`.
pub proof fn lemma_dominant_particle_fills_generation(w: Seq<u32>, offset: int, picks: Seq<usize>, d: int)
    requires
        is_systematic_draw(w, offset, picks),
        0 <= d < w.len(),
        d == 0 || w.len() * prefix_weight(w, d) < offset,
        draw_position(w, offset, w.len() - 1) <= w.len() * prefix_weight(w, d + 1),
    ensures
        forall|i: int| 0 <= i < picks.len() ==> picks[i] == d,
{
    let n = w.len() as int;
    assert forall|i: int| 0 <= i < picks.len() implies picks[i] == d by {
        let t = total_weight(w) as int;
        assert(i * t <= (n - 1) * t) by (nonlinear_arith)
            requires
                i <= n - 1,
                t >= 0,
        ;
        assert(i * t >= 0) by (nonlinear_arith)
            requires
                i >= 0,
                t >= 0,
        ;
        assert(owns_position(w, d, draw_position(w, offset, i)));
        lemma_owner_unique(w, picks[i] as int, d, draw_position(w, offset, i));
    }
}

/// When one particle holds all of the weight and the walk starts above zero,
/// every slot of the next generation is a copy of it.
pub proof fn lemma_sole_weight_fills_generation(w: Seq<u32>, offset: int, picks: Seq<usize>, d: int)
    requires
        is_systematic_draw(w, offset, picks),
        0 < offset <= total_weight(w),
        0 <= d < w.len(),
        forall|k: int| 0 <= k < w.len() && k != d ==> w[k] == 0,
    ensures
        forall|i: int| 0 <= i < picks.len() ==> picks[i] == d,
{
    let n = w.len() as int;
    let t = total_weight(w) as int;
    lemma_prefix_before_sole(w, d, d);
    lemma_prefix_after_sole(w, d, n);
    lemma_prefix_step(w, d);
    assert(prefix_weight(w, d) == 0);
    assert(prefix_weight(w, d + 1) == t);
    assert(n * prefix_weight(w, d) == 0) by (nonlinear_arith)
        requires
            prefix_weight(w, d) == 0,
    ;
    assert(offset + (n - 1) * t <= n * t) by (nonlinear_arith)
        requires
            offset <= t,
    ;
    lemma_dominant_particle_fills_generation(w, offset, picks, d);
}

proof fn lemma_prefix_before_sole(w: Seq<u32>, d: int, j: int)
    requires
        0 <= j <= d < w.len(),
        forall|k: int| 0 <= k < w.len() && k != d ==> w[k] == 0,
    ensures
        prefix_weight(w, j) == 0,
    decreases j,
{
    if j > 0 {
        lemma_prefix_before_sole(w, d, j - 1);
        lemma_prefix_step(w, j - 1);
    }
}

proof fn lemma_prefix_after_sole(w: Seq<u32>, d: int, j: int)
    requires
        0 <= d < j <= w.len(),
        forall|k: int| 0 <= k < w.len() && k != d ==> w[k] == 0,
    ensures
        prefix_weight(w, j) == prefix_weight(w, d + 1),
    decreases j,
{
    if j > d + 1 {
        lemma_prefix_after_sole(w, d, j - 1);
        lemma_prefix_step(w, j - 1);
    }
}

/// Copies of particle `j` among the first `m` slots.
pub open spec fn copies_in(picks: Seq<usize>, j: int, m: int) -> nat
    decreases m,
{
    if m <= 0 {
        0
    } else {
        copies_in(picks, j, m - 1) + if picks[m - 1] as int == j {
            1nat
        } else {
            0nat
        }
    }
}

/// Copies of particle `j` in the whole generation.
pub open spec fn copies(picks: Seq<usize>, j: int) -> nat {
    copies_in(picks, j, picks.len() as int)
}

/// Draws among the first `m` whose scaled position is at most `x`.
spec fn draws_up_to(w: Seq<u32>, offset: int, x: int, m: int) -> nat
    decreases m,
{
    if m <= 0 {
        0
    } else {
        draws_up_to(w, offset, x, m - 1) + if draw_position(w, offset, m - 1) <= x {
            1nat
        } else {
            0nat
        }
    }
}

proof fn lemma_positions_increase(w: Seq<u32>, offset: int, a: int, b: int)
    requires
        a < b,
        total_weight(w) > 0,
    ensures
        draw_position(w, offset, a) < draw_position(w, offset, b),
{
    let t = total_weight(w) as int;
    assert(a * t < b * t) by (nonlinear_arith)
        requires
            a < b,
            t > 0,
    ;
}

/// The draws at most `x` are the first ones: exactly those before the first
/// draw beyond `x`.
proof fn lemma_draws_up_to_prefix(w: Seq<u32>, offset: int, x: int, m: int)
    requires
        0 <= m,
        total_weight(w) > 0,
    ensures
        draws_up_to(w, offset, x, m) <= m,
        draws_up_to(w, offset, x, m) < m ==> draw_position(w, offset, draws_up_to(w, offset, x, m) as int) > x,
        draws_up_to(w, offset, x, m) > 0 ==> draw_position(w, offset, draws_up_to(w, offset, x, m) - 1) <= x,
    decreases m,
{
    if m > 0 {
        lemma_draws_up_to_prefix(w, offset, x, m - 1);
        let b = draws_up_to(w, offset, x, m - 1) as int;
        if draw_position(w, offset, m - 1) <= x && b < m - 1 {
            lemma_positions_increase(w, offset, b, m - 1);
        }
    }
}

/// `t * draws_up_to(x)` lands in `(x - offset, x - offset + t]` for every
/// `x` in `[offset - t, offset + n * t)`.
proof fn lemma_draws_up_to_count(w: Seq<u32>, offset: int, x: int)
    requires
        total_weight(w) > 0,
        offset - total_weight(w) <= x < offset + w.len() * total_weight(w),
    ensures
        x - offset < draws_up_to(w, offset, x, w.len() as int) * total_weight(w),
        draws_up_to(w, offset, x, w.len() as int) * total_weight(w) <= x - offset + total_weight(w),
{
    let n = w.len() as int;
    let t = total_weight(w) as int;
    lemma_draws_up_to_prefix(w, offset, x, n);
    let b = draws_up_to(w, offset, x, n) as int;
    if b < n {
        assert(offset + b * t > x);
    }
    if b > 0 {
        assert(offset + (b - 1) * t <= x);
        assert((b - 1) * t == b * t - t) by (nonlinear_arith);
    } else {
        assert(b * t == 0) by (nonlinear_arith)
            requires
                b == 0,
        ;
    }
}

/// Among the first `m` slots, the copies of `j` are the draws at most its
/// scaled cumulative weight that are not at most the one before it (for the
/// first particle, all of them).
proof fn lemma_copies_split(w: Seq<u32>, offset: int, picks: Seq<usize>, j: int, m: int)
    requires
        is_systematic_draw(w, offset, picks),
        0 <= j < w.len(),
        0 <= m <= picks.len(),
    ensures
        copies_in(picks, j, m) + (if j == 0 {
            0nat
        } else {
            draws_up_to(w, offset, (w.len() * prefix_weight(w, j)) as int, m)
        }) == draws_up_to(w, offset, (w.len() * prefix_weight(w, j + 1)) as int, m),
    decreases m,
{
    if m > 0 {
        lemma_copies_split(w, offset, picks, j, m - 1);
        let n = w.len() as int;
        let lo = (n * prefix_weight(w, j)) as int;
        let hi = (n * prefix_weight(w, j + 1)) as int;
        let pos = draw_position(w, offset, m - 1);
        lemma_prefix_step(w, j);
        assert(lo <= hi) by (nonlinear_arith)
            requires
                lo == n * prefix_weight(w, j),
                hi == n * prefix_weight(w, j + 1),
                prefix_weight(w, j) <= prefix_weight(w, j + 1),
                n >= 0,
        ;
        assert(owns_position(w, picks[m - 1] as int, pos));
        if pos <= hi && (j == 0 || lo < pos) {
            lemma_owner_unique(w, picks[m - 1] as int, j, pos);
        }
    }
}

/// Systematic resampling is low-variance: with `n` particles and total
/// weight `W`, and a walk that starts above zero, particle `j` gets
/// `n * w[j] / W` copies rounded down or up.
pub proof fn lemma_copies_track_weight(w: Seq<u32>, offset: int, picks: Seq<usize>, j: int)
    requires
        is_systematic_draw(w, offset, picks),
        0 < offset <= total_weight(w),
        0 <= j < w.len(),
    ensures
        copies(picks, j) * total_weight(w) < w.len() * w[j] + total_weight(w),
        w.len() * w[j] < copies(picks, j) * total_weight(w) + total_weight(w),
{
    let n = w.len() as int;
    let t = total_weight(w) as int;
    let lo = (n * prefix_weight(w, j)) as int;
    let hi = (n * prefix_weight(w, j + 1)) as int;
    lemma_copies_split(w, offset, picks, j, n);
    lemma_prefix_step(w, j);
    lemma_prefix_monotone(w, j + 1, n);
    assert(0 <= lo <= hi <= n * t) by (nonlinear_arith)
        requires
            lo == n * prefix_weight(w, j),
            hi == n * prefix_weight(w, j + 1),
            prefix_weight(w, j) <= prefix_weight(w, j + 1) <= t,
            n >= 0,
    ;
    assert(hi - lo == n * w[j]) by (nonlinear_arith)
        requires
            lo == n * prefix_weight(w, j),
            hi == n * prefix_weight(w, j + 1),
            prefix_weight(w, j + 1) == prefix_weight(w, j) + w[j],
    ;
    lemma_draws_up_to_count(w, offset, hi);
    let c = copies(picks, j) as int;
    let a_hi = draws_up_to(w, offset, hi, n) as int;
    if j == 0 {
        assert(c == a_hi);
        assert(lo == 0) by (nonlinear_arith)
            requires
                lo == n * prefix_weight(w, 0),
                prefix_weight(w, 0) == 0,
        ;
        assert(c * t == a_hi * t);
    } else {
        lemma_draws_up_to_count(w, offset, lo);
        let a_lo = draws_up_to(w, offset, lo, n) as int;
        assert(c * t == a_hi * t - a_lo * t) by (nonlinear_arith)
            requires
                c + a_lo == a_hi,
        ;
    }
}

} // verus!
