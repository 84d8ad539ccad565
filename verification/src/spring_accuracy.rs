//! How the numbers of a spring hang together, but for the rounding of each
//! operation.
//!
//! The formulas are stated over the values of the numbers. Each intermediate result
//! is near to what it stands for, in the sense of `accuracy`; nothing here says how
//! it is found. Results that are too large for a double are left out.

use crate::accuracy::{
    law_difference,
    law_product,
    law_quotient,
    law_root,
    law_sum,
    law_zero,
    near_product,
    near_quotient,
    near_root,
    near_sum,
};
use crate::arithmetic::size;
use crate::double::{
    lemma_magnitude_monotone,
    lemma_magnitude_parts,
    lemma_one,
    Double,
    FRACTIONS,
    INFINITE,
    ONE_BITS,
    TWO_BITS,
};
use crate::easing::lemma_two;
use crate::order::{
    lemma_finite,
    lemma_finite_value,
    lemma_minus,
    lemma_negated,
    lemma_over,
    lemma_rounded_exact,
    lemma_rounded_monotone,
};
use crate::rounding::lemma_nearest_exact;
use crate::spring::{
    Oscillation,
    SpringConfig,
    SpringRun,
    Waves,
    HUNDRED_BITS,
    MAX_STEPS_BITS,
    TEN_BITS,
    THOUSANDTH_BITS,
    THOUSAND_BITS,
};
use crate::spring_laws::{lemma_steps, lemma_thousand};
use vstd::arithmetic::power2::{lemma_pow2_adds, lemma_pow2_pos, pow2};
use vstd::prelude::*;

verus! {

/// `zeta` is `damping / (2 * sqrt(stiffness * mass))`, by way of these results.
pub open spec fn is_damping_ratio(
    zeta: int,
    config: SpringConfig,
    product: int,
    root: int,
    twice: int,
) -> bool {
    &&& near_product(product, config.stiffness.value(), config.mass.value())
    &&& near_root(root, product)
    &&& near_product(twice, 2 * pow2(1074) as int, root)
    &&& near_quotient(zeta, config.damping.value(), twice)
}

/// `omega0` is `sqrt(stiffness / mass)`.
pub open spec fn is_frequency(omega0: int, config: SpringConfig, quotient: int) -> bool {
    &&& near_quotient(quotient, config.stiffness.value(), config.mass.value())
    &&& near_root(omega0, quotient)
}

/// `omega1` is `omega0 * sqrt(1 - zeta * zeta)`.
pub open spec fn is_damped_frequency(
    omega1: int,
    omega0: int,
    zeta: int,
    square: int,
    rest: int,
    root: int,
) -> bool {
    &&& near_product(square, zeta, zeta)
    &&& near_sum(rest, pow2(1074) as int, -square)
    &&& near_root(root, rest)
    &&& near_product(omega1, omega0, root)
}

/// A spring oscillates by its stiffness, its damping and its mass: with the damping
/// ratio `damping / (2 * sqrt(stiffness * mass))`, and the frequencies
/// `sqrt(stiffness / mass)` and, if it swings, `omega0 * sqrt(1 - zeta * zeta)`. It
/// swings exactly if its damping ratio is below one.
pub proof fn law_oscillation(config: SpringConfig)
    requires
        config.stiffness.finite(),
        config.mass.finite(),
        config.damping.finite(),
        config.stiffness.positive(),
        config.mass.positive(),
    ensures
        ({
            let o = config.oscillation();
            let (k, m) = (config.stiffness, config.mass);
            let two = Double { bits: TWO_BITS };
            &&& k.times(m).finite() && 0 < k.times(m).value() && two.times(
                k.times(m).root(),
            ).finite() && o.zeta.finite() ==> exists|product: int, root: int, twice: int|
                is_damping_ratio(o.zeta.value(), config, product, root, twice)
            &&& k.over(m).finite() && 0 < k.over(m).value() ==> o.omega0.finite() && exists|
                quotient: int,
            | is_frequency(o.omega0.value(), config, quotient)
            &&& o.zeta.finite() && o.omega0.finite() && o.zeta.times(o.zeta).finite() && (Double {
                bits: ONE_BITS,
            }).minus(o.zeta.times(o.zeta)).positive() && o.omega1.finite() ==> exists|
                square: int,
                rest: int,
                root: int,
            |
                is_damped_frequency(
                    o.omega1.value(),
                    o.omega0.value(),
                    o.zeta.value(),
                    square,
                    rest,
                    root,
                )
            &&& o.swings() <==> !o.zeta.nan() && o.zeta.value() < pow2(1074)
        }),
{
    let o = config.oscillation();
    let (k, m, c) = (config.stiffness, config.mass, config.damping);
    let (zero, one, two) = (
        Double { bits: 0 },
        Double { bits: ONE_BITS },
        Double { bits: TWO_BITS },
    );
    lemma_one();
    lemma_two();
    lemma_pow2_pos(1074);
    lemma_magnitude_monotone(0, 0);
    assert(one.finite() && two.finite());
    let km = k.times(m);
    law_product(k, m, zero);
    if km.finite() && 0 < km.value() && two.times(km.root()).finite() && o.zeta.finite() {
        law_root(km);
        let twice = two.times(km.root());
        law_product(two, km.root(), zero);
        assert(twice.value() != 0) by {
            lemma_twice_root(km.root(), twice);
        }
        law_quotient(c, twice, zero);
        assert(is_damping_ratio(
            o.zeta.value(),
            config,
            km.value(),
            km.root().value(),
            twice.value(),
        ));
    }
    law_quotient(k, m, zero);
    if k.over(m).finite() && 0 < k.over(m).value() {
        law_root(k.over(m));
        assert(is_frequency(o.omega0.value(), config, k.over(m).value()));
    }
    if o.zeta.finite() && o.omega0.finite() && o.zeta.times(o.zeta).finite() && one.minus(
        o.zeta.times(o.zeta),
    ).positive() && o.omega1.finite() {
        let square = o.zeta.times(o.zeta);
        let rest = one.minus(square);
        law_product(o.zeta, o.zeta, zero);
        law_difference(one, square, zero);
        assert(rest.finite()) by {
            lemma_below_one(one, square, rest);
        }
        law_root(rest);
        law_product(o.omega0, rest.root(), zero);
        assert(is_damped_frequency(
            o.omega1.value(),
            o.omega0.value(),
            o.zeta.value(),
            square.value(),
            rest.value(),
            rest.root().value(),
        ));
    }
}

/// A spring without stiffness has no frequency, and does not swing.
pub proof fn law_slack_oscillation(config: SpringConfig)
    requires
        config.stiffness.bits == 0,
        config.mass.finite(),
        config.mass.positive(),
        config.damping.nonnegative(),
        !config.damping.negative(),
    ensures
        config.oscillation().omega0.bits == 0,
        !config.oscillation().swings(),
{
    let (zero, two) = (Double { bits: 0 }, Double { bits: TWO_BITS });
    let mass = config.mass;
    lemma_one();
    lemma_two();
    lemma_magnitude_monotone(0, 0);
    lemma_magnitude_monotone(0, mass.magnitude());
    assert(!mass.negative() && !mass.is_zero());
    law_zero(mass, zero);
    law_product(zero, mass, zero);
    law_zero(two, zero);
    lemma_zero_times(mass);
    lemma_zero_times(two);
    assert(zero.over(mass) == zero);
    assert(config.oscillation().zeta == config.damping.over(zero));
    if !config.damping.is_zero() {
        lemma_magnitude_monotone(ONE_BITS as int, INFINITE as int);
    }
}

/// Zero times a number above zero is zero, without a sign.
proof fn lemma_zero_times(x: Double)
    requires
        x.finite(),
        !x.negative(),
    ensures
        x.times(Double { bits: 0 }).bits == 0,
        (Double { bits: 0 }).times(x).bits == 0,
{
    let zero = Double { bits: 0 };
    let (a, w) = (size(x.value()), pow2(1074) as int);
    lemma_magnitude_monotone(0, 0);
    lemma_pow2_pos(1074);
    assert(a * 0 == 0 && 0 * a == 0) by (nonlinear_arith);
    assert(0 * w == 0) by (nonlinear_arith);
    lemma_nearest_exact(0, w);
}

/// One less a square is not infinite.
proof fn lemma_below_one(one: Double, square: Double, rest: Double)
    requires
        one == (Double { bits: ONE_BITS }),
        square.finite(),
        0 <= square.value(),
        rest == one.minus(square),
        rest.positive(),
    ensures
        rest.finite(),
{
    lemma_one();
    lemma_minus(one, square);
    lemma_rounded_monotone(one.value() - square.value(), one.value(), 1);
    lemma_rounded_exact(one, 1);
    lemma_finite_value(one);
    lemma_magnitude_monotone(0, 0);
    lemma_finite(rest);
}

/// Twice a root is not zero.
proof fn lemma_twice_root(root: Double, twice: Double)
    requires
        root.finite(),
        0 < root.value(),
        twice == (Double { bits: TWO_BITS }).times(root),
        twice.finite(),
    ensures
        twice.value() != 0,
{
    let w = pow2(1074) as int;
    lemma_pow2_pos(1074);
    lemma_one();
    lemma_two();
    law_product(Double { bits: TWO_BITS }, root, root);
    let r = root.value();
    assert(r * w - (2 * w) * r == -(r * w) && 0 < r * w && (2 * w) * r == 2 * (r * w) && 0 * w == 0)
        by (nonlinear_arith)
        requires
            0 < r,
            0 < w,
    ;
}

/// Where a spring that swings is found, by way of these results:
/// `end - envelope * ((v0 + zeta * omega0 * x0) / omega1 * sin + x0 * cos)`.
pub open spec fn is_swinging_value(
    value: int,
    o: Oscillation,
    end: int,
    x0: int,
    v0: int,
    waves: Waves,
    decay: int,
    pull: int,
    push: int,
    ratio: int,
    turned: int,
    held: int,
    sum: int,
    part: int,
) -> bool {
    &&& near_product(decay, o.zeta.value(), o.omega0.value())
    &&& near_product(pull, decay, x0)
    &&& near_sum(push, v0, pull)
    &&& near_quotient(ratio, push, o.omega1.value())
    &&& near_product(turned, ratio, waves.sin.value())
    &&& near_product(held, x0, waves.cos.value())
    &&& near_sum(sum, turned, held)
    &&& near_product(part, waves.envelope.value(), sum)
    &&& near_sum(value, end, -part)
}

/// How fast a spring that swings is found to be, by way of these results:
/// `zeta * omega0 * envelope * (sin * push / omega1 + x0 * cos) - envelope * (cos *
/// push - omega1 * x0 * sin)`, where `push` is `v0 + zeta * omega0 * x0`.
pub open spec fn is_swinging_velocity(
    velocity: int,
    o: Oscillation,
    x0: int,
    v0: int,
    waves: Waves,
    decay: int,
    pull: int,
    push: int,
    fade: int,
    pushed: int,
    turned: int,
    held: int,
    sum: int,
    first: int,
    swung: int,
    stretched: int,
    bent: int,
    rest: int,
    second: int,
) -> bool {
    &&& near_product(decay, o.zeta.value(), o.omega0.value())
    &&& near_product(pull, decay, x0)
    &&& near_sum(push, v0, pull)
    &&& near_product(fade, decay, waves.envelope.value())
    &&& near_product(pushed, waves.sin.value(), push)
    &&& near_quotient(turned, pushed, o.omega1.value())
    &&& near_product(held, x0, waves.cos.value())
    &&& near_sum(sum, turned, held)
    &&& near_product(first, fade, sum)
    &&& near_product(swung, waves.cos.value(), push)
    &&& near_product(stretched, o.omega1.value(), x0)
    &&& near_product(bent, stretched, waves.sin.value())
    &&& near_sum(rest, swung, -bent)
    &&& near_product(second, waves.envelope.value(), rest)
    &&& near_sum(velocity, first, -second)
}

/// Where a spring is found that does not swing, by way of these results:
/// `end - envelope * (x0 + (v0 + omega0 * x0) * time)`.
pub open spec fn is_damped_value(
    value: int,
    o: Oscillation,
    end: int,
    x0: int,
    v0: int,
    time: int,
    envelope: int,
    pull: int,
    push: int,
    moved: int,
    sum: int,
    part: int,
) -> bool {
    &&& near_product(pull, o.omega0.value(), x0)
    &&& near_sum(push, v0, pull)
    &&& near_product(moved, push, time)
    &&& near_sum(sum, x0, moved)
    &&& near_product(part, envelope, sum)
    &&& near_sum(value, end, -part)
}

/// How fast a spring is found to be that does not swing, by way of these results:
/// `envelope * (v0 * (time * omega0 - 1) + time * x0 * (omega0 * omega0))`.
pub open spec fn is_damped_velocity(
    velocity: int,
    o: Oscillation,
    x0: int,
    v0: int,
    time: int,
    envelope: int,
    phase: int,
    back: int,
    turned: int,
    far: int,
    square: int,
    pulled: int,
    sum: int,
) -> bool {
    &&& near_product(phase, time, o.omega0.value())
    &&& near_sum(back, phase, -(pow2(1074) as int))
    &&& near_product(turned, v0, back)
    &&& near_product(far, time, x0)
    &&& near_product(square, o.omega0.value(), o.omega0.value())
    &&& near_product(pulled, far, square)
    &&& near_sum(sum, turned, pulled)
    &&& near_product(velocity, envelope, sum)
}

/// Whether all of these are finite.
pub open spec fn all_finite(numbers: Seq<Double>) -> bool {
    forall|i: int| 0 <= i < numbers.len() ==> (#[trigger] numbers[i]).finite()
}

/// Whether the numbers that set a spring that swings in motion are finite, and it has a
/// frequency.
pub open spec fn is_set_in_motion(o: Oscillation, x0: Double, v0: Double, waves: Waves) -> bool {
    let decay = o.zeta.times(o.omega0);
    &&& o.swings()
    &&& o.omega1.value() != 0
    &&& all_finite(seq![o.zeta, o.omega0, o.omega1, x0, v0])
    &&& all_finite(seq![waves.envelope, waves.sin, waves.cos])
    &&& all_finite(seq![decay, decay.times(x0), v0.plus(decay.times(x0))])
}

/// What sets a spring that swings in motion.
proof fn lemma_push(o: Oscillation, x0: Double, v0: Double, waves: Waves)
    requires
        is_set_in_motion(o, x0, v0, waves),
    ensures
        o.zeta.finite() && o.omega0.finite() && o.omega1.finite() && x0.finite() && v0.finite(),
        waves.envelope.finite() && waves.sin.finite() && waves.cos.finite(),
        ({
            let decay = o.zeta.times(o.omega0);
            let pull = decay.times(x0);
            let push = v0.plus(pull);
            &&& decay.finite() && push.finite()
            &&& near_product(decay.value(), o.zeta.value(), o.omega0.value())
            &&& near_product(pull.value(), decay.value(), x0.value())
            &&& near_sum(push.value(), v0.value(), pull.value())
        }),
{
    let decay = o.zeta.times(o.omega0);
    let pull = decay.times(x0);
    let first = seq![o.zeta, o.omega0, o.omega1, x0, v0];
    let second = seq![waves.envelope, waves.sin, waves.cos];
    let third = seq![decay, pull, v0.plus(pull)];
    assert(all_finite(first) && all_finite(second) && all_finite(third));
    assert(first[0].finite() && first[1].finite() && first[2].finite() && first[3].finite()
        && first[4].finite());
    assert(second[0].finite() && second[1].finite() && second[2].finite());
    assert(third[0].finite() && third[1].finite() && third[2].finite());
    law_product(o.zeta, o.omega0, x0);
    law_product(decay, x0, x0);
    law_sum(v0, pull, x0);
}

/// Where a spring that swings is found at any time is what the formula says, but for the
/// rounding of each operation.
pub proof fn law_swinging_value(
    o: Oscillation,
    end: Double,
    x0: Double,
    v0: Double,
    time: Double,
    waves: Waves,
)
    requires
        is_set_in_motion(o, x0, v0, waves),
        end.finite(),
        ({
            let ratio = v0.plus(o.zeta.times(o.omega0).times(x0)).over(o.omega1);
            let (turned, held) = (ratio.times(waves.sin), x0.times(waves.cos));
            let sum = turned.plus(held);
            all_finite(seq![ratio, turned, held, sum, waves.envelope.times(sum)])
        }),
    ensures
        !o.value(end, x0, v0, time, waves).nan(),
        o.value(end, x0, v0, time, waves).finite() ==> exists|
            decay: int,
            pull: int,
            push: int,
            ratio: int,
            turned: int,
            held: int,
            sum: int,
            part: int,
        |
            is_swinging_value(
                o.value(end, x0, v0, time, waves).value(),
                o,
                end.value(),
                x0.value(),
                v0.value(),
                waves,
                decay,
                pull,
                push,
                ratio,
                turned,
                held,
                sum,
                part,
            ),
{
    let (e, s, c) = (waves.envelope, waves.sin, waves.cos);
    let decay = o.zeta.times(o.omega0);
    let pull = decay.times(x0);
    let push = v0.plus(pull);
    let ratio = push.over(o.omega1);
    let turned = ratio.times(s);
    let held = x0.times(c);
    let sum = turned.plus(held);
    let part = e.times(sum);
    let numbers = seq![ratio, turned, held, sum, part];
    lemma_push(o, x0, v0, waves);
    assert(all_finite(numbers));
    assert(numbers[0].finite() && numbers[1].finite() && numbers[2].finite() && numbers[3].finite()
        && numbers[4].finite());
    law_quotient(push, o.omega1, end);
    law_product(ratio, s, end);
    law_product(x0, c, end);
    law_sum(turned, held, end);
    law_product(e, sum, end);
    let p = o.value(end, x0, v0, time, waves);
    assert(p == end.minus(part));
    law_difference(end, part, end);
    if p.finite() {
        assert(is_swinging_value(
            p.value(),
            o,
            end.value(),
            x0.value(),
            v0.value(),
            waves,
            decay.value(),
            pull.value(),
            push.value(),
            ratio.value(),
            turned.value(),
            held.value(),
            sum.value(),
            part.value(),
        ));
    }
}

/// How fast a spring that swings is found to be at any time is what the formula says,
/// but for the rounding of each operation.
pub proof fn law_swinging_velocity(
    o: Oscillation,
    end: Double,
    x0: Double,
    v0: Double,
    time: Double,
    waves: Waves,
)
    requires
        is_set_in_motion(o, x0, v0, waves),
        ({
            let (e, s, c) = (waves.envelope, waves.sin, waves.cos);
            let fade = o.zeta.times(o.omega0).times(e);
            let push = v0.plus(o.zeta.times(o.omega0).times(x0));
            let pushed = s.times(push);
            let (turned, held) = (pushed.over(o.omega1), x0.times(c));
            let sum = turned.plus(held);
            all_finite(seq![fade, pushed, turned, held, sum, fade.times(sum)])
        }),
        ({
            let (e, s, c) = (waves.envelope, waves.sin, waves.cos);
            let push = v0.plus(o.zeta.times(o.omega0).times(x0));
            let (swung, stretched) = (c.times(push), o.omega1.times(x0));
            let bent = stretched.times(s);
            let rest = swung.minus(bent);
            all_finite(seq![swung, stretched, bent, rest, e.times(rest)])
        }),
    ensures
        !o.velocity(end, x0, v0, time, waves).nan(),
        o.velocity(end, x0, v0, time, waves).finite() ==> exists|
            decay: int,
            pull: int,
            push: int,
            fade: int,
            pushed: int,
            turned: int,
            held: int,
            sum: int,
            first: int,
            swung: int,
            stretched: int,
            bent: int,
            rest: int,
            second: int,
        |
            is_swinging_velocity(
                o.velocity(end, x0, v0, time, waves).value(),
                o,
                x0.value(),
                v0.value(),
                waves,
                decay,
                pull,
                push,
                fade,
                pushed,
                turned,
                held,
                sum,
                first,
                swung,
                stretched,
                bent,
                rest,
                second,
            ),
{
    let (e, s, c) = (waves.envelope, waves.sin, waves.cos);
    let decay = o.zeta.times(o.omega0);
    let pull = decay.times(x0);
    let push = v0.plus(pull);
    let fade = decay.times(e);
    let pushed = s.times(push);
    let turned = pushed.over(o.omega1);
    let held = x0.times(c);
    let sum = turned.plus(held);
    let first = fade.times(sum);
    let swung = c.times(push);
    let stretched = o.omega1.times(x0);
    let bent = stretched.times(s);
    let rest = swung.minus(bent);
    let second = e.times(rest);
    lemma_push(o, x0, v0, waves);
    lemma_first_part(o, decay, push, x0, waves);
    lemma_second_part(o, push, x0, waves);
    let v = o.velocity(end, x0, v0, time, waves);
    assert(v == first.minus(second));
    law_difference(first, second, x0);
    if v.finite() {
        assert(is_swinging_velocity(
            v.value(),
            o,
            x0.value(),
            v0.value(),
            waves,
            decay.value(),
            pull.value(),
            push.value(),
            fade.value(),
            pushed.value(),
            turned.value(),
            held.value(),
            sum.value(),
            first.value(),
            swung.value(),
            stretched.value(),
            bent.value(),
            rest.value(),
            second.value(),
        ));
    }
}

/// What the fading of a swing adds to its velocity.
proof fn lemma_first_part(o: Oscillation, decay: Double, push: Double, x0: Double, waves: Waves)
    requires
        decay.finite() && push.finite() && x0.finite(),
        o.omega1.finite() && o.omega1.value() != 0,
        waves.envelope.finite() && waves.sin.finite() && waves.cos.finite(),
        ({
            let fade = decay.times(waves.envelope);
            let pushed = waves.sin.times(push);
            let (turned, held) = (pushed.over(o.omega1), x0.times(waves.cos));
            let sum = turned.plus(held);
            all_finite(seq![fade, pushed, turned, held, sum, fade.times(sum)])
        }),
    ensures
        ({
            let fade = decay.times(waves.envelope);
            let pushed = waves.sin.times(push);
            let (turned, held) = (pushed.over(o.omega1), x0.times(waves.cos));
            let sum = turned.plus(held);
            &&& near_product(fade.value(), decay.value(), waves.envelope.value())
            &&& near_product(pushed.value(), waves.sin.value(), push.value())
            &&& near_quotient(turned.value(), pushed.value(), o.omega1.value())
            &&& near_product(held.value(), x0.value(), waves.cos.value())
            &&& near_sum(sum.value(), turned.value(), held.value())
            &&& fade.times(sum).finite()
            &&& near_product(fade.times(sum).value(), fade.value(), sum.value())
        }),
{
    let fade = decay.times(waves.envelope);
    let pushed = waves.sin.times(push);
    let (turned, held) = (pushed.over(o.omega1), x0.times(waves.cos));
    let sum = turned.plus(held);
    let numbers = seq![fade, pushed, turned, held, sum, fade.times(sum)];
    assert(all_finite(numbers));
    assert(numbers[0].finite() && numbers[1].finite() && numbers[2].finite() && numbers[3].finite()
        && numbers[4].finite() && numbers[5].finite());
    law_product(decay, waves.envelope, x0);
    law_product(waves.sin, push, x0);
    law_quotient(pushed, o.omega1, x0);
    law_product(x0, waves.cos, x0);
    law_sum(turned, held, x0);
    law_product(fade, sum, x0);
}

/// What the turning of a swing takes from its velocity.
proof fn lemma_second_part(o: Oscillation, push: Double, x0: Double, waves: Waves)
    requires
        push.finite() && x0.finite() && o.omega1.finite(),
        waves.envelope.finite() && waves.sin.finite() && waves.cos.finite(),
        ({
            let (swung, stretched) = (waves.cos.times(push), o.omega1.times(x0));
            let bent = stretched.times(waves.sin);
            let rest = swung.minus(bent);
            all_finite(seq![swung, stretched, bent, rest, waves.envelope.times(rest)])
        }),
    ensures
        ({
            let (swung, stretched) = (waves.cos.times(push), o.omega1.times(x0));
            let bent = stretched.times(waves.sin);
            let rest = swung.minus(bent);
            &&& near_product(swung.value(), waves.cos.value(), push.value())
            &&& near_product(stretched.value(), o.omega1.value(), x0.value())
            &&& near_product(bent.value(), stretched.value(), waves.sin.value())
            &&& near_sum(rest.value(), swung.value(), -bent.value())
            &&& waves.envelope.times(rest).finite()
            &&& near_product(
                waves.envelope.times(rest).value(),
                waves.envelope.value(),
                rest.value(),
            )
        }),
{
    let (swung, stretched) = (waves.cos.times(push), o.omega1.times(x0));
    let bent = stretched.times(waves.sin);
    let rest = swung.minus(bent);
    let numbers = seq![swung, stretched, bent, rest, waves.envelope.times(rest)];
    assert(all_finite(numbers));
    assert(numbers[0].finite() && numbers[1].finite() && numbers[2].finite() && numbers[3].finite()
        && numbers[4].finite());
    law_product(waves.cos, push, x0);
    law_product(o.omega1, x0, x0);
    law_product(stretched, waves.sin, x0);
    law_difference(swung, bent, x0);
    law_product(waves.envelope, rest, x0);
}

/// Where a spring is found at any time that does not swing is what the formula says, but
/// for the rounding of each operation.
pub proof fn law_damped_value(
    o: Oscillation,
    end: Double,
    x0: Double,
    v0: Double,
    time: Double,
    waves: Waves,
)
    requires
        !o.swings(),
        all_finite(seq![o.omega0, end, x0, v0, time, waves.envelope]),
        ({
            let pull = o.omega0.times(x0);
            let push = v0.plus(pull);
            let moved = push.times(time);
            let sum = x0.plus(moved);
            all_finite(seq![pull, push, moved, sum, waves.envelope.times(sum)])
        }),
    ensures
        !o.value(end, x0, v0, time, waves).nan(),
        o.value(end, x0, v0, time, waves).finite() ==> exists|
            pull: int,
            push: int,
            moved: int,
            sum: int,
            part: int,
        |
            is_damped_value(
                o.value(end, x0, v0, time, waves).value(),
                o,
                end.value(),
                x0.value(),
                v0.value(),
                time.value(),
                waves.envelope.value(),
                pull,
                push,
                moved,
                sum,
                part,
            ),
{
    let e = waves.envelope;
    let pull = o.omega0.times(x0);
    let push = v0.plus(pull);
    let moved = push.times(time);
    let sum = x0.plus(moved);
    let part = e.times(sum);
    let inputs = seq![o.omega0, end, x0, v0, time, e];
    let numbers = seq![pull, push, moved, sum, part];
    assert(all_finite(inputs) && all_finite(numbers));
    assert(inputs[0].finite() && inputs[1].finite() && inputs[2].finite() && inputs[3].finite()
        && inputs[4].finite() && inputs[5].finite());
    assert(numbers[0].finite() && numbers[1].finite() && numbers[2].finite() && numbers[3].finite()
        && numbers[4].finite());
    law_product(o.omega0, x0, end);
    law_sum(v0, pull, end);
    law_product(push, time, end);
    law_sum(x0, moved, end);
    law_product(e, sum, end);
    law_difference(end, part, end);
    let p = o.value(end, x0, v0, time, waves);
    assert(p == end.minus(part));
    if p.finite() {
        assert(is_damped_value(
            p.value(),
            o,
            end.value(),
            x0.value(),
            v0.value(),
            time.value(),
            e.value(),
            pull.value(),
            push.value(),
            moved.value(),
            sum.value(),
            part.value(),
        ));
    }
}

/// How fast a spring is found to be at any time that does not swing is what the formula
/// says, but for the rounding of each operation.
pub proof fn law_damped_velocity(
    o: Oscillation,
    end: Double,
    x0: Double,
    v0: Double,
    time: Double,
    waves: Waves,
)
    requires
        !o.swings(),
        all_finite(seq![o.omega0, x0, v0, time, waves.envelope]),
        ({
            let phase = time.times(o.omega0);
            let back = phase.minus(Double { bits: ONE_BITS });
            let turned = v0.times(back);
            let (far, square) = (time.times(x0), o.omega0.times(o.omega0));
            let pulled = far.times(square);
            all_finite(seq![phase, back, turned, far, square, pulled, turned.plus(pulled)])
        }),
    ensures
        !o.velocity(end, x0, v0, time, waves).nan(),
        o.velocity(end, x0, v0, time, waves).finite() ==> exists|
            phase: int,
            back: int,
            turned: int,
            far: int,
            square: int,
            pulled: int,
            sum: int,
        |
            is_damped_velocity(
                o.velocity(end, x0, v0, time, waves).value(),
                o,
                x0.value(),
                v0.value(),
                time.value(),
                waves.envelope.value(),
                phase,
                back,
                turned,
                far,
                square,
                pulled,
                sum,
            ),
{
    let e = waves.envelope;
    let one = Double { bits: ONE_BITS };
    let phase = time.times(o.omega0);
    let back = phase.minus(one);
    let turned = v0.times(back);
    let far = time.times(x0);
    let square = o.omega0.times(o.omega0);
    let pulled = far.times(square);
    let sum = turned.plus(pulled);
    let inputs = seq![o.omega0, x0, v0, time, e];
    let numbers = seq![phase, back, turned, far, square, pulled, sum];
    assert(all_finite(inputs) && all_finite(numbers));
    assert(inputs[0].finite() && inputs[1].finite() && inputs[2].finite() && inputs[3].finite()
        && inputs[4].finite());
    assert(numbers[0].finite() && numbers[1].finite() && numbers[2].finite() && numbers[3].finite()
        && numbers[4].finite() && numbers[5].finite() && numbers[6].finite());
    lemma_one();
    assert(one.finite());
    law_product(time, o.omega0, x0);
    law_difference(phase, one, x0);
    law_product(v0, back, x0);
    law_product(time, x0, x0);
    law_product(o.omega0, o.omega0, x0);
    law_product(far, square, x0);
    law_sum(turned, pulled, x0);
    law_product(e, sum, x0);
    let v = o.velocity(end, x0, v0, time, waves);
    assert(v == e.times(sum));
    if v.finite() {
        assert(is_damped_velocity(
            v.value(),
            o,
            x0.value(),
            v0.value(),
            time.value(),
            e.value(),
            phase.value(),
            back.value(),
            turned.value(),
            far.value(),
            square.value(),
            pulled.value(),
            sum.value(),
        ));
    }
}

/// The numbers of which a spring needs the exponential function, the sine and the
/// cosine: `-zeta * omega0 * time`, or `-omega0 * time` if it does not swing, and
/// `omega1 * time`.
pub proof fn law_wave_inputs(o: Oscillation, time: Double)
    requires
        o.omega0.finite(),
        time.finite(),
    ensures
        ({
            let inputs = o.wave_inputs(time);
            &&& o.swings() && o.zeta.finite() && o.zeta.negated().times(o.omega0).finite()
                && inputs.decay.finite() ==> exists|rate: int|
                near_product(rate, -o.zeta.value(), o.omega0.value()) && #[trigger] near_product(
                    inputs.decay.value(),
                    rate,
                    time.value(),
                )
            &&& !o.swings() && inputs.decay.finite() ==> near_product(
                inputs.decay.value(),
                -o.omega0.value(),
                time.value(),
            )
            &&& o.omega1.finite() && inputs.angle.finite() ==> near_product(
                inputs.angle.value(),
                o.omega1.value(),
                time.value(),
            )
        }),
{
    let zero = Double { bits: 0 };
    let inputs = o.wave_inputs(time);
    lemma_magnitude_monotone(0, 0);
    lemma_negated(o.zeta);
    lemma_negated(o.omega0);
    if o.swings() {
        let rate = o.zeta.negated().times(o.omega0);
        if o.zeta.finite() && rate.finite() && inputs.decay.finite() {
            law_product(o.zeta.negated(), o.omega0, zero);
            law_product(rate, time, zero);
            assert(near_product(inputs.decay.value(), rate.value(), time.value()));
        }
    } else if inputs.decay.finite() {
        law_product(o.omega0.negated(), time, zero);
    }
    if o.omega1.finite() && inputs.angle.finite() {
        law_product(o.omega1, time, zero);
    }
}

/// The clock of a run shows the time that has passed, but no more than 64 milliseconds
/// more than it showed before, but for the rounding of that sum.
pub proof fn law_clock(run: SpringRun, time: Double)
    requires
        run.last_time.finite(),
        time.finite(),
    ensures
        ({
            let (limit, now) = (run.limit(), run.clock(time));
            &&& limit.finite() ==> near_sum(
                limit.value(),
                run.last_time.value(),
                64 * pow2(1074) as int,
            )
            &&& !now.nan()
            &&& now.value() == if time.value() <= limit.value() {
                time.value()
            } else {
                limit.value()
            }
        }),
{
    let steps = Double { bits: MAX_STEPS_BITS };
    lemma_steps();
    lemma_magnitude_monotone(0, 0);
    assert(steps.finite());
    law_sum(run.last_time, steps, Double { bits: 0 });
}

/// `moved` is `before + (now - last) / 1000`, by way of these results.
pub open spec fn is_moved_for(
    moved: int,
    before: int,
    now: int,
    last: int,
    way: int,
    delta: int,
) -> bool {
    &&& near_sum(way, now, -last)
    &&& near_quotient(delta, way, 1000 * pow2(1074) as int)
    &&& near_sum(moved, before, delta)
}

/// A frame lets a spring move for as many seconds more as its clock has advanced by, a
/// thousandth of the milliseconds.
pub proof fn law_seconds(run: SpringRun, time: Double)
    requires
        run.last_time.finite(),
        run.frame_time.finite(),
        run.clock(time).finite(),
        run.clock(time).minus(run.last_time).finite(),
        run.seconds(time).finite(),
    ensures
        exists|way: int, delta: int|
            is_moved_for(
                run.seconds(time).value(),
                run.frame_time.value(),
                run.clock(time).value(),
                run.last_time.value(),
                way,
                delta,
            ),
{
    let thousand = Double { bits: THOUSAND_BITS };
    let zero = Double { bits: 0 };
    let way = run.clock(time).minus(run.last_time);
    let delta = way.over(thousand);
    lemma_thousand();
    lemma_pow2_pos(1074);
    lemma_magnitude_monotone(0, 0);
    law_difference(run.clock(time), run.last_time, zero);
    law_quotient(way, thousand, zero);
    assert(delta.finite()) by {
        lemma_over(way, thousand);
        lemma_finite_value(way);
        lemma_thousandth(way, delta);
    }
    law_sum(run.frame_time, delta, zero);
    assert(is_moved_for(
        run.seconds(time).value(),
        run.frame_time.value(),
        run.clock(time).value(),
        run.last_time.value(),
        way.value(),
        delta.value(),
    ));
}

/// A thousandth is not infinite.
proof fn lemma_thousandth(way: Double, delta: Double)
    requires
        way.finite(),
        delta == way.over(Double { bits: THOUSAND_BITS }),
    ensures
        delta.finite(),
{
    let thousand = Double { bits: THOUSAND_BITS };
    let (x, y, w) = (way.value(), thousand.value(), pow2(1074) as int);
    lemma_thousand();
    lemma_pow2_pos(1074);
    lemma_over(way, thousand);
    lemma_rounded_exact(way, y);
    lemma_negated(way);
    lemma_rounded_exact(way.negated(), y);
    lemma_finite_value(way);
    lemma_finite_value(way.negated());
    if 0 <= x {
        assert((-x) * y <= x * w <= x * y) by (nonlinear_arith)
            requires
                0 <= x,
                0 < w <= y,
        ;
        lemma_rounded_monotone((-x) * y, x * w, y);
        lemma_rounded_monotone(x * w, x * y, y);
    } else {
        assert(x * y <= x * w <= (-x) * y) by (nonlinear_arith)
            requires
                x < 0,
                0 < w <= y,
        ;
        lemma_rounded_monotone(x * y, x * w, y);
        lemma_rounded_monotone(x * w, (-x) * y, y);
    }
    lemma_finite(delta);
}

/// The numbers of a new spring: a stiffness of 100, a damping of 10, and thresholds of a
/// thousandth, which is no double, but for one part in `2^53`.
pub proof fn law_numbers_of_a_new_spring()
    ensures
        (Double { bits: HUNDRED_BITS }).value() == 100 * pow2(1074),
        (Double { bits: TEN_BITS }).value() == 10 * pow2(1074),
        2 * FRACTIONS * size(
            1000 * (Double { bits: THOUSANDTH_BITS }).value() - pow2(1074),
        ) <= pow2(1074),
{
    let w = pow2(1074) as int;
    vstd::arithmetic::power2::lemma2_to64();
    vstd::arithmetic::power2::lemma2_to64_rest();
    assert((Double { bits: HUNDRED_BITS }).value() == 100 * w) by {
        let q = 0x19_0000_0000_0000int;
        lemma_magnitude_parts(1028, q);
        assert(1028 * FRACTIONS + q == HUNDRED_BITS);
        lemma_pow2_adds(46, 1028);
        let u = pow2(1028) as int;
        assert(q * u == 100 * w) by (nonlinear_arith)
            requires
                q == 100 * pow2(46),
                w == pow2(46) * u,
        ;
    }
    assert((Double { bits: TEN_BITS }).value() == 10 * w) by {
        let q = 0x14_0000_0000_0000int;
        lemma_magnitude_parts(1025, q);
        assert(1025 * FRACTIONS + q == TEN_BITS);
        lemma_pow2_adds(49, 1025);
        let u = pow2(1025) as int;
        assert(q * u == 10 * w) by (nonlinear_arith)
            requires
                q == 10 * pow2(49),
                w == pow2(49) * u,
        ;
    }
    let q = 0x10_624d_d2f1_a9fcint;
    lemma_magnitude_parts(1012, q);
    assert(1012 * FRACTIONS + q == THOUSANDTH_BITS);
    lemma_pow2_adds(62, 1012);
    lemma_pow2_pos(1012);
    let (u, v) = (pow2(1012) as int, (Double { bits: THOUSANDTH_BITS }).value());
    let off = 1000 * q - pow2(62);
    assert(v == q * u);
    assert(1000 * v - w == off * u) by (nonlinear_arith)
        requires
            v == q * u,
            w == pow2(62) * u,
            off == 1000 * q - pow2(62),
    ;
    let (k, n, b) = (size(off), pow2(62) as int, 2 * FRACTIONS as int);
    assert(pow2(62) == 0x4000_0000_0000_0000);
    assert(off == 96);
    assert(b * 96 <= n);
    assert(size(off * u) == k * u && b * (k * u) <= n * u) by (nonlinear_arith)
        requires
            0 < u,
            b * k <= n,
            k == if off < 0 {
                -off
            } else {
                off
            },
            size(off * u) == if off * u < 0 {
                -(off * u)
            } else {
                off * u
            },
    ;
}

} // verus!
