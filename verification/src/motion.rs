//! The formulas of a weight on a spring, for numbers of any sort.
//!
//! The formulas are written down once. Doubles give them with each operation
//! rounded, which is how a spring is followed; real numbers give them exactly,
//! which is how they hang together.

use crate::calculus::{
    has_derivative,
    lemma_cancel,
    lemma_constant,
    lemma_identity,
    lemma_order,
    lemma_product,
    lemma_quotient,
    lemma_same,
    lemma_sum,
    lemma_terms,
};
use crate::double::{Double, ONE_BITS};
use vstd::prelude::*;

verus! {

/// Numbers to calculate with.
pub trait Arithmetic: Sized {
    /// `1`
    spec fn unit() -> Self;

    /// `self + other`
    spec fn sum(self, other: Self) -> Self;

    /// `self - other`
    spec fn difference(self, other: Self) -> Self;

    /// `self * other`
    spec fn product(self, other: Self) -> Self;

    /// `self / other`
    spec fn quotient(self, other: Self) -> Self;
}

impl Arithmetic for Double {
    open spec fn unit() -> Double {
        Double { bits: ONE_BITS }
    }

    open spec fn sum(self, other: Double) -> Double {
        self.plus(other)
    }

    open spec fn difference(self, other: Double) -> Double {
        self.minus(other)
    }

    open spec fn product(self, other: Double) -> Double {
        self.times(other)
    }

    open spec fn quotient(self, other: Double) -> Double {
        self.over(other)
    }
}

impl Arithmetic for real {
    open spec fn unit() -> real {
        1real
    }

    open spec fn sum(self, other: real) -> real {
        self + other
    }

    open spec fn difference(self, other: real) -> real {
        self - other
    }

    open spec fn product(self, other: real) -> real {
        self * other
    }

    open spec fn quotient(self, other: real) -> real {
        self / other
    }
}

/// A spring that is stretched from `end` by `x0`, and stretched further at the
/// velocity `v0`.
pub struct Motion<N> {
    /// The damping ratio.
    pub zeta: N,
    /// The angular frequency without damping.
    pub omega0: N,
    /// The angular frequency with damping.
    pub omega1: N,
    pub end: N,
    pub x0: N,
    pub v0: N,
}

impl<N: Arithmetic> Motion<N> {
    /// How fast the envelope of a spring that swings decays.
    pub open spec fn decay(self) -> N {
        self.zeta.product(self.omega0)
    }

    /// What sets a spring that swings in motion.
    pub open spec fn push(self) -> N {
        self.v0.sum(self.decay().product(self.x0))
    }

    /// Where a spring that swings is, by the envelope, the sine and the cosine at
    /// the time.
    pub open spec fn swinging_value(self, envelope: N, sin: N, cos: N) -> N {
        self.end.difference(
            envelope.product(
                self.push().quotient(self.omega1).product(sin).sum(self.x0.product(cos)),
            ),
        )
    }

    /// How fast a spring that swings is.
    pub open spec fn swinging_velocity(self, envelope: N, sin: N, cos: N) -> N {
        self.decay().product(envelope).product(
            sin.product(self.push()).quotient(self.omega1).sum(self.x0.product(cos)),
        ).difference(
            envelope.product(
                cos.product(self.push()).difference(
                    self.omega1.product(self.x0).product(sin),
                ),
            ),
        )
    }

    /// What sets a spring in motion that does not swing.
    pub open spec fn damped_push(self) -> N {
        self.v0.sum(self.omega0.product(self.x0))
    }

    /// Where a spring is that does not swing, by the envelope at the time.
    pub open spec fn damped_value(self, envelope: N, time: N) -> N {
        self.end.difference(
            envelope.product(self.x0.sum(self.damped_push().product(time))),
        )
    }

    /// How fast a spring is that does not swing.
    pub open spec fn damped_velocity(self, envelope: N, time: N) -> N {
        envelope.product(
            self.v0.product(time.product(self.omega0).difference(N::unit())).sum(
                time.product(self.x0).product(self.omega0.product(self.omega0)),
            ),
        )
    }
}

/// The derivative of a multiple.
proof fn lemma_multiple(c: real, f: spec_fn(real) -> real, x: real, a: real)
    requires
        has_derivative(f, x, a),
    ensures
        has_derivative(|u: real| c * f(u), x, c * a),
{
    let k = |u: real| c;
    lemma_constant(c, x);
    lemma_product(k, f, x, 0real, a);
    lemma_same(|u: real| k(u) * f(u), |u: real| c * f(u), x, 0real * f(x) + k(x) * a, c * a);
}

/// The derivative of what is missing to `end`.
proof fn lemma_missing(end: real, f: spec_fn(real) -> real, x: real, a: real)
    requires
        has_derivative(f, x, a),
    ensures
        has_derivative(|u: real| end - f(u), x, -a),
{
    let (k, g) = (|u: real| end, |u: real| (-1real) * f(u));
    lemma_constant(end, x);
    lemma_multiple(-1real, f, x, a);
    lemma_sum(k, g, x, 0real, (-1real) * a);
    lemma_same(|u: real| k(u) + g(u), |u: real| end - f(u), x, 0real + (-1real) * a, -a);
}

/// The velocity of a spring that swings is the derivative of where it is. The
/// envelope, the sine and the cosine are any functions of the time that change at
/// these rates, as the exponential function of the time times `-decay`, and the
/// sine and the cosine of the time times `omega1` do.
pub proof fn law_swinging_velocity_is_the_derivative(
    m: Motion<real>,
    envelope: spec_fn(real) -> real,
    sin: spec_fn(real) -> real,
    cos: spec_fn(real) -> real,
    time: real,
)
    requires
        m.omega1 != 0real,
        has_derivative(envelope, time, -(m.decay() * envelope(time))),
        has_derivative(sin, time, m.omega1 * cos(time)),
        has_derivative(cos, time, -(m.omega1 * sin(time))),
    ensures
        has_derivative(
            |t: real| m.swinging_value(envelope(t), sin(t), cos(t)),
            time,
            m.swinging_velocity(envelope(time), sin(time), cos(time)),
        ),
{
    let (w, x, d, push) = (m.omega1, m.x0, m.decay(), m.push());
    let a = push / w;
    let (e, s, c) = (envelope(time), sin(time), cos(time));
    let (de, ds, dc) = (-(d * e), w * c, -(w * s));
    let (f, g) = (|t: real| a * sin(t), |t: real| x * cos(t));
    let swing = |t: real| f(t) + g(t);
    let product = |t: real| envelope(t) * swing(t);
    lemma_multiple(a, sin, time, ds);
    lemma_multiple(x, cos, time, dc);
    lemma_sum(f, g, time, a * ds, x * dc);
    lemma_product(envelope, swing, time, de, a * ds + x * dc);
    let slope = de * swing(time) + e * (a * ds + x * dc);
    lemma_missing(m.end, product, time, slope);
    // The slope is the velocity.
    let velocity = m.swinging_velocity(e, s, c);
    assert((s * push) / w == a * s) by {
        lemma_quotient(push, w);
        lemma_quotient(s * push, w);
        lemma_order(s, a, w);
        lemma_order(a, s, w);
        lemma_cancel((s * push) / w, a * s, w);
    }
    assert(a * ds + x * dc == c * push - (w * x) * s) by {
        lemma_quotient(push, w);
        lemma_order(a, w, c);
        lemma_order(c, a * w, 0real);
        lemma_order(c, push, 0real);
        lemma_terms(x, w * s, 0real);
        lemma_order(x, w, s);
        lemma_order(w, x, s);
    }
    lemma_terms(swing(time), d * e, 0real);
    assert(-slope == velocity);
    lemma_same(
        |t: real| m.end - product(t),
        |t: real| m.swinging_value(envelope(t), sin(t), cos(t)),
        time,
        -slope,
        velocity,
    );
}

/// The velocity of a spring that does not swing is the derivative of where it is.
/// The envelope is any function of the time that changes at this rate, as the
/// exponential function of the time times `-omega0` does.
pub proof fn law_damped_velocity_is_the_derivative(
    m: Motion<real>,
    envelope: spec_fn(real) -> real,
    time: real,
)
    requires
        has_derivative(envelope, time, -(m.omega0 * envelope(time))),
    ensures
        has_derivative(
            |t: real| m.damped_value(envelope(t), t),
            time,
            m.damped_velocity(envelope(time), time),
        ),
{
    let (w, x, v, push) = (m.omega0, m.x0, m.v0, m.damped_push());
    let e = envelope(time);
    let (k, id) = (|t: real| x, |t: real| t);
    let moved = |t: real| push * id(t);
    let fall = |t: real| k(t) + moved(t);
    let product = |t: real| envelope(t) * fall(t);
    lemma_constant(x, time);
    lemma_identity(time);
    lemma_multiple(push, id, time, 1real);
    lemma_sum(k, moved, time, 0real, push * 1real);
    lemma_product(envelope, fall, time, -(w * e), 0real + push * 1real);
    let slope = (-(w * e)) * fall(time) + e * (0real + push * 1real);
    lemma_missing(m.end, product, time, slope);
    // The slope is the velocity: e * (w * (x + push * t) - push).
    let velocity = m.damped_velocity(e, time);
    lemma_terms(x + push * time, w * e, 0real);
    lemma_order(w, e, x + push * time);
    lemma_order(e, w, x + push * time);
    lemma_terms(e, w * (x + push * time), -push);
    lemma_terms(e, push, 0real);
    assert(-slope == e * (w * (x + push * time) - push));
    lemma_damped_rate(w, x, v, time);
    lemma_same(
        |t: real| m.end - product(t),
        |t: real| m.damped_value(envelope(t), t),
        time,
        -slope,
        velocity,
    );
}

/// Two ways to write how fast a spring is that does not swing.
proof fn lemma_damped_rate(w: real, x: real, v: real, t: real)
    ensures
        w * (x + (v + w * x) * t) - (v + w * x) == v * (t * w - 1real) + (t * x) * (w * w),
{
    lemma_terms(w, x, (v + w * x) * t);
    lemma_terms(t, v, w * x);
    lemma_terms(w, v * t, (w * x) * t);
    lemma_order(w, v, t);
    lemma_order(w, t, 0real);
    lemma_order(t, w, 0real);
    lemma_terms(v, t * w, -1real);
    lemma_terms(v, 1real, 0real);
    lemma_order(w, x, t);
    lemma_order(x, t, 0real);
    lemma_order(t * x, w, w);
    lemma_order(w, w, x * t);
    lemma_order(w, t * x, w);
    lemma_order(w, w, t * x);
    lemma_order(t * x, w * w, 0real);
}

/// The formulas over the real numbers: where a spring is, and how fast, for any envelope,
/// sine and cosine, whether it swings or not.
pub proof fn law_formulas(m: Motion<real>, e: real, s: real, c: real, t: real)
    ensures
        m.swinging_value(e, s, c) == m.end - e * (((m.v0 + m.zeta * m.omega0 * m.x0) / m.omega1) * s
            + m.x0 * c),
        m.swinging_velocity(e, s, c) == m.zeta * m.omega0 * e * ((s * (m.v0 + m.zeta * m.omega0
            * m.x0)) / m.omega1 + m.x0 * c) - e * (c * (m.v0 + m.zeta * m.omega0 * m.x0) - m.omega1
            * m.x0 * s),
        m.damped_value(e, t) == m.end - e * (m.x0 + (m.v0 + m.omega0 * m.x0) * t),
        m.damped_velocity(e, t) == e * (m.v0 * (t * m.omega0 - 1real) + t * m.x0 * (m.omega0
            * m.omega0)),
{
}

/// At time zero a spring is where it was stretched to, and as fast as it was to
/// begin, whether it swings or not. How fast it swings is known only where it has a
/// frequency.
pub proof fn law_motion_begins(m: Motion<real>)
    ensures
        m.swinging_value(1real, 0real, 1real) == m.end - m.x0,
        m.omega1 != 0real ==> m.swinging_velocity(1real, 0real, 1real) == -m.v0,
        m.damped_value(1real, 0real) == m.end - m.x0,
        m.damped_velocity(1real, 0real) == -m.v0,
{
    let push = m.push();
    if m.omega1 != 0real {
        lemma_quotient(0real * push, m.omega1);
        lemma_cancel((0real * push) / m.omega1, 0real, m.omega1);
    }
    lemma_terms(m.v0, 1real, 0real);
    assert(0real * m.omega0 - 1real == -1real);
    assert((0real * m.x0) * (m.omega0 * m.omega0) == 0real);
}

/// Two positive numbers with the same square are the same.
proof fn lemma_squares(x: real, y: real)
    requires
        0real < x,
        0real < y,
        x * x == y * y,
    ensures
        x == y,
{
    lemma_terms(x + y, x, -y);
    lemma_terms(x, x, y);
    lemma_terms(y, x, y);
    lemma_terms(x + y, y, 0real);
    lemma_order(x, y, 0real);
    assert((x - y) * (x + y) == 0real * (x + y)) by {
        lemma_order(x - y, x + y, 0real);
    }
    lemma_cancel(x - y, 0real, x + y);
}

/// Whether the numbers of the motion are those of a weight with this mass, on a spring
/// with this stiffness and this damping. `root` is the root of the stiffness times the
/// mass.
pub open spec fn belongs_to(
    m: Motion<real>,
    stiffness: real,
    damping: real,
    mass: real,
    root: real,
) -> bool {
    &&& 0real < stiffness
    &&& 0real < mass
    &&& 0real < root
    &&& root * root == stiffness * mass
    &&& m.zeta * (2real * root) == damping
    &&& 0real < m.omega0
    &&& (m.omega0 * m.omega0) * mass == stiffness
    &&& m.omega1 * m.omega1 == (m.omega0 * m.omega0) * (1real - m.zeta * m.zeta)
}

/// The damping is twice the mass times the decay, and the frequency with damping falls
/// short of the other by the decay.
proof fn lemma_belongs(m: Motion<real>, stiffness: real, damping: real, mass: real, root: real)
    requires
        belongs_to(m, stiffness, damping, mass, root),
    ensures
        root == mass * m.omega0,
        2real * (mass * m.decay()) == damping,
        mass * (m.omega0 * m.omega0) == stiffness,
        m.omega1 * m.omega1 == m.omega0 * m.omega0 - m.decay() * m.decay(),
{
    let (z, w) = (m.zeta, m.omega0);
    lemma_order(w * w, mass, 0real);
    assert(0real < mass * w) by (nonlinear_arith)
        requires
            0real < mass,
            0real < w,
    ;
    // (mass * w) * (mass * w) == mass * (mass * (w * w)) == mass * stiffness.
    lemma_order(mass, w, mass * w);
    lemma_order(w, mass, w);
    lemma_order(mass, stiffness, 0real);
    lemma_squares(root, mass * w);
    // z * (2 * (mass * w)) == 2 * (mass * (z * w)).
    lemma_order(z, 2real, mass * w);
    lemma_order(z, mass, w);
    // (z * w) * (z * w) == (w * w) * (z * z).
    lemma_order(z, w, z * w);
    lemma_order(w, z, w);
    lemma_order(z, z, w * w);
    lemma_order(z * z, w * w, 0real);
    lemma_terms(w * w, 1real, -(z * z));
    lemma_terms(w * w, z * z, 0real);
}

/// What the spring does to the weight, by where it is and how fast.
proof fn lemma_force(
    mass: real,
    stiffness: real,
    damping: real,
    square: real,
    decay: real,
    x: real,
    v: real,
)
    requires
        mass * square == stiffness,
        2real * (mass * decay) == damping,
    ensures
        mass * (-(square * x) - 2real * (decay * v)) == -(stiffness * x) - damping * v,
{
    lemma_terms(mass, -(square * x), -(2real * (decay * v)));
    lemma_terms(mass, square * x, 0real);
    lemma_terms(mass, 2real * (decay * v), 0real);
    lemma_order(mass, square, x);
    lemma_order(mass, 2real, decay * v);
    lemma_order(mass, decay, v);
    lemma_order(2real, mass * decay, v);
}

/// How fast the velocity of a spring that swings changes.
proof fn lemma_swinging_rate(
    e: real,
    d: real,
    square: real,
    w: real,
    p: real,
    q: real,
    x: real,
    v: real,
)
    requires
        w * w == square - d * d,
        x == -(e * p),
        v == e * (d * p - q),
    ensures
        (-(d * e)) * (d * p - q) + e * (d * q + (w * w) * p) == -(square * x) - 2real * (d * v),
{
    let (a, b) = (e * p, e * q);
    lemma_terms(e, d * p, -q);
    lemma_terms(e, q, 0real);
    lemma_order(e, d, p);
    assert(v == d * a - b);
    lemma_terms(d * p - q, d * e, 0real);
    lemma_order(d, e, d * p - q);
    assert((-(d * e)) * (d * p - q) == -(d * v));
    lemma_terms(e, d * q, (w * w) * p);
    lemma_order(e, d, q);
    lemma_order(e, w * w, p);
    assert(e * (d * q + (w * w) * p) == d * b + (w * w) * a);
    lemma_terms(a, square, -(d * d));
    lemma_terms(a, d * d, 0real);
    assert((w * w) * a == square * a - (d * d) * a);
    lemma_terms(d, d * a, -b);
    lemma_terms(d, b, 0real);
    lemma_order(d, d, a);
    assert(d * v == (d * d) * a - d * b);
    lemma_terms(square, a, 0real);
}

/// A spring that swings moves as the weight on a damped spring does: its mass times
/// its acceleration, the derivative of its velocity, is the force of the spring, which
/// is the stiffness times the way to the end, less the damping times the velocity. The
/// envelope, the sine and the cosine are as in
/// [`law_swinging_velocity_is_the_derivative`].
pub proof fn law_swinging_spring_obeys_its_forces(
    m: Motion<real>,
    stiffness: real,
    damping: real,
    mass: real,
    root: real,
    envelope: spec_fn(real) -> real,
    sin: spec_fn(real) -> real,
    cos: spec_fn(real) -> real,
    time: real,
    acceleration: real,
)
    requires
        belongs_to(m, stiffness, damping, mass, root),
        m.omega1 != 0real,
        has_derivative(envelope, time, -(m.decay() * envelope(time))),
        has_derivative(sin, time, m.omega1 * cos(time)),
        has_derivative(cos, time, -(m.omega1 * sin(time))),
        ({
            let x = m.swinging_value(envelope(time), sin(time), cos(time));
            let v = m.swinging_velocity(envelope(time), sin(time), cos(time));
            mass * acceleration == stiffness * (m.end - x) - damping * v
        }),
    ensures
        has_derivative(
            |t: real| m.swinging_velocity(envelope(t), sin(t), cos(t)),
            time,
            acceleration,
        ),
{
    let (w, x, d, push) = (m.omega1, m.x0, m.decay(), m.push());
    let a = push / w;
    let (e, s, c) = (envelope(time), sin(time), cos(time));
    let (de, ds, dc) = (-(d * e), w * c, -(w * s));
    let square = m.omega0 * m.omega0;
    lemma_belongs(m, stiffness, damping, mass, root);
    // The swing, and how fast it turns.
    let (f, g) = (|t: real| a * sin(t), |t: real| x * cos(t));
    let swing = |t: real| f(t) + g(t);
    let (h, i) = (|t: real| push * cos(t), |t: real| (-(w * x)) * sin(t));
    let turn = |t: real| h(t) + i(t);
    lemma_multiple(a, sin, time, ds);
    lemma_multiple(x, cos, time, dc);
    lemma_sum(f, g, time, a * ds, x * dc);
    lemma_multiple(push, cos, time, dc);
    lemma_multiple(-(w * x), sin, time, ds);
    lemma_sum(h, i, time, push * dc, (-(w * x)) * ds);
    let (p, q) = (swing(time), turn(time));
    lemma_turn(w, x, push, s, c);
    assert(a * ds + x * dc == q);
    assert(push * dc + (-(w * x)) * ds == -((w * w) * p));
    // The velocity is the envelope times what is left of the swing.
    let (j, k) = (|t: real| d * swing(t), |t: real| (-1real) * turn(t));
    let left = |t: real| j(t) + k(t);
    lemma_multiple(d, swing, time, q);
    lemma_multiple(-1real, turn, time, -((w * w) * p));
    lemma_sum(j, k, time, d * q, (-1real) * (-((w * w) * p)));
    let rise = d * q + (-1real) * (-((w * w) * p));
    lemma_product(envelope, left, time, de, rise);
    let slope = de * left(time) + e * rise;
    let velocity = |t: real| m.swinging_velocity(envelope(t), sin(t), cos(t));
    assert forall|t: real| #[trigger] velocity(t) == envelope(t) * left(t) by {
        lemma_swinging_parts(d, w, x, push, envelope(t), sin(t), cos(t));
        assert(left(t) == d * swing(t) - turn(t));
    }
    let missing = m.swinging_value(e, s, c) - m.end;
    assert(missing == -(e * p));
    assert(left(time) == d * p - q);
    assert(rise == d * q + (w * w) * p);
    assert(velocity(time) == e * (d * p - q));
    lemma_swinging_rate(e, d, square, w, p, q, missing, velocity(time));
    lemma_force(mass, stiffness, damping, square, d, missing, velocity(time));
    lemma_terms(stiffness, missing, 0real);
    assert(mass * slope == mass * acceleration);
    lemma_order(mass, slope, 0real);
    lemma_order(mass, acceleration, 0real);
    lemma_cancel(slope, acceleration, mass);
    lemma_same(|t: real| envelope(t) * left(t), velocity, time, slope, acceleration);
}

/// How a swing and its turn change.
proof fn lemma_turn(w: real, x: real, push: real, s: real, c: real)
    requires
        w != 0real,
    ensures
        (push / w) * (w * c) + x * (-(w * s)) == push * c + (-(w * x)) * s,
        push * (-(w * s)) + (-(w * x)) * (w * c) == -((w * w) * ((push / w) * s + x * c)),
{
    let a = push / w;
    lemma_quotient(push, w);
    lemma_order(a, w, c);
    lemma_terms(x, w * s, 0real);
    lemma_order(x, w, s);
    lemma_order(w, x, s);
    lemma_terms(s, w * x, 0real);
    // push * (w * s) == (w * w) * (a * s).
    lemma_terms(push, w * s, 0real);
    lemma_order(a, w, w * s);
    lemma_order(a, w, s);
    lemma_order(w, a, s);
    lemma_order(w, w, a * s);
    assert(push * (w * s) == w * (w * (a * s))) by {
        assert(push * (w * s) == a * (w * (w * s)));
        lemma_order(a, w, w * s);
        assert(a * (w * (w * s)) == w * (a * (w * s)));
        assert(a * (w * s) == w * (a * s));
    }
    // (w * x) * (w * c) == (w * w) * (x * c).
    lemma_terms(w * c, w * x, 0real);
    lemma_order(w, x, w * c);
    lemma_order(x, w, c);
    lemma_order(w, w, x * c);
    lemma_terms(w * w, a * s, x * c);
}

/// The velocity of a spring that swings, by its parts.
proof fn lemma_swinging_parts(
    d: real,
    w: real,
    x: real,
    push: real,
    e: real,
    s: real,
    c: real,
)
    requires
        w != 0real,
    ensures
        (d * e) * ((s * push) / w + x * c) - e * (c * push - (w * x) * s) == e * (d * ((push / w)
            * s + x * c) - (push * c + (-(w * x)) * s)),
{
    let a = push / w;
    assert((s * push) / w == a * s) by {
        lemma_quotient(push, w);
        lemma_quotient(s * push, w);
        lemma_order(s, a, w);
        lemma_order(a, s, w);
        lemma_cancel((s * push) / w, a * s, w);
    }
    let (p, q) = (a * s + x * c, push * c + (-(w * x)) * s);
    lemma_terms(s, w * x, 0real);
    lemma_order(c, push, 0real);
    assert(c * push - (w * x) * s == q);
    lemma_order(d, e, p);
    lemma_terms(e, d * p, -q);
    lemma_terms(e, q, 0real);
}

/// A spring that does not swing moves as the weight on a spring that is damped just
/// enough does: its mass times its acceleration, the derivative of its velocity, is the
/// stiffness times the way to the end, less the damping times the velocity. The
/// envelope is as in [`law_damped_velocity_is_the_derivative`].
pub proof fn law_damped_spring_obeys_its_forces(
    m: Motion<real>,
    stiffness: real,
    damping: real,
    mass: real,
    root: real,
    envelope: spec_fn(real) -> real,
    time: real,
    acceleration: real,
)
    requires
        belongs_to(m, stiffness, damping, mass, root),
        m.zeta == 1real,
        has_derivative(envelope, time, -(m.omega0 * envelope(time))),
        ({
            let x = m.damped_value(envelope(time), time);
            let v = m.damped_velocity(envelope(time), time);
            mass * acceleration == stiffness * (m.end - x) - damping * v
        }),
    ensures
        has_derivative(|t: real| m.damped_velocity(envelope(t), t), time, acceleration),
{
    let (w, x, v0, push) = (m.omega0, m.x0, m.v0, m.damped_push());
    let e = envelope(time);
    lemma_belongs(m, stiffness, damping, mass, root);
    assert(m.decay() == w);
    // The velocity is the envelope times what is left of the fall.
    let id = |t: real| t;
    let (k, moved) = (|t: real| x, |t: real| push * id(t));
    let fall = |t: real| k(t) + moved(t);
    let (j, l) = (|t: real| w * fall(t), |t: real| -push);
    let left = |t: real| j(t) + l(t);
    lemma_constant(x, time);
    lemma_identity(time);
    lemma_multiple(push, id, time, 1real);
    lemma_sum(k, moved, time, 0real, push * 1real);
    lemma_multiple(w, fall, time, 0real + push * 1real);
    lemma_constant(-push, time);
    let rise = w * (0real + push * 1real) + 0real;
    lemma_sum(j, l, time, w * (0real + push * 1real), 0real);
    lemma_product(envelope, left, time, -(w * e), rise);
    let slope = (-(w * e)) * left(time) + e * rise;
    let velocity = |t: real| m.damped_velocity(envelope(t), t);
    assert forall|t: real| #[trigger] velocity(t) == envelope(t) * left(t) by {
        lemma_damped_rate(w, x, v0, t);
        assert(left(t) == w * (x + push * t) - push);
    }
    let missing = m.damped_value(e, time) - m.end;
    let p = x + push * time;
    assert(missing == -(e * p));
    assert(left(time) == w * p - push);
    assert(rise == w * push + (0real * 0real) * p) by {
        assert(push * 1real == push);
        assert((0real * 0real) * p == 0real);
    }
    assert(velocity(time) == e * (w * p - push));
    lemma_swinging_rate(e, w, w * w, 0real, p, push, missing, velocity(time));
    lemma_force(mass, stiffness, damping, w * w, w, missing, velocity(time));
    lemma_terms(stiffness, missing, 0real);
    assert(mass * slope == mass * acceleration);
    lemma_order(mass, slope, 0real);
    lemma_order(mass, acceleration, 0real);
    lemma_cancel(slope, acceleration, mass);
    lemma_same(|t: real| envelope(t) * left(t), velocity, time, slope, acceleration);
}

} // verus!
