//! Animation state for reactive user interfaces.
//!
//! An animation has a current percentage, which signals can follow, and an end
//! to which it moves: at a steady pace (`animation`) or like a weight on a spring
//! (`spring`). The times at which it moves are those of the frames that a display
//! draws (`timestamps`). Curves change the pace (`easing`), and a vector can have
//! its elements animate in and out (`animated_map`).
//!
//! The library does not draw, poll or wait. Each operation that has an effect
//! outside says so in what it returns, a `Command` or a `Request`, and is told
//! the outcome by another operation.
//!
//! Numbers are doubles, held as bit patterns (`double`). Their arithmetic
//! (`arithmetic`, `root`, `power`) is stated as rounding an exact result to the
//! nearest double (`rounding`), which keeps the order of the numbers (`order`). The
//! formulas of a spring stand in `motion`, for doubles and for real numbers, over
//! which their derivatives (`calculus`) are taken.
//!
//! Modules that end in `laws`, with `accuracy` and `spring_accuracy`, state what holds
//! of the others: over the values of the numbers and over what has happened, and not
//! over how a result is found.

pub mod accuracy;
pub mod animated_map;
pub mod animated_map_laws;
pub mod animation;
pub mod animation_laws;
pub mod arithmetic;
pub mod calculus;
pub mod cell;
pub mod clock;
pub mod double;
pub mod easing;
pub mod easing_laws;
pub mod motion;
pub mod order;
pub mod percentage;
pub mod poll;
pub mod power;
pub mod root;
pub mod rounding;
pub mod selection;
pub mod spring;
pub mod spring_accuracy;
pub mod spring_laws;
pub mod spring_operation_laws;
pub mod timestamps;
pub mod timestamps_laws;
pub mod vec_diff;
