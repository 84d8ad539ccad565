//! The cell that holds the current percentage of an animation and tells
//! signals of its changes: a `Mutable` of the crate `futures_signals`.

use crate::double::Double;
use crate::percentage::Percentage;
use futures_signals::signal::{Mutable, MutableSignal};
use vstd::prelude::*;

verus! {

/// `futures_signals::signal::Mutable`, of which nothing is known but what the
/// functions below say.
#[verifier::external_type_specification]
#[verifier::external_body]
#[verifier::reject_recursive_types(A)]
pub struct ExMutable<A>(Mutable<A>);

/// `futures_signals::signal::MutableSignal`, likewise.
#[verifier::external_type_specification]
#[verifier::external_body]
#[verifier::reject_recursive_types(A)]
pub struct ExMutableSignal<A>(MutableSignal<A>);

/// The bit pattern of the percentage that a `Mutable` holds.
pub uninterp spec fn held_bits(mutable: Mutable<Percentage>) -> u64;

/// Which of all cells a `Mutable` writes to.
pub uninterp spec fn written_cell(mutable: Mutable<Percentage>) -> int;

/// Which of all cells a `MutableSignal` reports on.
pub uninterp spec fn reported_cell(signal: MutableSignal<Percentage>) -> int;

/// How often the signals of a `Mutable` have been told of a change.
pub uninterp spec fn told_count(mutable: Mutable<Percentage>) -> nat;

/// A percentage that signals can follow. The handle is made here, is never
/// cloned and never given away, so that nothing else writes to its cell.
pub struct PercentageCell {
    mutable: Mutable<Percentage>,
}

impl View for PercentageCell {
    type V = Percentage;

    closed spec fn view(&self) -> Percentage {
        Percentage(Double { bits: held_bits(self.mutable) })
    }
}

/// `Mutable::new`: the new cell holds `value`, and nobody has been told of a
/// change.
#[verifier::external_body]
fn mutable_new(value: Percentage) -> (r: Mutable<Percentage>)
    ensures
        held_bits(r) == value.0.bits,
        told_count(r) == 0,
{
    Mutable::new(value)
}

/// `ReadOnlyMutable::get`, to which `Mutable` dereferences: what the cell
/// holds. No handle but that of `cell` writes to it, so this is what was
/// written last through `cell`.
#[verifier::external_body]
fn mutable_get(cell: &PercentageCell) -> (r: Percentage)
    ensures
        r.0.bits == held_bits(cell.mutable),
{
    cell.mutable.get()
}

/// `Mutable::set_neq`: the cell holds `value` afterwards, and its signals are
/// told so once, unless what it held was equal to it; in that case it is left as
/// it was, and nobody is told. It stays the same cell.
#[verifier::external_body]
fn mutable_set_neq(cell: &mut PercentageCell, value: Percentage)
    ensures
        held_bits(final(cell).mutable) == if Percentage(
            Double { bits: held_bits(old(cell).mutable) },
        ).equals(value) {
            held_bits(old(cell).mutable)
        } else {
            value.0.bits
        },
        told_count(final(cell).mutable) == if Percentage(
            Double { bits: held_bits(old(cell).mutable) },
        ).equals(value) {
            told_count(old(cell).mutable)
        } else {
            told_count(old(cell).mutable) + 1
        },
        written_cell(final(cell).mutable) == written_cell(old(cell).mutable),
{
    cell.mutable.set_neq(value)
}

/// `ReadOnlyMutable::signal`, to which `Mutable` dereferences: a signal that
/// reports on this cell. What it reports rests on what is written until it is
/// polled, and is left unsaid.
#[verifier::external_body]
fn mutable_signal(cell: &PercentageCell) -> (r: MutableSignal<Percentage>)
    ensures
        reported_cell(r) == written_cell(cell.mutable),
{
    cell.mutable.signal()
}

impl PercentageCell {
    /// Which of all cells this is.
    pub closed spec fn id(self) -> int {
        written_cell(self.mutable)
    }

    /// How often the signals of the cell have been told of a change.
    pub closed spec fn told(self) -> nat {
        told_count(self.mutable)
    }

    /// How often the signals have been told after `value` was set, if it was
    /// `told` times before: once more where the value is not equal.
    pub open spec fn told_after_set(told: nat, held: Percentage, value: Percentage) -> nat {
        if held.equals(value) {
            told
        } else {
            told + 1
        }
    }

    /// What the cell holds after `value` was set: a value equal to the present
    /// one does not replace it.
    pub open spec fn after_set(held: Percentage, value: Percentage) -> Percentage {
        if held.equals(value) {
            held
        } else {
            value
        }
    }

    /// A cell that holds `value`.
    pub fn new(value: Percentage) -> (r: PercentageCell)
        ensures
            r@ == value,
            r.told() == 0,
    {
        PercentageCell { mutable: mutable_new(value) }
    }

    /// What the cell holds.
    pub fn get(&self) -> (r: Percentage)
        ensures
            r == self@,
    {
        mutable_get(self)
    }

    /// Makes the cell hold `value`, and tells its signals, unless what it holds
    /// is equal to it.
    pub fn set_neq(&mut self, value: Percentage)
        ensures
            final(self)@ == PercentageCell::after_set(old(self)@, value),
            final(self).told() == PercentageCell::told_after_set(
                old(self).told(),
                old(self)@,
                value,
            ),
            final(self).id() == old(self).id(),
    {
        mutable_set_neq(self, value);
    }

    /// A signal that reports on this cell.
    pub fn signal(&self) -> (r: MutableSignal<Percentage>)
        ensures
            reported_cell(r) == self.id(),
    {
        mutable_signal(self)
    }
}

} // verus!
