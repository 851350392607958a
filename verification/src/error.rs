use vstd::prelude::*;

verus! {

/// Every failure the machine can report. All of them are precondition
/// violations: a misconfigured machine part or an out-of-range symbol,
/// never a transient condition.
#[derive(Clone, Copy, Debug, PartialEq, Eq, Structural)]
pub enum EnigmaError {
    /// A wiring table holds more contacts than the symbol domain allows.
    MapTooLarge,
    /// A wiring table entry points at a contact outside the table.
    ContactOutOfRange,
    /// A rotor position at or past the number of contacts.
    PositionOutOfRange,
    /// A ring setting at or past the number of contacts.
    RingSettingOutOfRange,
    /// A turnover position at or past the number of contacts.
    TurnoverOutOfRange,
    /// A mechanism assembled from fewer rotors than it needs.
    TooFewRotors,
    /// Wiring tables of different sizes supplied to one machine.
    WiringSizeMismatch,
    /// A rotor whose contact count differs from the machine's.
    RotorSizeMismatch,
    /// An input symbol at or past the alphabet size.
    InputOutOfRange,
    /// A backward lookup found no contact wired to the requested output;
    /// only possible when a wiring table is not a true permutation.
    MissingBackwardConnection,
}

} // verus!
