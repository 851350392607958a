use vstd::arithmetic::div_mod::lemma_mod_multiples_vanish;
use vstd::arithmetic::div_mod::lemma_small_mod;
use vstd::prelude::*;

use crate::error::EnigmaError;
use crate::wiring::Wiring;
use crate::wiring::injective;
use crate::wiring::is_permutation;
use crate::wiring::lemma_back_of_fwd;
use crate::wiring::lemma_find_index;
use crate::wiring::lemma_fwd_of_back;
use crate::wiring::wiring_back;
use crate::wiring::wiring_fwd;
use crate::wiring::wiring_wf;

verus! {

/// The mathematical content of a rotor: its rotational position, the fixed
/// ring offset between the wiring and the rotor body, the turnover notch
/// positions, and the wiring table read in the right-to-left direction.
pub ghost struct RotorView {
    pub position: u8,
    pub ring_setting: u8,
    pub turnovers: Seq<u8>,
    pub wiring: Seq<u8>,
}

/// A rotor is well formed when its wiring table is, and its position, ring
/// setting and every turnover position lie below the contact count.
pub open spec fn rotor_wf(r: RotorView) -> bool {
    &&& wiring_wf(r.wiring)
    &&& (r.position as int) < r.wiring.len()
    &&& (r.ring_setting as int) < r.wiring.len()
    &&& forall|i: int| 0 <= i < r.turnovers.len() ==> (r.turnovers[i] as int) < r.wiring.len()
}

/// The rotor after one advance: position moves one step, wrapping at the
/// contact count; everything else is untouched.
pub open spec fn rotor_advanced(r: RotorView) -> RotorView {
    RotorView { position: ((r.position as int + 1) % r.wiring.len() as int) as u8, ..r }
}

/// Whether the rotor stands at one of its turnover positions.
pub open spec fn rotor_at_notch(r: RotorView) -> bool {
    r.turnovers.contains(r.position)
}

/// The right-to-left signal path: shift into the wiring frame by the ring
/// setting, read the table forward, shift back out.
pub open spec fn rotor_rtl(r: RotorView, x: int) -> int {
    let n = r.wiring.len() as int;
    (wiring_fwd(r.wiring, (x + n - r.ring_setting) % n) + r.ring_setting) % n
}

/// The left-to-right signal path: shift into the wiring frame, read the
/// table backward, shift back out. Meaningful only where
/// `rotor_ltr_defined` holds.
pub open spec fn rotor_ltr(r: RotorView, x: int) -> int {
    let n = r.wiring.len() as int;
    (wiring_back(r.wiring, (x + n - r.ring_setting) % n) + r.ring_setting) % n
}

/// Whether the backward reading inside `rotor_ltr` finds a wired contact.
pub open spec fn rotor_ltr_defined(r: RotorView, x: int) -> bool {
    let n = r.wiring.len() as int;
    r.wiring.contains((((x + n - r.ring_setting) % n) as u8))
}

/// Reduction of a sum already in range: for `0 <= a < 2n`, taking `a % n`
/// subtracts `n` exactly when `a` reaches it.
pub proof fn lemma_mod_in_range(a: int, n: int)
    requires
        n >= 1,
        0 <= a < 2 * n,
    ensures
        a % n == if a < n { a } else { a - n },
{
    if a < n {
        lemma_small_mod(a as nat, n as nat);
    } else {
        lemma_mod_multiples_vanish(1, a - n, n);
        lemma_small_mod((a - n) as nat, n as nat);
    }
}

/// The two frame shifts used on either side of a wiring table cancel:
/// subtracting an offset modulo `n` and adding it back returns the start
/// value, in either order.
pub proof fn lemma_shift_cancel(x: int, r: int, n: int)
    requires
        n >= 1,
        0 <= x < n,
        0 <= r < n,
    ensures
        0 <= (x + n - r) % n < n,
        ((x + n - r) % n + r) % n == x,
        ((x + r) % n + n - r) % n == x,
{
    lemma_mod_in_range(x + n - r, n);
    lemma_mod_in_range((x + n - r) % n + r, n);
    lemma_mod_in_range(x + r, n);
    lemma_mod_in_range((x + r) % n + n - r, n);
}

/// With the ring at its zero setting, a rotor's two signal paths are the
/// bare wiring table read forward and backward: the right-to-left path is
/// the forward reading, and the left-to-right path is the backward reading,
/// each failing exactly where the other does.
pub proof fn lemma_rotor_ring_setting_zero(r: RotorView, x: int)
    requires
        rotor_wf(r),
        r.ring_setting == 0,
        0 <= x < r.wiring.len(),
    ensures
        rotor_rtl(r, x) == wiring_fwd(r.wiring, x),
        rotor_ltr_defined(r, x) <==> r.wiring.contains(x as u8),
        r.wiring.contains(x as u8) ==> rotor_ltr(r, x) == wiring_back(r.wiring, x),
{
    let n = r.wiring.len() as int;
    lemma_mod_in_range(x + n, n);
    assert((x + n - 0) % n == x);
    lemma_mod_in_range(wiring_fwd(r.wiring, x), n);
    if r.wiring.contains(x as u8) {
        lemma_find_index(r.wiring, x);
        lemma_mod_in_range(wiring_back(r.wiring, x), n);
        if wiring_back(r.wiring, x) < 0 {
            let w = choose|i: int| 0 <= i < r.wiring.len() && r.wiring[i] == x as u8;
            assert(r.wiring[w] as int != x);
        }
    }
}

/// Sending a symbol right to left through a rotor with an injective wiring
/// and back left to right returns the symbol: the two directions are
/// mutually inverse readings of one table.
pub proof fn lemma_rotor_round_trip(r: RotorView, x: int)
    requires
        rotor_wf(r),
        injective(r.wiring),
        0 <= x < r.wiring.len(),
    ensures
        0 <= rotor_rtl(r, x) < r.wiring.len(),
        rotor_ltr_defined(r, rotor_rtl(r, x)),
        rotor_ltr(r, rotor_rtl(r, x)) == x,
{
    let n = r.wiring.len() as int;
    let ring = r.ring_setting as int;
    let c = (x + n - ring) % n;
    lemma_shift_cancel(x, ring, n);
    let y0 = wiring_fwd(r.wiring, c);
    assert(0 <= y0 < n);
    lemma_mod_in_range(y0 + ring, n);
    lemma_shift_cancel(y0, ring, n);
    assert((rotor_rtl(r, x) + n - ring) % n == y0);
    lemma_back_of_fwd(r.wiring, c);
    assert(r.wiring.contains((y0 as u8))) by {
        assert(r.wiring[c] == y0 as u8);
    }
    lemma_shift_cancel(c, ring, n);
}

/// The opposite round trip: through a rotor with a true permutation
/// wiring, left to right always finds a contact, and right to left brings
/// the result back to the start symbol.
pub proof fn lemma_rotor_round_trip_rev(r: RotorView, x: int)
    requires
        rotor_wf(r),
        is_permutation(r.wiring),
        0 <= x < r.wiring.len(),
    ensures
        rotor_ltr_defined(r, x),
        0 <= rotor_ltr(r, x) < r.wiring.len(),
        rotor_rtl(r, rotor_ltr(r, x)) == x,
{
    let n = r.wiring.len() as int;
    let ring = r.ring_setting as int;
    let c = (x + n - ring) % n;
    lemma_shift_cancel(x, ring, n);
    lemma_fwd_of_back(r.wiring, c);
    let fi = wiring_back(r.wiring, c);
    assert(0 <= fi < n);
    lemma_mod_in_range(fi + ring, n);
    lemma_shift_cancel(fi, ring, n);
    assert((rotor_ltr(r, x) + n - ring) % n == fi);
    assert(wiring_fwd(r.wiring, fi) == c);
    lemma_shift_cancel(c, ring, n);
}

/// A wiring table plus the rotating state of the rotor that carries it.
/// Only the position ever changes after construction, through `advance`
/// or an explicit `set_rotor_position`.
#[derive(Debug)]
pub struct Rotor {
    position: u8,
    turnover_positions: Vec<u8>,
    ring_setting: u8,
    wiring: Wiring,
}

impl View for Rotor {
    type V = RotorView;

    closed spec fn view(&self) -> RotorView {
        RotorView {
            position: self.position,
            ring_setting: self.ring_setting,
            turnovers: self.turnover_positions@,
            wiring: self.wiring@,
        }
    }
}

impl Rotor {
    /// Builds a rotor, rejecting a position, ring setting or turnover
    /// position that lies outside the wiring's contact range.
    pub fn new(position: u8, turnover_positions: Vec<u8>, ring_setting: u8, wiring: Wiring)
        -> (res: Result<Rotor, EnigmaError>)
        requires
            wiring_wf(wiring@),
        ensures
            res is Ok <==> (position as int) < wiring@.len()
                && (ring_setting as int) < wiring@.len()
                && (forall|i: int| 0 <= i < turnover_positions@.len()
                    ==> (turnover_positions@[i] as int) < wiring@.len()),
            res matches Ok(r) ==> r@ == (RotorView {
                position,
                ring_setting,
                turnovers: turnover_positions@,
                wiring: wiring@,
            }) && rotor_wf(r@),
            (position as int) >= wiring@.len()
                ==> res == Err::<Rotor, EnigmaError>(EnigmaError::PositionOutOfRange),
            (position as int) < wiring@.len() && (ring_setting as int) >= wiring@.len()
                ==> res == Err::<Rotor, EnigmaError>(EnigmaError::RingSettingOutOfRange),
            res is Err && (position as int) < wiring@.len()
                && (ring_setting as int) < wiring@.len()
                ==> res == Err::<Rotor, EnigmaError>(EnigmaError::TurnoverOutOfRange),
    {
        let n = wiring.len();
        if position as usize >= n {
            return Err(EnigmaError::PositionOutOfRange);
        }
        if ring_setting as usize >= n {
            return Err(EnigmaError::RingSettingOutOfRange);
        }
        let t = turnover_positions.len();
        for i in 0..t
            invariant
                t == turnover_positions@.len(),
                n == wiring@.len(),
                (position as int) < n as int,
                (ring_setting as int) < n as int,
                forall|k: int| 0 <= k < i ==> (turnover_positions@[k] as int) < n as int,
        {
            if turnover_positions[i] as usize >= n {
                return Err(EnigmaError::TurnoverOutOfRange);
            }
        }
        Ok(Rotor { position, turnover_positions, ring_setting, wiring })
    }

    /// Moves the rotor one position forward, wrapping at the contact count.
    pub fn advance(&mut self)
        requires
            rotor_wf(old(self)@),
        ensures
            final(self)@ == rotor_advanced(old(self)@),
            rotor_wf(final(self)@),
    {
        let n = self.wiring.len();
        proof {
            lemma_mod_in_range(self.position as int + 1, n as int);
        }
        self.position = ((self.position as usize + 1) % n) as u8;
    }

    /// Sets the rotor position by hand, rejecting one outside the contact
    /// range; a rejected call leaves the rotor untouched.
    pub fn set_rotor_position(&mut self, position: u8) -> (res: Result<(), EnigmaError>)
        ensures
            res is Ok <==> (position as int) < old(self)@.wiring.len(),
            res is Ok ==> final(self)@ == (RotorView { position, ..old(self)@ }),
            res is Err ==> final(self)@ == old(self)@
                && res == Err::<(), EnigmaError>(EnigmaError::PositionOutOfRange),
    {
        if (position as usize) < self.wiring.len() {
            self.position = position;
            Ok(())
        } else {
            Err(EnigmaError::PositionOutOfRange)
        }
    }

    /// The rotor's current position.
    pub fn get_rotor_position(&self) -> (p: u8)
        ensures
            p == self@.position,
    {
        self.position
    }

    /// Whether the rotor stands at a turnover position, so that its next
    /// advance carries the rotor to its left along.
    pub fn is_notch_positioned(&self) -> (b: bool)
        ensures
            b == rotor_at_notch(self@),
    {
        let t = self.turnover_positions.len();
        for i in 0..t
            invariant
                t == self@.turnovers.len(),
                forall|k: int| 0 <= k < i ==> self@.turnovers[k] != self@.position,
        {
            if self.turnover_positions[i] == self.position {
                return true;
            }
        }
        proof {
            if self@.turnovers.contains(self@.position) {
                let w = choose|k: int|
                    0 <= k < self@.turnovers.len() && self@.turnovers[k] == self@.position;
                assert(self@.turnovers[w] != self@.position);
            }
        }
        false
    }

    /// The right-to-left signal path through the rotor, from the side of
    /// the entry wheel toward the reflector.
    pub fn translate_r_to_l(&self, input: u8) -> (res: Result<u8, EnigmaError>)
        requires
            rotor_wf(self@),
        ensures
            res is Ok <==> (input as int) < self@.wiring.len(),
            res matches Ok(r) ==> r as int == rotor_rtl(self@, input as int)
                && (r as int) < self@.wiring.len(),
            res is Err ==> res == Err::<u8, EnigmaError>(EnigmaError::InputOutOfRange),
    {
        let n = self.wiring.len();
        if input as usize >= n {
            return Err(EnigmaError::InputOutOfRange);
        }
        let input_contact: usize = (input as usize + n - self.ring_setting as usize) % n;
        let output_contact: u8 = self.wiring.translate(input_contact as u8);
        assert((output_contact as int) < n as int);
        Ok(((output_contact as usize + self.ring_setting as usize) % n) as u8)
    }

    /// The left-to-right signal path through the rotor, from the side of
    /// the reflector back toward the entry wheel. Fails when the wiring,
    /// read backward, has no contact for the shifted input, which only a
    /// non-permutation table can bring about.
    pub fn translate_l_to_r(&self, input: u8) -> (res: Result<u8, EnigmaError>)
        requires
            rotor_wf(self@),
        ensures
            (input as int) >= self@.wiring.len()
                ==> res == Err::<u8, EnigmaError>(EnigmaError::InputOutOfRange),
            (input as int) < self@.wiring.len()
                ==> (res is Ok <==> rotor_ltr_defined(self@, input as int)),
            (input as int) < self@.wiring.len() ==> (res matches Ok(r)
                ==> r as int == rotor_ltr(self@, input as int)
                    && (r as int) < self@.wiring.len()),
            (input as int) < self@.wiring.len() && res is Err
                ==> res == Err::<u8, EnigmaError>(EnigmaError::MissingBackwardConnection),
    {
        let n = self.wiring.len();
        if input as usize >= n {
            return Err(EnigmaError::InputOutOfRange);
        }
        let input_contact: usize = (input as usize + n - self.ring_setting as usize) % n;
        let output_contact: u8 = match self.wiring.translate_backwards(input_contact as u8) {
            Ok(c) => c,
            Err(_) => {
                return Err(EnigmaError::MissingBackwardConnection);
            },
        };
        proof {
            lemma_find_index(self@.wiring, input_contact as int);
        }
        Ok(((output_contact as usize + self.ring_setting as usize) % n) as u8)
    }

    /// The number of positions the rotor can stand in: the contact count
    /// of its wiring.
    pub fn num_positions(&self) -> (n: usize)
        ensures
            n == self@.wiring.len(),
    {
        self.wiring.len()
    }
}

} // verus!
