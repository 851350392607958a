use vstd::prelude::*;

mod error;
mod rotor;
mod rotor_mechanism;
mod wiring;

pub use error::EnigmaError;
pub use rotor::Rotor;
pub use rotor::RotorView;
pub use rotor::rotor_at_notch;
pub use rotor::rotor_advanced;
pub use rotor::rotor_ltr;
pub use rotor::rotor_ltr_defined;
pub use rotor::rotor_rtl;
pub use rotor::rotor_wf;
pub use rotor::lemma_rotor_ring_setting_zero;
pub use rotor::lemma_rotor_round_trip;
pub use rotor::lemma_rotor_round_trip_rev;
pub use rotor_mechanism::MechView;
pub use rotor_mechanism::RotorMechanism;
pub use rotor_mechanism::lemma_mechanism_involution;
pub use rotor_mechanism::mech_bwd;
pub use rotor_mechanism::mech_bwd_defined;
pub use rotor_mechanism::mech_fwd;
pub use rotor_mechanism::mech_stepped;
pub use rotor_mechanism::mech_translate;
pub use rotor_mechanism::mech_translate_defined;
pub use rotor_mechanism::mech_wf;
pub use rotor_mechanism::rotor_views;
pub use rotor_mechanism::rotors_permutations;
pub use rotor_mechanism::should_advance;
pub use rotor_mechanism::stepped_rotors;
pub use wiring::Wiring;
pub use wiring::injective;
pub use wiring::is_involution;
pub use wiring::is_permutation;
pub use wiring::lemma_wiring_round_trip;
pub use wiring::surjective;
pub use wiring::wiring_back;
pub use wiring::wiring_fwd;
pub use wiring::wiring_wf;

verus! {

/// The mathematical content of the whole machine: the rotor mechanism and
/// the plugboard table, sharing one alphabet size.
pub ghost struct EnigmaView {
    pub mechanism: MechView,
    pub stecker: Seq<u8>,
    pub alphabet_size: nat,
}

/// A machine is well formed when its mechanism is, and the plugboard table
/// shares the mechanism's alphabet size.
pub open spec fn enigma_wf(e: EnigmaView) -> bool {
    &&& mech_wf(e.mechanism)
    &&& e.mechanism.alphabet_size == e.alphabet_size
    &&& wiring_wf(e.stecker)
    &&& e.stecker.len() == e.alphabet_size
}

/// One keystroke's static substitution, rotor positions held fixed:
/// plugboard in, the full mechanism path, plugboard out.
pub open spec fn static_path(e: EnigmaView, x: int) -> int {
    wiring_fwd(e.stecker, mech_translate(e.mechanism, wiring_fwd(e.stecker, x)))
}

/// Whether every backward reading along the static substitution finds a
/// wired contact.
pub open spec fn static_path_defined(e: EnigmaView, x: int) -> bool {
    mech_translate_defined(e.mechanism, wiring_fwd(e.stecker, x))
}

/// With rotor positions held fixed, the plugboard-and-mechanism sandwich
/// is an involution: sending a symbol through the static path twice
/// returns the symbol. The plugboard contributes because it is its own
/// inverse, the mechanism because its path is an involution.
pub proof fn lemma_static_path_involution(e: EnigmaView, x: int)
    requires
        enigma_wf(e),
        is_permutation(e.mechanism.etw.wiring),
        rotors_permutations(e.mechanism.rotors),
        is_involution(e.mechanism.reflector),
        is_involution(e.stecker),
        0 <= x < e.alphabet_size,
    ensures
        static_path_defined(e, x),
        0 <= static_path(e, x) < e.alphabet_size,
        static_path_defined(e, static_path(e, x)),
        static_path(e, static_path(e, x)) == x,
{
    let p = wiring_fwd(e.stecker, x);
    assert(0 <= p < e.alphabet_size);
    lemma_mechanism_involution(e.mechanism, p);
    let y = mech_translate(e.mechanism, p);
    let q = wiring_fwd(e.stecker, y);
    assert(0 <= q < e.alphabet_size);
    assert(wiring_fwd(e.stecker, q) == y);
    assert(wiring_fwd(e.stecker, p) == x);
}

/// The assembled cipher machine: a rotor mechanism behind a plugboard.
/// Feeding it one symbol steps the rotors and returns the lamp symbol; the
/// rotor positions are its only mutable state.
#[derive(Debug)]
pub struct Enigma {
    rotor_mechanism: RotorMechanism,
    stecker: Wiring,
    alphabet_size: usize,
}

impl View for Enigma {
    type V = EnigmaView;

    closed spec fn view(&self) -> EnigmaView {
        EnigmaView {
            mechanism: self.rotor_mechanism@,
            stecker: self.stecker@,
            alphabet_size: self.alphabet_size as nat,
        }
    }
}

impl Enigma {
    /// Assembles a machine from the rotor stack (ordered right to left)
    /// and the entry wheel, reflector and plugboard tables. The four
    /// tables and every rotor must share one size; the entry wheel is
    /// built as a non-stepping rotor fixed at position zero.
    pub fn new(
        rotors: Vec<Rotor>,
        etw_wiring: Wiring,
        reflector_wiring: Wiring,
        stecker_wiring: Wiring,
    ) -> (res: Result<Enigma, EnigmaError>)
        requires
            wiring_wf(etw_wiring@),
            wiring_wf(reflector_wiring@),
            wiring_wf(stecker_wiring@),
            forall|i: int| 0 <= i < rotors@.len() ==> rotor_wf(#[trigger] rotors@[i]@),
        ensures
            res is Ok <==> reflector_wiring@.len() == etw_wiring@.len()
                && stecker_wiring@.len() == etw_wiring@.len()
                && (forall|i: int| 0 <= i < rotors@.len()
                    ==> (#[trigger] rotors@[i]@.wiring.len()) == etw_wiring@.len())
                && etw_wiring@.len() >= 1
                && rotors@.len() >= 3,
            res matches Ok(e) ==> e@ == (EnigmaView {
                mechanism: MechView {
                    etw: RotorView {
                        position: 0,
                        ring_setting: 0,
                        turnovers: Seq::<u8>::empty(),
                        wiring: etw_wiring@,
                    },
                    rotors: rotor_views(rotors@),
                    reflector: reflector_wiring@,
                    alphabet_size: etw_wiring@.len(),
                },
                stecker: stecker_wiring@,
                alphabet_size: etw_wiring@.len(),
            }) && enigma_wf(e@),
            reflector_wiring@.len() != etw_wiring@.len()
                || stecker_wiring@.len() != etw_wiring@.len()
                ==> res == Err::<Enigma, EnigmaError>(EnigmaError::WiringSizeMismatch),
            res is Err && reflector_wiring@.len() == etw_wiring@.len()
                && stecker_wiring@.len() == etw_wiring@.len()
                && (forall|i: int| 0 <= i < rotors@.len()
                    ==> (#[trigger] rotors@[i]@.wiring.len()) == etw_wiring@.len())
                ==> res == Err::<Enigma, EnigmaError>(
                    if etw_wiring@.len() == 0 {
                        EnigmaError::PositionOutOfRange
                    } else {
                        EnigmaError::TooFewRotors
                    },
                ),
    {
        let n = etw_wiring.len();
        if reflector_wiring.len() != n || stecker_wiring.len() != n {
            return Err(EnigmaError::WiringSizeMismatch);
        }
        let count = rotors.len();
        for i in 0..count
            invariant
                count == rotors@.len(),
                n == etw_wiring@.len(),
                reflector_wiring@.len() == n as int,
                stecker_wiring@.len() == n as int,
                forall|k: int| 0 <= k < i
                    ==> (#[trigger] rotors@[k]@.wiring.len()) == n as int,
        {
            if rotors[i].num_positions() != n {
                return Err(EnigmaError::RotorSizeMismatch);
            }
        }
        let etw = match Rotor::new(0, Vec::new(), 0, etw_wiring) {
            Ok(r) => r,
            Err(e) => {
                return Err(e);
            },
        };
        let rotor_mechanism = match RotorMechanism::new(etw, rotors, reflector_wiring, n) {
            Ok(m) => m,
            Err(e) => {
                return Err(e);
            },
        };
        Ok(Enigma { rotor_mechanism, stecker: stecker_wiring, alphabet_size: n })
    }

    /// Enciphers one keypress: steps the mechanism, sends the symbol
    /// through the plugboard, the rotor path and the plugboard again, and
    /// returns the lamp symbol. An out-of-range symbol is rejected before
    /// anything moves, so a failed call leaves the machine exactly as it
    /// was.
    pub fn translate(&mut self, input: u8) -> (res: Result<u8, EnigmaError>)
        requires
            enigma_wf(old(self)@),
        ensures
            enigma_wf(final(self)@),
            (input as int) >= old(self)@.alphabet_size
                ==> res == Err::<u8, EnigmaError>(EnigmaError::InputOutOfRange)
                    && final(self)@ == old(self)@,
            (input as int) < old(self)@.alphabet_size
                ==> mech_stepped(old(self)@.mechanism, final(self)@.mechanism)
                    && final(self)@.stecker == old(self)@.stecker
                    && final(self)@.alphabet_size == old(self)@.alphabet_size,
            (input as int) < old(self)@.alphabet_size
                ==> res == (if mech_translate_defined(
                    final(self)@.mechanism,
                    wiring_fwd(old(self)@.stecker, input as int),
                ) {
                    Ok::<u8, EnigmaError>(
                        wiring_fwd(
                            old(self)@.stecker,
                            mech_translate(
                                final(self)@.mechanism,
                                wiring_fwd(old(self)@.stecker, input as int),
                            ),
                        ) as u8,
                    )
                } else {
                    Err::<u8, EnigmaError>(EnigmaError::MissingBackwardConnection)
                }),
            res matches Ok(r) ==> (r as int) < old(self)@.alphabet_size,
    {
        if input as usize >= self.alphabet_size {
            return Err(EnigmaError::InputOutOfRange);
        }
        self.rotor_mechanism.advance();
        let steckered = self.stecker.translate(input);
        assert((steckered as int) < self@.alphabet_size);
        let out = match self.rotor_mechanism.translate(steckered) {
            Ok(v) => v,
            Err(e) => {
                return Err(e);
            },
        };
        Ok(self.stecker.translate(out))
    }
}

} // verus!
