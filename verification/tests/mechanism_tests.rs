use enigma::EnigmaError;
use enigma::Rotor;
use enigma::RotorMechanism;
use enigma::Wiring;

fn table(letters: &str) -> Vec<u8> {
    letters.bytes().map(|b| b - b'A').collect()
}

fn wiring(letters: &str) -> Wiring {
    Wiring::new(table(letters)).unwrap()
}

const ROTOR_I: &str = "EKMFLGDQVZNTOWYHXUSPAIBRCJ"; // turnover Q
const ROTOR_II: &str = "AJDKSIRUXBLHWTMCQGZNPYFVOE"; // turnover E
const ROTOR_III: &str = "BDFHJLCPRTXVZNYEIWGAKMUSQO"; // turnover V
const IDENTITY: &str = "ABCDEFGHIJKLMNOPQRSTUVWXYZ";
const UKW_B: &str = "YRUHQSLDPXNGOKMIEBFZCWVJAT";

fn etw() -> Rotor {
    Rotor::new(0, Vec::new(), 0, wiring(IDENTITY)).unwrap()
}

/// Right to left: III, II, I, each at the given position, rings at zero.
fn stack(right: u8, middle: u8, left: u8) -> Vec<Rotor> {
    vec![
        Rotor::new(right, vec![21], 0, wiring(ROTOR_III)).unwrap(),
        Rotor::new(middle, vec![4], 0, wiring(ROTOR_II)).unwrap(),
        Rotor::new(left, vec![16], 0, wiring(ROTOR_I)).unwrap(),
    ]
}

#[test]
fn mechanism_new_rejects_too_few_rotors() {
    let rotors = vec![
        Rotor::new(0, vec![21], 0, wiring(ROTOR_III)).unwrap(),
        Rotor::new(0, vec![4], 0, wiring(ROTOR_II)).unwrap(),
    ];
    assert_eq!(
        RotorMechanism::new(etw(), rotors, wiring(UKW_B), 26).unwrap_err(),
        EnigmaError::TooFewRotors
    );
}

#[test]
fn mechanism_new_rejects_size_mismatch() {
    let small = Rotor::new(0, Vec::new(), 0, Wiring::new(vec![1, 0]).unwrap()).unwrap();
    let rotors = vec![
        Rotor::new(0, vec![21], 0, wiring(ROTOR_III)).unwrap(),
        Rotor::new(0, vec![4], 0, wiring(ROTOR_II)).unwrap(),
        small,
    ];
    assert_eq!(
        RotorMechanism::new(etw(), rotors, wiring(UKW_B), 26).unwrap_err(),
        EnigmaError::RotorSizeMismatch
    );
}

#[test]
fn mechanism_rightmost_always_steps() {
    let mut mech = RotorMechanism::new(etw(), stack(0, 0, 0), wiring(UKW_B), 26).unwrap();
    mech.advance();
    assert_eq!(mech.rotor_position(0), 1);
    assert_eq!(mech.rotor_position(1), 0);
    assert_eq!(mech.rotor_position(2), 0);
}

#[test]
fn mechanism_double_stepping_anomaly() {
    // right rotor one short of its turnover, middle one short of its own:
    // the middle rotor must step on two consecutive keystrokes, the
    // second time dragging the left rotor along
    let mut mech = RotorMechanism::new(etw(), stack(20, 3, 0), wiring(UKW_B), 26).unwrap();
    let mut observed = Vec::new();
    for _ in 0..4 {
        mech.advance();
        observed.push((
            mech.rotor_position(0),
            mech.rotor_position(1),
            mech.rotor_position(2),
        ));
    }
    assert_eq!(
        observed,
        vec![(21, 3, 0), (22, 4, 0), (23, 5, 1), (24, 5, 1)]
    );
}

#[test]
fn mechanism_static_translate_is_involution() {
    // no stepping happens in translate itself, so applying it twice must
    // return the start symbol
    let mech = RotorMechanism::new(etw(), stack(20, 3, 0), wiring(UKW_B), 26).unwrap();
    for x in 0..26u8 {
        let y = mech.translate(x).unwrap();
        assert_eq!(mech.translate(y), Ok(x));
        assert!(y < 26);
    }
}

#[test]
fn mechanism_translate_exact() {
    let mech = RotorMechanism::new(etw(), stack(20, 3, 0), wiring(UKW_B), 26).unwrap();
    assert_eq!(mech.translate(7), Ok(1));
    assert_eq!(mech.translate(1), Ok(7));
    assert_eq!(mech.translate(25), Ok(20));
}

#[test]
fn mechanism_translate_rejects_out_of_range() {
    let mech = RotorMechanism::new(etw(), stack(0, 0, 0), wiring(UKW_B), 26).unwrap();
    assert_eq!(
        mech.translate(26).unwrap_err(),
        EnigmaError::InputOutOfRange
    );
}
