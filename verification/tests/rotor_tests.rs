use enigma::EnigmaError;
use enigma::Rotor;
use enigma::Wiring;

fn table(letters: &str) -> Vec<u8> {
    letters.bytes().map(|b| b - b'A').collect()
}

fn wiring(letters: &str) -> Wiring {
    Wiring::new(table(letters)).unwrap()
}

const ROTOR_I: &str = "EKMFLGDQVZNTOWYHXUSPAIBRCJ";

#[test]
fn rotor_new_rejects_position() {
    assert_eq!(
        Rotor::new(26, Vec::new(), 0, wiring(ROTOR_I)).unwrap_err(),
        EnigmaError::PositionOutOfRange
    );
}

#[test]
fn rotor_new_rejects_ring_setting() {
    assert_eq!(
        Rotor::new(0, Vec::new(), 26, wiring(ROTOR_I)).unwrap_err(),
        EnigmaError::RingSettingOutOfRange
    );
}

#[test]
fn rotor_new_rejects_turnover() {
    assert_eq!(
        Rotor::new(0, vec![16, 26], 0, wiring(ROTOR_I)).unwrap_err(),
        EnigmaError::TurnoverOutOfRange
    );
}

#[test]
fn rotor_new_rejects_empty_wiring() {
    // even position zero has nowhere to stand on an empty wiring
    assert_eq!(
        Rotor::new(0, Vec::new(), 0, Wiring::new(Vec::new()).unwrap()).unwrap_err(),
        EnigmaError::PositionOutOfRange
    );
}

#[test]
fn rotor_advance_wraps() {
    let mut r = Rotor::new(25, Vec::new(), 0, wiring(ROTOR_I)).unwrap();
    r.advance();
    assert_eq!(r.get_rotor_position(), 0);
    r.advance();
    assert_eq!(r.get_rotor_position(), 1);
}

#[test]
fn rotor_set_position() {
    let mut r = Rotor::new(0, Vec::new(), 0, wiring(ROTOR_I)).unwrap();
    assert_eq!(r.set_rotor_position(13), Ok(()));
    assert_eq!(r.get_rotor_position(), 13);
    assert_eq!(
        r.set_rotor_position(26).unwrap_err(),
        EnigmaError::PositionOutOfRange
    );
    assert_eq!(r.get_rotor_position(), 13);
}

#[test]
fn rotor_notch_detection() {
    let mut r = Rotor::new(15, vec![16, 3], 0, wiring(ROTOR_I)).unwrap();
    assert!(!r.is_notch_positioned());
    r.advance();
    assert!(r.is_notch_positioned());
    assert_eq!(r.set_rotor_position(3), Ok(()));
    assert!(r.is_notch_positioned());
}

#[test]
fn rotor_ring_zero_matches_bare_wiring() {
    // with the ring at its zero setting the rotor is its wiring table
    let r = Rotor::new(7, vec![16], 0, wiring(ROTOR_I)).unwrap();
    let w = wiring(ROTOR_I);
    for x in 0..26u8 {
        assert_eq!(r.translate_r_to_l(x), Ok(w.translate(x)));
        assert_eq!(r.translate_l_to_r(x), w.translate_backwards(x));
    }
}

#[test]
fn rotor_round_trip_any_ring() {
    let r = Rotor::new(5, vec![16], 2, wiring(ROTOR_I)).unwrap();
    for x in 0..26u8 {
        let through = r.translate_r_to_l(x).unwrap();
        assert_eq!(r.translate_l_to_r(through), Ok(x));
    }
}

#[test]
fn rotor_translate_exact_with_ring_setting() {
    let r = Rotor::new(5, vec![16], 2, wiring(ROTOR_I)).unwrap();
    assert_eq!(r.translate_r_to_l(0), Ok(4));
    assert_eq!(r.translate_r_to_l(1), Ok(11));
    assert_eq!(r.translate_r_to_l(2), Ok(6));
    assert_eq!(r.translate_r_to_l(3), Ok(12));
    assert_eq!(r.translate_l_to_r(0), Ok(16));
    assert_eq!(r.translate_l_to_r(1), Ok(11));
    assert_eq!(r.translate_l_to_r(2), Ok(22));
    assert_eq!(r.translate_l_to_r(3), Ok(24));
}

#[test]
fn rotor_rejects_input_out_of_range() {
    let r = Rotor::new(0, Vec::new(), 0, wiring(ROTOR_I)).unwrap();
    assert_eq!(
        r.translate_r_to_l(26).unwrap_err(),
        EnigmaError::InputOutOfRange
    );
    assert_eq!(
        r.translate_l_to_r(26).unwrap_err(),
        EnigmaError::InputOutOfRange
    );
}

#[test]
fn rotor_num_positions() {
    let r = Rotor::new(0, Vec::new(), 0, wiring(ROTOR_I)).unwrap();
    assert_eq!(r.num_positions(), 26);
}

#[test]
fn rotor_missing_backward_connection() {
    // input 1 never appears as a table entry
    let w = Wiring::new(vec![0, 0, 2]).unwrap();
    let r = Rotor::new(0, Vec::new(), 0, w).unwrap();
    assert_eq!(
        r.translate_l_to_r(1).unwrap_err(),
        EnigmaError::MissingBackwardConnection
    );
}
