use enigma::EnigmaError;
use enigma::Wiring;

fn table(letters: &str) -> Vec<u8> {
    letters.bytes().map(|b| b - b'A').collect()
}

fn wiring(letters: &str) -> Wiring {
    Wiring::new(table(letters)).unwrap()
}

const ROTOR_I: &str = "EKMFLGDQVZNTOWYHXUSPAIBRCJ";

#[test]
fn wiring_translate_forward() {
    let w = wiring(ROTOR_I);
    assert_eq!(w.translate(0), 4); // A wires to E
    assert_eq!(w.translate(1), 10); // B wires to K
    assert_eq!(w.translate(25), 9); // Z wires to J
}

#[test]
fn wiring_translate_backwards_exact() {
    let w = wiring(ROTOR_I);
    assert_eq!(w.translate_backwards(4), Ok(0)); // E comes from A
    assert_eq!(w.translate_backwards(10), Ok(1)); // K comes from B
    assert_eq!(w.translate_backwards(9), Ok(25)); // J comes from Z
}

#[test]
fn wiring_translate_backwards_first_match() {
    // not a permutation: contact 0 is wired from inputs 0 and 1; the
    // backward search reports the first
    let w = Wiring::new(vec![0, 0, 2]).unwrap();
    assert_eq!(w.translate_backwards(0), Ok(0));
}

#[test]
fn wiring_round_trip_all_symbols() {
    let w = wiring(ROTOR_I);
    for x in 0..26u8 {
        assert_eq!(w.translate_backwards(w.translate(x)), Ok(x));
        let back = w.translate_backwards(x).unwrap();
        assert_eq!(w.translate(back), x);
    }
}

#[test]
fn wiring_new_rejects_oversize() {
    let map = vec![0u8; 257];
    assert_eq!(Wiring::new(map).unwrap_err(), EnigmaError::MapTooLarge);
}

#[test]
fn wiring_new_rejects_bad_entry() {
    assert_eq!(
        Wiring::new(vec![0, 3, 1]).unwrap_err(),
        EnigmaError::ContactOutOfRange
    );
}

#[test]
fn wiring_backwards_missing_connection() {
    // contact 1 is never an entry of the table
    let w = Wiring::new(vec![0, 0, 2]).unwrap();
    assert_eq!(
        w.translate_backwards(1).unwrap_err(),
        EnigmaError::MissingBackwardConnection
    );
}

#[test]
fn wiring_len() {
    assert_eq!(wiring(ROTOR_I).len(), 26);
    assert_eq!(Wiring::new(Vec::new()).unwrap().len(), 0);
}

#[test]
fn wiring_accepts_full_byte_domain() {
    let map: Vec<u8> = (0..=255u8).collect();
    let w = Wiring::new(map).unwrap();
    assert_eq!(w.len(), 256);
    assert_eq!(w.translate(255), 255);
    assert_eq!(w.translate_backwards(17), Ok(17));
}
