use vault_crypt::editor::{append_digit, next_index, previous_index, selection_after_remove};
use vault_crypt::pins::{decrypt, encrypt, Pin, Pins, VaultError};
use vault_crypt::re::Cracker;

fn record(out: &mut Vec<u8>, master: u32, id: u8, pin: u32) {
    out.push(id);
    out.extend(encrypt(master, id, pin).to_be_bytes());
}

fn vault(master: u32, recs: &[(u8, u32)]) -> Vec<u8> {
    let mut out = vec![recs.len() as u8];
    for &(id, pin) in recs {
        record(&mut out, master, id, pin);
    }
    out
}

#[test]
fn verify_empty_input() {
    assert_eq!(Pins::verify(&[]), Err(VaultError::EmptyInput));
}

#[test]
fn verify_truncated_input() {
    assert_eq!(Pins::verify(&[1, 0, 0, 0, 0]), Err(VaultError::TruncatedInput));
    assert_eq!(
        Pins::verify(&[2, 1, 0, 0, 0, 0, 2, 0, 0, 0]),
        Err(VaultError::TruncatedInput)
    );
}

#[test]
fn verify_invalid_slot() {
    assert_eq!(Pins::verify(&[1, 100, 0, 0, 0, 0]), Err(VaultError::InvalidSlot));
    assert_eq!(
        Pins::verify(&[2, 3, 0, 0, 0, 0, 255, 0, 0, 0, 0]),
        Err(VaultError::InvalidSlot)
    );
}

#[test]
fn verify_duplicate_slot() {
    assert_eq!(
        Pins::verify(&[2, 5, 1, 2, 3, 4, 5, 9, 9, 9, 9]),
        Err(VaultError::DuplicateSlot)
    );
}

#[test]
fn verify_first_bad_record_decides() {
    assert_eq!(
        Pins::verify(&[3, 5, 0, 0, 0, 0, 5, 0, 0, 0, 0, 120, 0, 0, 0, 0]),
        Err(VaultError::DuplicateSlot)
    );
    assert_eq!(
        Pins::verify(&[3, 5, 0, 0, 0, 0, 120, 0, 0, 0, 0, 5, 0, 0, 0, 0]),
        Err(VaultError::InvalidSlot)
    );
}

#[test]
fn verify_accepts_valid() {
    assert_eq!(Pins::verify(&[0]), Ok(()));
    assert_eq!(Pins::verify(&[1, 99, 1, 2, 3, 4]), Ok(()));
    assert_eq!(Pins::verify(&[1, 7, 1, 2, 3, 4, 0xAA]), Ok(()));
}

#[test]
fn load_decrypts_and_sorts() {
    let bytes = vault(77, &[(9, 900), (3, 300), (50, 5000)]);
    assert_eq!(Pins::verify(&bytes), Ok(()));
    let pins = Pins::load(&bytes, 77);
    assert_eq!(pins.len(), 3);
    assert_eq!(pins.get(0), Pin::new(3, 300));
    assert_eq!(pins.get(1), Pin::new(9, 900));
    assert_eq!(pins.get(2), Pin::new(50, 5000));
    let ids: Vec<u8> = pins.iter().map(|p| p.id).collect();
    assert_eq!(ids, vec![3, 9, 50]);
}

#[test]
fn load_empty_vault() {
    let pins = Pins::load(&[0], 1);
    assert!(pins.is_empty());
    assert_eq!(pins.len(), 0);
}

#[test]
fn load_reads_big_endian_words() {
    let word = encrypt(5, 2, 31337);
    let b = word.to_be_bytes();
    let pins = Pins::load(&[1, 2, b[0], b[1], b[2], b[3]], 5);
    assert_eq!(pins.get(0).pin, 31337);
    assert_eq!(pins.get(0).pin, decrypt(5, 2, word));
}

#[test]
fn add_uses_next_slot() {
    let bytes = vault(1, &[(4, 11), (9, 22)]);
    let mut pins = Pins::load(&bytes, 1);
    assert!(pins.add(33));
    assert_eq!(pins.get(2), Pin::new(10, 33));
}

#[test]
fn add_to_fresh_vault_starts_at_zero() {
    let mut pins = Pins::default();
    assert!(pins.add(5));
    assert!(pins.add(6));
    assert_eq!(pins.get(0), Pin::new(0, 5));
    assert_eq!(pins.get(1), Pin::new(1, 6));
}

#[test]
fn add_refused_after_last_slot() {
    let bytes = vault(1, &[(99, 1)]);
    let mut pins = Pins::load(&bytes, 1);
    assert!(!pins.add(2));
    assert_eq!(pins.len(), 1);
}

#[test]
fn set_and_remove() {
    let bytes = vault(8, &[(1, 10), (2, 20), (3, 30)]);
    let mut pins = Pins::load(&bytes, 8);
    pins.set(1, 25);
    assert_eq!(pins.get(1), Pin::new(2, 25));
    pins.remove(0);
    assert_eq!(pins.len(), 2);
    assert_eq!(pins.get(0), Pin::new(2, 25));
    assert_eq!(pins.get(1), Pin::new(3, 30));
}

#[test]
fn save_then_load_round_trip() {
    let bytes = vault(4242, &[(12, 123), (1, 999_999_999)]);
    let pins = Pins::load(&bytes, 4242);
    let saved = pins.save();
    assert_eq!(saved.len(), 11);
    assert_eq!(saved[0], 2);
    assert_eq!(saved[1], 1);
    assert_eq!(saved[6], 12);
    assert_eq!(Pins::verify(&saved), Ok(()));
    let again = Pins::load(&saved, 4242);
    assert_eq!(again.get(0), Pin::new(1, 999_999_999));
    assert_eq!(again.get(1), Pin::new(12, 123));
}

#[test]
fn save_omits_zero_pin() {
    let bytes = vault(31, &[(2, 5), (6, 7), (8, 9)]);
    let mut pins = Pins::load(&bytes, 31);
    pins.set(1, 0);
    let saved = pins.save();
    assert_eq!(saved[0], 2);
    assert_eq!(saved.len(), 11);
    assert_eq!(saved[1], 2);
    assert_eq!(saved[6], 8);
    assert_eq!(Pins::verify(&saved), Ok(()));
    let again = Pins::load(&saved, 31);
    assert_eq!(again.len(), 2);
    assert!(again.iter().all(|p| p.id != 6));
}

#[test]
fn save_of_empty_vault() {
    let pins = Pins::default();
    assert_eq!(pins.save(), vec![0]);
}

#[test]
fn parse_after_save_omits_zero_pin() {
    let mut pins = Pins::load(&vault(3, &[(0, 0), (1, 1)]), 3);
    pins.add(0);
    let saved = pins.save();
    assert_eq!(saved[0], 1);
    let cracker = Cracker::load(&saved);
    let found = cracker.part_find(3, 1, Some(4), &[1]).unwrap();
    assert_eq!(found.len(), 1);
    assert_eq!(found[0].score, 1);
}

#[test]
fn selection_moves_and_wraps() {
    assert_eq!(next_index(Some(0), None, 3), Some(1));
    assert_eq!(next_index(Some(2), None, 3), Some(0));
    assert_eq!(next_index(None, Some(2), 3), Some(2));
    assert_eq!(next_index(None, None, 3), Some(0));
    assert_eq!(next_index(Some(1), None, 0), Some(1));
    assert_eq!(previous_index(Some(0), None, 3), Some(2));
    assert_eq!(previous_index(Some(2), None, 3), Some(1));
    assert_eq!(previous_index(None, Some(1), 3), Some(1));
    assert_eq!(previous_index(None, None, 0), None);
}

#[test]
fn digits_append_up_to_nine() {
    assert_eq!(append_digit(0, 4), 4);
    assert_eq!(append_digit(4, 2), 42);
    assert_eq!(append_digit(99_999_999, 9), 999_999_999);
    assert_eq!(append_digit(100_000_000, 1), 100_000_000);
}

#[test]
fn selection_after_removal() {
    assert_eq!(selection_after_remove(0, 0), None);
    assert_eq!(selection_after_remove(2, 2), Some(1));
    assert_eq!(selection_after_remove(1, 3), Some(1));
}
