use vault_crypt::pins::{decrypt, encrypt, Pins, VaultError};
use vault_crypt::re::{merge_parts, Cracker, SusMaster};

fn vault(master: u32, recs: &[(u8, u32)]) -> Vec<u8> {
    let mut out = vec![recs.len() as u8];
    for &(id, pin) in recs {
        out.push(id);
        out.extend(encrypt(master, id, pin).to_be_bytes());
    }
    out
}

#[test]
fn end_to_end_single_record() {
    let master = 123_456_789u32;
    let bytes = vault(master, &[(7, 42)]);
    assert_eq!(Pins::verify(&bytes), Ok(()));
    assert_eq!(Pins::load(&bytes, master).get(0).pin, 42);
    let cracker = Cracker::load(&bytes);
    let step = 1000u32;
    let start = master % step;
    let heuristic = cracker.part_bruteforce(start, step, None);
    assert!(heuristic.iter().all(|s| s.master != master));
    let known = cracker.part_find(start, step, None, &[42]).unwrap();
    assert!(known.contains(&SusMaster { master, score: 1 }));
}

#[test]
fn heuristic_finds_weak_pins() {
    let master = 5_000u32;
    let bytes = vault(master, &[(1, 0), (2, 123_456_789), (3, 987_654_321)]);
    let cracker = Cracker::load(&bytes);
    let found = cracker.part_bruteforce(master, 1, Some(master + 1));
    assert_eq!(found, vec![SusMaster { master, score: 3 }]);
}

#[test]
fn implausible_record_zeroes_score() {
    let master = 77u32;
    let bytes = vault(master, &[(1, 0), (2, 1_000_000_000)]);
    let cracker = Cracker::load(&bytes);
    assert!(cracker.part_bruteforce(master, 1, Some(master + 1)).is_empty());
    let known = cracker.part_find(master, 1, Some(master + 1), &[0, 1_000_000_000]);
    assert_eq!(known, Ok(vec![]));
    let plausible = Cracker::load(&vault(master, &[(1, 0), (2, 999_999_999)]));
    assert_eq!(
        plausible.part_bruteforce(master, 1, Some(master + 1)),
        vec![SusMaster { master, score: 1 }]
    );
}

#[test]
fn known_set_must_not_be_empty() {
    let cracker = Cracker::load(&vault(1, &[(0, 5)]));
    assert_eq!(cracker.part_find(0, 1, Some(10), &[]), Err(VaultError::EmptyKnownSet));
}

#[test]
fn worker_output_is_ordered_and_strided() {
    let bytes = vault(0, &[(4, 17)]);
    let cracker = Cracker::load(&bytes);
    let known: Vec<u32> = (0..300u32).step_by(7).map(|m| decrypt(m, 4, u32::from_be_bytes([bytes[2], bytes[3], bytes[4], bytes[5]]))).collect();
    let found = cracker.part_find(2, 3, Some(300), &known).unwrap();
    assert!(!found.is_empty());
    for w in found.windows(2) {
        assert!(w[0].master < w[1].master);
    }
    assert!(found.iter().all(|s| s.master % 3 == 2 && s.master < 300 && s.score == 1));
}

#[test]
fn partition_covers_space_once() {
    let bytes = vault(0, &[(4, 17), (9, 3)]);
    let cracker = Cracker::load(&bytes);
    let w1 = u32::from_be_bytes([bytes[2], bytes[3], bytes[4], bytes[5]]);
    let known: Vec<u32> = (0..2000u32).step_by(37).map(|m| decrypt(m, 4, w1)).collect();
    let whole = cracker.part_find(0, 1, Some(2000), &known).unwrap();
    assert!(!whole.is_empty());
    for t in [1u32, 2, 3, 7, 16] {
        let mut parts = Vec::new();
        for i in 0..t {
            parts.push(Some(cracker.part_find(i, t, Some(2000), &known).unwrap()));
        }
        let (mut all, lost) = merge_parts(&parts);
        assert_eq!(lost, 0);
        all.sort_by_key(|s| s.master);
        assert_eq!(all, whole);
    }
}

#[test]
fn merge_counts_failed_workers() {
    let a = SusMaster { master: 1, score: 1 };
    let b = SusMaster { master: 2, score: 2 };
    let c = SusMaster { master: 3, score: 1 };
    let parts = vec![Some(vec![a]), None, Some(vec![b, c]), None];
    let (all, lost) = merge_parts(&parts);
    assert_eq!(all, vec![a, b, c]);
    assert_eq!(lost, 2);
}

#[test]
fn merge_of_nothing() {
    let (all, lost) = merge_parts(&Vec::new());
    assert!(all.is_empty());
    assert_eq!(lost, 0);
}

#[test]
fn empty_vault_yields_no_candidate() {
    let cracker = Cracker::load(&[0]);
    assert!(cracker.part_bruteforce(0, 1, Some(1000)).is_empty());
}
