use chunkstream::bigmath::{mod_pow, multiply_mod};
use chunkstream::rolling_hash::{RabinFingerprint, PRIME, WINDOW_SIZE};

fn pushed(bytes: &[u8]) -> RabinFingerprint {
    let mut f = RabinFingerprint::new();
    for &b in bytes {
        f.push_byte(b);
    }
    f
}

#[test]
fn fresh_fingerprint_is_zero() {
    assert_eq!(RabinFingerprint::new().value(), 0);
}

#[test]
fn push_reads_bytes_in_base_256() {
    assert_eq!(pushed(&[1]).value(), 1);
    assert_eq!(pushed(&[1, 2]).value(), 258);
    assert_eq!(pushed(b"hello").value(), 448378203247);
}

#[test]
fn pop_removes_byte_weighted_by_window_base() {
    let mut f = RabinFingerprint::new();
    f.pop_byte(1);
    // 0 + PRIME - 256^64 mod PRIME
    assert_eq!(f.value(), PRIME - 373429783002);
}

#[test]
fn roll_follows_pop_then_push() {
    let window: Vec<u8> = (1..=64).collect();
    let mut f = pushed(&window);
    assert_eq!(f.value(), 255173709924);
    f.roll_byte(1, 65);
    assert_eq!(f.value(), 512770870245);
}

#[test]
fn rolling_matches_fresh_window_when_zero_bytes_leave() {
    let mut data: Vec<u8> = vec![0; 100];
    let mut x: u32 = 12345;
    for _ in 0..WINDOW_SIZE {
        x = x.wrapping_mul(1103515245).wrapping_add(12345);
        data.push((x >> 16) as u8);
    }
    let mut f = pushed(&data[0..WINDOW_SIZE]);
    for i in 0..(data.len() - WINDOW_SIZE) {
        f.roll_byte(data[i], data[i + WINDOW_SIZE]);
    }
    let fresh = pushed(&data[data.len() - WINDOW_SIZE..]);
    assert_eq!(f.value(), fresh.value());
}

#[test]
fn rolled_values_move_away_from_initial_window() {
    let mut data: Vec<u8> = Vec::new();
    let mut x: u32 = 7;
    for _ in 0..4096 {
        x = x.wrapping_mul(1103515245).wrapping_add(12345);
        data.push((x >> 16) as u8);
    }
    let mut f = pushed(&data[0..WINDOW_SIZE]);
    assert_ne!(f.value(), 0);
    let initial = f.value();
    let mut differs = false;
    for i in 0..(data.len() - WINDOW_SIZE) {
        f.roll_byte(data[i], data[i + WINDOW_SIZE]);
        if f.value() != initial {
            differs = true;
        }
    }
    assert!(differs);
}

#[test]
fn modular_helpers() {
    assert_eq!(multiply_mod(123456789, 987654321, 1000000007), 259106859);
    assert_eq!(multiply_mod(u64::MAX, u64::MAX, 7), ((u64::MAX % 7) * (u64::MAX % 7)) % 7);
    assert_eq!(mod_pow(3, 200, 1000003), 333986);
    assert_eq!(mod_pow(256, WINDOW_SIZE as u64, PRIME), 373429783002);
    assert_eq!(mod_pow(5, 0, 13), 1);
    assert_eq!(mod_pow(5, 3, 1), 0);
}

#[test]
fn rolling_differs_from_fresh_window_when_nonzero_byte_leaves() {
    let mut data: Vec<u8> = vec![0; WINDOW_SIZE + 1];
    data[0] = 1;
    let mut f = pushed(&data[0..WINDOW_SIZE]);
    f.roll_byte(data[0], data[WINDOW_SIZE]);
    let fresh = pushed(&data[1..]);
    assert_eq!(fresh.value(), 0);
    assert_ne!(f.value(), fresh.value());
}
