use diffie_hellman::{DHError, DiffieHellman};

#[test]
fn prime_check_rejects_zero_and_one() {
    assert_eq!(DiffieHellman::is_prime(&0), Err(DHError::InvalidP));
    assert_eq!(DiffieHellman::is_prime(&1), Err(DHError::InvalidP));
}

#[test]
fn prime_check_accepts_small_primes() {
    for n in [2u32, 3, 5, 7, 11, 13] {
        assert_eq!(DiffieHellman::is_prime(&n), Ok(()), "{} is prime", n);
    }
}

#[test]
fn prime_check_rejects_small_composites() {
    for n in [4u32, 6, 8, 9, 10, 12] {
        assert_eq!(DiffieHellman::is_prime(&n), Err(DHError::InvalidP), "{} is composite", n);
    }
}

#[test]
fn prime_check_on_squares_of_primes_and_large_values() {
    assert_eq!(DiffieHellman::is_prime(&25), Err(DHError::InvalidP));
    assert_eq!(DiffieHellman::is_prime(&49), Err(DHError::InvalidP));
    assert_eq!(DiffieHellman::is_prime(&7919), Ok(()));
    // the largest 32-bit prime
    assert_eq!(DiffieHellman::is_prime(&4_294_967_291), Ok(()));
    assert_eq!(DiffieHellman::is_prime(&u32::MAX), Err(DHError::InvalidP));
    // 65521 squared: the trial divisor reaches the top of the range
    assert_eq!(DiffieHellman::is_prime(&4_293_001_441), Err(DHError::InvalidP));
}

#[test]
fn primitive_root_known_pairs() {
    assert_eq!(DiffieHellman::is_primitive_root(&7, &3), Ok(()));
    assert_eq!(DiffieHellman::is_primitive_root(&7, &5), Ok(()));
    assert_eq!(DiffieHellman::is_primitive_root(&23, &5), Ok(()));
    assert_eq!(DiffieHellman::is_primitive_root(&11, &2), Ok(()));
}

#[test]
fn primitive_root_repeated_residue_fails() {
    // 2^3 = 8 = 1 mod 7, and 2^6 = 1 mod 7 again
    assert_eq!(DiffieHellman::is_primitive_root(&7, &2), Err(DHError::InvalidG));
    assert_eq!(DiffieHellman::is_primitive_root(&7, &1), Err(DHError::InvalidG));
    assert_eq!(DiffieHellman::is_primitive_root(&23, &2), Err(DHError::InvalidG));
}

#[test]
fn primitive_root_with_large_generator() {
    // 10 = 3 mod 7
    assert_eq!(DiffieHellman::is_primitive_root(&7, &10), Ok(()));
    // u32::MAX = 3 mod 7 and = 3 mod 11; 3 has order 5 modulo 11
    assert_eq!(DiffieHellman::is_primitive_root(&7, &u32::MAX), Ok(()));
    assert_eq!(DiffieHellman::is_primitive_root(&11, &u32::MAX), Err(DHError::InvalidG));
}

#[test]
fn is_valid_accepts_good_parameters() {
    assert_eq!(DiffieHellman::new(23, 5).is_valid(), Ok(()));
    assert_eq!(DiffieHellman::new(7, 3).is_valid(), Ok(()));
}

#[test]
fn is_valid_reports_bad_generator() {
    assert_eq!(DiffieHellman::new(7, 2).is_valid(), Err(DHError::InvalidG));
}

#[test]
fn is_valid_short_circuits_on_modulus() {
    // 8 is not prime, and 2 would also fail the generator check against it
    assert_eq!(DiffieHellman::is_primitive_root(&8, &2), Err(DHError::InvalidG));
    assert_eq!(DiffieHellman::new(8, 2).is_valid(), Err(DHError::InvalidP));
    assert_eq!(DiffieHellman::new(0, 0).is_valid(), Err(DHError::InvalidP));
    assert_eq!(DiffieHellman::new(1, 0).is_valid(), Err(DHError::InvalidP));
}

#[test]
fn is_valid_twice_gives_same_result() {
    let good = DiffieHellman::new(23, 5);
    assert_eq!(good.is_valid(), good.is_valid());
    let bad = DiffieHellman::new(9, 2);
    let first = bad.is_valid();
    let second = bad.is_valid();
    assert_eq!(first, Err(DHError::InvalidP));
    assert_eq!(first, second);
}

#[test]
fn new_has_no_public_values() {
    let dh = DiffieHellman::new(23, 5);
    assert_eq!(dh.modulus(), 23);
    assert_eq!(dh.generator(), 5);
    assert_eq!(dh.public_x(), None);
    assert_eq!(dh.public_y(), None);
}

#[test]
fn round_trip_small_parameters() {
    let dh = DiffieHellman::new(23, 5).calculate_pub_x(6).calculate_pub_y(15);
    assert_eq!(dh.public_x(), Some(8));
    assert_eq!(dh.public_y(), Some(19));
    let a = dh.shared_secret_a(6).unwrap();
    let b = dh.shared_secret_b(15).unwrap();
    assert_eq!(a, b);
    assert_eq!(a, 2);
}

#[test]
fn round_trip_large_exponents() {
    let p = 4_294_967_291u32;
    let g = 2u32;
    let dh = DiffieHellman::new(p, g)
        .calculate_pub_x(3_000_000_019)
        .calculate_pub_y(4_000_000_007);
    let a = dh.shared_secret_a(3_000_000_019).unwrap();
    let b = dh.shared_secret_b(4_000_000_007).unwrap();
    assert_eq!(a, b);
    assert!(a < p);
}

#[test]
fn public_value_is_reduced_power() {
    // 3^4 = 81 = 81 mod 1000
    let dh = DiffieHellman::new(1000, 3).calculate_pub_x(4);
    assert_eq!(dh.public_x(), Some(81));
    // 2^40 mod 1_000_000_007 = 511620083
    let dh = DiffieHellman::new(1_000_000_007, 2).calculate_pub_y(40);
    assert_eq!(dh.public_y(), Some(511_620_083));
    // any value to the power 0 is 1, reduced: 1 mod 1 = 0
    let dh = DiffieHellman::new(1, 7).calculate_pub_x(0);
    assert_eq!(dh.public_x(), Some(0));
    let dh = DiffieHellman::new(23, 5).calculate_pub_x(0);
    assert_eq!(dh.public_x(), Some(1));
}

#[test]
fn public_values_attach_independently() {
    let dh = DiffieHellman::new(23, 5).calculate_pub_x(6);
    assert_eq!(dh.public_x(), Some(8));
    assert_eq!(dh.public_y(), None);
    let dh = DiffieHellman::new(23, 5).calculate_pub_y(15);
    assert_eq!(dh.public_x(), None);
    assert_eq!(dh.public_y(), Some(19));
}

#[test]
fn shared_secret_before_counterparty_fails() {
    let dh = DiffieHellman::new(23, 5);
    assert_eq!(dh.shared_secret_a(6), Err(DHError::SecretNotComputed));
    assert_eq!(dh.shared_secret_b(15), Err(DHError::SecretNotComputed));
    // A's own value does not let A finish; B's is needed
    let dh = dh.calculate_pub_x(6);
    assert_eq!(dh.shared_secret_a(6), Err(DHError::SecretNotComputed));
    assert_eq!(dh.shared_secret_b(15), Ok(2));
    let dh = DiffieHellman::new(23, 5).calculate_pub_y(15);
    assert_eq!(dh.shared_secret_b(15), Err(DHError::SecretNotComputed));
    assert_eq!(dh.shared_secret_a(6), Ok(2));
}

#[test]
fn error_messages() {
    assert_eq!(
        DHError::SecretNotComputed.message(),
        "Pub Value not yet computed with P and G values"
    );
    assert_eq!(DHError::InvalidP.message(), "Invalid value of P, not prime");
    assert_eq!(DHError::InvalidG.message(), "Invalid value of G, not primitive root");
}
