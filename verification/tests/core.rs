use dualis::{check_face_count, fftshift, FaceCountMismatch, Glass, Kind, Rng};

#[test]
fn shifting_twice_returns_the_original() {
    const N: usize = 8;
    let data: Vec<f64> = (0..N * N).map(|i| i as f64).collect();
    let once = fftshift(&data, N);
    let twice = fftshift(&once, N);
    assert_eq!(data, twice);
    // And it really moved something: the corner becomes the centre.
    assert_eq!(once[(N / 2) * N + N / 2], data[0]);
}

#[test]
fn an_odd_shift_is_not_its_own_inverse() {
    let data: Vec<u32> = (0..9).collect();
    let once = fftshift(&data, 3);
    assert_eq!(once, vec![4, 5, 3, 7, 8, 6, 1, 2, 0]);
    assert_ne!(fftshift(&once, 3), data);
}

#[test]
fn catalog_key_normalization() {
    assert!(Glass::from_catalog("n-bk7").is_some());
    assert!(Glass::from_catalog("BK7").is_some());
    assert!(Glass::from_catalog("unobtainium").is_none());
}

#[test]
fn every_catalog_name_looks_up_its_glass() {
    let names = Glass::catalog_names();
    assert_eq!(names, vec!["N-BK7", "N-SF11", "F2", "N-SF5", "N-BAF10", "Fused Silica"]);
    let glasses: Vec<Option<Glass>> = names.iter().map(|n| Glass::from_catalog(n)).collect();
    assert_eq!(
        glasses,
        vec![
            Some(Glass::NBk7),
            Some(Glass::NSf11),
            Some(Glass::F2),
            Some(Glass::NSf5),
            Some(Glass::NBaf10),
            Some(Glass::FusedSilica)
        ]
    );
    assert_eq!(Glass::from_catalog("sio2"), Some(Glass::FusedSilica));
    assert_eq!(Glass::from_catalog("S F 5"), Some(Glass::NSf5));
    assert_eq!(Glass::from_catalog("F-2"), Some(Glass::F2));
    assert_eq!(Glass::from_catalog("F22"), None);
}

#[test]
fn a_seed_is_made_odd_and_the_stream_is_xorshift_star() {
    let mut a = Rng::new(0);
    let mut x: u64 = 1;
    for _ in 0..5 {
        x ^= x >> 12;
        x ^= x << 25;
        x ^= x >> 27;
        assert_eq!(a.next_u64(), x.wrapping_mul(0x2545_F491_4F6C_DD1D));
    }
}

#[test]
fn the_same_seed_draws_the_same_numbers() {
    let mut a = Rng::new(0x5A17_7E3D);
    let mut b = Rng::new(0x5A17_7E3D);
    for _ in 0..100 {
        assert_eq!(a.next_u64(), b.next_u64());
    }
    let mut c = Rng::new(0x5A17_7E3C);
    // 0x...3C | 1 is 0x...3D: seeds that differ only in the low bit are one stream.
    assert_eq!(c.next_u64(), Rng::new(0x5A17_7E3D).next_u64());
}

#[test]
fn a_fraction_numerator_is_below_two_to_the_fifty_three() {
    let mut a = Rng::new(42);
    let mut b = Rng::new(42);
    for _ in 0..1000 {
        let bits = a.next_fraction_bits();
        assert!(bits < 1u64 << 53);
        assert_eq!(bits, b.next_u64() >> 11);
    }
}

#[test]
fn a_kind_is_one_of_two() {
    assert_ne!(Kind::Evolving, Kind::QuasiStatic);
    let k = Kind::Evolving;
    let copy = k;
    assert_eq!(k, copy);
}

#[test]
fn bit_reversal_pairs_each_index_with_its_mirror() {
    let mut data: Vec<u32> = (0..8).collect();
    dualis::bit_reverse_order(&mut data);
    assert_eq!(data, vec![0, 4, 2, 6, 1, 5, 3, 7]);
    dualis::bit_reverse_order(&mut data);
    assert_eq!(data, (0..8).collect::<Vec<u32>>());
}

#[test]
fn a_single_sample_is_already_in_order() {
    let mut data = vec![3.0f64];
    dualis::bit_reverse_order(&mut data);
    assert_eq!(data, vec![3.0]);
    let mut pair = vec!['a', 'b'];
    dualis::bit_reverse_order(&mut pair);
    assert_eq!(pair, vec!['a', 'b']);
}

#[test]
fn bit_reversal_of_sixteen_matches_the_reversed_indices() {
    let mut data: Vec<usize> = (0..16).collect();
    dualis::bit_reverse_order(&mut data);
    for (p, v) in data.iter().enumerate() {
        let mut r = 0;
        for b in 0..4 {
            r |= ((p >> b) & 1) << (3 - b);
        }
        assert_eq!(*v, r);
    }
}

#[test]
fn a_catalog_name_ignores_case_and_punctuation() {
    assert_eq!(Glass::from_catalog("n-baf10"), Some(Glass::NBaf10));
    assert_eq!(Glass::from_catalog("  N.B.A.F.10  "), Some(Glass::NBaf10));
    assert_eq!(Glass::from_catalog("fused silica"), Some(Glass::FusedSilica));
    assert_eq!(Glass::from_catalog("FUSED-SILICA"), Some(Glass::FusedSilica));
    assert_eq!(Glass::from_catalog("f silica"), Some(Glass::FusedSilica));
    assert_eq!(Glass::from_catalog(""), None);
    assert_eq!(Glass::from_catalog("BK 7 é"), Some(Glass::NBk7));
}

#[test]
fn a_zero_seed_never_sticks_at_zero() {
    let mut a = Rng::new(0);
    for _ in 0..10_000 {
        assert_ne!(a.next_u64(), 0);
    }
}

#[test]
fn a_flux_must_have_the_boundary_s_face_count() {
    assert_eq!(check_face_count(4, 4), Ok(()));
    assert_eq!(check_face_count(4, 3), Err(FaceCountMismatch { expected: 4, found: 3 }));
    assert_eq!(check_face_count(1, 8), Err(FaceCountMismatch { expected: 1, found: 8 }));
}
