use radix2_fft::rfft;

fn bits(values: &[f64]) -> Vec<u64> {
    values.iter().map(|v| v.to_bits()).collect()
}

#[test]
fn unpack_expands_to_hermitian_spectrum() {
    let ctx = rfft::Ctx::new(8).unwrap();
    // Packed layout: [DC, Nyquist, re1, im1, re2, im2, re3, im3].
    let src = bits(&[10.0, 20.0, 1.0, 2.0, 3.0, 4.0, 5.0, 6.0]);
    let mut dst: Vec<u64> = vec![0; 16];
    ctx.unpack(&mut dst, &src);
    let expected = bits(&[
        10.0, 0.0, // DC, imaginary part restored to zero
        1.0, 2.0, 3.0, 4.0, 5.0, 6.0, // bins 1..=3 unchanged
        20.0, 0.0, // Nyquist moved to bin 4
        5.0, -6.0, 3.0, -4.0, 1.0, -2.0, // conjugate mirror of bins 3, 2, 1
    ]);
    assert_eq!(dst, expected);
}

#[test]
fn unpack_mirror_negates_by_sign_flip() {
    let ctx = rfft::Ctx::new(8).unwrap();
    let src = bits(&[0.0, 0.0, 0.5, -0.25, 1.5, 0.125, -2.5, 3.75]);
    let mut dst: Vec<u64> = vec![0; 16];
    ctx.unpack(&mut dst, &src);
    // The mirrored imaginary parts are the IEEE-754 negations of the stored
    // values, bit for bit.
    assert_eq!(f64::from_bits(dst[11]), -3.75);
    assert_eq!(f64::from_bits(dst[13]), -0.125);
    assert_eq!(f64::from_bits(dst[15]), 0.25);
    assert_eq!(dst[15], (0.25f64).to_bits());
}

#[test]
fn pack_collapses_full_spectrum() {
    let ctx = rfft::Ctx::new(8).unwrap();
    let src = bits(&[
        10.0, 0.0, 1.0, 2.0, 3.0, 4.0, 5.0, 6.0, 20.0, 0.0, 5.0, -6.0, 3.0, -4.0, 1.0, -2.0,
    ]);
    let mut dst: Vec<u64> = vec![0; 8];
    ctx.pack(&mut dst, &src);
    assert_eq!(dst, bits(&[10.0, 20.0, 1.0, 2.0, 3.0, 4.0, 5.0, 6.0]));
}

#[test]
fn unpack_and_pack_are_exact_on_raw_patterns() {
    // Every u64 is a stored sample pattern, NaN payloads included; the
    // rearrangement must preserve each one exactly and the mirror must flip
    // only the sign bit.
    let ctx = rfft::Ctx::new(8).unwrap();
    let src: Vec<u64> = vec![
        0xDEAD_BEEF_0123_4567,
        0x7FF8_0000_0000_0001, // a NaN pattern
        1,
        u64::MAX,
        0x8000_0000_0000_0000, // negative zero
        42,
        0x0123_4567_89AB_CDEF,
        0xFFF0_0000_0000_0000,
    ];
    let mut full: Vec<u64> = vec![0; 16];
    ctx.unpack(&mut full, &src);
    assert_eq!(full[10], src[6]);
    assert_eq!(full[11], src[7] ^ 0x8000_0000_0000_0000);
    assert_eq!(full[15], src[3] ^ 0x8000_0000_0000_0000);
    let mut packed: Vec<u64> = vec![0; 8];
    ctx.pack(&mut packed, &full);
    assert_eq!(packed, src);
}

#[test]
fn pack_inverts_unpack_bit_for_bit() {
    let ctx = rfft::Ctx::new(16).unwrap();
    let src: Vec<u64> = (0..16u64)
        .map(|i| (0.37 * (i as f64) - 2.25).to_bits())
        .collect();
    let mut full: Vec<u64> = vec![0; 32];
    ctx.unpack(&mut full, &src);
    let mut packed: Vec<u64> = vec![0; 16];
    ctx.pack(&mut packed, &full);
    assert_eq!(packed, src);
}
