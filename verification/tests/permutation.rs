use radix2_fft::cfft;

#[test]
fn bit_rev_table_size_4() {
    let ctx = cfft::Ctx::new(4).unwrap();
    let expected: [usize; 4] = [0, 4, 0, 0];
    for (k, want) in expected.iter().enumerate() {
        assert_eq!(ctx.bit_rev_at(k), *want, "entry {}", k);
    }
}

#[test]
fn bit_rev_table_size_8() {
    let ctx = cfft::Ctx::new(8).unwrap();
    let expected: [usize; 8] = [0, 8, 0, 12, 0, 0, 0, 0];
    for (k, want) in expected.iter().enumerate() {
        assert_eq!(ctx.bit_rev_at(k), *want, "entry {}", k);
    }
}

#[test]
fn bit_rev_table_size_16() {
    let ctx = cfft::Ctx::new(16).unwrap();
    // Pair k is swapped with pair rev(k) when rev(k) > k; offsets are 2*rev(k).
    let expected: [usize; 16] = [0, 16, 8, 24, 0, 20, 0, 28, 0, 0, 0, 26, 0, 0, 0, 0];
    for (k, want) in expected.iter().enumerate() {
        assert_eq!(ctx.bit_rev_at(k), *want, "entry {}", k);
    }
}

#[test]
fn permute_reorders_pairs_size_4() {
    let ctx = cfft::Ctx::new(4).unwrap();
    let mut buf: Vec<u32> = (0..8).collect();
    ctx.permute(&mut buf);
    assert_eq!(buf, vec![0, 1, 4, 5, 2, 3, 6, 7]);
}

#[test]
fn permute_reorders_pairs_size_8() {
    let ctx = cfft::Ctx::new(8).unwrap();
    let mut buf: Vec<u32> = (0..16).collect();
    ctx.permute(&mut buf);
    assert_eq!(buf, vec![0, 1, 8, 9, 4, 5, 12, 13, 2, 3, 10, 11, 6, 7, 14, 15]);
}

#[test]
fn permute_works_on_doubles() {
    let ctx = cfft::Ctx::new(4).unwrap();
    let mut buf: Vec<f64> = vec![0.5, -1.5, 2.25, 3.0, -4.75, 5.5, 6.0, -7.125];
    ctx.permute(&mut buf);
    assert_eq!(buf, vec![0.5, -1.5, -4.75, 5.5, 2.25, 3.0, 6.0, -7.125]);
}

#[test]
fn permute_is_an_involution_at_the_largest_size() {
    let ctx = cfft::Ctx::new(65536).unwrap();
    let original: Vec<u64> = (0..131072).collect();
    let mut buf = original.clone();
    ctx.permute(&mut buf);
    assert_ne!(buf, original, "the permutation must move something");
    ctx.permute(&mut buf);
    assert_eq!(buf, original, "applying the permutation twice must restore the buffer");
}

#[test]
fn permute_is_an_involution() {
    let ctx = cfft::Ctx::new(32).unwrap();
    let original: Vec<u64> = (0..64).map(|v| v * v + 7).collect();
    let mut buf = original.clone();
    ctx.permute(&mut buf);
    assert_ne!(buf, original, "the permutation must move something");
    ctx.permute(&mut buf);
    assert_eq!(buf, original, "applying the permutation twice must restore the buffer");
}
