use radix2_fft::cfft;
use radix2_fft::rfft;
use radix2_fft::Error;

#[test]
fn validate_size_accepts_all_powers_of_two_in_range() {
    let mut size: usize = 4;
    while size <= 65536 {
        assert!(cfft::validate_size(size), "size {} must be accepted", size);
        size *= 2;
    }
}

#[test]
fn validate_size_rejects_other_values() {
    for size in [0usize, 1, 2, 3, 5, 6, 7, 9, 12, 100, 65535, 65537, 131072] {
        assert!(!cfft::validate_size(size), "size {} must be rejected", size);
    }
}

#[test]
fn cfft_new_succeeds_on_valid_sizes() {
    let mut size: usize = 4;
    while size <= 65536 {
        let ctx = cfft::Ctx::new(size).expect("valid size must build a context");
        assert_eq!(ctx.size(), size);
        size *= 2;
    }
}

#[test]
fn cfft_new_fails_with_invalid_size_otherwise() {
    for size in [0usize, 1, 2, 3, 5, 131072] {
        match cfft::Ctx::new(size) {
            Ok(_) => panic!("size {} must be rejected", size),
            Err(e) => assert_eq!(e, Error::InvalidSize),
        }
    }
}

#[test]
fn rfft_new_succeeds_on_doubled_valid_sizes() {
    let mut size: usize = 8;
    while size <= 131072 {
        let ctx = rfft::Ctx::new(size).expect("valid size must build a context");
        assert_eq!(ctx.size(), size);
        assert_eq!(ctx.cfft_ctx().size(), size / 2);
        size *= 2;
    }
}

#[test]
fn rfft_new_fails_with_invalid_size_otherwise() {
    for size in [0usize, 1, 2, 4, 6, 9, 10, 262144] {
        match rfft::Ctx::new(size) {
            Ok(_) => panic!("size {} must be rejected", size),
            Err(e) => assert_eq!(e, Error::InvalidSize),
        }
    }
}
