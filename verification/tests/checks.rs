use memalloc::error::Error;
use memalloc::heap::{check_align, check_len, check_len_and_align, check_ptr};

const MAX_LEN: usize = isize::MAX as usize;

#[test]
fn zero_length_is_refused_whatever_the_alignment() {
    for align in [0usize, 1, 2, 3, 4, 5, 6, 8, 4096, usize::MAX] {
        assert_eq!(check_len_and_align(0, align), Err(Error::ZeroLength));
    }
}

#[test]
fn alignment_must_be_a_power_of_two() {
    for align in [0usize, 3, 5, 6, 7, 9, 12, 100, 4095, usize::MAX] {
        assert_eq!(check_len_and_align(1, align), Err(Error::BadAlignment));
        assert_eq!(check_len_and_align(4096, align), Err(Error::BadAlignment));
        assert_eq!(check_len_and_align(MAX_LEN, align), Err(Error::BadAlignment));
    }
}

#[test]
fn powers_of_two_pass() {
    let mut align: usize = 1;
    loop {
        assert_eq!(check_len_and_align(1, align), Ok(()));
        assert_eq!(check_align(align), Ok(()));
        match align.checked_mul(2) {
            Some(next) => align = next,
            None => break,
        }
    }
}

#[test]
fn oversized_length_is_want_of_memory() {
    assert_eq!(check_len_and_align(MAX_LEN + 1, 8), Err(Error::NotEnoughMemory));
    assert_eq!(check_len_and_align(usize::MAX, 1), Err(Error::NotEnoughMemory));
}

#[test]
fn length_is_judged_before_alignment() {
    assert_eq!(check_len_and_align(0, 3), Err(Error::ZeroLength));
    assert_eq!(check_len_and_align(MAX_LEN + 1, 3), Err(Error::NotEnoughMemory));
    assert_eq!(check_len_and_align(usize::MAX, 0), Err(Error::NotEnoughMemory));
}

#[test]
fn largest_length_passes() {
    assert_eq!(check_len_and_align(MAX_LEN, 1), Ok(()));
    assert_eq!(check_len(MAX_LEN), Ok(()));
    assert_eq!(check_len(1), Ok(()));
}

#[test]
fn length_alone() {
    assert_eq!(check_len(0), Err(Error::ZeroLength));
    assert_eq!(check_len(MAX_LEN + 1), Err(Error::NotEnoughMemory));
    assert_eq!(check_len(16), Ok(()));
}

#[test]
fn alignment_alone() {
    assert_eq!(check_align(0), Err(Error::BadAlignment));
    assert_eq!(check_align(6), Err(Error::BadAlignment));
    assert_eq!(check_align(8), Ok(()));
    assert_eq!(check_align(1), Ok(()));
}

#[test]
fn null_address_is_a_refusal() {
    assert_eq!(check_ptr(0), Err(Error::NotEnoughMemory));
    assert_eq!(check_ptr(1), Ok(1));
    assert_eq!(check_ptr(0x1000), Ok(0x1000));
    assert_eq!(check_ptr(usize::MAX), Ok(usize::MAX));
}

#[test]
fn errors_in_words() {
    assert_eq!(Error::NotEnoughMemory.message(), "out of memory");
    assert_eq!(Error::BadAlignment.message(), "alignment must be a power of two");
    assert_eq!(Error::ZeroLength.message(), "length must not be zero");
}

#[test]
fn errors_compare_and_copy() {
    let e = Error::BadAlignment;
    let f = e;
    assert_eq!(e, f);
    assert_ne!(Error::ZeroLength, Error::NotEnoughMemory);
    assert_eq!(format!("{:?}", Error::ZeroLength), "ZeroLength");
}
