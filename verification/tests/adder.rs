use dining::add_two;
use dining::spin_count;

#[test]
fn it_works() {
    assert_eq!(4, add_two(2));
}

#[test]
fn add_two_handles_negative_numbers() {
    assert_eq!(0, add_two(-2));
    assert_eq!(-40, add_two(-42));
}

#[test]
fn spin_count_counts_to_its_limit() {
    assert_eq!(0, spin_count(0));
    assert_eq!(5_000_000, spin_count(5_000_000));
}
