use algorithms::{dp_rec_mc, goldbach_conjecture, odd_fibnacci_sum};

#[test]
fn fewest_notes_values() {
    assert_eq!(dp_rec_mc(0), 0);
    assert_eq!(dp_rec_mc(1), 1);
    assert_eq!(dp_rec_mc(3), 2);
    assert_eq!(dp_rec_mc(6), 2);
    assert_eq!(dp_rec_mc(40), 2);
    assert_eq!(dp_rec_mc(90), 3);
    assert_eq!(dp_rec_mc(93), 5);
    assert_eq!(dp_rec_mc(100), 1);
    assert_eq!(dp_rec_mc(199), 7);
    assert_eq!(dp_rec_mc(1000), 10);
}

#[test]
fn odd_fibonacci_sum_values() {
    assert_eq!(odd_fibnacci_sum(0), 0);
    assert_eq!(odd_fibnacci_sum(1), 2);
    assert_eq!(odd_fibnacci_sum(2), 2);
    assert_eq!(odd_fibnacci_sum(3), 5);
    assert_eq!(odd_fibnacci_sum(20), 23);
    assert_eq!(odd_fibnacci_sum(100), 188);
    assert_eq!(odd_fibnacci_sum(4_000_000), 4_613_732);
    assert_eq!(odd_fibnacci_sum(2_971_215_072), 3_321_919_439);
}

#[test]
fn goldbach_exceptions() {
    assert_eq!(goldbach_conjecture(), "5777,5993");
}
