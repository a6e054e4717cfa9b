use algorithms::fib;

#[test]
fn test_fib_1() {
    let result = fib(0);
    println!("Fibonacci of 0: {}", result);
    assert_eq!(result, 0);
}

#[test]
fn test_fib_2() {
    let result = fib(1);
    println!("Fibonacci of 1: {}", result);
    assert_eq!(result, 1);
}

#[test]
fn test_fib_3() {
    let result = fib(2);
    println!("Fibonacci of 2: {}", result);
    assert_eq!(result, 1);
}

#[test]
fn test_fib_4() {
    let result = fib(3);
    println!("Fibonacci of 3: {}", result);
    assert_eq!(result, 2);
}

#[test]
fn test_fib_5() {
    let result = fib(10);
    println!("Fibonacci of 10: {}", result);
    assert_eq!(result, 55);
}

#[test]
fn test_fib_6() {
    let result = fib(20);
    println!("Fibonacci of 20: {}", result);
    assert_eq!(result, 6765);
}

#[test]
fn fib_largest_in_range() {
    assert_eq!(fib(46), 1_836_311_903);
    assert_eq!(fib(45), 1_134_903_170);
}

#[test]
fn fib_negative_input_is_returned() {
    assert_eq!(fib(-5), -5);
}

#[test]
fn fib_matches_recurrence() {
    let mut a: i64 = 0;
    let mut b: i64 = 1;
    for n in 0..=46 {
        assert_eq!(fib(n) as i64, a);
        let next = a + b;
        a = b;
        b = next;
    }
}
