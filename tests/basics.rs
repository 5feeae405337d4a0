use rust_basics::basics::{f, facto, fibonnaci, five, fizzbuzz_word, plus_one};

#[test]
fn small_functions() {
    assert_eq!(five(), 5);
    assert_eq!(plus_one(5), 6);
    assert_eq!(plus_one(-1), 0);
    assert_eq!(f(41), 42);
    assert_eq!(f(i32::MAX - 1), i32::MAX);
}

#[test]
fn factorials() {
    assert_eq!(facto(0), 1);
    assert_eq!(facto(1), 1);
    assert_eq!(facto(5), 120);
    assert_eq!(facto(10), 3628800);
    assert_eq!(facto(34), 295232799039604140847618609643520000000);
}

#[test]
fn fibonacci_numbers() {
    let expected: [u128; 11] = [0, 1, 1, 2, 3, 5, 8, 13, 21, 34, 55];
    for (n, &v) in expected.iter().enumerate() {
        assert_eq!(fibonnaci(n as u32), v);
    }
    assert_eq!(fibonnaci(186), 332825110087067562321196029789634457848);
}

#[test]
fn fizzbuzz_words() {
    assert_eq!(fizzbuzz_word(1), "");
    assert_eq!(fizzbuzz_word(3), "fizz");
    assert_eq!(fizzbuzz_word(5), "buzz");
    assert_eq!(fizzbuzz_word(15), "fizzbuzz");
    assert_eq!(fizzbuzz_word(98), "");
    assert_eq!(fizzbuzz_word(0), "fizzbuzz");
}
