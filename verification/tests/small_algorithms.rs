use exercises::base_conversion::read_number;
use exercises::{convert_base, dp_rec_mc, fib, find_missing_number, new_count_distinct};

#[test]
fn test_missing_number_1() {
    let nums = vec![3, 7, 1, 2, 8, 4, 5];
    let missing = find_missing_number(nums);
    println!("Missing number is {}", missing);
    assert_eq!(missing, 6);
}

#[test]
fn test_missing_number_2() {
    let nums = vec![1, 2, 4, 5];
    let missing = find_missing_number(nums);
    println!("Missing number is {}", missing);
    assert_eq!(missing, 3);
}

#[test]
fn test_missing_number_3() {
    let nums = vec![2, 3, 4, 5, 6, 7, 8, 9];
    let missing = find_missing_number(nums);
    println!("Missing number is {}", missing);
    assert_eq!(missing, 1);
}

#[test]
fn test_missing_number_4() {
    let nums = vec![1, 2, 3, 5, 6];
    let missing = find_missing_number(nums);
    println!("Missing number is {}", missing);
    assert_eq!(missing, 4);
}

#[test]
fn missing_number_of_an_empty_list_is_one() {
    assert_eq!(find_missing_number(vec![]), 1);
    assert_eq!(find_missing_number(vec![1]), 2);
    assert_eq!(find_missing_number(vec![2]), 1);
}

#[test]
fn missing_number_of_the_longest_list() {
    let nums: Vec<i32> = (1..=46339).collect();
    assert_eq!(find_missing_number(nums), 46340);
}

#[test]
fn test_fib_1() {
    let result = fib(0);
    println!("Fibonacci of 0: {}", result);
    assert_eq!(result, 0);
}

#[test]
fn test_fib_2() {
    let result = fib(1);
    println!("Fibonacci of 1: {}", result);
    assert_eq!(result, 1);
}

#[test]
fn test_fib_3() {
    let result = fib(2);
    println!("Fibonacci of 2: {}", result);
    assert_eq!(result, 1);
}

#[test]
fn test_fib_4() {
    let result = fib(3);
    println!("Fibonacci of 3: {}", result);
    assert_eq!(result, 2);
}

#[test]
fn test_fib_5() {
    let result = fib(10);
    println!("Fibonacci of 10: {}", result);
    assert_eq!(result, 55);
}

#[test]
fn test_fib_6() {
    let result = fib(20);
    println!("Fibonacci of 20: {}", result);
    assert_eq!(result, 6765);
}

#[test]
fn fib_up_to_the_largest_that_fits() {
    let mut a: i32 = 0;
    let mut b: i32 = 1;
    for n in 0..=46 {
        assert_eq!(fib(n), a);
        let next = a.wrapping_add(b);
        a = b;
        b = next;
    }
    assert_eq!(fib(46), 1836311903);
    assert_eq!(fib(45), 1134903170);
}

#[test]
fn fib_of_a_negative_number_is_one() {
    assert_eq!(fib(-1), 1);
    assert_eq!(fib(-20), 1);
    assert_eq!(fib(i32::MIN), 1);
}

#[test]
fn fewest_coins() {
    assert_eq!(dp_rec_mc(0), 0);
    assert_eq!(dp_rec_mc(1), 1);
    assert_eq!(dp_rec_mc(3), 2);
    assert_eq!(dp_rec_mc(4), 2);
    assert_eq!(dp_rec_mc(9), 3);
    assert_eq!(dp_rec_mc(90), 3);
    assert_eq!(dp_rec_mc(93), 5);
    assert_eq!(dp_rec_mc(100), 1);
    assert_eq!(dp_rec_mc(101), 2);
    assert_eq!(dp_rec_mc(188), 7);
    assert_eq!(dp_rec_mc(99), 6);
    assert_eq!(dp_rec_mc(1000), 10);
}

#[test]
fn count_distinct_fields() {
    assert_eq!(new_count_distinct("a,b,c,a,e,cd"), 5);
    assert_eq!(new_count_distinct("a,b,a,a,e,cd"), 4);
    assert_eq!(new_count_distinct("j,a,c,d,c"), 4);
    assert_eq!(new_count_distinct("a,b,c,d,e"), 5);
    assert_eq!(new_count_distinct(""), 1);
    assert_eq!(new_count_distinct(","), 1);
    assert_eq!(new_count_distinct("a,"), 2);
    assert_eq!(new_count_distinct("a"), 1);
    assert_eq!(new_count_distinct("a,A, a"), 3);
    assert_eq!(new_count_distinct("一,二,一"), 2);
}

#[test]
fn convert_between_bases() {
    assert_eq!(convert_base("10(2)", 10), "2");
    assert_eq!(convert_base("9(10)", 8), "11");
    assert_eq!(convert_base("1111(2)", 15), "10");
    assert_eq!(convert_base("10(7)", 9), "7");
    assert_eq!(convert_base("12(10)", 16), "c");
    assert_eq!(convert_base("ff(16)", 2), "11111111");
    assert_eq!(convert_base("FF(16)", 10), "255");
    assert_eq!(convert_base("0(10)", 2), "0");
    assert_eq!(convert_base("000(3)", 36), "0");
    assert_eq!(convert_base("zz(36)", 36), "zz");
    assert_eq!(convert_base("4294967295(10)", 16), "ffffffff");
    assert_eq!(convert_base("+15(+10)", 2), "1111");
    assert_eq!(convert_base("35(10)", 36), "z");
}

#[test]
fn read_number_rejects_what_is_no_number() {
    assert_eq!(read_number("ff(16)"), Some(255));
    assert_eq!(read_number("10(2)rest"), Some(2));
    assert_eq!(read_number("10(2"), Some(2));
    assert_eq!(read_number("10(2)(3)"), Some(2));
    assert_eq!(read_number("ff"), None);
    assert_eq!(read_number("(16)"), None);
    assert_eq!(read_number("ff()"), None);
    assert_eq!(read_number("ff(1)"), None);
    assert_eq!(read_number("ff(37)"), None);
    assert_eq!(read_number("12(2)"), None);
    assert_eq!(read_number("g(16)"), None);
    assert_eq!(read_number("-1(10)"), None);
    assert_eq!(read_number("+(10)"), None);
    assert_eq!(read_number("1 (10)"), None);
    assert_eq!(read_number("4294967296(10)"), None);
    assert_eq!(read_number("4294967295(10)"), Some(4294967295));
}
