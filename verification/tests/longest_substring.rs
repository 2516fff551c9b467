use exercises::longest_substring_without_repeating_chars;

#[test]
fn test_longest_substring_1() {
    let s = "abcabcbb".to_string();
    let result = longest_substring_without_repeating_chars(s);
    println!("Length of longest substring: {}", result);
    assert_eq!(result, 3); // "abc"
}

#[test]
fn test_longest_substring_2() {
    let s = "bbbbb".to_string();
    let result = longest_substring_without_repeating_chars(s);
    println!("Length of longest substring: {}", result);
    assert_eq!(result, 1); // "b"
}

#[test]
fn test_longest_substring_3() {
    let s = "pwwkew".to_string();
    let result = longest_substring_without_repeating_chars(s);
    println!("Length of longest substring: {}", result);
    assert_eq!(result, 3); // "wke"
}

#[test]
fn test_longest_substring_4() {
    let s = "".to_string();
    let result = longest_substring_without_repeating_chars(s);
    println!("Length of longest substring: {}", result);
    assert_eq!(result, 0); // Empty string
}

#[test]
fn test_longest_substring_5() {
    let s = "abcde".to_string();
    let result = longest_substring_without_repeating_chars(s);
    println!("Length of longest substring: {}", result);
    assert_eq!(result, 5); // "abcde"
}

#[test]
fn longest_substring_counts_characters_not_bytes() {
    assert_eq!(longest_substring_without_repeating_chars("春节春节快乐".to_string()), 4);
    assert_eq!(longest_substring_without_repeating_chars("a".to_string()), 1);
    assert_eq!(longest_substring_without_repeating_chars("abba".to_string()), 2);
    assert_eq!(longest_substring_without_repeating_chars("dvdf".to_string()), 3);
    assert_eq!(longest_substring_without_repeating_chars("tmmzuxt".to_string()), 5);
}
