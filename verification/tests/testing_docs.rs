use rust_lessons::testing_docs::calculator::{add, divide, factorial, multiply, power, sqrt, subtract};
use rust_lessons::testing_docs::{calculator, validator, VERSION};
use rust_lessons::testing_docs::validator::{
    is_strong_password, is_valid_age, is_valid_email, is_valid_phone, is_valid_url, is_valid_username,
};

// ---- lib ----

#[test]
fn testing_docs_lib_test_version() {
    assert!(!VERSION.is_empty());
}

#[test]
fn test_modules_integration() {
    assert_eq!(calculator::add(2, 3), 5);
    assert_eq!(calculator::multiply(4, 5), 20);
    assert!(validator::is_valid_email("test@example.com"));
    assert!(validator::is_strong_password("Password123"));
}

// ---- calculator ----

#[test]
fn test_add_positive() {
    assert_eq!(add(2, 3), 5);
    assert_eq!(add(100, 200), 300);
}

#[test]
fn test_add_negative() {
    assert_eq!(add(-2, -3), -5);
    assert_eq!(add(-10, 5), -5);
}

#[test]
fn test_add_zero() {
    assert_eq!(add(0, 0), 0);
    assert_eq!(add(5, 0), 5);
}

#[test]
fn calculator_test_subtract() {
    assert_eq!(subtract(10, 3), 7);
    assert_eq!(subtract(0, 5), -5);
}

#[test]
fn calculator_test_multiply() {
    assert_eq!(multiply(4, 5), 20);
    assert_eq!(multiply(-2, 3), -6);
    assert_eq!(multiply(0, 100), 0);
}

#[test]
fn test_divide_normal() {
    assert_eq!(divide(10, 2), Some(5));
    assert_eq!(divide(15, 3), Some(5));
}

#[test]
fn test_divide_by_zero() {
    assert_eq!(divide(10, 0), None);
    assert_eq!(divide(0, 0), None);
}

#[test]
fn test_divide_negative() {
    assert_eq!(divide(-10, 2), Some(-5));
    assert_eq!(divide(10, -2), Some(-5));
}

#[test]
fn test_factorial_base_cases() {
    assert_eq!(factorial(0), 1);
    assert_eq!(factorial(1), 1);
}

#[test]
fn test_factorial_small_numbers() {
    assert_eq!(factorial(5), 120);
    assert_eq!(factorial(10), 3628800);
}

#[test]
fn calculator_test_power() {
    assert_eq!(power(2, 10), 1024);
    assert_eq!(power(5, 3), 125);
    assert_eq!(power(10, 0), 1);
}

#[test]
fn test_sqrt() {
    assert_eq!(sqrt(0), Some(0));
    assert_eq!(sqrt(1), Some(1));
    assert_eq!(sqrt(16), Some(4));
    assert_eq!(sqrt(100), Some(10));
    assert_eq!(sqrt(20), Some(4));
}

#[test]
fn test_add_commutative() {
    assert_eq!(add(3, 5), add(5, 3));
    assert_eq!(multiply(4, 7), multiply(7, 4));
}

#[test]
fn test_add_associative() {
    let a = 2;
    let b = 3;
    let c = 4;
    assert_eq!(add(add(a, b), c), add(a, add(b, c)));
}

#[test]
fn factorial_largest_input() {
    assert_eq!(factorial(20), 2432902008176640000);
}

#[test]
fn sqrt_large_values() {
    assert_eq!(sqrt(u64::MAX), Some(4294967295));
    assert_eq!(sqrt(99), Some(9));
    assert_eq!(sqrt(4294967296), Some(65536));
}

// ---- validator ----

#[test]
fn test_valid_emails() {
    assert!(is_valid_email("user@example.com"));
    assert!(is_valid_email("test.user@domain.co.uk"));
    assert!(is_valid_email("name+tag@company.org"));
}

#[test]
fn test_invalid_emails() {
    assert!(!is_valid_email("invalid"));
    assert!(!is_valid_email("@example.com"));
    assert!(!is_valid_email("user@"));
    assert!(!is_valid_email("user"));
}

#[test]
fn validator_test_edge_cases() {
    assert!(!is_valid_email(""));
    assert!(!is_valid_email("a@b.c"));
}

#[test]
fn test_strong_passwords() {
    assert!(is_strong_password("Password123"));
    assert!(is_strong_password("MyP@ssw0rd"));
    assert!(is_strong_password("Secure1234"));
}

#[test]
fn test_weak_passwords() {
    assert!(!is_strong_password("weak"));
    assert!(!is_strong_password("12345678"));
    assert!(!is_strong_password("password"));
    assert!(!is_strong_password("Pass1"));
}

#[test]
fn test_valid_ages() {
    assert!(is_valid_age(1));
    assert!(is_valid_age(25));
    assert!(is_valid_age(100));
}

#[test]
fn test_invalid_ages() {
    assert!(!is_valid_age(0));
    assert!(!is_valid_age(150));
    assert!(!is_valid_age(200));
}

#[test]
fn test_valid_usernames() {
    assert!(is_valid_username("alice"));
    assert!(is_valid_username("user123"));
    assert!(is_valid_username("test_user"));
    assert!(is_valid_username("User_Name_123"));
}

#[test]
fn test_invalid_usernames() {
    assert!(!is_valid_username("ab"));
    assert!(!is_valid_username("123user"));
    assert!(!is_valid_username("user-name"));
    assert!(!is_valid_username("a".repeat(21).as_str()));
}

#[test]
fn test_valid_urls() {
    assert!(is_valid_url("http://example.com"));
    assert!(is_valid_url("https://www.rust-lang.org"));
}

#[test]
fn test_invalid_urls() {
    assert!(!is_valid_url("ftp://example.com"));
    assert!(!is_valid_url("example.com"));
    assert!(!is_valid_url(""));
}

#[test]
fn test_valid_phones() {
    assert!(is_valid_phone("13812345678"));
    assert!(is_valid_phone("18900001111"));
}

#[test]
fn test_invalid_phones() {
    assert!(!is_valid_phone("123"));
    assert!(!is_valid_phone("1381234567"));
    assert!(!is_valid_phone("138123456789"));
    assert!(!is_valid_phone("1381234567a"));
}

#[test]
fn test_user_registration_data() {
    let username = "alice123";
    let email = "alice@example.com";
    let password = "SecurePass123";
    let age = 25;

    assert!(is_valid_username(username));
    assert!(is_valid_email(email));
    assert!(is_strong_password(password));
    assert!(is_valid_age(age));
}

#[test]
fn email_with_two_at_signs_is_invalid() {
    assert!(!is_valid_email("a@b@example.com"));
    assert!(!is_valid_email("user@examplecom"));
}

#[test]
fn username_byte_length_counts() {
    assert!(is_valid_username("abc"));
    assert!(is_valid_username("a_234567890123456789"));
    assert!(!is_valid_username("a_2345678901234567890"));
}

// ---- integration ----

#[test]
fn test_calculator_operations() {
    assert_eq!(calculator::add(10, 20), 30);
    assert_eq!(calculator::subtract(50, 30), 20);
    assert_eq!(calculator::multiply(6, 7), 42);
    assert_eq!(calculator::divide(100, 5), Some(20));
    assert_eq!(calculator::divide(10, 0), None);
}

#[test]
fn test_calculator_advanced() {
    assert_eq!(calculator::factorial(5), 120);
    assert_eq!(calculator::power(2, 10), 1024);
    assert_eq!(calculator::sqrt(16), Some(4));
}

#[test]
fn test_validator_email() {
    assert!(validator::is_valid_email("user@example.com"));
    assert!(validator::is_valid_email("test.user@domain.co.uk"));
    assert!(!validator::is_valid_email("invalid"));
    assert!(!validator::is_valid_email("@example.com"));
}

#[test]
fn test_validator_password() {
    assert!(validator::is_strong_password("Password123"));
    assert!(validator::is_strong_password("MySecure1Pass"));
    assert!(!validator::is_strong_password("weak"));
    assert!(!validator::is_strong_password("12345678"));
    assert!(!validator::is_strong_password("password"));
}

#[test]
fn test_validator_username() {
    assert!(validator::is_valid_username("alice"));
    assert!(validator::is_valid_username("user123"));
    assert!(validator::is_valid_username("test_user"));
    assert!(!validator::is_valid_username("ab"));
    assert!(!validator::is_valid_username("123user"));
}

#[test]
fn test_user_registration_workflow() {
    let username = "alice123";
    let email = "alice@example.com";
    let password = "SecurePass123";
    let age = 25;
    let phone = "13812345678";

    assert!(validator::is_valid_username(username), "用户名无效");
    assert!(validator::is_valid_email(email), "邮箱无效");
    assert!(validator::is_strong_password(password), "密码强度不足");
    assert!(validator::is_valid_age(age), "年龄无效");
    assert!(validator::is_valid_phone(phone), "手机号无效");
}

#[test]
fn test_calculator_with_validation() {
    let age = 25;
    assert!(validator::is_valid_age(age));
    let years_to_retirement = calculator::subtract(65, age as i64);
    assert_eq!(years_to_retirement, 40);
}

#[test]
fn integration_test_test_edge_cases() {
    assert_eq!(calculator::add(i64::MAX, 0), i64::MAX);
    assert_eq!(calculator::multiply(0, 1000000), 0);
    assert_eq!(calculator::factorial(0), 1);
    assert_eq!(calculator::sqrt(0), Some(0));
}

#[test]
fn username_length_counts_characters() {
    assert!(!is_valid_username("éé"));
    assert!(is_valid_username("ééé"));
    assert!(is_valid_username(&"é".repeat(20)));
    assert!(!is_valid_username(&"é".repeat(21)));
}
