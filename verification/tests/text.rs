use stm32_data_mcp::fmt_size;
use stm32_data_mcp::names::{contains_text, query_key, starts_with, str_lt};
use stm32_data_mcp::text::{join_strings, push_alt_hex, push_dec, push_dec_right};

#[test]
fn sizes_use_the_largest_whole_unit() {
    assert_eq!(fmt_size(0), "0B");
    assert_eq!(fmt_size(1023), "1023B");
    assert_eq!(fmt_size(1024), "1KB");
    assert_eq!(fmt_size(1536), "1KB");
    assert_eq!(fmt_size(1048575), "1023KB");
    assert_eq!(fmt_size(1048576), "1MB");
    assert_eq!(fmt_size(3 * 1048576 + 5), "3MB");
    assert_eq!(fmt_size(u32::MAX), "4095MB");
}

#[test]
fn decimal_and_hex_rendering_match_std_formatting() {
    for n in [0u64, 1, 9, 10, 99, 100, 12345, u64::MAX] {
        let mut s = String::new();
        push_dec(&mut s, n);
        assert_eq!(s, format!("{}", n));
        let mut h = String::new();
        push_alt_hex(&mut h, n, 10);
        assert_eq!(h, format!("{:#010x}", n));
        let mut h6 = String::new();
        push_alt_hex(&mut h6, n, 6);
        assert_eq!(h6, format!("{:#06x}", n));
        let mut r = String::new();
        push_dec_right(&mut r, n, 3);
        assert_eq!(r, format!("{:3}", n));
    }
    let mut h = String::from("x=");
    push_alt_hex(&mut h, 0xff, 4);
    assert_eq!(h, "x=0xff");
}

#[test]
fn queries_are_upper_cased() {
    assert_eq!(query_key("stm32f411ce"), "STM32F411CE");
    assert_eq!(query_key("Usart1"), "USART1");
    assert_eq!(query_key("straße"), "STRASSE");
}

#[test]
fn prefix_and_substring_tests() {
    assert!(starts_with("STM32F411CE", "STM32F4"));
    assert!(starts_with("STM32F4", "STM32F4"));
    assert!(!starts_with("STM32F4", "STM32F41"));
    assert!(starts_with("anything", ""));
    assert!(contains_text("FLASH_OTP", "OTP"));
    assert!(contains_text("OTP", "OTP"));
    assert!(!contains_text("FLASH", "OTP"));
    assert!(!contains_text("OT", "OTP"));
}

#[test]
fn lexicographic_order_is_that_of_strings() {
    let words = ["", "A", "AB", "B", "STM32F4", "STM32F411", "STM32G0", "a", "\u{e9}"];
    for x in words {
        for y in words {
            assert_eq!(str_lt(x, y), x < y, "{} {}", x, y);
        }
    }
}

#[test]
fn join_puts_separator_between_neighbours() {
    let v: Vec<String> = vec!["a".to_string(), "b".to_string(), "c".to_string()];
    assert_eq!(join_strings(&v, ", "), "a, b, c");
    assert_eq!(join_strings(&Vec::new(), ", "), "");
    assert_eq!(join_strings(&vec!["x".to_string()], "\n"), "x");
}
