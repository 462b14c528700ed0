use metrics_rs::text::{render_decimal, str_less, with_suffix};

#[test]
fn strings_are_ordered_by_their_bytes() {
    assert!(str_less("a", "b"));
    assert!(!str_less("b", "a"));
    assert!(!str_less("a", "a"));
    assert!(str_less("", "a"));
    assert!(!str_less("", ""));
    assert!(str_less("a", "ab"));
    assert!(!str_less("ab", "a"));
    assert!(str_less("ab", "b"));
    assert!(str_less("Z", "a"));
    assert!(str_less("10", "9"));
}

#[test]
fn the_order_of_strings_is_that_of_std() {
    let words = ["", "a", "ab", "b", "z", "\u{e9}", "\u{4e2d}", "zz", "A", "0", "\u{1f600}"];
    for x in words.iter() {
        for y in words.iter() {
            assert_eq!(str_less(x, y), x < y);
        }
    }
}

#[test]
fn numbers_are_written_in_decimal() {
    assert_eq!(render_decimal(0), "0");
    assert_eq!(render_decimal(7), "7");
    assert_eq!(render_decimal(10), "10");
    assert_eq!(render_decimal(2500), "2500");
    assert_eq!(render_decimal(1234567890), "1234567890");
    assert_eq!(render_decimal(u64::MAX), "18446744073709551615");
}

#[test]
fn a_suffix_goes_after_the_name() {
    assert_eq!(with_suffix(&"latency".to_string(), "_bucket"), "latency_bucket");
    assert_eq!(with_suffix(&String::new(), "_sum"), "_sum");
}
