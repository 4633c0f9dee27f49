use tvfile::int_string;
use tvfile::record_line;

#[test]
fn test_int_string_values() {
    assert_eq!(int_string(0), "0");
    assert_eq!(int_string(7), "7");
    assert_eq!(int_string(82), "82");
    assert_eq!(int_string(-1), "-1");
    assert_eq!(int_string(2147483647), "2147483647");
    assert_eq!(int_string(-2147483648), "-2147483648");
}

#[test]
fn test_record_line_negative_id() {
    assert_eq!(record_line(-3, "Odd", "1999-12-31"), "-3, Odd, 1999-12-31\n");
}
