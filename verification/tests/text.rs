use agaric_blog::text::{int_to_text, nat_to_text, str_eq};

#[test]
fn decimal_text() {
    assert_eq!(nat_to_text(0), "0");
    assert_eq!(nat_to_text(1200), "1200");
    assert_eq!(int_to_text(-32768), "-32768");
    assert_eq!(int_to_text(i64::MIN), i64::MIN.to_string());
    assert!(str_eq("dev", "dev"));
    assert!(!str_eq("dev", "dev/"));
}
