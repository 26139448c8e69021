use helpers_lint::text::{is_control, is_whitespace};

#[test]
fn whitespace_and_control_agree_with_std_on_every_char() {
    for u in 0u32..=0x10FFFF {
        if let Some(c) = char::from_u32(u) {
            assert_eq!(is_whitespace(c), c.is_whitespace(), "U+{u:04X}");
            assert_eq!(is_control(c), c.is_control(), "U+{u:04X}");
        }
    }
}
