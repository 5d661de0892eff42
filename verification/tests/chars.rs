use veloct::chars::whitespace;

#[test]
fn whitespace_agrees_with_std_on_every_char() {
    for v in 0u32..=0x10FFFF {
        if let Some(c) = char::from_u32(v) {
            assert_eq!(whitespace(c), c.is_whitespace(), "U+{:04X}", v);
        }
    }
}
