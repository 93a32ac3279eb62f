use lntrn_compositor::keymap::build_unicode_keymap;

#[test]
fn keymap_one_key_per_scalar() {
    // 👍 is a single scalar (U+1F44D).
    let (km, codes) = build_unicode_keymap("👍").unwrap();
    assert_eq!(codes, vec![9]);
    assert!(km.contains("U1F44D"));
    assert!(km.contains("<K0> = 9;"));
}

#[test]
fn keymap_multi_scalar_grapheme() {
    // Family emoji = 4 people joined by ZWJ (U+200D) → 7 scalars.
    let (km, codes) = build_unicode_keymap("👨‍👩‍👧‍👦").unwrap();
    assert_eq!(codes.len(), 7);
    assert_eq!(codes, vec![9, 10, 11, 12, 13, 14, 15]);
    assert!(km.contains("U200D")); // the ZWJ joiners
    assert!(km.contains("maximum = 16;"));
}

#[test]
fn empty_is_none() {
    assert!(build_unicode_keymap("").is_none());
}

#[test]
fn keymap_full_text_for_ascii() {
    let (km, codes) = build_unicode_keymap("a").unwrap();
    assert_eq!(codes, vec![9]);
    let expected = "xkb_keymap {\nxkb_keycodes \"(lantern_emoji)\" {\n    minimum = 8;\n    maximum = 10;\n    <K0> = 9;\n};\nxkb_types \"(lantern_emoji)\" { include \"complete\" };\nxkb_compatibility \"(lantern_emoji)\" { include \"complete\" };\nxkb_symbols \"(lantern_emoji)\" {\n    key <K0> { [ U0061 ] };\n};\n};\n";
    assert_eq!(km, expected);
}

#[test]
fn keymap_pads_hex_and_counts_past_ten() {
    let text: String = std::iter::repeat('b').take(11).collect();
    let (km, codes) = build_unicode_keymap(&text).unwrap();
    assert_eq!(codes.len(), 11);
    assert_eq!(codes[10], 19);
    assert!(km.contains("    <K10> = 19;\n"));
    assert!(km.contains("key <K10> { [ U0062 ] };"));
    assert!(km.contains("maximum = 20;"));
}
