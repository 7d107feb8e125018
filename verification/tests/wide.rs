use unreal_shimloader::wide::{path_to_widestring, pcwstr_to_path};

#[test]
fn test_path_to_widestring_roundtrip() {
    let original = "C:\\Game\\Mods\\test.lua";
    let wide = path_to_widestring(original);
    let back = widestring::U16CStr::from_slice(&wide).unwrap().to_string().unwrap();
    assert_eq!(back, "C:\\Game\\Mods\\test.lua");
}

#[test]
fn encoding_ends_in_one_zero() {
    let wide = path_to_widestring("ab");
    assert_eq!(wide, vec![0x61u16, 0x62, 0]);
    let empty = path_to_widestring("");
    assert_eq!(empty, vec![0u16]);
}

#[test]
fn encoding_writes_surrogate_pairs() {
    let wide = path_to_widestring("a\u{1F600}");
    assert_eq!(wide, vec![0x61u16, 0xD83D, 0xDE00, 0]);
    let top = path_to_widestring("\u{10FFFF}\u{FFFF}\u{10000}");
    assert_eq!(top, vec![0xDBFFu16, 0xDFFF, 0xFFFF, 0xD800, 0xDC00, 0]);
}

#[test]
fn encoding_refuses_a_zero_inside() {
    let wide = path_to_widestring("a\u{0}b");
    assert_eq!(wide, vec![0u16]);
    let trailing = path_to_widestring("ab\u{0}");
    assert_eq!(trailing, vec![0x61u16, 0x62, 0]);
}

#[test]
fn decoding_reads_up_to_the_first_zero() {
    let wide: Vec<u16> = vec![0x43, 0x3A, 0x5C, 0x41, 0, 0x42, 0];
    let path = pcwstr_to_path(&wide);
    assert_eq!(path.original(), "C:\\A");
    assert_eq!(path.inner(), "c:\\a");
}

#[test]
fn decoding_without_a_zero_reads_everything() {
    let wide: Vec<u16> = vec![0x61, 0x5C, 0x62];
    let path = pcwstr_to_path(&wide);
    assert_eq!(path.original(), "a\\b");
}

#[test]
fn decoding_pairs_surrogates() {
    let wide: Vec<u16> = vec![0x61, 0xD83D, 0xDE00, 0];
    let path = pcwstr_to_path(&wide);
    assert_eq!(path.original(), "a\u{1F600}");
}

#[test]
fn decoding_invalid_text_gives_the_empty_path() {
    let lone_high: Vec<u16> = vec![0x61, 0xD800, 0x62, 0];
    assert_eq!(pcwstr_to_path(&lone_high).original(), ".");
    let lone_low: Vec<u16> = vec![0xDC00, 0];
    assert_eq!(pcwstr_to_path(&lone_low).inner(), ".");
    let high_at_end: Vec<u16> = vec![0x61, 0xDBFF];
    assert_eq!(pcwstr_to_path(&high_at_end).inner(), ".");
}

#[test]
fn empty_wide_string_decodes_to_dot() {
    let wide: Vec<u16> = vec![0];
    let path = pcwstr_to_path(&wide);
    assert_eq!(path.inner(), ".");
    assert_eq!(path.original(), ".");
    let none: Vec<u16> = Vec::new();
    assert_eq!(pcwstr_to_path(&none).inner(), ".");
}

#[test]
fn encode_then_decode_keeps_the_compared_form() {
    let path = unreal_shimloader::NormalizedPath::new("C:\\Game\\..\\Game\\Mods\\\u{C9}t\u{E9}.lua");
    let wide = path_to_widestring(path.original());
    let back = pcwstr_to_path(&wide);
    assert_eq!(back.inner(), path.inner());
    assert_eq!(back, path);
}
