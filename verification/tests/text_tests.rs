use small_tools::text::{api_key_from_text, rename_target};

#[test]
fn rename_matches_std_replace() {
    let cases = [
        ("photo_2020.jpg", "2020", "2021"),
        ("aaaa", "aa", "b"),
        ("abc", "", "x"),
        ("", "", "x"),
        ("", "a", "b"),
        ("report.txt", "zzz", "y"),
        ("ababab", "aba", "-"),
        ("héllo wörld", "ö", "o"),
    ];
    for (name, pattern, replacement) in cases {
        assert_eq!(rename_target(name, pattern, replacement), name.replace(pattern, replacement));
    }
    assert_eq!(rename_target("abc", "", "x"), "xaxbxcx");
}

#[test]
fn api_key_is_trimmed() {
    assert_eq!(api_key_from_text("  sk-abc123\n"), "sk-abc123");
    assert_eq!(api_key_from_text("\u{A0}\u{2003}key with space\r\n"), "key with space");
    assert_eq!(api_key_from_text(" \t\n"), "");
    assert_eq!(api_key_from_text("k"), "k");
}
