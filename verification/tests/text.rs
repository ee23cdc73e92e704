use planer::text::{contains_text, join, parse_entries};

fn strings(list: &[&str]) -> Vec<String> {
    list.iter().map(|s| s.to_string()).collect()
}

#[test]
fn entries_are_split_at_commas_and_line_breaks() {
    assert_eq!(parse_entries("bio,chem\nphysics"), strings(&["bio", "chem", "physics"]));
    assert_eq!(parse_entries("bio"), strings(&["bio"]));
}

#[test]
fn entries_lose_the_white_space_around_them() {
    assert_eq!(
        parse_entries("  bio ,\tchem lab\r\n\u{a0}physics\u{2003}"),
        strings(&["bio", "chem lab", "physics"])
    );
}

#[test]
fn empty_entries_are_left_out() {
    assert_eq!(parse_entries(""), Vec::<String>::new());
    assert_eq!(parse_entries(" \n , ,,"), Vec::<String>::new());
    assert_eq!(parse_entries(",bio,,chem,"), strings(&["bio", "chem"]));
    assert_eq!(parse_entries("ä,ö ü\n"), strings(&["ä", "ö ü"]));
}

#[test]
fn joining_puts_the_separator_between_neighbours() {
    assert_eq!(join(&strings(&[]), ", "), "");
    assert_eq!(join(&strings(&["a"]), ", "), "a");
    assert_eq!(join(&strings(&["a", "b", "c"]), ", "), "a, b, c");
    assert_eq!(join(&strings(&["", ""]), "-"), "-");
    assert_eq!(join(&strings(&["a", "b"]), ""), "ab");
}

#[test]
fn a_list_holds_a_text_only_in_full() {
    let list = strings(&["lab", "sink"]);
    assert!(contains_text(&list, &"lab".to_string()));
    assert!(contains_text(&list, &"sink".to_string()));
    assert!(!contains_text(&list, &"la".to_string()));
    assert!(!contains_text(&list, &"Lab".to_string()));
    assert!(!contains_text(&Vec::new(), &"".to_string()));
}

#[test]
fn white_space_is_what_the_standard_library_takes_for_it() {
    for code in 0..=0x10ffff_u32 {
        if let Some(c) = char::from_u32(code) {
            assert_eq!(planer::text::is_whitespace(c), c.is_whitespace(), "U+{code:04X}");
        }
    }
}

#[test]
fn entries_are_trimmed_as_the_standard_library_trims() {
    let text = "\u{2028} a b \u{3000},\u{85}c\u{1680}\n\u{200a}\u{205f}";
    let want: Vec<String> = text
        .replace('\n', ",")
        .split(',')
        .map(|entry| entry.trim().to_owned())
        .filter(|entry| !entry.is_empty())
        .collect();
    assert_eq!(parse_entries(text), want);
    assert_eq!(want, vec!["a b".to_string(), "c".to_string()]);
}
