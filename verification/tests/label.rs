use poi_catalog::label::{make_label, truncate_label, LABEL_WIDTH};

#[test]
fn short_name_is_kept() {
    assert_eq!(truncate_label("Cafe"), "Cafe");
    assert_eq!(truncate_label(""), "");
}

#[test]
fn name_of_exactly_the_width_is_kept() {
    let name = "0123456789012345678901234567890";
    assert_eq!(name.len(), LABEL_WIDTH);
    assert_eq!(truncate_label(name), name);
}

#[test]
fn long_ascii_name_is_cut_to_the_width() {
    let name = "0123456789012345678901234567890123456789";
    let label = truncate_label(name);
    assert_eq!(label, "0123456789012345678901234567890");
    assert_eq!(label.len(), 31);
}

#[test]
fn two_byte_character_is_not_split() {
    let name = format!("{}{}", "a".repeat(30), "\u{e9}");
    assert_eq!(name.len(), 32);
    assert_eq!(truncate_label(&name), "a".repeat(30));
}

#[test]
fn three_byte_character_is_not_split() {
    let name = format!("{}{}", "a".repeat(29), "\u{20ac}");
    assert_eq!(name.len(), 32);
    assert_eq!(truncate_label(&name), "a".repeat(29));
    let name = format!("{}{}", "a".repeat(30), "\u{20ac}");
    assert_eq!(truncate_label(&name), "a".repeat(30));
}

#[test]
fn four_byte_character_is_not_split() {
    let name = format!("{}{}", "a".repeat(28), "\u{1f600}");
    assert_eq!(name.len(), 32);
    assert_eq!(truncate_label(&name), "a".repeat(28));
    let name = format!("{}{}", "a".repeat(30), "\u{1f600}");
    assert_eq!(truncate_label(&name), "a".repeat(30));
}

#[test]
fn character_that_ends_at_the_width_is_kept() {
    let name = format!("{}{}xyz", "a".repeat(29), "\u{e9}");
    let label = truncate_label(&name);
    assert_eq!(label, format!("{}{}", "a".repeat(29), "\u{e9}"));
    assert_eq!(label.len(), 31);
    let name = format!("{}{}{}", "a".repeat(27), "\u{1f600}", "\u{1f600}");
    let label = truncate_label(&name);
    assert_eq!(label, format!("{}{}", "a".repeat(27), "\u{1f600}"));
    assert_eq!(label.len(), 31);
}

#[test]
fn name_of_wide_characters_only() {
    let name = "\u{1f600}".repeat(10);
    let label = truncate_label(&name);
    assert_eq!(label, "\u{1f600}".repeat(7));
    assert_eq!(label.len(), 28);
    assert!(name.starts_with(&label));
}

#[test]
fn missing_name_gives_the_empty_label() {
    assert_eq!(make_label(&None), "");
}

#[test]
fn present_name_gives_its_truncation() {
    assert_eq!(make_label(&Some("Summit".to_string())), "Summit");
    assert_eq!(make_label(&Some(String::new())), "");
    assert_eq!(make_label(&Some("b".repeat(100))), "b".repeat(31));
}
