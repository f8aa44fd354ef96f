use xelis_stats::names::{channel_name, is_nameable, starts_with};

#[test]
fn builds_discord_channel_name() {
    assert_eq!(
        channel_name("Price:", "$1.2345".to_string()),
        "Price: $1.2345"
    );
}

#[test]
fn cuts_a_long_name_to_one_hundred_bytes() {
    let value = "x".repeat(200);
    let name = channel_name("Net Hash:", value.clone());
    assert_eq!(name.len(), 100);
    assert_eq!(name, format!("Net Hash: {}", "x".repeat(90)));
    assert!(starts_with(&name, "Net Hash:"));
}

#[test]
fn keeps_a_name_of_exactly_one_hundred_bytes() {
    let name = channel_name("Price:", "y".repeat(93));
    assert_eq!(name, format!("Price: {}", "y".repeat(93)));
    assert_eq!(channel_name("Price:", "y".repeat(94)), name);
}

#[test]
fn cuts_between_characters() {
    // "Price: " has seven bytes, and each of these characters three.
    let value = "\u{20ac}".repeat(40);
    assert!(is_nameable("Price:", &value));
    assert_eq!(channel_name("Price:", value), format!("Price: {}", "\u{20ac}".repeat(31)));
}

#[test]
fn a_character_across_the_limit_cannot_be_cut() {
    assert!(!is_nameable("Price:", &format!("a{}", "\u{20ac}".repeat(40))));
    assert!(is_nameable("Price:", &format!("a{}", "\u{20ac}".repeat(20))));
}

#[test]
fn prefixes() {
    assert!(starts_with("Price: $1", "Price:"));
    assert!(starts_with("Price:", "Price:"));
    assert!(starts_with("Price:", ""));
    assert!(!starts_with("Price", "Price:"));
    assert!(!starts_with("price: $1", "Price:"));
    assert!(!starts_with("", "P"));
    assert!(starts_with("\u{20ac}5", "\u{20ac}"));
}
