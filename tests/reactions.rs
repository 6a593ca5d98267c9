use discogram::reactions::{
    format_discord_reaction_message, format_telegram_reaction_message,
    parse_discord_reaction_message, parse_telegram_reaction_message, ReactionTable,
};

fn entry(user: &str, emojis: &[&str]) -> (String, Vec<String>) {
    (user.to_string(), emojis.iter().map(|e| e.to_string()).collect())
}

#[test]
fn telegram_summary_parses() {
    let table = parse_telegram_reaction_message("<b>Reactions</b>\n<b>Alice</b>: 👍, ❤️\n<b>Carol</b>:  😂 ");
    assert_eq!(table, vec![entry("Alice", &["👍", "❤️"]), entry("Carol", &["😂"])]);
}

#[test]
fn discord_summary_parses() {
    let table = parse_discord_reaction_message("**Reactions**\r\n**Alice**: 👍\r\n__Dan__: 🎉,🔥\nno colon here");
    assert_eq!(table, vec![entry("Alice", &["👍"]), entry("Dan", &["🎉", "🔥"])]);
}

#[test]
fn later_line_of_a_user_wins() {
    let table = parse_discord_reaction_message("**Reactions**\n**A**: 1\n**B**: 2\n**A**: 3");
    assert_eq!(table, vec![entry("A", &["3"]), entry("B", &["2"])]);
}

#[test]
fn header_alone_is_empty() {
    assert_eq!(parse_telegram_reaction_message("<b>Reactions</b>"), Vec::new());
    assert_eq!(parse_telegram_reaction_message(""), Vec::new());
}

#[test]
fn summaries_format() {
    let table: ReactionTable = vec![entry("Alice", &["👍", "❤️"]), entry("Bob", &[]), entry("Carol", &["😂"])];
    assert_eq!(
        format_telegram_reaction_message(&table),
        "<b>Reactions</b>\n<b>Alice</b>: 👍, ❤️\n<b>Carol</b>: 😂"
    );
    assert_eq!(
        format_discord_reaction_message(&table),
        "**Reactions**\n**Alice**: 👍, ❤️\n**Carol**: 😂"
    );
    assert_eq!(format_discord_reaction_message(&Vec::new()), "**Reactions**");
}

#[test]
fn summary_round_trips() {
    let table: ReactionTable = vec![entry("Alice", &["👍", "❤️"]), entry("Carol", &["😂"])];
    assert_eq!(parse_discord_reaction_message(&format_discord_reaction_message(&table)), table);
    assert_eq!(parse_telegram_reaction_message(&format_telegram_reaction_message(&table)), table);
}
