use discogram::compose::{
    bot_message_author, poll_title, reply_suffix, telegram_message_text, telegram_quote_fallback,
};

#[test]
fn relayed_message_text() {
    assert_eq!(telegram_message_text("Ada", "hi <b>there</b>", false), "<b>Ada</b>\nhi <b>there</b>");
    assert_eq!(telegram_message_text("Ada", "fwd", true), "<b>Ada</b> (forwarded)\nfwd");
}

#[test]
fn quote_fallback_text() {
    assert_eq!(
        telegram_quote_fallback("Bo", "earlier", "<b>Ada</b>\nreply"),
        "<blockquote expandable><b>Bo</b>\nearlier</blockquote>\n<b>Ada</b>\nreply"
    );
}

#[test]
fn reply_markers() {
    assert_eq!(reply_suffix(false, None, "Bo"), "-# **replying to Bo**");
    assert_eq!(
        reply_suffix(true, Some("https://discord.com/channels/1/2/3"), "<@5>"),
        "-# **[quoting](https://discord.com/channels/1/2/3) <@5>**"
    );
}

#[test]
fn poll_titles() {
    assert_eq!(poll_title(true, true), "Quiz");
    assert_eq!(poll_title(false, false), "Poll (pick one)");
    assert_eq!(poll_title(false, true), "Poll (multiple)");
}

#[test]
fn author_of_relayed_message() {
    assert_eq!(bot_message_author("**Ada Lovelace**"), "Ada Lovelace");
    assert_eq!(bot_message_author("x **Bo** (forwarded)"), "Bo");
    assert_eq!(bot_message_author("**open ended"), "open ended");
    assert_eq!(bot_message_author("no bold"), "Unknown");
    assert_eq!(bot_message_author("*"), "Unknown");
}
