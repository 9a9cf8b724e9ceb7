use jiji::discord_structure::{insertion_index, Channel, Guild, Message};
use jiji::text::parse_u64;
use jiji::time::{is_later, read_timestamp};

fn s(x: &str) -> String {
    x.to_string()
}

fn msg(id: &str, author: &str, ts: &str) -> Message {
    Message::create(s(id), s("c1"), s("g1"), s(author), s("hello"), s(ts))
}

#[test]
fn parse_u64_reads_digits() {
    assert_eq!(parse_u64("123"), Some(123));
    assert_eq!(parse_u64("+7"), Some(7));
    assert_eq!(parse_u64("0"), Some(0));
    assert_eq!(parse_u64("18446744073709551615"), Some(u64::MAX));
}

#[test]
fn parse_u64_refuses_other_text() {
    assert_eq!(parse_u64(""), None);
    assert_eq!(parse_u64("+"), None);
    assert_eq!(parse_u64("-1"), None);
    assert_eq!(parse_u64("12a"), None);
    assert_eq!(parse_u64("general"), None);
    assert_eq!(parse_u64("18446744073709551616"), None);
    assert_eq!(parse_u64("99999999999999999999x"), None);
}

#[test]
fn parse_u64_agrees_with_std() {
    for text in ["42", "+42", "", "+", "-0", "007", "4a", "184467440737095516150", " 1"] {
        assert_eq!(parse_u64(text), text.parse::<u64>().ok(), "text {:?}", text);
    }
}

#[test]
fn timestamps_read_as_instants() {
    let t = read_timestamp("Wed, 18 Feb 2015 23:16:09 GMT").unwrap();
    assert_eq!(t, (1424301369, 0));
    let u = read_timestamp("Wed, 18 Feb 2015 23:16:09 +0100").unwrap();
    assert_eq!(u, (1424301369 - 3600, 0));
    assert!(is_later(t, u));
    assert!(!is_later(u, t));
    assert!(!is_later(t, t));
}

#[test]
fn bad_timestamp_is_an_error() {
    assert!(read_timestamp("yesterday").is_err());
    assert!(read_timestamp("").is_err());
}

#[test]
fn message_create_and_mark_new() {
    let mut m = msg("5", "ann", "Wed, 18 Feb 2015 23:16:09 GMT");
    assert_eq!(m.new, "");
    assert_eq!(m.author_name, "ann");
    m.new();
    assert_eq!(m.new, "yes");
}

#[test]
fn channel_create_has_placeholder() {
    let c = Channel::create(s("general"), s("c1"), s("g1"));
    assert_eq!(c.messages.len(), 1);
    assert_eq!(c.messages[0].author_name, "+");
    assert_eq!(c.messages[0].id, "0");
    assert_eq!(c.messages[0].channel_id, "c1");
    assert_eq!(c.messages[0].guild_id, "g1");
    assert_eq!(c.messages[0].timestamp, "");
    assert!(!c.notify);
    assert!(!c.unread);
    assert_eq!(c.registered_messages, 0);
}

#[test]
fn insertion_index_after_last_earlier() {
    let stamps = vec![None, Some((10, 0)), Some((20, 0))];
    assert_eq!(insertion_index((15, 0), &stamps), 2);
    assert_eq!(insertion_index((25, 0), &stamps), 3);
    assert_eq!(insertion_index((5, 0), &stamps), 1);
    assert_eq!(insertion_index((10, 0), &stamps), 1);
    assert_eq!(insertion_index((10, 1), &stamps), 2);
    assert_eq!(insertion_index((1, 0), &vec![]), 0);
}

#[test]
fn insert_keeps_time_order() {
    let mut c = Channel::create(s("general"), s("c1"), s("g1"));
    c.insert(msg("2", "bob", "Wed, 18 Feb 2015 23:20:00 GMT"));
    c.insert(msg("1", "ann", "Wed, 18 Feb 2015 23:10:00 GMT"));
    c.insert(msg("3", "cid", "Wed, 18 Feb 2015 23:30:00 GMT"));
    let ids: Vec<&str> = c.messages.iter().map(|m| m.id.as_str()).collect();
    assert_eq!(ids, vec!["0", "1", "2", "3"]);
    assert!(!c.unread);
}

#[test]
fn insert_of_new_message_marks_unread() {
    let mut c = Channel::create(s("general"), s("c1"), s("g1"));
    let mut m = msg("2", "bob", "Wed, 18 Feb 2015 23:20:00 GMT");
    m.new();
    assert!(c.insert(m));
    assert!(c.unread);
}

#[test]
fn insert_with_bad_timestamp_goes_last() {
    let mut c = Channel::create(s("general"), s("c1"), s("g1"));
    c.insert(msg("2", "bob", "Wed, 18 Feb 2015 23:20:00 GMT"));
    c.insert(msg("9", "eve", "not a date"));
    c.insert(msg("1", "ann", "Wed, 18 Feb 2015 23:10:00 GMT"));
    let ids: Vec<&str> = c.messages.iter().map(|m| m.id.as_str()).collect();
    // once an unreadable timestamp is held, every message goes last
    assert_eq!(ids, vec!["0", "2", "9", "1"]);
}

#[test]
fn index_from_timestamp_errors() {
    let mut c = Channel::create(s("general"), s("c1"), s("g1"));
    assert!(c.get_index_from_timestamp("garbage").is_err());
    assert_eq!(c.get_index_from_timestamp("Wed, 18 Feb 2015 23:20:00 GMT").unwrap(), 1);
    c.messages.push(msg("9", "eve", "not a date"));
    assert!(c.get_index_from_timestamp("Wed, 18 Feb 2015 23:20:00 GMT").is_err());
}

#[test]
fn end_drops_only_the_placeholder() {
    let mut c = Channel::create(s("general"), s("c1"), s("g1"));
    c.insert(msg("2", "bob", "Wed, 18 Feb 2015 23:20:00 GMT"));
    c.end();
    assert_eq!(c.messages.len(), 1);
    assert_eq!(c.messages[0].id, "2");
    c.end();
    assert_eq!(c.messages.len(), 1);
}

#[test]
fn channel_display() {
    let mut c = Channel::create(s("general"), s("c1"), s("g1"));
    assert_eq!(c.display(), "general");
    c.unread = true;
    assert_eq!(c.display(), "~ general");
    c.notify = true;
    assert_eq!(c.display(), "~ general !");
    c.unread = false;
    assert_eq!(c.display(), "general !");
}

#[test]
fn guild_create_and_display() {
    let mut g = Guild::create(s("Rustaceans"), s("42"));
    assert!(g.channels.is_empty());
    assert_eq!(g.display(), "Rustaceans");
    g.unread = true;
    assert_eq!(g.display(), "~ Rustaceans");
}

#[test]
fn add_channel_puts_new_channels_first() {
    let mut g = Guild::create(s("G"), s("g1"));
    assert!(g.add_channel(Channel::create(s("a"), s("1"), s("g1"))).is_empty());
    assert!(g.add_channel(Channel::create(s("b"), s("2"), s("g1"))).is_empty());
    let names: Vec<&str> = g.channels.iter().map(|c| c.name.as_str()).collect();
    assert_eq!(names, vec!["b", "a"]);
}

#[test]
fn add_channel_renames_numeric_names_only() {
    let mut g = Guild::create(s("G"), s("g1"));
    g.add_channel(Channel::create(s("1234"), s("1234"), s("g1")));
    g.add_channel(Channel::create(s("alice"), s("1234"), s("g1")));
    assert_eq!(g.channels.len(), 1);
    assert_eq!(g.channels[0].name, "alice");
    g.add_channel(Channel::create(s("bob"), s("1234"), s("g1")));
    assert_eq!(g.channels[0].name, "alice");
}

#[test]
fn add_channel_turns_notify_on_with_notice() {
    let mut g = Guild::create(s("G"), s("g1"));
    g.add_channel(Channel::create(s("general"), s("1"), s("g1")));
    let mut fresh = Channel::create(s("general"), s("1"), s("g1"));
    fresh.notify = true;
    let notices = g.add_channel(fresh);
    assert!(g.channels[0].notify);
    assert_eq!(notices.len(), 1);
    assert_eq!(notices[0].summary, "+");
    assert_eq!(notices[0].body, "G - general");
    // already on: no second notice, and it stays on
    let mut again = Channel::create(s("general"), s("1"), s("g1"));
    again.notify = true;
    assert!(g.add_channel(again).is_empty());
    assert!(g.add_channel(Channel::create(s("general"), s("1"), s("g1"))).is_empty());
    assert!(g.channels[0].notify);
}

#[test]
fn add_channel_without_messages_raises_no_notice() {
    let mut g = Guild::create(s("G"), s("g1"));
    let mut c = Channel::create(s("general"), s("1"), s("g1"));
    c.end();
    g.add_channel(c);
    let mut fresh = Channel::create(s("general"), s("1"), s("g1"));
    fresh.notify = true;
    assert!(g.add_channel(fresh).is_empty());
    assert!(g.channels[0].notify);
}

#[test]
fn add_channel_twice_is_add_once() {
    let mut once = Guild::create(s("G"), s("g1"));
    once.add_channel(Channel::create(s("777"), s("777"), s("g1")));
    let mut twice = Guild::create(s("G"), s("g1"));
    twice.add_channel(Channel::create(s("777"), s("777"), s("g1")));
    once.add_channel(Channel::create(s("news"), s("777"), s("g1")));
    twice.add_channel(Channel::create(s("news"), s("777"), s("g1")));
    twice.add_channel(Channel::create(s("news"), s("777"), s("g1")));
    assert_eq!(once.channels.len(), twice.channels.len());
    assert_eq!(once.channels[0].name, twice.channels[0].name);
    assert_eq!(once.channels[0].notify, twice.channels[0].notify);
}

#[test]
fn check_unread_follows_channels() {
    let mut g = Guild::create(s("G"), s("g1"));
    g.add_channel(Channel::create(s("a"), s("1"), s("g1")));
    g.add_channel(Channel::create(s("b"), s("2"), s("g1")));
    g.unread = true;
    g.check_unread();
    assert!(!g.unread);
    g.channels[1].unread = true;
    g.check_unread();
    assert!(g.unread);
}

#[test]
fn insert_goes_before_messages_of_the_same_instant() {
    let mut c = Channel::create(s("general"), s("c1"), s("g1"));
    c.insert(msg("2", "bob", "Wed, 18 Feb 2015 23:20:00 GMT"));
    c.insert(msg("3", "cid", "Wed, 18 Feb 2015 23:20:00 GMT"));
    c.insert(msg("4", "dan", "Wed, 18 Feb 2015 23:20:00 +0000"));
    let ids: Vec<&str> = c.messages.iter().map(|m| m.id.as_str()).collect();
    assert_eq!(ids, vec!["0", "4", "3", "2"]);
}

#[test]
fn guild_clone_is_equal() {
    let mut g = Guild::create(s("G"), s("g1"));
    g.add_channel(Channel::create(s("general"), s("c1"), s("g1")));
    let h = g.clone();
    assert_eq!(h.name, g.name);
    assert_eq!(h.id, g.id);
    assert_eq!(h.channels.len(), g.channels.len());
    assert_eq!(h.channels[0].id, "c1");
}
