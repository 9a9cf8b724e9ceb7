use jiji::bot::{
    channel_list_packets, failed_request_packets, fetched_packets, help_reply, incoming_packets,
    Fetched, Incoming, MESSAGE_BATCH,
};
use jiji::client::Jiji;
use jiji::discord_structure::{Channel, Guild, Message};
use jiji::emoji_window::EmojiWindow;
use jiji::postman::Packet;
use jiji::state::AppState;

fn s(x: &str) -> String {
    x.to_string()
}

fn empty_state() -> AppState {
    AppState::default()
}

fn client() -> Jiji {
    Jiji::new(empty_state())
}

fn msg(id: &str, channel: &str, guild: &str, ts: &str) -> Message {
    Message::create(s(id), s(channel), s(guild), s("ann"), s("hi"), s(ts))
}

#[test]
fn default_state_is_empty() {
    let st = AppState::default();
    assert_eq!(st.bot_token, "");
    assert!(st.channels_to_notify.is_empty());
    assert!(st.dm_channels.is_empty());
}

#[test]
fn emoji_window_starts_closed() {
    assert!(!EmojiWindow::new().visible);
}

#[test]
fn new_client_holds_the_dm_guild() {
    let st = AppState {
        bot_token: s("token"),
        channels_to_notify: vec![s("11"), s("99")],
        dm_channels: vec![(s("11"), s("alice")), (s("22"), s("bob"))],
    };
    let j = Jiji::new(st);
    assert_eq!(j.bot_token, "token");
    assert_eq!(j.guilds.len(), 1);
    assert_eq!(j.guilds[0].id, "dm");
    assert_eq!(j.guilds[0].name, "dm");
    let names: Vec<&str> = j.guilds[0].channels.iter().map(|c| c.name.as_str()).collect();
    assert_eq!(names, vec!["bob", "alice"]);
    assert!(j.guilds[0].channels[1].notify);
    assert!(!j.guilds[0].channels[0].notify);
    assert_eq!(j.channels_to_notify, vec![s("99")]);
    assert_eq!(j.selected_guild, None);
    assert_eq!(j.selected_channel, None);
    assert_eq!(j.pending_bot_requests, 0);
    assert!(j.errors.is_empty());
}

#[test]
fn restart_keeps_direct_messages_and_notifications() {
    let st = AppState {
        bot_token: s("token"),
        channels_to_notify: vec![s("11"), s("99"), s("11")],
        dm_channels: vec![(s("11"), s("alice")), (s("22"), s("bob"))],
    };
    let saved = Jiji::new(st).save_state();
    assert_eq!(saved.bot_token, "token");
    let mut dms = saved.dm_channels.clone();
    dms.sort();
    assert_eq!(dms, vec![(s("11"), s("alice")), (s("22"), s("bob"))]);
    let mut ntf = saved.channels_to_notify.clone();
    ntf.sort();
    assert_eq!(ntf, vec![s("11"), s("11"), s("99")]);
}

#[test]
fn guild_packet_appends_guild() {
    let mut j = client();
    let n = j.handle_packet(Packet::Guild(Guild::create(s("G"), s("g1"))));
    assert!(n.is_empty());
    assert_eq!(j.guilds.len(), 2);
    assert_eq!(j.guilds[1].id, "g1");
}

#[test]
fn channel_packet_goes_to_its_guild_and_takes_notification() {
    let mut j = client();
    j.channels_to_notify = vec![s("c1")];
    j.handle_packet(Packet::Guild(Guild::create(s("G"), s("g1"))));
    j.handle_packet(Packet::Channel(Channel::create(s("general"), s("c1"), s("g1"))));
    assert_eq!(j.guilds[1].channels.len(), 1);
    assert!(j.guilds[1].channels[0].notify);
    assert!(j.channels_to_notify.is_empty());
    assert!(j.guilds[0].channels.is_empty());
}

#[test]
fn channel_packet_for_unknown_guild_is_dropped() {
    let mut j = client();
    j.handle_packet(Packet::Channel(Channel::create(s("general"), s("c1"), s("nowhere"))));
    assert_eq!(j.guilds.len(), 1);
    assert!(j.guilds[0].channels.is_empty());
}

#[test]
fn message_packet_lands_in_its_channel() {
    let mut j = client();
    j.handle_packet(Packet::Guild(Guild::create(s("G"), s("g1"))));
    j.handle_packet(Packet::Channel(Channel::create(s("general"), s("c1"), s("g1"))));
    let mut m = msg("5", "c1", "g1", "Wed, 18 Feb 2015 23:16:09 GMT");
    m.new();
    j.handle_packet(Packet::Message(m));
    assert_eq!(j.guilds[1].channels[0].messages.len(), 2);
    assert_eq!(j.guilds[1].channels[0].messages[1].id, "5");
    assert!(j.guilds[1].channels[0].unread);
    assert!(j.guilds[1].unread);
}

#[test]
fn message_packet_for_unknown_channel_creates_it() {
    let mut j = client();
    j.handle_packet(Packet::Guild(Guild::create(s("G"), s("g1"))));
    j.handle_packet(Packet::Message(msg("5", "c9", "g1", "Wed, 18 Feb 2015 23:16:09 GMT")));
    assert_eq!(j.guilds[1].channels.len(), 1);
    assert_eq!(j.guilds[1].channels[0].id, "c9");
    assert_eq!(j.guilds[1].channels[0].name, "c9");
    assert_eq!(j.guilds[1].channels[0].messages.len(), 2);
    assert!(!j.guilds[1].unread);
}

#[test]
fn message_packet_for_unknown_guild_is_dropped() {
    let mut j = client();
    j.handle_packet(Packet::Message(msg("5", "c9", "g7", "Wed, 18 Feb 2015 23:16:09 GMT")));
    assert_eq!(j.guilds.len(), 1);
    assert!(j.guilds[0].channels.is_empty());
}

#[test]
fn channel_end_packet_drops_placeholder() {
    let mut j = client();
    j.handle_packet(Packet::Guild(Guild::create(s("G"), s("g1"))));
    j.handle_packet(Packet::Channel(Channel::create(s("general"), s("c1"), s("g1"))));
    j.handle_packet(Packet::ChannelEnd(s("g1"), s("c1")));
    assert!(j.guilds[1].channels[0].messages.is_empty());
}

#[test]
fn error_and_finished_packets() {
    let mut j = client();
    j.handle_packet(Packet::Error(s("boom")));
    assert_eq!(j.errors, vec![s("boom")]);
    j.pending_bot_requests = 1;
    j.handle_packet(Packet::FinishedRequest);
    assert_eq!(j.pending_bot_requests, 0);
    j.handle_packet(Packet::FinishedRequest);
    assert_eq!(j.pending_bot_requests, 0);
    j.dismiss_error(0);
    assert!(j.errors.is_empty());
}

#[test]
fn requests_from_the_bot_are_ignored_by_the_client() {
    let mut j = client();
    j.handle_packet(Packet::FetchChannels(s("g1")));
    j.handle_packet(Packet::SendMessage(s("c1"), s("x")));
    j.handle_packet(Packet::FetchMessages(s("g1"), s("c1"), s("")));
    assert_eq!(j.guilds.len(), 1);
    assert_eq!(j.pending_bot_requests, 0);
}

#[test]
fn selecting_a_guild_asks_for_its_channels() {
    let mut j = client();
    j.handle_packet(Packet::Guild(Guild::create(s("G"), s("g1"))));
    match j.select_guild(Some(1)) {
        Some(Packet::FetchChannels(id)) => assert_eq!(id, "g1"),
        _ => panic!("expected a request for channels"),
    }
    assert_eq!(j.pending_bot_requests, 1);
    assert_eq!(j.selected_guild, Some(1));
    // the dm guild is never asked for
    assert!(j.select_guild(Some(0)).is_none());
    assert_eq!(j.pending_bot_requests, 1);
    assert!(j.select_guild(None).is_none());
    assert_eq!(j.selected_guild, None);
}

#[test]
fn selecting_a_channel_asks_for_messages_and_leaving_marks_read() {
    let mut j = client();
    j.handle_packet(Packet::Guild(Guild::create(s("G"), s("g1"))));
    j.handle_packet(Packet::Channel(Channel::create(s("general"), s("c1"), s("g1"))));
    assert!(j.select_guild(Some(1)).is_none());
    match j.select_channel(Some(0)) {
        Some(Packet::FetchMessages(g, c, first)) => {
            assert_eq!(g, "g1");
            assert_eq!(c, "c1");
            assert_eq!(first, "");
        }
        _ => panic!("expected a request for messages"),
    }
    assert_eq!(j.pending_bot_requests, 1);
    let mut m = msg("5", "c1", "g1", "Wed, 18 Feb 2015 23:16:09 GMT");
    m.new();
    j.handle_packet(Packet::Message(m));
    assert!(j.guilds[1].unread);
    assert!(j.select_channel(None).is_none());
    assert!(!j.guilds[1].channels[0].unread);
    assert!(!j.guilds[1].unread);
    assert_eq!(j.selected_channel, None);
}

#[test]
fn sending_clears_the_message() {
    let mut j = client();
    j.current_message = s("hello");
    assert!(j.send_current_message().is_none());
    j.handle_packet(Packet::Guild(Guild::create(s("G"), s("g1"))));
    j.handle_packet(Packet::Channel(Channel::create(s("general"), s("c1"), s("g1"))));
    j.select_guild(Some(1));
    j.select_channel(Some(0));
    match j.send_current_message() {
        Some(Packet::SendMessage(c, content)) => {
            assert_eq!(c, "c1");
            assert_eq!(content, "hello");
        }
        _ => panic!("expected a message to send"),
    }
    assert_eq!(j.current_message, "");
    assert!(j.send_current_message().is_none());
}

#[test]
fn older_messages_are_asked_before_the_first() {
    let mut j = client();
    j.handle_packet(Packet::Guild(Guild::create(s("G"), s("g1"))));
    j.handle_packet(Packet::Channel(Channel::create(s("general"), s("c1"), s("g1"))));
    j.select_guild(Some(1));
    j.select_channel(Some(0));
    let before = j.pending_bot_requests;
    assert!(j.request_older_messages().is_none());
    j.handle_packet(Packet::Message(msg("5", "c1", "g1", "Wed, 18 Feb 2015 23:16:09 GMT")));
    match j.request_older_messages() {
        Some(Packet::FetchMessages(g, c, first)) => {
            assert_eq!(g, "g1");
            assert_eq!(c, "c1");
            assert_eq!(first, "5");
        }
        _ => panic!("expected a request for older messages"),
    }
    assert_eq!(j.pending_bot_requests, before + 1);
}

#[test]
fn notify_toggle_and_feed_registration() {
    let mut j = client();
    j.handle_packet(Packet::Guild(Guild::create(s("G"), s("g1"))));
    j.handle_packet(Packet::Channel(Channel::create(s("general"), s("c1"), s("g1"))));
    j.select_guild(Some(1));
    j.select_channel(Some(0));
    j.set_notify(true);
    assert!(j.guilds[1].channels[0].notify);
    assert!(j.register_feed());
    assert_eq!(j.guilds[1].channels[0].registered_messages, 1);
    assert!(j.redraw);
    assert!(!j.register_feed());
    let saved = j.save_state();
    assert_eq!(saved.channels_to_notify, vec![s("c1")]);
}

#[test]
fn save_state_keeps_last_name_of_each_dm() {
    let mut j = client();
    j.handle_packet(Packet::Channel(Channel::create(s("alice"), s("11"), s("dm"))));
    j.guilds[0].channels.push(Channel::create(s("alicia"), s("11"), s("dm")));
    let saved = j.save_state();
    assert_eq!(saved.dm_channels, vec![(s("11"), s("alicia"))]);
}

#[test]
fn help_command_is_answered() {
    assert_eq!(
        help_reply("!penwing"),
        Some(s("Hello there, Human! I am a messenger for the wandering penwing."))
    );
    assert_eq!(help_reply("!penwing "), None);
    assert_eq!(help_reply("hello"), None);
}

#[test]
fn incoming_direct_message_announces_its_channel() {
    let packets = incoming_packets(Incoming {
        id: s("5"),
        channel_id: s("c1"),
        guild_id: None,
        author_name: s("ann"),
        content: s("hi"),
        timestamp: s("Wed, 18 Feb 2015 23:16:09 GMT"),
    });
    assert_eq!(packets.len(), 2);
    match &packets[0] {
        Packet::Channel(c) => {
            assert_eq!(c.name, "ann");
            assert_eq!(c.id, "c1");
            assert_eq!(c.guild_id, "dm");
        }
        _ => panic!("expected the channel first"),
    }
    match &packets[1] {
        Packet::Message(m) => {
            assert_eq!(m.guild_id, "dm");
            assert_eq!(m.new, "yes");
        }
        _ => panic!("expected the message"),
    }
}

#[test]
fn incoming_guild_message_is_one_packet() {
    let packets = incoming_packets(Incoming {
        id: s("5"),
        channel_id: s("c1"),
        guild_id: Some(s("g1")),
        author_name: s("ann"),
        content: s("hi"),
        timestamp: s("Wed, 18 Feb 2015 23:16:09 GMT"),
    });
    assert_eq!(packets.len(), 1);
    match &packets[0] {
        Packet::Message(m) => {
            assert_eq!(m.guild_id, "g1");
            assert_eq!(m.content, "hi");
            assert_eq!(m.new, "yes");
        }
        _ => panic!("expected the message"),
    }
}

#[test]
fn channel_list_keeps_text_channels() {
    let packets = channel_list_packets(
        &s("g1"),
        &vec![(s("1"), s("general"), true), (s("2"), s("voice"), false), (s("3"), s("news"), true)],
    );
    assert_eq!(packets.len(), 3);
    match (&packets[0], &packets[1], &packets[2]) {
        (Packet::Channel(a), Packet::Channel(b), Packet::FinishedRequest) => {
            assert_eq!(a.name, "general");
            assert_eq!(b.name, "news");
            assert_eq!(b.guild_id, "g1");
        }
        _ => panic!("unexpected packets"),
    }
}

#[test]
fn short_batch_ends_the_channel() {
    let batch = vec![Fetched { id: s("1"), author_name: s("a"), content: s("x"), timestamp: s("t") }];
    let packets = fetched_packets(&s("g1"), &s("c1"), batch);
    assert_eq!(packets.len(), 3);
    assert!(matches!(packets[1], Packet::ChannelEnd(_, _)));
    assert!(matches!(packets[2], Packet::FinishedRequest));
    match &packets[0] {
        Packet::Message(m) => {
            assert_eq!(m.id, "1");
            assert_eq!(m.channel_id, "c1");
            assert_eq!(m.new, "");
        }
        _ => panic!("expected the message"),
    }
}

#[test]
fn full_batch_does_not_end_the_channel() {
    let batch: Vec<Fetched> = (0..MESSAGE_BATCH)
        .map(|i| Fetched { id: i.to_string(), author_name: s("a"), content: s("x"), timestamp: s("t") })
        .collect();
    let packets = fetched_packets(&s("g1"), &s("c1"), batch);
    assert_eq!(packets.len(), MESSAGE_BATCH + 1);
    assert!(matches!(packets[MESSAGE_BATCH], Packet::FinishedRequest));
}

#[test]
fn failed_request_reports_and_finishes() {
    let packets = failed_request_packets(s("guild not found"));
    assert_eq!(packets.len(), 2);
    match &packets[0] {
        Packet::Error(r) => assert_eq!(r, "guild not found"),
        _ => panic!("expected the error"),
    }
    assert!(matches!(packets[1], Packet::FinishedRequest));
}

#[test]
fn packets_keep_the_selection_in_range() {
    let mut j = client();
    j.handle_packet(Packet::Guild(Guild::create(s("G"), s("g1"))));
    j.handle_packet(Packet::Channel(Channel::create(s("general"), s("c1"), s("g1"))));
    j.select_guild(Some(1));
    j.select_channel(Some(0));
    j.handle_packet(Packet::Channel(Channel::create(s("news"), s("c2"), s("g1"))));
    j.handle_packet(Packet::Message(msg("5", "c3", "g1", "Wed, 18 Feb 2015 23:16:09 GMT")));
    j.handle_packet(Packet::ChannelEnd(s("g1"), s("c2")));
    let g = j.selected_guild.unwrap();
    let c = j.selected_channel.unwrap();
    assert!(g < j.guilds.len());
    assert!(c < j.guilds[g].channels.len());
    assert!(j.accepts_packet(&Packet::ChannelEnd(s("g1"), s("c1"))));
    assert!(!j.accepts_packet(&Packet::ChannelEnd(s("g1"), s("c2"))));
}

#[test]
fn distinct_ids_check() {
    let mut st = AppState::default();
    st.dm_channels = vec![(s("1"), s("a")), (s("2"), s("b"))];
    assert!(st.has_distinct_ids());
    st.dm_channels.push((s("1"), s("c")));
    assert!(!st.has_distinct_ids());
}

#[test]
fn hex_colours() {
    assert_eq!(jiji::text::hex_str_to_rgb("#dd5d5a"), Some((0xdd, 0x5d, 0x5a)));
    assert_eq!(jiji::text::hex_str_to_rgb("#3399FF"), Some((0x33, 0x99, 0xff)));
    assert_eq!(jiji::text::hex_str_to_rgb("3399ff"), None);
    assert_eq!(jiji::text::hex_str_to_rgb("#3399fg"), None);
    assert_eq!(jiji::text::hex_str_to_rgb("#39f"), None);
}

#[test]
fn reload_keeps_direct_messages_that_arrived_while_running() {
    let mut j = client();
    j.handle_packet(Packet::Channel(Channel::create(s("alice"), s("11"), s("dm"))));
    j.handle_packet(Packet::Message(msg("5", "22", "dm", "Wed, 18 Feb 2015 23:16:09 GMT")));
    j.select_guild(Some(0));
    let idx = j.guilds[0].channels.iter().position(|c| c.id == "11").unwrap();
    j.select_channel(Some(idx));
    j.set_notify(true);
    j.bot_token = s("token");
    let again = Jiji::new(j.save_state());
    assert_eq!(again.bot_token, "token");
    assert_eq!(again.guilds.len(), 1);
    assert_eq!(again.guilds[0].id, "dm");
    let mut held: Vec<(String, String, bool)> = again.guilds[0]
        .channels
        .iter()
        .map(|c| (c.id.clone(), c.name.clone(), c.notify))
        .collect();
    held.sort();
    assert_eq!(held, vec![(s("11"), s("alice"), true), (s("22"), s("22"), false)]);
}

#[test]
fn token_edit_toggles() {
    let mut j = client();
    let before = j.edit_token;
    j.toggle_token_edit();
    assert_eq!(j.edit_token, !before);
    j.toggle_token_edit();
    assert_eq!(j.edit_token, before);
}
