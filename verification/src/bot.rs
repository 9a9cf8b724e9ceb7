//! What the bot sends the interface for what Discord tells it.

use vstd::prelude::*;
use vstd::string::*;
use crate::discord_structure::{Channel, Message, MessageView, ChannelView, new_channel, new_mark};
use crate::postman::{Packet, PacketView};

verus! {

/// How many messages the bot asks Discord for at a time.
pub const MESSAGE_BATCH: usize = 25;

/// The command the bot answers in a channel.
pub open spec fn help_command() -> Seq<char> {
    "!penwing"@
}

/// The bot's answer to its command.
pub open spec fn help_message() -> Seq<char> {
    "Hello there, Human! I am a messenger for the wandering penwing."@
}

/// The bot's answer to a message with this content: its greeting where the
/// message is its command.
pub fn help_reply(content: &str) -> (res: Option<String>)
    ensures
        res is Some <==> content@ == help_command(),
        res matches Some(r) ==> r@ == help_message(),
{
    if String::from_str(content) == String::from_str("!penwing") {
        Some(String::from_str("Hello there, Human! I am a messenger for the wandering penwing."))
    } else {
        None
    }
}

/// A message as Discord reports it: id, channel id, guild id (none in a
/// direct message), author name, content and RFC 2822 timestamp.
pub struct Incoming {
    pub id: String,
    pub channel_id: String,
    pub guild_id: Option<String>,
    pub author_name: String,
    pub content: String,
    pub timestamp: String,
}

/// The packets for a message that arrives while the client runs: in a direct
/// message, first the direct-message channel named after the author; then
/// the message, marked new, in guild `dm` for a direct message.
pub open spec fn incoming_packets_spec(
    id: Seq<char>,
    channel_id: Seq<char>,
    guild_id: Option<Seq<char>>,
    author_name: Seq<char>,
    content: Seq<char>,
    timestamp: Seq<char>,
) -> Seq<PacketView> {
    let gid = match guild_id {
        Some(g) => g,
        None => seq!['d', 'm'],
    };
    let message = PacketView::Message(
        MessageView {
            id,
            channel_id,
            guild_id: gid,
            author_name,
            content,
            timestamp,
            new: new_mark(),
        },
    );
    match guild_id {
        Some(_) => seq![message],
        None => seq![PacketView::Channel(new_channel(author_name, channel_id, gid)), message],
    }
}

/// The text of an optional string.
pub open spec fn opt_view(o: Option<String>) -> Option<Seq<char>> {
    match o {
        Some(s) => Some(s@),
        None => None,
    }
}

/// The packets for a message that arrives while the client runs.
pub fn incoming_packets(incoming: Incoming) -> (res: Vec<Packet>)
    ensures
        res@.map_values(|p: Packet| p@) == incoming_packets_spec(
            incoming.id@,
            incoming.channel_id@,
            opt_view(incoming.guild_id),
            incoming.author_name@,
            incoming.content@,
            incoming.timestamp@,
        ),
{
    let ghost gv = opt_view(incoming.guild_id);
    let ghost spec_res = incoming_packets_spec(
        incoming.id@,
        incoming.channel_id@,
        gv,
        incoming.author_name@,
        incoming.content@,
        incoming.timestamp@,
    );
    let Incoming { id, channel_id, guild_id, author_name, content, timestamp } = incoming;
    let mut res: Vec<Packet> = Vec::new();
    let gid = match guild_id {
        Some(g) => g,
        None => {
            let dm = String::from_str("dm");
            proof {
                reveal_strlit("dm");
                assert("dm"@ =~= seq!['d', 'm']);
            }
            let private_channel = Channel::create(author_name.clone(), channel_id.clone(), dm.clone());
            res.push(Packet::Channel(private_channel));
            dm
        },
    };
    let mut message = Message::create(id, channel_id, gid, author_name, content, timestamp);
    message.new();
    res.push(Packet::Message(message));
    assert(res@.map_values(|p: Packet| p@) =~= spec_res);
    res
}

/// The packets for the channels of a guild that the bot fetched, given as
/// id, name, and whether it is a text channel: the text channels, in order,
/// then the end of the request.
pub open spec fn channel_list_spec(guild_id: Seq<char>, channels: Seq<(Seq<char>, Seq<char>, bool)>) -> Seq<PacketView> {
    channels.filter(|c: (Seq<char>, Seq<char>, bool)| c.2).map_values(
        |c: (Seq<char>, Seq<char>, bool)| PacketView::Channel(new_channel(c.1, c.0, guild_id)),
    ) + seq![PacketView::FinishedRequest]
}

/// The packets for the channels of a guild that the bot fetched.
pub fn channel_list_packets(guild_id: &String, channels: &Vec<(String, String, bool)>) -> (res: Vec<Packet>)
    ensures
        res@.map_values(|p: Packet| p@) == channel_list_spec(
            guild_id@,
            channels@.map_values(|c: (String, String, bool)| (c.0@, c.1@, c.2)),
        ),
{
    let ghost views = channels@.map_values(|c: (String, String, bool)| (c.0@, c.1@, c.2));
    let ghost text = |c: (Seq<char>, Seq<char>, bool)| c.2;
    let ghost packet_of = |c: (Seq<char>, Seq<char>, bool)| PacketView::Channel(new_channel(c.1, c.0, guild_id@));
    let mut res: Vec<Packet> = Vec::new();
    let mut i: usize = 0;
    proof {
        reveal_with_fuel(Seq::<(Seq<char>, Seq<char>, bool)>::filter, 1);
    }
    assert(res@.map_values(|p: Packet| p@) =~= views.take(0).filter(text).map_values(packet_of));
    while i < channels.len()
        invariant
            i <= channels.len(),
            views == channels@.map_values(|c: (String, String, bool)| (c.0@, c.1@, c.2)),
            text == (|c: (Seq<char>, Seq<char>, bool)| c.2),
            packet_of == (|c: (Seq<char>, Seq<char>, bool)| PacketView::Channel(new_channel(c.1, c.0, guild_id@))),
            res@.map_values(|p: Packet| p@) == views.take(i as int).filter(text).map_values(packet_of),
        decreases channels.len() - i,
    {
        proof {
            reveal_with_fuel(Seq::<(Seq<char>, Seq<char>, bool)>::filter, 1);
        }
        assert(views.take(i + 1).drop_last() =~= views.take(i as int));
        assert(views.take(i + 1).last() == views[i as int]);
        let ghost before = res@.map_values(|p: Packet| p@);
        if channels[i].2 {
            let channel = Channel::create(channels[i].1.clone(), channels[i].0.clone(), guild_id.clone());
            assert(packet_of(views[i as int]) == PacketView::Channel(channel@));
            res.push(Packet::Channel(channel));
            assert(res@.map_values(|p: Packet| p@) =~= before.push(packet_of(views[i as int])));
            assert(views.take(i + 1).filter(text) == views.take(i as int).filter(text).push(views[i as int]));
            assert(res@.map_values(|p: Packet| p@) =~= views.take(i + 1).filter(text).map_values(packet_of));
        } else {
            assert(views.take(i + 1).filter(text) == views.take(i as int).filter(text));
        }
        i = i + 1;
    }
    assert(views.take(channels.len() as int) =~= views);
    let ghost before = res@.map_values(|p: Packet| p@);
    res.push(Packet::FinishedRequest);
    assert(res@.map_values(|p: Packet| p@) =~= before.push(PacketView::FinishedRequest));
    assert(views.filter(text) == views.filter(|c: (Seq<char>, Seq<char>, bool)| c.2));
    assert(res@.map_values(|p: Packet| p@) =~= channel_list_spec(guild_id@, views));
    res
}

/// A message the bot fetched: id, author name, content, RFC 2822 timestamp.
pub struct Fetched {
    pub id: String,
    pub author_name: String,
    pub content: String,
    pub timestamp: String,
}

/// The packets for a batch of messages the bot fetched from a channel: each
/// message, in order; the end of the channel where the batch is short; then
/// the end of the request.
pub open spec fn fetched_spec(guild_id: Seq<char>, channel_id: Seq<char>, messages: Seq<(Seq<char>, Seq<char>, Seq<char>, Seq<char>)>) -> Seq<PacketView> {
    messages.map_values(
        |m: (Seq<char>, Seq<char>, Seq<char>, Seq<char>)|
            PacketView::Message(
                MessageView {
                    id: m.0,
                    channel_id,
                    guild_id,
                    author_name: m.1,
                    content: m.2,
                    timestamp: m.3,
                    new: Seq::empty(),
                },
            ),
    ) + (if messages.len() < MESSAGE_BATCH {
        seq![PacketView::ChannelEnd(guild_id, channel_id)]
    } else {
        Seq::empty()
    }) + seq![PacketView::FinishedRequest]
}

/// The view of a fetched message.
pub open spec fn fetched_view(m: Fetched) -> (Seq<char>, Seq<char>, Seq<char>, Seq<char>) {
    (m.id@, m.author_name@, m.content@, m.timestamp@)
}

/// The packets for a batch of messages the bot fetched from a channel.
pub fn fetched_packets(guild_id: &String, channel_id: &String, messages: Vec<Fetched>) -> (res: Vec<Packet>)
    ensures
        res@.map_values(|p: Packet| p@) == fetched_spec(
            guild_id@,
            channel_id@,
            messages@.map_values(|m: Fetched| fetched_view(m)),
        ),
{
    let ghost views = messages@.map_values(|m: Fetched| fetched_view(m));
    let ghost msgs = views.map_values(
        |m: (Seq<char>, Seq<char>, Seq<char>, Seq<char>)|
            PacketView::Message(
                MessageView {
                    id: m.0,
                    channel_id: channel_id@,
                    guild_id: guild_id@,
                    author_name: m.1,
                    content: m.2,
                    timestamp: m.3,
                    new: Seq::empty(),
                },
            ),
    );
    let mut res: Vec<Packet> = Vec::new();
    let mut i: usize = 0;
    while i < messages.len()
        invariant
            i <= messages.len(),
            views == messages@.map_values(|m: Fetched| fetched_view(m)),
            msgs.len() == views.len(),
            forall|j: int| 0 <= j < views.len() ==> #[trigger] msgs[j] == PacketView::Message(
                MessageView {
                    id: views[j].0,
                    channel_id: channel_id@,
                    guild_id: guild_id@,
                    author_name: views[j].1,
                    content: views[j].2,
                    timestamp: views[j].3,
                    new: Seq::empty(),
                },
            ),
            res@.map_values(|p: Packet| p@) == msgs.take(i as int),
        decreases messages.len() - i,
    {
        let ghost before = res@.map_values(|p: Packet| p@);
        let m = Message::create(
            messages[i].id.clone(),
            channel_id.clone(),
            guild_id.clone(),
            messages[i].author_name.clone(),
            messages[i].content.clone(),
            messages[i].timestamp.clone(),
        );
        assert(views[i as int] == fetched_view(messages@[i as int]));
        assert(msgs[i as int] == PacketView::Message(m@));
        res.push(Packet::Message(m));
        assert(res@.map_values(|p: Packet| p@) =~= before.push(PacketView::Message(m@)));
        assert(msgs.take(i + 1) =~= msgs.take(i as int).push(msgs[i as int]));
        assert(res@.map_values(|p: Packet| p@) =~= msgs.take(i + 1));
        i = i + 1;
    }
    assert(msgs.take(messages.len() as int) =~= msgs);
    let ghost body = res@.map_values(|p: Packet| p@);
    if messages.len() < MESSAGE_BATCH {
        res.push(Packet::ChannelEnd(guild_id.clone(), channel_id.clone()));
    }
    let ghost middle = res@.map_values(|p: Packet| p@);
    assert(middle =~= body + (if messages.len() < MESSAGE_BATCH {
        seq![PacketView::ChannelEnd(guild_id@, channel_id@)]
    } else {
        Seq::empty()
    }));
    res.push(Packet::FinishedRequest);
    assert(res@.map_values(|p: Packet| p@) =~= middle + seq![PacketView::FinishedRequest]);
    res
}

/// The packets for a request that failed: the reason, then the end of the
/// request.
pub fn failed_request_packets(reason: String) -> (res: Vec<Packet>)
    ensures
        res@.map_values(|p: Packet| p@) == seq![PacketView::Error(reason@), PacketView::FinishedRequest],
{
    let ghost r = reason@;
    let mut res: Vec<Packet> = Vec::new();
    res.push(Packet::Error(reason));
    res.push(Packet::FinishedRequest);
    assert(res@.map_values(|p: Packet| p@) =~= seq![PacketView::Error(r), PacketView::FinishedRequest]);
    res
}

} // verus!
