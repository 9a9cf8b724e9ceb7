//! The packets that the interface and the bot send each other.

use vstd::prelude::*;
use crate::discord_structure::{Guild, Channel, Message, GuildView, ChannelView, MessageView};

verus! {

/// A packet between the interface and the bot.
pub enum Packet {
    /// A guild the bot is in.
    Guild(Guild),
    /// Asks for the text channels of the guild with this id.
    FetchChannels(String),
    /// A channel of a guild, or a direct-message channel.
    Channel(Channel),
    /// A message of a channel.
    Message(Message),
    /// Asks for messages of a channel (guild id, channel id), older than the
    /// message with the third id, or the latest ones where it is empty.
    FetchMessages(String, String, String),
    /// Asks to post a message (channel id, content).
    SendMessage(String, String),
    /// No older messages are left in the channel (guild id, channel id).
    ChannelEnd(String, String),
    /// A request failed, for this reason.
    Error(String),
    /// A request is done.
    FinishedRequest,
}

/// What a packet holds.
pub enum PacketView {
    Guild(GuildView),
    FetchChannels(Seq<char>),
    Channel(ChannelView),
    Message(MessageView),
    FetchMessages(Seq<char>, Seq<char>, Seq<char>),
    SendMessage(Seq<char>, Seq<char>),
    ChannelEnd(Seq<char>, Seq<char>),
    Error(Seq<char>),
    FinishedRequest,
}

impl View for Packet {
    type V = PacketView;

    open spec fn view(&self) -> PacketView {
        match self {
            Packet::Guild(g) => PacketView::Guild(g@),
            Packet::FetchChannels(id) => PacketView::FetchChannels(id@),
            Packet::Channel(c) => PacketView::Channel(c@),
            Packet::Message(m) => PacketView::Message(m@),
            Packet::FetchMessages(g, c, m) => PacketView::FetchMessages(g@, c@, m@),
            Packet::SendMessage(c, m) => PacketView::SendMessage(c@, m@),
            Packet::ChannelEnd(g, c) => PacketView::ChannelEnd(g@, c@),
            Packet::Error(r) => PacketView::Error(r@),
            Packet::FinishedRequest => PacketView::FinishedRequest,
        }
    }
}

} // verus!
