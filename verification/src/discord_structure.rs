//! Guilds, channels and messages as the client holds them.

use vstd::prelude::*;
use vstd::string::*;
use crate::text::{parse_u64, parses_as_u64};
use crate::time::{Instant, later, rfc2822_instant, read_timestamp, TimestampError, is_later};

verus! {

/// A message of a channel.
pub struct Message {
    pub id: String,
    pub channel_id: String,
    pub guild_id: String,
    pub author_name: String,
    pub content: String,
    /// RFC 2822 date of the message; empty for the placeholder of older messages.
    pub timestamp: String,
    /// Not empty for a message that arrived while the client ran.
    pub new: String,
}

/// What a message holds, as text.
pub struct MessageView {
    pub id: Seq<char>,
    pub channel_id: Seq<char>,
    pub guild_id: Seq<char>,
    pub author_name: Seq<char>,
    pub content: Seq<char>,
    pub timestamp: Seq<char>,
    pub new: Seq<char>,
}

impl View for Message {
    type V = MessageView;

    open spec fn view(&self) -> MessageView {
        MessageView {
            id: self.id@,
            channel_id: self.channel_id@,
            guild_id: self.guild_id@,
            author_name: self.author_name@,
            content: self.content@,
            timestamp: self.timestamp@,
            new: self.new@,
        }
    }
}

impl Clone for Message {
    fn clone(&self) -> (res: Self)
        ensures
            res == *self,
    {
        Message {
            id: self.id.clone(),
            channel_id: self.channel_id.clone(),
            guild_id: self.guild_id.clone(),
            author_name: self.author_name.clone(),
            content: self.content.clone(),
            timestamp: self.timestamp.clone(),
            new: self.new.clone(),
        }
    }
}

/// The mark of a message that arrived while the client ran.
pub open spec fn new_mark() -> Seq<char> {
    seq!['y', 'e', 's']
}

/// The author name of the placeholder that stands for older messages.
pub open spec fn more_mark() -> Seq<char> {
    seq!['+']
}

impl Message {
    pub fn create(
        id: String,
        channel_id: String,
        guild_id: String,
        author_name: String,
        content: String,
        timestamp: String,
    ) -> (res: Self)
        ensures
            res@ == (MessageView {
                id: id@,
                channel_id: channel_id@,
                guild_id: guild_id@,
                author_name: author_name@,
                content: content@,
                timestamp: timestamp@,
                new: Seq::empty(),
            }),
    {
        Self { id, channel_id, guild_id, author_name, content, timestamp, new: String::new() }
    }

    /// Marks the message as arrived while the client ran.
    pub fn new(&mut self)
        ensures
            final(self)@ == (MessageView { new: new_mark(), ..old(self)@ }),
    {
        let mark = String::from_str("yes");
        proof {
            reveal_strlit("yes");
            assert("yes"@ =~= new_mark());
        }
        self.new = mark;
    }
}


/// A channel of a guild, with the messages fetched so far in time order.
pub struct Channel {
    pub name: String,
    pub id: String,
    pub guild_id: String,
    pub messages: Vec<Message>,
    /// The user asked for notifications on this channel.
    pub notify: bool,
    pub unread: bool,
    /// How many messages the feed had laid out when it last drew this channel.
    pub registered_messages: usize,
}

/// What a channel holds.
pub struct ChannelView {
    pub name: Seq<char>,
    pub id: Seq<char>,
    pub guild_id: Seq<char>,
    pub messages: Seq<MessageView>,
    pub notify: bool,
    pub unread: bool,
    pub registered_messages: nat,
}

impl View for Channel {
    type V = ChannelView;

    open spec fn view(&self) -> ChannelView {
        ChannelView {
            name: self.name@,
            id: self.id@,
            guild_id: self.guild_id@,
            messages: self.messages@.map_values(|m: Message| m@),
            notify: self.notify,
            unread: self.unread,
            registered_messages: self.registered_messages as nat,
        }
    }
}

impl Clone for Channel {
    fn clone(&self) -> (res: Self)
        ensures
            res@ == self@,
    {
        let messages = self.messages.clone();
        assert(messages@ =~= self.messages@);
        Channel {
            name: self.name.clone(),
            id: self.id.clone(),
            guild_id: self.guild_id.clone(),
            messages,
            notify: self.notify,
            unread: self.unread,
            registered_messages: self.registered_messages,
        }
    }
}

/// The placeholder message that stands first in a channel while older
/// messages can still be fetched.
pub open spec fn placeholder(channel_id: Seq<char>, guild_id: Seq<char>) -> MessageView {
    MessageView {
        id: seq!['0'],
        channel_id,
        guild_id,
        author_name: more_mark(),
        content: Seq::empty(),
        timestamp: Seq::empty(),
        new: Seq::empty(),
    }
}

/// A new channel: no notifications, read, with only the placeholder message.
pub open spec fn new_channel(name: Seq<char>, id: Seq<char>, guild_id: Seq<char>) -> ChannelView {
    ChannelView {
        name,
        id,
        guild_id,
        messages: seq![placeholder(id, guild_id)],
        notify: false,
        unread: false,
        registered_messages: 0,
    }
}

/// Where a message timestamped `t` goes among messages stamped `stamps`
/// (`None` for a message without timestamp): right after the last one that
/// has no timestamp or that `t` is later than, or first if there is none.
pub open spec fn slot_among(t: Instant, stamps: Seq<Option<Instant>>) -> nat
    decreases stamps.len(),
{
    if stamps.len() == 0 {
        0
    } else if stands_before(stamps.last(), t) {
        stamps.len()
    } else {
        slot_among(t, stamps.drop_last())
    }
}

/// A message stamped `stamp` goes before a message timestamped `t`.
pub open spec fn stands_before(stamp: Option<Instant>, t: Instant) -> bool {
    stamp is None || later(t, stamp->0)
}

/// The instant of a message; `None` where it has no timestamp.
pub open spec fn stamp_of(m: MessageView) -> Option<Instant> {
    if m.timestamp.len() == 0 {
        None
    } else {
        rfc2822_instant(m.timestamp)
    }
}

/// A message's timestamp is empty or an RFC 2822 date.
pub open spec fn readable(m: MessageView) -> bool {
    m.timestamp.len() == 0 || rfc2822_instant(m.timestamp) is Some
}

/// The index at which a message timestamped `timestamp` goes among
/// `messages`; `None` where a timestamp cannot be read.
pub open spec fn timestamp_slot(messages: Seq<MessageView>, timestamp: Seq<char>) -> Option<nat> {
    if rfc2822_instant(timestamp) is Some && (forall|i: int|
        0 <= i < messages.len() ==> readable(#[trigger] messages[i])) {
        Some(slot_among(rfc2822_instant(timestamp)->0, messages.map_values(|m: MessageView| stamp_of(m))))
    } else {
        None
    }
}

/// The channel after `m` arrived in it.
pub open spec fn channel_insert(c: ChannelView, m: MessageView) -> ChannelView {
    ChannelView {
        unread: c.unread || m.new.len() > 0,
        messages: match timestamp_slot(c.messages, m.timestamp) {
            Some(k) => c.messages.insert(k as int, m),
            None => c.messages.push(m),
        },
        ..c
    }
}

/// The channel once all older messages are known: without its placeholder.
pub open spec fn channel_end(c: ChannelView) -> ChannelView {
    if c.messages[0].author_name == more_mark() {
        ChannelView { messages: c.messages.remove(0), ..c }
    } else {
        c
    }
}

/// How a channel is listed: `~ ` before the name when unread, ` !` after it
/// when it notifies.
pub open spec fn channel_label(c: ChannelView) -> Seq<char> {
    (if c.unread { seq!['~', ' '] } else { Seq::empty() }) + c.name + (if c.notify {
        seq![' ', '!']
    } else {
        Seq::empty()
    })
}

/// The slot is where the spec places it: after every message that stands
/// before the new one up to it, and before all that follow.
pub proof fn lemma_slot_among(t: Instant, stamps: Seq<Option<Instant>>)
    ensures
        slot_among(t, stamps) <= stamps.len(),
        slot_among(t, stamps) > 0 ==> stands_before(stamps[slot_among(t, stamps) - 1], t),
        forall|j: int|
            slot_among(t, stamps) <= j < stamps.len() ==> !stands_before(#[trigger] stamps[j], t),
    decreases stamps.len(),
{
    if stamps.len() > 0 && !stands_before(stamps.last(), t) {
        lemma_slot_among(t, stamps.drop_last());
        assert forall|j: int| slot_among(t, stamps) <= j < stamps.len() implies !stands_before(
            #[trigger] stamps[j],
            t,
        ) by {
            if j < stamps.len() - 1 {
                assert(stamps[j] == stamps.drop_last()[j]);
            }
        }
    }
}

/// Where a message timestamped `t` goes among messages stamped `stamps`
/// (`None` for a message without timestamp).
pub fn insertion_index(t: Instant, stamps: &Vec<Option<Instant>>) -> (res: usize)
    ensures
        res == slot_among(t, stamps@),
{
    let mut index: usize = 0;
    let mut i: usize = 0;
    while i < stamps.len()
        invariant
            i <= stamps.len(),
            index == slot_among(t, stamps@.take(i as int)),
            index <= i,
        decreases stamps.len() - i,
    {
        assert(stamps@.take(i + 1).drop_last() =~= stamps@.take(i as int));
        let before = match stamps[i] {
            None => true,
            Some(s) => is_later(t, s),
        };
        if before {
            index = i + 1;
        }
        i = i + 1;
    }
    assert(stamps@.take(stamps.len() as int) =~= stamps@);
    index
}

impl Channel {
    pub fn create(name: String, id: String, guild_id: String) -> (res: Self)
        ensures
            res@ == new_channel(name@, id@, guild_id@),
    {
        let first = Message::create(
            String::from_str("0"),
            id.clone(),
            guild_id.clone(),
            String::from_str("+"),
            String::new(),
            String::new(),
        );
        proof {
            reveal_strlit("0");
            reveal_strlit("+");
            assert("0"@ =~= seq!['0']);
            assert("+"@ =~= more_mark());
        }
        let mut messages = Vec::new();
        messages.push(first);
        let res = Self {
            name,
            id,
            guild_id,
            messages,
            notify: false,
            unread: false,
            registered_messages: 0,
        };
        assert(res@.messages =~= seq![placeholder(res.id@, res.guild_id@)]);
        res
    }

    /// Adds `message` at its place in time; marks the channel unread when the
    /// message is new. Returns whether the channel is unread.
    pub fn insert(&mut self, message: Message) -> (res: bool)
        ensures
            final(self)@ == channel_insert(old(self)@, message@),
            res == final(self).unread,
    {
        if !message.new.as_str().is_empty() {
            self.unread = true;
        }
        let ghost before = self.messages@;
        let ghost mv = message@;
        match self.get_index_from_timestamp(message.timestamp.as_str()) {
            Ok(index) => {
                proof {
                    lemma_slot_among(
                        rfc2822_instant(mv.timestamp)->0,
                        before.map_values(|m: Message| m@).map_values(|m: MessageView| stamp_of(m)),
                    );
                }
                self.messages.insert(index, message);
                assert(self.messages@.map_values(|m: Message| m@) =~= before.map_values(
                    |m: Message| m@,
                ).insert(index as int, mv));
            },
            Err(_) => {
                self.messages.push(message);
                assert(self.messages@.map_values(|m: Message| m@) =~= before.map_values(
                    |m: Message| m@,
                ).push(mv));
            },
        }
        self.unread
    }

    /// The index at which a message with `message_timestamp` goes.
    pub fn get_index_from_timestamp(&self, message_timestamp: &str) -> (res: Result<
        usize,
        TimestampError,
    >)
        ensures
            res is Ok <==> timestamp_slot(self@.messages, message_timestamp@) is Some,
            res matches Ok(k) ==> timestamp_slot(self@.messages, message_timestamp@) == Some(
                k as nat,
            ),
    {
        let new_instant = read_timestamp(message_timestamp)?;
        let ghost views = self@.messages;
        let mut stamps: Vec<Option<Instant>> = Vec::new();
        let mut i: usize = 0;
        while i < self.messages.len()
            invariant
                i <= self.messages.len(),
                views == self@.messages,
                stamps@.len() == i,
                forall|j: int| 0 <= j < i ==> readable(#[trigger] views[j]),
                forall|j: int| 0 <= j < i ==> #[trigger] stamps@[j] == stamp_of(views[j]),
            decreases self.messages.len() - i,
        {
            let ts = self.messages[i].timestamp.as_str();
            if ts.is_empty() {
                stamps.push(None);
            } else {
                match read_timestamp(ts) {
                    Ok(t) => stamps.push(Some(t)),
                    Err(e) => {
                        assert(!readable(views[i as int]));
                        return Err(e);
                    },
                }
            }
            i = i + 1;
        }
        assert(stamps@ =~= views.map_values(|m: MessageView| stamp_of(m)));
        Ok(insertion_index(new_instant, &stamps))
    }

    /// Drops the placeholder once all older messages are known.
    pub fn end(&mut self)
        requires
            old(self).messages.len() > 0,
        ensures
            final(self)@ == channel_end(old(self)@),
    {
        let more = String::from_str("+");
        proof {
            reveal_strlit("+");
            assert("+"@ =~= more_mark());
        }
        if self.messages[0].author_name != more {
            return ;
        }
        let ghost before = self.messages@;
        self.messages.remove(0);
        assert(self.messages@.map_values(|m: Message| m@) =~= before.map_values(|m: Message| m@).remove(0));
    }

    /// How the channel is listed.
    pub fn display(&self) -> (res: String)
        ensures
            res@ == channel_label(self@),
    {
        let mut label = String::new();
        if self.unread {
            label.append("~ ");
        }
        label.append(self.name.as_str());
        if self.notify {
            label.append(" !");
        }
        proof {
            reveal_strlit("~ ");
            reveal_strlit(" !");
            assert("~ "@ =~= seq!['~', ' ']);
            assert(" !"@ =~= seq![' ', '!']);
        }
        assert(label@ =~= channel_label(self@));
        label
    }
}


/// A desktop notification to show: who wrote last, and where.
pub struct Notice {
    pub summary: String,
    pub body: String,
}

/// What a notification shows.
pub struct NoticeView {
    pub summary: Seq<char>,
    pub body: Seq<char>,
}

impl View for Notice {
    type V = NoticeView;

    open spec fn view(&self) -> NoticeView {
        NoticeView { summary: self.summary@, body: self.body@ }
    }
}

/// A guild (server), or the guild of direct messages.
pub struct Guild {
    pub name: String,
    pub id: String,
    pub channels: Vec<Channel>,
    pub unread: bool,
}

/// What a guild holds.
pub struct GuildView {
    pub name: Seq<char>,
    pub id: Seq<char>,
    pub channels: Seq<ChannelView>,
    pub unread: bool,
}

impl View for Guild {
    type V = GuildView;

    open spec fn view(&self) -> GuildView {
        GuildView {
            name: self.name@,
            id: self.id@,
            channels: self.channels@.map_values(|c: Channel| c@),
            unread: self.unread,
        }
    }
}

impl Clone for Guild {
    fn clone(&self) -> (res: Self)
        ensures
            res@ == self@,
    {
        let channels = self.channels.clone();
        assert forall|i: int| 0 <= i < channels.len() implies (#[trigger] channels@[i])@
            == self.channels@[i]@ by {
            assert(cloned::<Channel>(self.channels@[i], channels@[i]));
        }
        assert(channels@.map_values(|c: Channel| c@) =~= self.channels@.map_values(|c: Channel| c@));
        Guild { name: self.name.clone(), id: self.id.clone(), channels, unread: self.unread }
    }
}

/// The guild holds a channel with this id.
pub open spec fn has_channel(g: GuildView, id: Seq<char>) -> bool {
    exists|i: int| 0 <= i < g.channels.len() && (#[trigger] g.channels[i]).id == id
}

/// A known channel updated from a fresh copy of it: the fresh name replaces a
/// name that is only a number, and notifications stay on once asked for.
pub open spec fn merge_channel(known: ChannelView, fresh: ChannelView) -> ChannelView {
    ChannelView {
        name: if parses_as_u64(known.name) {
            fresh.name
        } else {
            known.name
        },
        notify: known.notify || fresh.notify,
        ..known
    }
}

/// `c` updated from `fresh` where their ids agree.
pub open spec fn merge_if_same(c: ChannelView, fresh: ChannelView) -> ChannelView {
    if c.id == fresh.id {
        merge_channel(c, fresh)
    } else {
        c
    }
}

/// The guild once `fresh` was added: every channel with its id is updated
/// from it; where there is none, it comes first.
pub open spec fn guild_add_channel(g: GuildView, fresh: ChannelView) -> GuildView {
    if has_channel(g, fresh.id) {
        GuildView { channels: g.channels.map_values(|c: ChannelView| merge_if_same(c, fresh)), ..g }
    } else {
        GuildView { channels: g.channels.insert(0, fresh), ..g }
    }
}

/// Adding `fresh` turns notifications on for `known`, which has messages.
pub open spec fn raises_notice(known: ChannelView, fresh: ChannelView) -> bool {
    known.id == fresh.id && fresh.notify && !known.notify && known.messages.len() > 0
}

/// The notice shown when notifications turn on for `known`: its last author,
/// and the guild and channel names.
pub open spec fn notice_for(guild_name: Seq<char>, known: ChannelView, fresh: ChannelView) -> NoticeView {
    NoticeView {
        summary: known.messages.last().author_name,
        body: guild_name + seq![' ', '-', ' '] + merge_channel(known, fresh).name,
    }
}

/// The notices that adding `fresh` to channels `chans` raises, in order.
pub open spec fn add_channel_notices(guild_name: Seq<char>, chans: Seq<ChannelView>, fresh: ChannelView) -> Seq<NoticeView>
    decreases chans.len(),
{
    if chans.len() == 0 {
        Seq::empty()
    } else {
        add_channel_notices(guild_name, chans.drop_last(), fresh) + if raises_notice(chans.last(), fresh) {
            seq![notice_for(guild_name, chans.last(), fresh)]
        } else {
            Seq::empty()
        }
    }
}

/// Some channel of the guild is unread.
pub open spec fn any_unread(g: GuildView) -> bool {
    exists|i: int| 0 <= i < g.channels.len() && (#[trigger] g.channels[i]).unread
}

/// How a guild is listed: `~ ` before the name when unread.
pub open spec fn guild_label(g: GuildView) -> Seq<char> {
    (if g.unread { seq!['~', ' '] } else { Seq::empty() }) + g.name
}

impl Guild {
    pub fn create(name: String, id: String) -> (res: Self)
        ensures
            res@ == (GuildView { name: name@, id: id@, channels: Seq::empty(), unread: false }),
    {
        let res = Self { name, id, channels: Vec::new(), unread: false };
        assert(res@.channels =~= Seq::<ChannelView>::empty());
        res
    }

    /// Adds a channel, or updates the channels that have its id. Returns the
    /// notifications to show for channels whose notifications this turns on.
    pub fn add_channel(&mut self, channel: Channel) -> (notices: Vec<Notice>)
        ensures
            final(self)@ == guild_add_channel(old(self)@, channel@),
            notices@.map_values(|n: Notice| n@) == add_channel_notices(
                old(self)@.name,
                old(self)@.channels,
                channel@,
            ),
    {
        let ghost old_views = self@.channels;
        let ghost fresh = channel@;
        let mut notices: Vec<Notice> = Vec::new();
        let mut already_exist = false;
        let mut i: usize = 0;
        while i < self.channels.len()
            invariant
                i <= self.channels.len(),
                self.channels@.len() == old_views.len(),
                self.name == old(self).name,
                self.id == old(self).id,
                self.unread == old(self).unread,
                fresh == channel@,
                old_views == old(self)@.channels,
                forall|j: int|
                    0 <= j < i ==> (#[trigger] self.channels@[j])@ == merge_if_same(old_views[j], fresh),
                forall|j: int| i <= j < self.channels@.len() ==> (#[trigger] self.channels@[j])@ == old_views[j],
                already_exist <==> exists|j: int| 0 <= j < i && (#[trigger] old_views[j]).id == fresh.id,
                notices@.map_values(|n: Notice| n@) == add_channel_notices(
                    old(self)@.name,
                    old_views.take(i as int),
                    fresh,
                ),
            decreases self.channels.len() - i,
        {
            assert(old_views.take(i + 1).drop_last() =~= old_views.take(i as int));
            assert(old_views.take(i + 1).last() == old_views[i as int]);
            let ghost known = old_views[i as int];
            if self.channels[i].id != channel.id {
                assert(self.channels@[i as int]@ == merge_if_same(old_views[i as int], fresh));
                assert(add_channel_notices(old(self)@.name, old_views.take(i + 1), fresh)
                    =~= add_channel_notices(old(self)@.name, old_views.take(i as int), fresh));
                i = i + 1;
                continue;
            }
            already_exist = true;
            let mut ch = self.channels.remove(i);
            if parse_u64(ch.name.as_str()).is_some() {
                ch.name = channel.name.clone();
            }
            if channel.notify && !ch.notify {
                ch.notify = true;
                let count = ch.messages.len();
                if count > 0 {
                    let mut body = self.name.clone();
                    body.append(" - ");
                    body.append(ch.name.as_str());
                    proof {
                        reveal_strlit(" - ");
                        assert(" - "@ =~= seq![' ', '-', ' ']);
                    }
                    let notice = Notice {
                        summary: ch.messages[count - 1].author_name.clone(),
                        body,
                    };
                    let ghost before = notices@;
                    notices.push(notice);
                    assert(notices@.map_values(|n: Notice| n@) =~= before.map_values(|n: Notice| n@).push(
                        notice_for(old(self)@.name, known, fresh),
                    ));
                }
            }
            assert(ch@ == merge_if_same(known, fresh));
            assert(add_channel_notices(old(self)@.name, old_views.take(i + 1), fresh)
                == add_channel_notices(old(self)@.name, old_views.take(i as int), fresh) + if raises_notice(known, fresh) {
                    seq![notice_for(old(self)@.name, known, fresh)]
                } else {
                    Seq::empty()
                });
            self.channels.insert(i, ch);
            assert(notices@.map_values(|n: Notice| n@) =~= add_channel_notices(
                old(self)@.name,
                old_views.take(i + 1),
                fresh,
            ));
            i = i + 1;
        }
        assert(old_views.take(old_views.len() as int) =~= old_views);
        if !already_exist {
            self.channels.insert(0, channel);
            assert(!has_channel(old(self)@, fresh.id));
            assert(self@.channels =~= old_views.insert(0, fresh));
        } else {
            assert(has_channel(old(self)@, fresh.id));
            assert(self@.channels =~= old_views.map_values(|c: ChannelView| merge_if_same(c, fresh)));
        }
        notices
    }

    /// Marks the guild unread exactly when one of its channels is.
    pub fn check_unread(&mut self)
        ensures
            final(self)@ == (GuildView { unread: any_unread(old(self)@), ..old(self)@ }),
    {
        self.unread = false;
        let mut i: usize = 0;
        while i < self.channels.len()
            invariant
                i <= self.channels.len(),
                self.channels == old(self).channels,
                self.name == old(self).name,
                self.id == old(self).id,
                self.unread <==> exists|j: int| 0 <= j < i && (#[trigger] self.channels@[j]).unread,
            decreases self.channels.len() - i,
        {
            if self.channels[i].unread {
                self.unread = true;
            }
            i = i + 1;
        }
        assert(self.unread <==> any_unread(old(self)@)) by {
            if self.unread {
                let j = choose|j: int| 0 <= j < self.channels.len() && (#[trigger] self.channels@[j]).unread;
                assert(old(self)@.channels[j].unread);
            }
            if any_unread(old(self)@) {
                let j = choose|j: int| 0 <= j < old(self)@.channels.len() && (#[trigger] old(self)@.channels[j]).unread;
                assert(self.channels@[j].unread);
            }
        }
    }

    /// How the guild is listed.
    pub fn display(&self) -> (res: String)
        ensures
            res@ == guild_label(self@),
    {
        let mut label = String::new();
        if self.unread {
            label.append("~ ");
        }
        label.append(self.name.as_str());
        proof {
            reveal_strlit("~ ");
            assert("~ "@ =~= seq!['~', ' ']);
        }
        assert(label@ =~= guild_label(self@));
        label
    }
}

/// The messages are in time order: those without timestamp come first, every
/// timestamp reads as a date, and no message is later than one after it.
pub open spec fn in_time_order(messages: Seq<MessageView>) -> bool {
    &&& forall|i: int| 0 <= i < messages.len() ==> readable(#[trigger] messages[i])
    &&& forall|i: int, j: int|
        0 <= i < j < messages.len() && stamp_of(#[trigger] messages[j]) is None ==> stamp_of(
            #[trigger] messages[i],
        ) is None
    &&& forall|i: int, j: int|
        0 <= i < j < messages.len() && stamp_of(#[trigger] messages[i]) is Some && stamp_of(
            #[trigger] messages[j],
        ) is Some ==> !later(stamp_of(messages[i])->0, stamp_of(messages[j])->0)
}

/// A dated message that arrives in a channel whose messages are in time
/// order leaves them in time order. The channel then holds the messages it
/// held and the new one; the new one stands after every message without
/// timestamp or strictly earlier, and before every message at the same
/// instant or later.
pub proof fn lemma_insert_in_time_order(c: ChannelView, m: MessageView)
    requires
        in_time_order(c.messages),
        m.timestamp.len() > 0,
        rfc2822_instant(m.timestamp) is Some,
    ensures
        in_time_order(channel_insert(c, m).messages),
        channel_insert(c, m).messages.to_multiset() == c.messages.to_multiset().insert(m),
        exists|k: int|
            0 <= k < channel_insert(c, m).messages.len() && channel_insert(c, m).messages
                == c.messages.insert(k, m) && (forall|i: int|
                0 <= i < k ==> stands_before(
                    stamp_of(#[trigger] channel_insert(c, m).messages[i]),
                    rfc2822_instant(m.timestamp)->0,
                )) && (forall|i: int|
                k < i < channel_insert(c, m).messages.len() ==> !stands_before(
                    stamp_of(#[trigger] channel_insert(c, m).messages[i]),
                    rfc2822_instant(m.timestamp)->0,
                )),
{
    broadcast use vstd::seq_lib::group_to_multiset_ensures;

    let t = rfc2822_instant(m.timestamp)->0;
    let stamps = c.messages.map_values(|x: MessageView| stamp_of(x));
    lemma_slot_among(t, stamps);
    let k = slot_among(t, stamps) as int;
    assert(timestamp_slot(c.messages, m.timestamp) == Some(k as nat));
    let res = c.messages.insert(k, m);
    assert(channel_insert(c, m).messages == res);
    assert(stamp_of(m) == Some(t));
    assert(res.to_multiset() == c.messages.to_multiset().insert(m));
    assert forall|i: int| 0 <= i < k implies stands_before(stamp_of(#[trigger] res[i]), t) by {
        assert(res[i] == c.messages[i]);
        assert(stands_before(stamps[k - 1], t));
        if i < k - 1 {
            assert(res[k - 1] == c.messages[k - 1]);
            if stamps[k - 1] is None {
                assert(stamp_of(c.messages[k - 1]) is None);
            } else {
                assert(stamp_of(c.messages[k - 1]) is Some);
            }
        }
    }
    assert forall|i: int| k < i < res.len() implies !stands_before(stamp_of(#[trigger] res[i]), t) by {
        assert(res[i] == c.messages[i - 1]);
        assert(!stands_before(stamps[i - 1], t));
    }
    assert(res[k] == m);
    assert forall|i: int| 0 <= i < res.len() implies readable(#[trigger] res[i]) by {
        if i < k {
            assert(res[i] == c.messages[i]);
        } else if i > k {
            assert(res[i] == c.messages[i - 1]);
        }
    }
    assert forall|i: int, j: int|
        0 <= i < j < res.len() && stamp_of(#[trigger] res[j]) is None implies stamp_of(
            #[trigger] res[i],
        ) is None by {
        if j > k {
            assert(res[j] == c.messages[j - 1]);
            if i < k {
                assert(res[i] == c.messages[i]);
            } else if i > k {
                assert(res[i] == c.messages[i - 1]);
            } else {
                // the stamp after the slot is not one that stands before `t`
                assert(!stands_before(stamps[j - 1], t));
            }
        }
    }
    assert forall|i: int, j: int|
        0 <= i < j < res.len() && stamp_of(#[trigger] res[i]) is Some && stamp_of(
            #[trigger] res[j],
        ) is Some implies !later(stamp_of(res[i])->0, stamp_of(res[j])->0) by {
        if i < k && j < k {
            assert(res[i] == c.messages[i] && res[j] == c.messages[j]);
        } else if i > k && j > k {
            assert(res[i] == c.messages[i - 1] && res[j] == c.messages[j - 1]);
        } else if i < k && j > k {
            assert(res[i] == c.messages[i] && res[j] == c.messages[j - 1]);
        } else if i == k {
            assert(res[j] == c.messages[j - 1]);
            assert(!stands_before(stamps[j - 1], t));
        } else {
            // j == k: the message at i stands at or before k - 1, which stands before `t`
            assert(res[i] == c.messages[i]);
            assert(stands_before(stamps[k - 1], t));
            if stamps[k - 1] is None {
                assert(stamp_of(c.messages[k - 1]) is None);
            } else if i < k - 1 {
                assert(stamp_of(c.messages[k - 1]) is Some);
            }
        }
    }
}

/// Refreshing a channel turns no notification off: a channel that notified
/// still does, at its index or, when the fresh channel came first, one after.
pub proof fn lemma_add_channel_keeps_notify(g: GuildView, fresh: ChannelView)
    ensures
        forall|i: int|
            0 <= i < g.channels.len() && (#[trigger] g.channels[i]).notify ==> guild_add_channel(
                g,
                fresh,
            ).channels[if has_channel(g, fresh.id) {
                i
            } else {
                i + 1
            }].notify,
{
}

/// Adding a channel loses no channel and no message. Where the guild already
/// holds the fresh id, no channel is added and every channel keeps its id,
/// messages, read mark and all else but its name and notify flag: a channel
/// with the fresh id takes the fresh name only where its own is a number, and
/// notifies when it did or the fresh copy does; the others stay as they
/// were. Otherwise the fresh channel comes first and the others follow
/// unchanged. The guild keeps its id, name and read mark.
pub proof fn lemma_add_channel_keeps_messages(g: GuildView, fresh: ChannelView)
    ensures
        guild_add_channel(g, fresh).id == g.id,
        guild_add_channel(g, fresh).name == g.name,
        guild_add_channel(g, fresh).unread == g.unread,
        has_channel(g, fresh.id) ==> guild_add_channel(g, fresh).channels.len() == g.channels.len(),
        has_channel(g, fresh.id) ==> forall|i: int|
            0 <= i < g.channels.len() ==> #[trigger] guild_add_channel(g, fresh).channels[i] == (ChannelView {
                name: guild_add_channel(g, fresh).channels[i].name,
                notify: guild_add_channel(g, fresh).channels[i].notify,
                ..g.channels[i]
            }),
        has_channel(g, fresh.id) ==> forall|i: int|
            0 <= i < g.channels.len() && g.channels[i].id != fresh.id ==> #[trigger] guild_add_channel(
                g,
                fresh,
            ).channels[i] == g.channels[i],
        has_channel(g, fresh.id) ==> forall|i: int|
            0 <= i < g.channels.len() && g.channels[i].id == fresh.id ==> {
                &&& (#[trigger] guild_add_channel(g, fresh).channels[i]).notify == (g.channels[i].notify
                    || fresh.notify)
                &&& guild_add_channel(g, fresh).channels[i].name == (if parses_as_u64(g.channels[i].name) {
                    fresh.name
                } else {
                    g.channels[i].name
                })
            },
        !has_channel(g, fresh.id) ==> guild_add_channel(g, fresh).channels == seq![fresh] + g.channels,
{
    if !has_channel(g, fresh.id) {
        assert(guild_add_channel(g, fresh).channels =~= seq![fresh] + g.channels);
    }
}

/// The bot sending the same channel twice changes nothing the second time.
pub proof fn lemma_add_channel_idempotent(g: GuildView, fresh: ChannelView)
    ensures
        guild_add_channel(guild_add_channel(g, fresh), fresh) == guild_add_channel(g, fresh),
{
    let g1 = guild_add_channel(g, fresh);
    if has_channel(g, fresh.id) {
        let i = choose|i: int| 0 <= i < g.channels.len() && (#[trigger] g.channels[i]).id == fresh.id;
        assert(g1.channels[i].id == fresh.id);
    } else {
        assert(g1.channels[0].id == fresh.id);
    }
    assert(has_channel(g1, fresh.id));
    assert(guild_add_channel(g1, fresh).channels =~= g1.channels);
}

} // verus!
