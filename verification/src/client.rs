//! The client's state, the packets that update it, and the choices of the
//! user that change it.

use vstd::prelude::*;
use vstd::string::*;
use crate::discord_structure::{
    Guild, Channel, Message, Notice, GuildView, ChannelView, MessageView, NoticeView,
    guild_add_channel, add_channel_notices, channel_insert, channel_end, new_channel, any_unread,
    in_time_order, stamp_of,
};
use crate::time::later;
use crate::emoji_window::EmojiWindow;
use crate::postman::{Packet, PacketView};
use crate::state::{AppState, AppStateView, distinct_keys, pairs_map};

verus! {

/// The state of the client.
pub struct Jiji {
    pub bot_token: String,
    pub edit_token: bool,
    pub guilds: Vec<Guild>,
    pub selected_guild: Option<usize>,
    pub selected_channel: Option<usize>,
    pub pending_bot_requests: usize,
    pub current_message: String,
    /// Channels whose notifications are on but that the bot has not sent yet.
    pub channels_to_notify: Vec<String>,
    pub errors: Vec<String>,
    pub redraw: bool,
    pub emoji_window: EmojiWindow,
}

/// What the client state holds.
pub struct JijiView {
    pub bot_token: Seq<char>,
    pub edit_token: bool,
    pub guilds: Seq<GuildView>,
    pub selected_guild: Option<usize>,
    pub selected_channel: Option<usize>,
    pub pending_bot_requests: nat,
    pub current_message: Seq<char>,
    pub channels_to_notify: Seq<Seq<char>>,
    pub errors: Seq<Seq<char>>,
    pub redraw: bool,
    pub emoji_visible: bool,
}

impl View for Jiji {
    type V = JijiView;

    open spec fn view(&self) -> JijiView {
        JijiView {
            bot_token: self.bot_token@,
            edit_token: self.edit_token,
            guilds: self.guilds@.map_values(|g: Guild| g@),
            selected_guild: self.selected_guild,
            selected_channel: self.selected_channel,
            pending_bot_requests: self.pending_bot_requests as nat,
            current_message: self.current_message@,
            channels_to_notify: self.channels_to_notify@.map_values(|s: String| s@),
            errors: self.errors@.map_values(|s: String| s@),
            redraw: self.redraw,
            emoji_visible: self.emoji_window.visible,
        }
    }
}

/// Index of the last guild with this id.
pub open spec fn last_guild(gs: Seq<GuildView>, id: Seq<char>) -> Option<int>
    decreases gs.len(),
{
    if gs.len() == 0 {
        None
    } else if gs.last().id == id {
        Some(gs.len() - 1)
    } else {
        last_guild(gs.drop_last(), id)
    }
}

/// Index of the last channel with this id.
pub open spec fn last_channel(cs: Seq<ChannelView>, id: Seq<char>) -> Option<int>
    decreases cs.len(),
{
    if cs.len() == 0 {
        None
    } else if cs.last().id == id {
        Some(cs.len() - 1)
    } else {
        last_channel(cs.drop_last(), id)
    }
}

/// Index of the first occurrence of `x` in `list`.
pub open spec fn first_position(list: Seq<Seq<char>>, x: Seq<char>) -> Option<int>
    decreases list.len(),
{
    if list.len() == 0 {
        None
    } else {
        match first_position(list.drop_last(), x) {
            Some(p) => Some(p),
            None => if list.last() == x {
                Some(list.len() - 1)
            } else {
                None
            },
        }
    }
}

/// Takes `id` off the list of channels to notify: whether it was there,
/// and the list without its first occurrence.
pub open spec fn take_notify(list: Seq<Seq<char>>, id: Seq<char>) -> (bool, Seq<Seq<char>>) {
    match first_position(list, id) {
        Some(p) => (true, list.remove(p)),
        None => (false, list),
    }
}

/// The channel with notifications on where `on`.
pub open spec fn with_notify(c: ChannelView, on: bool) -> ChannelView {
    if on {
        ChannelView { notify: true, ..c }
    } else {
        c
    }
}

/// Delivers channel `c` to the first `k` guilds: each of them with its guild
/// id adds it, notifications on where its id was waiting in the list.
/// Gives the guilds, the list left, and the notices raised.
pub open spec fn deliver_channel(
    guilds: Seq<GuildView>,
    waiting: Seq<Seq<char>>,
    c: ChannelView,
    k: nat,
) -> (Seq<GuildView>, Seq<Seq<char>>, Seq<NoticeView>)
    decreases k,
{
    if k == 0 {
        (guilds, waiting, Seq::empty())
    } else {
        let (gs, w, ns) = deliver_channel(guilds, waiting, c, (k - 1) as nat);
        if k <= guilds.len() && guilds[k - 1].id == c.guild_id {
            let (hit, w2) = take_notify(w, c.id);
            let c2 = with_notify(c, hit);
            (
                gs.update(k - 1, guild_add_channel(gs[k - 1], c2)),
                w2,
                ns + add_channel_notices(gs[k - 1].name, gs[k - 1].channels, c2),
            )
        } else {
            (gs, w, ns)
        }
    }
}

/// Delivers message `m`: the last guild with its guild id takes it into its
/// last channel with its channel id, made first where there is none; the
/// guild turns unread when the channel is.
pub open spec fn deliver_message(guilds: Seq<GuildView>, m: MessageView) -> Seq<GuildView> {
    match last_guild(guilds, m.guild_id) {
        None => guilds,
        Some(gi) => {
            let g = guilds[gi];
            let chans = match last_channel(g.channels, m.channel_id) {
                Some(ci) => g.channels,
                None => g.channels.push(new_channel(m.channel_id, m.channel_id, m.guild_id)),
            };
            let ci = match last_channel(g.channels, m.channel_id) {
                Some(ci) => ci,
                None => g.channels.len() as int,
            };
            let c2 = channel_insert(chans[ci], m);
            guilds.update(
                gi,
                GuildView { channels: chans.update(ci, c2), unread: g.unread || c2.unread, ..g },
            )
        },
    }
}

/// Ends channel `c` of guild `g`: the last guild with id `g` drops the
/// placeholder of its channels with id `c`.
pub open spec fn deliver_end(guilds: Seq<GuildView>, g: Seq<char>, c: Seq<char>) -> Seq<GuildView> {
    match last_guild(guilds, g) {
        None => guilds,
        Some(gi) => guilds.update(
            gi,
            GuildView {
                channels: guilds[gi].channels.map_values(
                    |ch: ChannelView|
                        if ch.id == c {
                            channel_end(ch)
                        } else {
                            ch
                        },
                ),
                ..guilds[gi]
            },
        ),
    }
}

/// The client can take the packet: the end of a channel only comes for
/// channels that still hold a message.
pub open spec fn packet_acceptable(s: JijiView, p: PacketView) -> bool {
    match p {
        PacketView::ChannelEnd(g, c) => match last_guild(s.guilds, g) {
            None => true,
            Some(gi) => forall|j: int|
                0 <= j < s.guilds[gi].channels.len() && (#[trigger] s.guilds[gi].channels[j]).id == c
                    ==> s.guilds[gi].channels[j].messages.len() > 0,
        },
        _ => true,
    }
}

/// The client after a packet from the bot, and the notices it raises.
pub open spec fn packet_step(s: JijiView, p: PacketView) -> (JijiView, Seq<NoticeView>) {
    match p {
        PacketView::Guild(g) => (JijiView { guilds: s.guilds.push(g), ..s }, Seq::empty()),
        PacketView::Channel(c) => {
            let (gs, w, ns) = deliver_channel(s.guilds, s.channels_to_notify, c, s.guilds.len());
            (JijiView { guilds: gs, channels_to_notify: w, ..s }, ns)
        },
        PacketView::Message(m) => (
            JijiView { guilds: deliver_message(s.guilds, m), ..s },
            Seq::empty(),
        ),
        PacketView::ChannelEnd(g, c) => (
            JijiView { guilds: deliver_end(s.guilds, g, c), ..s },
            Seq::empty(),
        ),
        PacketView::Error(reason) => (JijiView { errors: s.errors.push(reason), ..s }, Seq::empty()),
        PacketView::FinishedRequest => (
            JijiView {
                pending_bot_requests: if s.pending_bot_requests > 0 {
                    (s.pending_bot_requests - 1) as nat
                } else {
                    0
                },
                ..s
            },
            Seq::empty(),
        ),
        _ => (s, Seq::empty()),
    }
}

/// Index of the last guild with this id.
fn find_last_guild(guilds: &Vec<Guild>, id: &String) -> (res: Option<usize>)
    ensures
        res matches Some(i) ==> i < guilds.len(),
        match res {
            Some(i) => last_guild(guilds@.map_values(|g: Guild| g@), id@) == Some(i as int),
            None => last_guild(guilds@.map_values(|g: Guild| g@), id@) is None,
        },
{
    let ghost views = guilds@.map_values(|g: Guild| g@);
    let mut found: Option<usize> = None;
    let mut i: usize = 0;
    while i < guilds.len()
        invariant
            i <= guilds.len(),
            views == guilds@.map_values(|g: Guild| g@),
            found matches Some(k) ==> k < i,
            match found {
                Some(k) => last_guild(views.take(i as int), id@) == Some(k as int),
                None => last_guild(views.take(i as int), id@) is None,
            },
        decreases guilds.len() - i,
    {
        assert(views.take(i + 1).drop_last() =~= views.take(i as int));
        if guilds[i].id == *id {
            found = Some(i);
        }
        i = i + 1;
    }
    assert(views.take(guilds.len() as int) =~= views);
    found
}

/// Index of the last channel with this id.
fn find_last_channel(channels: &Vec<Channel>, id: &String) -> (res: Option<usize>)
    ensures
        res matches Some(i) ==> i < channels.len(),
        match res {
            Some(i) => last_channel(channels@.map_values(|c: Channel| c@), id@) == Some(i as int),
            None => last_channel(channels@.map_values(|c: Channel| c@), id@) is None,
        },
{
    let ghost views = channels@.map_values(|c: Channel| c@);
    let mut found: Option<usize> = None;
    let mut i: usize = 0;
    while i < channels.len()
        invariant
            i <= channels.len(),
            views == channels@.map_values(|c: Channel| c@),
            found matches Some(k) ==> k < i,
            match found {
                Some(k) => last_channel(views.take(i as int), id@) == Some(k as int),
                None => last_channel(views.take(i as int), id@) is None,
            },
        decreases channels.len() - i,
    {
        assert(views.take(i + 1).drop_last() =~= views.take(i as int));
        if channels[i].id == *id {
            found = Some(i);
        }
        i = i + 1;
    }
    assert(views.take(channels.len() as int) =~= views);
    found
}

proof fn lemma_first_position_extends(list: Seq<Seq<char>>, x: Seq<char>, k: int)
    requires
        0 <= k <= list.len(),
        first_position(list.take(k), x) is Some,
    ensures
        first_position(list, x) == first_position(list.take(k), x),
    decreases list.len(),
{
    if k < list.len() {
        assert(list.drop_last().take(k) =~= list.take(k));
        lemma_first_position_extends(list.drop_last(), x, k);
    } else {
        assert(list.take(k) =~= list);
    }
}

/// Index of the first occurrence of `x` in `list`.
fn find_first(list: &Vec<String>, x: &String) -> (res: Option<usize>)
    ensures
        res matches Some(i) ==> i < list.len(),
        match res {
            Some(i) => first_position(list@.map_values(|s: String| s@), x@) == Some(i as int),
            None => first_position(list@.map_values(|s: String| s@), x@) is None,
        },
{
    let ghost views = list@.map_values(|s: String| s@);
    let mut i: usize = 0;
    while i < list.len()
        invariant
            i <= list.len(),
            views == list@.map_values(|s: String| s@),
            first_position(views.take(i as int), x@) is None,
        decreases list.len() - i,
    {
        assert(views.take(i + 1).drop_last() =~= views.take(i as int));
        if list[i] == *x {
            proof {
                lemma_first_position_extends(views, x@, i + 1);
            }
            return Some(i);
        }
        i = i + 1;
    }
    assert(views.take(list.len() as int) =~= views);
    None
}

impl Jiji {
    /// Takes a packet from the bot. Returns the notifications to show.
    pub fn handle_packet(&mut self, packet: Packet) -> (notices: Vec<Notice>)
        requires
            packet_acceptable(old(self)@, packet@),
        ensures
            final(self)@ == packet_step(old(self)@, packet@).0,
            notices@.map_values(|n: Notice| n@) == packet_step(old(self)@, packet@).1,
            old(self).wf() ==> final(self).wf(),
    {
        let ghost p = packet@;
        proof {
            if self.wf() {
                lemma_packet_keeps_selection(self@, p);
            }
        }
        match packet {
            Packet::Guild(guild) => {
                let ghost before = self.guilds@;
                self.guilds.push(guild);
                assert(self@.guilds =~= before.map_values(|g: Guild| g@).push(p->Guild_0));
                let res = Vec::new();
                assert(res@.map_values(|n: Notice| n@) =~= Seq::<NoticeView>::empty());
                res
            },
            Packet::Error(reason) => {
                let ghost before = self.errors@;
                self.errors.push(reason);
                assert(self@.errors =~= before.map_values(|s: String| s@).push(p->Error_0));
                let res = Vec::new();
                assert(res@.map_values(|n: Notice| n@) =~= Seq::<NoticeView>::empty());
                res
            },
            Packet::FinishedRequest => {
                if self.pending_bot_requests > 0 {
                    self.pending_bot_requests = self.pending_bot_requests - 1;
                }
                let res = Vec::new();
                assert(res@.map_values(|n: Notice| n@) =~= Seq::<NoticeView>::empty());
                res
            },
            Packet::FetchChannels(_) | Packet::FetchMessages(_, _, _) | Packet::SendMessage(_, _) => {
                let res = Vec::new();
                assert(res@.map_values(|n: Notice| n@) =~= Seq::<NoticeView>::empty());
                res
            },
            Packet::Channel(channel) => self.receive_channel(channel),
            Packet::Message(message) => {
                self.receive_message(message);
                let res = Vec::new();
                assert(res@.map_values(|n: Notice| n@) =~= Seq::<NoticeView>::empty());
                res
            },
            Packet::ChannelEnd(guild_id, channel_id) => {
                self.end_channel(&guild_id, &channel_id);
                let res = Vec::new();
                assert(res@.map_values(|n: Notice| n@) =~= Seq::<NoticeView>::empty());
                res
            },
        }
    }
}

impl Jiji {
    /// A channel arrives: every guild with its guild id adds it.
    fn receive_channel(&mut self, channel: Channel) -> (notices: Vec<Notice>)
        ensures
            final(self)@ == packet_step(old(self)@, PacketView::Channel(channel@)).0,
            notices@.map_values(|n: Notice| n@) == packet_step(
                old(self)@,
                PacketView::Channel(channel@),
            ).1,
    {
        let ghost guilds0 = self@.guilds;
        let ghost waiting0 = self@.channels_to_notify;
        let ghost c = channel@;
        let mut notices: Vec<Notice> = Vec::new();
        let mut i: usize = 0;
        assert(notices@.map_values(|n: Notice| n@) =~= Seq::<NoticeView>::empty());
        while i < self.guilds.len()
            invariant
                i <= self.guilds.len(),
                self.guilds.len() == guilds0.len(),
                guilds0 == old(self)@.guilds,
                waiting0 == old(self)@.channels_to_notify,
                c == channel@,
                self@ == (JijiView {
                    guilds: self@.guilds,
                    channels_to_notify: self@.channels_to_notify,
                    ..old(self)@
                }),
                self@.guilds == deliver_channel(guilds0, waiting0, c, i as nat).0,
                self@.channels_to_notify == deliver_channel(guilds0, waiting0, c, i as nat).1,
                notices@.map_values(|n: Notice| n@) == deliver_channel(guilds0, waiting0, c, i as nat).2,
                forall|j: int| i <= j < guilds0.len() ==> #[trigger] self@.guilds[j] == guilds0[j],
            decreases self.guilds.len() - i,
        {
            if self.guilds[i].id != channel.guild_id {
                i = i + 1;
                continue;
            }
            let mut fresh = channel.clone();
            let ghost w = self@.channels_to_notify;
            match find_first(&self.channels_to_notify, &channel.id) {
                Some(index) => {
                    fresh.notify = true;
                    self.channels_to_notify.remove(index);
                    assert(self@.channels_to_notify =~= w.remove(index as int));
                },
                None => {},
            }
            assert(fresh@ == with_notify(c, take_notify(w, c.id).0));
            let ghost gs = self@.guilds;
            let mut more = self.guilds[i].add_channel(fresh);
            assert(self@.guilds =~= gs.update(i as int, guild_add_channel(gs[i as int], fresh@)));
            let ghost ns = notices@;
            notices.append(&mut more);
            assert(notices@.map_values(|n: Notice| n@) =~= ns.map_values(|n: Notice| n@) + add_channel_notices(
                gs[i as int].name,
                gs[i as int].channels,
                fresh@,
            ));
            i = i + 1;
        }
        notices
    }

    /// A message arrives: see `deliver_message`.
    fn receive_message(&mut self, message: Message)
        ensures
            final(self)@ == packet_step(old(self)@, PacketView::Message(message@)).0,
    {
        let ghost m = message@;
        let ghost guilds0 = self@.guilds;
        match find_last_guild(&self.guilds, &message.guild_id) {
            None => {},
            Some(gi) => {
                let ghost g = guilds0[gi as int];
                let found = find_last_channel(&self.guilds[gi].channels, &message.channel_id);
                let ci = match found {
                    Some(ci) => ci,
                    None => {
                        let fresh = Channel::create(
                            message.channel_id.clone(),
                            message.channel_id.clone(),
                            message.guild_id.clone(),
                        );
                        self.guilds[gi].channels.push(fresh);
                        assert(self.guilds@[gi as int]@.channels =~= g.channels.push(
                            new_channel(m.channel_id, m.channel_id, m.guild_id),
                        ));
                        self.guilds[gi].channels.len() - 1
                    },
                };
                let ghost g1 = self.guilds@[gi as int]@;
                let unread = self.guilds[gi].channels[ci].insert(message);
                if unread {
                    self.guilds[gi].unread = true;
                }
                assert(self.guilds@[gi as int]@.channels =~= g1.channels.update(
                    ci as int,
                    channel_insert(g1.channels[ci as int], m),
                ));
                assert(self@.guilds =~= deliver_message(guilds0, m));
            },
        }
    }

    /// No older messages are left in a channel: see `deliver_end`.
    fn end_channel(&mut self, guild_id: &String, channel_id: &String)
        requires
            packet_acceptable(old(self)@, PacketView::ChannelEnd(guild_id@, channel_id@)),
        ensures
            final(self)@ == packet_step(old(self)@, PacketView::ChannelEnd(guild_id@, channel_id@)).0,
    {
        let ghost guilds0 = self@.guilds;
        match find_last_guild(&self.guilds, guild_id) {
            None => {},
            Some(gi) => {
                let ghost chans0 = guilds0[gi as int].channels;
                assert forall|k: int|
                    0 <= k < chans0.len() && (#[trigger] chans0[k]).id == channel_id@
                        implies chans0[k].messages.len() > 0 by {
                    assert(old(self)@.guilds == guilds0);
                    assert(last_guild(old(self)@.guilds, guild_id@) == Some(gi as int));
                    assert(old(self)@.guilds[gi as int].channels[k] == chans0[k]);
                    assert(last_guild(old(self)@.guilds, guild_id@)->0 == gi as int);
                }
                let mut j: usize = 0;
                while j < self.guilds[gi].channels.len()
                    invariant
                        gi < self.guilds.len(),
                        self.guilds.len() == guilds0.len(),
                        j <= self.guilds@[gi as int].channels.len(),
                        self.guilds@[gi as int].channels.len() == chans0.len(),
                        guilds0 == old(self)@.guilds,
                        chans0 == guilds0[gi as int].channels,
                        last_guild(guilds0, guild_id@) == Some(gi as int),
                        forall|k: int|
                            0 <= k < chans0.len() && (#[trigger] chans0[k]).id == channel_id@
                                ==> chans0[k].messages.len() > 0,
                        self@ == (JijiView { guilds: self@.guilds, ..old(self)@ }),
                        self@.guilds == guilds0.update(gi as int, self@.guilds[gi as int]),
                        self@.guilds[gi as int] == (GuildView {
                            channels: self@.guilds[gi as int].channels,
                            ..guilds0[gi as int]
                        }),
                        forall|k: int|
                            0 <= k < j ==> #[trigger] self@.guilds[gi as int].channels[k] == (if chans0[k].id
                                == channel_id@ {
                                channel_end(chans0[k])
                            } else {
                                chans0[k]
                            }),
                        forall|k: int|
                            j <= k < chans0.len() ==> #[trigger] self@.guilds[gi as int].channels[k]
                                == chans0[k],
                    decreases chans0.len() - j,
                {
                    assert(self@.guilds[gi as int].channels[j as int] == chans0[j as int]);
                    let ghost before = self@.guilds;
                    if self.guilds[gi].channels[j].id == *channel_id {
                        assert(chans0[j as int].id == channel_id@);
                        assert(old(self)@.guilds[gi as int].channels[j as int].id == channel_id@);
                        assert(chans0[j as int].messages.len() > 0);
                        self.guilds[gi].channels[j].end();
                        assert(self@.guilds[gi as int].channels =~= before[gi as int].channels.update(
                            j as int,
                            channel_end(chans0[j as int]),
                        ));
                        assert(self@.guilds =~= before.update(
                            gi as int,
                            GuildView {
                                channels: before[gi as int].channels.update(
                                    j as int,
                                    channel_end(chans0[j as int]),
                                ),
                                ..before[gi as int]
                            },
                        ));
                    }
                    j = j + 1;
                }
                assert(self@.guilds[gi as int].channels =~= chans0.map_values(
                    |ch: ChannelView|
                        if ch.id == channel_id@ {
                            channel_end(ch)
                        } else {
                            ch
                        },
                ));
                assert(self@.guilds =~= deliver_end(guilds0, guild_id@, channel_id@));
            },
        }
    }
}

/// The id, and the name, of the guild that holds direct messages.
pub open spec fn dm_id() -> Seq<char> {
    seq!['d', 'm']
}

/// The guild of direct messages built from the first `k` saved channels, and
/// the list of channels to notify that is left: each saved channel is added,
/// notifications on where its id was waiting.
pub open spec fn dm_setup(
    pairs: Seq<(Seq<char>, Seq<char>)>,
    waiting: Seq<Seq<char>>,
    k: nat,
) -> (GuildView, Seq<Seq<char>>)
    decreases k,
{
    if k == 0 {
        (GuildView { name: dm_id(), id: dm_id(), channels: Seq::empty(), unread: false }, waiting)
    } else {
        let (g, w) = dm_setup(pairs, waiting, (k - 1) as nat);
        let (hit, w2) = take_notify(w, pairs[k - 1].0);
        (guild_add_channel(g, with_notify(new_channel(pairs[k - 1].1, pairs[k - 1].0, dm_id()), hit)), w2)
    }
}

/// The client as it starts from a saved state: only the guild of direct
/// messages, nothing selected, nothing pending.
pub open spec fn initial_view(st: AppStateView) -> JijiView {
    let (dms, w) = dm_setup(st.dm_channels, st.channels_to_notify, st.dm_channels.len());
    JijiView {
        bot_token: st.bot_token,
        edit_token: false,
        guilds: seq![dms],
        selected_guild: None,
        selected_channel: None,
        pending_bot_requests: 0,
        current_message: Seq::empty(),
        channels_to_notify: w,
        errors: Seq::empty(),
        redraw: false,
        emoji_visible: false,
    }
}

/// Ids of the channels among `cs` whose notifications are on, in order.
pub open spec fn notify_ids_of(cs: Seq<ChannelView>) -> Seq<Seq<char>>
    decreases cs.len(),
{
    if cs.len() == 0 {
        Seq::empty()
    } else {
        notify_ids_of(cs.drop_last()) + if cs.last().notify {
            seq![cs.last().id]
        } else {
            Seq::empty()
        }
    }
}

/// Ids of the channels of all guilds whose notifications are on, in order.
pub open spec fn notify_ids(gs: Seq<GuildView>) -> Seq<Seq<char>>
    decreases gs.len(),
{
    if gs.len() == 0 {
        Seq::empty()
    } else {
        notify_ids(gs.drop_last()) + notify_ids_of(gs.last().channels)
    }
}

/// Id and name of each channel of `g`, where it is the guild of direct messages.
pub open spec fn dm_entries_of(g: GuildView) -> Seq<(Seq<char>, Seq<char>)> {
    if g.id == dm_id() {
        g.channels.map_values(|c: ChannelView| (c.id, c.name))
    } else {
        Seq::empty()
    }
}

/// Id and name of each direct-message channel, in order.
pub open spec fn dm_entries(gs: Seq<GuildView>) -> Seq<(Seq<char>, Seq<char>)>
    decreases gs.len(),
{
    if gs.len() == 0 {
        Seq::empty()
    } else {
        dm_entries(gs.drop_last()) + dm_entries_of(gs.last())
    }
}

/// The ids of the entries, in order.
pub open spec fn keys(pairs: Seq<(Seq<char>, Seq<char>)>) -> Seq<Seq<char>> {
    pairs.map_values(|p: (Seq<char>, Seq<char>)| p.0)
}

/// The entries with `(k, v)` set: the entry with id `k` takes the name `v`,
/// or a new entry comes last.
pub open spec fn pairs_insert(
    pairs: Seq<(Seq<char>, Seq<char>)>,
    entry: (Seq<char>, Seq<char>),
) -> Seq<(Seq<char>, Seq<char>)> {
    match first_position(keys(pairs), entry.0) {
        Some(p) => pairs.update(p, entry),
        None => pairs.push(entry),
    }
}

/// The entries with each of `list` set in turn.
pub open spec fn pairs_insert_all(
    pairs: Seq<(Seq<char>, Seq<char>)>,
    list: Seq<(Seq<char>, Seq<char>)>,
) -> Seq<(Seq<char>, Seq<char>)>
    decreases list.len(),
{
    if list.len() == 0 {
        pairs
    } else {
        pairs_insert(pairs_insert_all(pairs, list.drop_last()), list.last())
    }
}

/// The state to save: the token; the channels still waiting for
/// notifications, then every channel whose notifications are on; the
/// direct-message channels by id, the last name of an id winning.
pub open spec fn saved_state(s: JijiView) -> AppStateView {
    AppStateView {
        bot_token: s.bot_token,
        channels_to_notify: s.channels_to_notify + notify_ids(s.guilds),
        dm_channels: pairs_insert_all(Seq::empty(), dm_entries(s.guilds)),
    }
}

/// Adding a channel whose id none of the guild's channels has raises no notice.
proof fn lemma_no_notices_for_new_id(name: Seq<char>, chans: Seq<ChannelView>, fresh: ChannelView)
    requires
        forall|i: int| 0 <= i < chans.len() ==> (#[trigger] chans[i]).id != fresh.id,
    ensures
        add_channel_notices(name, chans, fresh) == Seq::<NoticeView>::empty(),
    decreases chans.len(),
{
    if chans.len() > 0 {
        lemma_no_notices_for_new_id(name, chans.drop_last(), fresh);
        assert(chans.last() == chans[chans.len() - 1]);
        assert(add_channel_notices(name, chans, fresh) =~= Seq::<NoticeView>::empty());
    }
}

/// Index of the entry with this id.
fn find_key(pairs: &Vec<(String, String)>, key: &String) -> (res: Option<usize>)
    ensures
        res matches Some(i) ==> i < pairs.len(),
        match res {
            Some(i) => first_position(
                keys(pairs@.map_values(|p: (String, String)| (p.0@, p.1@))),
                key@,
            ) == Some(i as int),
            None => first_position(
                keys(pairs@.map_values(|p: (String, String)| (p.0@, p.1@))),
                key@,
            ) is None,
        },
{
    let ghost views = keys(pairs@.map_values(|p: (String, String)| (p.0@, p.1@)));
    let mut i: usize = 0;
    while i < pairs.len()
        invariant
            i <= pairs.len(),
            views == keys(pairs@.map_values(|p: (String, String)| (p.0@, p.1@))),
            first_position(views.take(i as int), key@) is None,
        decreases pairs.len() - i,
    {
        assert(views.take(i + 1).drop_last() =~= views.take(i as int));
        if pairs[i].0 == *key {
            proof {
                lemma_first_position_extends(views, key@, i + 1);
            }
            return Some(i);
        }
        i = i + 1;
    }
    assert(views.take(pairs.len() as int) =~= views);
    None
}

impl Jiji {
    /// The client as it starts from a saved state.
    pub fn new(state: AppState) -> (res: Self)
        requires
            state.wf(),
        ensures
            res@ == initial_view(state@),
    {
        let ghost st = state@;
        let AppState { bot_token, channels_to_notify, dm_channels } = state;
        let mut waiting = channels_to_notify;
        let mut dms = Guild::create(String::from_str("dm"), String::from_str("dm"));
        proof {
            reveal_strlit("dm");
            assert("dm"@ =~= dm_id());
        }
        let mut i: usize = 0;
        while i < dm_channels.len()
            invariant
                i <= dm_channels.len(),
                st.dm_channels == dm_channels@.map_values(|p: (String, String)| (p.0@, p.1@)),
                distinct_keys(st.dm_channels),
                dms.id@ == dm_id(),
                (dms@, waiting@.map_values(|s: String| s@)) == dm_setup(
                    st.dm_channels,
                    st.channels_to_notify,
                    i as nat,
                ),
                forall|c: int|
                    0 <= c < dms@.channels.len() ==> exists|j: int|
                        0 <= j < i && (#[trigger] st.dm_channels[j]).0 == (#[trigger] dms@.channels[c]).id,
            decreases dm_channels.len() - i,
        {
            let channel_id = dm_channels[i].0.clone();
            let mut channel = Channel::create(dm_channels[i].1.clone(), channel_id.clone(), dms.id.clone());
            let ghost w = waiting@.map_values(|s: String| s@);
            match find_first(&waiting, &channel_id) {
                Some(index) => {
                    channel.notify = true;
                    waiting.remove(index);
                    assert(waiting@.map_values(|s: String| s@) =~= w.remove(index as int));
                },
                None => {},
            }
            let ghost g0 = dms@;
            assert forall|c: int| 0 <= c < g0.channels.len() implies (#[trigger] g0.channels[c]).id
                != channel@.id by {
                let j = choose|j: int| 0 <= j < i && (#[trigger] st.dm_channels[j]).0 == g0.channels[c].id;
                assert(st.dm_channels[j].0 != st.dm_channels[i as int].0);
            }
            proof {
                lemma_no_notices_for_new_id(g0.name, g0.channels, channel@);
            }
            let ghost fresh = channel@;
            let notices = dms.add_channel(channel);
            // the saved channels are new to the guild: none raises a notice
            assert(notices@.map_values(|n: Notice| n@).len() == 0);
            assert(!crate::discord_structure::has_channel(g0, fresh.id));
            assert(dms@.channels == g0.channels.insert(0, fresh));
            assert forall|c: int| 0 <= c < dms@.channels.len() implies exists|j: int|
                0 <= j < i + 1 && (#[trigger] st.dm_channels[j]).0 == (#[trigger] dms@.channels[c]).id by {
                if c == 0 {
                    assert(st.dm_channels[i as int].0 == dms@.channels[c].id);
                } else {
                    assert(dms@.channels[c] == g0.channels[c - 1]);
                    let j = choose|j: int| 0 <= j < i && (#[trigger] st.dm_channels[j]).0 == g0.channels[c - 1].id;
                    assert(st.dm_channels[j].0 == dms@.channels[c].id);
                }
            }
            i = i + 1;
        }
        let mut guilds = Vec::new();
        guilds.push(dms);
        let res = Jiji {
            bot_token,
            edit_token: false,
            guilds,
            selected_guild: None,
            selected_channel: None,
            pending_bot_requests: 0,
            current_message: String::new(),
            channels_to_notify: waiting,
            errors: Vec::new(),
            redraw: false,
            emoji_window: EmojiWindow::new(),
        };
        assert(res@.guilds =~= seq![dms@]);
        assert(res@.errors =~= Seq::<Seq<char>>::empty());
        res
    }
}

impl Jiji {
    /// The state to save when the client closes.
    pub fn save_state(&self) -> (res: AppState)
        ensures
            res@ == saved_state(self@),
    {
        let ghost gs = self@.guilds;
        let ghost w0 = self@.channels_to_notify;
        let dm = String::from_str("dm");
        proof {
            reveal_strlit("dm");
            assert("dm"@ =~= dm_id());
        }
        let mut channels_to_notify = self.channels_to_notify.clone();
        assert(channels_to_notify@ =~= self.channels_to_notify@);
        let mut dm_channels: Vec<(String, String)> = Vec::new();
        assert(notify_ids(gs.take(0)) =~= Seq::<Seq<char>>::empty());
        assert(w0 + Seq::<Seq<char>>::empty() =~= w0);
        assert(dm_channels@.map_values(|p: (String, String)| (p.0@, p.1@)) =~= Seq::<(Seq<char>, Seq<char>)>::empty());
        let mut g: usize = 0;
        while g < self.guilds.len()
            invariant
                g <= self.guilds.len(),
                gs == self@.guilds,
                w0 == self@.channels_to_notify,
                dm@ == dm_id(),
                channels_to_notify@.map_values(|s: String| s@) == w0 + notify_ids(gs.take(g as int)),
                dm_channels@.map_values(|p: (String, String)| (p.0@, p.1@)) == pairs_insert_all(
                    Seq::empty(),
                    dm_entries(gs.take(g as int)),
                ),
            decreases self.guilds.len() - g,
        {
            let ghost gv = gs[g as int];
            let ghost before_ntf = channels_to_notify@.map_values(|s: String| s@);
            let ghost before_dm = dm_entries(gs.take(g as int));
            let is_dm = self.guilds[g].id == dm;
            let mut c: usize = 0;
            assert(gv.channels.take(0) =~= Seq::<ChannelView>::empty());
            assert(before_ntf + notify_ids_of(gv.channels.take(0)) =~= before_ntf);
            assert(before_dm + (if is_dm { gv.channels.take(0).map_values(|c: ChannelView| (c.id, c.name)) } else { Seq::empty() }) =~= before_dm);
            while c < self.guilds[g].channels.len()
                invariant
                    g < self.guilds.len(),
                    c <= self.guilds@[g as int].channels.len(),
                    gs == self@.guilds,
                    gv == gs[g as int],
                    is_dm == (gv.id == dm_id()),
                    channels_to_notify@.map_values(|s: String| s@) == before_ntf + notify_ids_of(
                        gv.channels.take(c as int),
                    ),
                    dm_channels@.map_values(|p: (String, String)| (p.0@, p.1@)) == pairs_insert_all(
                        Seq::empty(),
                        before_dm + (if is_dm {
                            gv.channels.take(c as int).map_values(|c: ChannelView| (c.id, c.name))
                        } else {
                            Seq::empty()
                        }),
                    ),
                decreases self.guilds@[g as int].channels.len() - c,
            {
                let ghost cv = gv.channels[c as int];
                assert(self.guilds@[g as int].channels@[c as int]@ == cv);
                assert(gv.channels.take(c + 1).drop_last() =~= gv.channels.take(c as int));
                assert(gv.channels.take(c + 1).last() == cv);
                if is_dm {
                    let ghost list = before_dm + gv.channels.take(c as int).map_values(|c: ChannelView| (c.id, c.name));
                    let ghost pv = dm_channels@.map_values(|p: (String, String)| (p.0@, p.1@));
                    assert((before_dm + gv.channels.take(c + 1).map_values(|c: ChannelView| (c.id, c.name))).drop_last() =~= list);
                    let id = self.guilds[g].channels[c].id.clone();
                    let name = self.guilds[g].channels[c].name.clone();
                    match find_key(&dm_channels, &id) {
                        Some(k) => {
                            dm_channels.set(k, (id, name));
                            assert(dm_channels@.map_values(|p: (String, String)| (p.0@, p.1@)) =~= pv.update(k as int, (cv.id, cv.name)));
                        },
                        None => {
                            dm_channels.push((id, name));
                            assert(dm_channels@.map_values(|p: (String, String)| (p.0@, p.1@)) =~= pv.push((cv.id, cv.name)));
                        },
                    }
                }
                if self.guilds[g].channels[c].notify {
                    let ghost bn = channels_to_notify@.map_values(|s: String| s@);
                    channels_to_notify.push(self.guilds[g].channels[c].id.clone());
                    assert(channels_to_notify@.map_values(|s: String| s@) =~= bn.push(cv.id));
                    assert(before_ntf + notify_ids_of(gv.channels.take(c + 1)) =~= bn.push(cv.id));
                } else {
                    assert(before_ntf + notify_ids_of(gv.channels.take(c + 1)) =~= before_ntf + notify_ids_of(gv.channels.take(c as int)));
                }
                c = c + 1;
            }
            assert(gv.channels.take(gv.channels.len() as int) =~= gv.channels);
            assert(gs.take(g + 1).drop_last() =~= gs.take(g as int));
            assert(gs.take(g + 1).last() == gv);
            assert(w0 + notify_ids(gs.take(g + 1)) =~= before_ntf + notify_ids_of(gv.channels));
            assert(dm_entries(gs.take(g + 1)) =~= before_dm + (if is_dm {
                gv.channels.map_values(|c: ChannelView| (c.id, c.name))
            } else {
                Seq::empty()
            }));
            g = g + 1;
        }
        assert(gs.take(self.guilds.len() as int) =~= gs);
        AppState { bot_token: self.bot_token.clone(), channels_to_notify, dm_channels }
    }
}

/// The selection points at a guild, and at a channel of that guild.
pub open spec fn selection_valid(s: JijiView) -> bool {
    &&& (s.selected_guild matches Some(g) ==> g < s.guilds.len())
    &&& (s.selected_channel matches Some(c) ==> (s.selected_guild matches Some(g) && g
        < s.guilds.len() && c < s.guilds[g as int].channels.len()))
}

/// The guilds once the user left the selected channel: it is read, and its
/// guild is unread only while another of its channels is.
pub open spec fn read_selected(s: JijiView) -> Seq<GuildView> {
    match (s.selected_guild, s.selected_channel) {
        (Some(g), Some(c)) => {
            let g0 = s.guilds[g as int];
            let g1 = GuildView {
                channels: g0.channels.update(c as int, ChannelView { unread: false, ..g0.channels[c as int] }),
                ..g0
            };
            s.guilds.update(g as int, GuildView { unread: any_unread(g1), ..g1 })
        },
        _ => s.guilds,
    }
}

/// The user picks a guild, or none: the channel left is read, no channel is
/// selected, and the channels of a guild that has none yet are asked for,
/// unless it is the guild of direct messages.
pub open spec fn guild_selected(s: JijiView, choice: Option<usize>) -> (JijiView, Option<PacketView>) {
    let guilds = read_selected(s);
    let s1 = JijiView { guilds, selected_guild: choice, selected_channel: None, ..s };
    match choice {
        Some(i) => if guilds[i as int].channels.len() == 0 && guilds[i as int].id != dm_id() {
            (
                JijiView { pending_bot_requests: s.pending_bot_requests + 1, ..s1 },
                Some(PacketView::FetchChannels(guilds[i as int].id)),
            )
        } else {
            (s1, None)
        },
        None => (s1, None),
    }
}

/// The user picks a channel of the selected guild, or none: the channel left
/// is read, and the messages of a channel that holds only one are asked for.
pub open spec fn channel_selected(s: JijiView, choice: Option<usize>) -> (JijiView, Option<PacketView>) {
    let guilds = read_selected(s);
    let s1 = JijiView { guilds, selected_channel: choice, ..s };
    let g = s.selected_guild->0 as int;
    match choice {
        Some(i) => if guilds[g].channels[i as int].messages.len() == 1 {
            (
                JijiView { pending_bot_requests: s.pending_bot_requests + 1, ..s1 },
                Some(
                    PacketView::FetchMessages(
                        guilds[g].id,
                        guilds[g].channels[i as int].id,
                        Seq::empty(),
                    ),
                ),
            )
        } else {
            (s1, None)
        },
        None => (s1, None),
    }
}

/// The user sends the message being written: where a channel is selected and
/// the message is not empty, it goes to that channel and the field clears.
pub open spec fn message_sent(s: JijiView) -> (JijiView, Option<PacketView>) {
    match (s.selected_guild, s.selected_channel) {
        (Some(g), Some(c)) => if s.current_message.len() > 0 {
            (
                JijiView { current_message: Seq::empty(), ..s },
                Some(
                    PacketView::SendMessage(
                        s.guilds[g as int].channels[c as int].id,
                        s.current_message,
                    ),
                ),
            )
        } else {
            (s, None)
        },
        _ => (s, None),
    }
}

/// The user asks for older messages of the selected channel: those before its
/// first real message, where it holds one besides the placeholder.
pub open spec fn older_requested(s: JijiView) -> (JijiView, Option<PacketView>) {
    match (s.selected_guild, s.selected_channel) {
        (Some(g), Some(c)) => {
            let ch = s.guilds[g as int].channels[c as int];
            if ch.messages.len() >= 2 {
                (
                    JijiView { pending_bot_requests: s.pending_bot_requests + 1, ..s },
                    Some(PacketView::FetchMessages(s.guilds[g as int].id, ch.id, ch.messages[1].id)),
                )
            } else {
                (s, None)
            }
        },
        _ => (s, None),
    }
}

/// Leaving the selected channel changes no guild's id or name, nor which
/// channels it has and what they hold, beyond the read marks.
proof fn lemma_read_selected_shape(s: JijiView)
    requires
        selection_valid(s),
    ensures
        read_selected(s).len() == s.guilds.len(),
        forall|g: int|
            0 <= g < s.guilds.len() ==> {
                &&& (#[trigger] read_selected(s)[g]).id == s.guilds[g].id
                &&& read_selected(s)[g].name == s.guilds[g].name
                &&& read_selected(s)[g].channels.len() == s.guilds[g].channels.len()
                &&& forall|c: int|
                    0 <= c < s.guilds[g].channels.len() ==> {
                        &&& (#[trigger] read_selected(s)[g].channels[c]).id == s.guilds[g].channels[c].id
                        &&& read_selected(s)[g].channels[c].messages == s.guilds[g].channels[c].messages
                    }
            },
{
}

/// The user dismisses the error at `index`.
pub open spec fn error_dismissed(s: JijiView, index: nat) -> JijiView {
    JijiView { errors: s.errors.remove(index as int), ..s }
}

/// The user shows or hides the field of the bot's token.
pub open spec fn token_edit_toggled(s: JijiView) -> JijiView {
    JijiView { edit_token: !s.edit_token, ..s }
}

/// The user turns notifications of the selected channel on or off.
pub open spec fn notify_set(s: JijiView, on: bool) -> JijiView {
    let g = s.selected_guild->0 as int;
    let c = s.selected_channel->0 as int;
    JijiView {
        guilds: s.guilds.update(
            g,
            GuildView {
                channels: s.guilds[g].channels.update(c, ChannelView { notify: on, ..s.guilds[g].channels[c] }),
                ..s.guilds[g]
            },
        ),
        ..s
    }
}

/// `t` has the guilds of `s`, with the same ids, each with as many channels,
/// with the same ids and messages.
pub open spec fn same_shape(s: JijiView, t: JijiView) -> bool {
    &&& t.guilds.len() == s.guilds.len()
    &&& forall|g: int|
        0 <= g < s.guilds.len() ==> {
            &&& (#[trigger] t.guilds[g]).id == s.guilds[g].id
            &&& t.guilds[g].channels.len() == s.guilds[g].channels.len()
            &&& forall|c: int|
                0 <= c < s.guilds[g].channels.len() ==> {
                    &&& (#[trigger] t.guilds[g].channels[c]).id == s.guilds[g].channels[c].id
                    &&& t.guilds[g].channels[c].messages == s.guilds[g].channels[c].messages
                }
        }
}

/// Whatever the user clicks in the selection bar (a guild or none, a channel
/// of the selected guild or none, the notify box, an error's dismiss button,
/// the token button), and when sending or asking for older messages, the
/// selection stays valid and no guild, channel or message is added, removed
/// or changed beyond its read and notify marks.
pub proof fn lemma_clicks_keep_selection(s: JijiView, choice: Option<usize>, on: bool, index: nat)
    requires
        selection_valid(s),
    ensures
        (choice matches Some(i) ==> i < s.guilds.len()) ==> selection_valid(guild_selected(s, choice).0)
            && same_shape(s, guild_selected(s, choice).0),
        (s.selected_guild is Some && (choice matches Some(i) ==> i < s.guilds[s.selected_guild->0 as int].channels.len()))
            ==> selection_valid(channel_selected(s, choice).0) && same_shape(s, channel_selected(s, choice).0),
        s.selected_channel is Some ==> selection_valid(notify_set(s, on)) && same_shape(s, notify_set(s, on)),
        index < s.errors.len() ==> selection_valid(error_dismissed(s, index)) && same_shape(
            s,
            error_dismissed(s, index),
        ),
        selection_valid(token_edit_toggled(s)) && same_shape(s, token_edit_toggled(s)),
        selection_valid(message_sent(s).0) && same_shape(s, message_sent(s).0),
        selection_valid(older_requested(s).0) && same_shape(s, older_requested(s).0),
{
    lemma_read_selected_shape(s);
    if s.selected_channel is Some {
        let t = notify_set(s, on);
        let g = s.selected_guild->0 as int;
        assert forall|k: int| 0 <= k < s.guilds.len() implies (#[trigger] t.guilds[k]).channels.len()
            == s.guilds[k].channels.len() by {
            if k == g {
            }
        }
    }
}

/// Asking for older messages asks, for the selected guild and channel, for
/// the messages before the first one held after the placeholder, and counts
/// one more request; it asks nothing, and changes nothing, when no channel is
/// selected or the channel holds only the placeholder. Where the channel's
/// messages are in time order, no message held after the placeholder is
/// dated earlier than the one named, so what comes back is older than all
/// that is held.
pub proof fn lemma_older_request_names_first_message(s: JijiView)
    requires
        selection_valid(s),
    ensures
        match older_requested(s).1 {
            Some(PacketView::FetchMessages(gid, cid, before)) => {
                let g = s.selected_guild->0 as int;
                let c = s.selected_channel->0 as int;
                let ms = s.guilds[g].channels[c].messages;
                &&& s.selected_guild is Some
                &&& s.selected_channel is Some
                &&& gid == s.guilds[g].id
                &&& cid == s.guilds[g].channels[c].id
                &&& ms.len() >= 2
                &&& before == ms[1].id
                &&& older_requested(s).0.pending_bot_requests == s.pending_bot_requests + 1
                &&& in_time_order(ms) ==> forall|j: int|
                    1 <= j < ms.len() && stamp_of(ms[1]) is Some && stamp_of(#[trigger] ms[j]) is Some
                        ==> !later(stamp_of(ms[1])->0, stamp_of(ms[j])->0)
            },
            Some(_) => false,
            None => older_requested(s).0 == s && !(s.selected_guild is Some && s.selected_channel is Some
                && s.guilds[s.selected_guild->0 as int].channels[s.selected_channel->0 as int].messages.len()
                >= 2),
        },
{
    if let (Some(g), Some(c)) = (s.selected_guild, s.selected_channel) {
        let ms = s.guilds[g as int].channels[c as int].messages;
        if ms.len() >= 2 && in_time_order(ms) {
            assert forall|j: int|
                1 <= j < ms.len() && stamp_of(ms[1]) is Some && stamp_of(#[trigger] ms[j]) is Some implies !later(
                stamp_of(ms[1])->0,
                stamp_of(ms[j])->0,
            ) by {
                if j > 1 {
                    assert(stamp_of(ms[1]) is Some && stamp_of(ms[j]) is Some);
                }
            }
        }
    }
}

/// `after` is `s.guilds` once the channel shown in `s` was left: that channel
/// is no longer unread and nothing else of it changes, its guild is unread
/// exactly when another of its channels is, and every other guild and
/// channel stays as it was. With no channel shown, nothing changes.
pub open spec fn left_channel_read(s: JijiView, after: Seq<GuildView>) -> bool {
    match (s.selected_guild, s.selected_channel) {
        (Some(g), Some(c)) => {
            let before = s.guilds[g as int];
            &&& after.len() == s.guilds.len()
            &&& forall|k: int| 0 <= k < s.guilds.len() && k != g ==> #[trigger] after[k] == s.guilds[k]
            &&& after[g as int].id == before.id
            &&& after[g as int].name == before.name
            &&& after[g as int].channels.len() == before.channels.len()
            &&& !after[g as int].channels[c as int].unread
            &&& after[g as int].channels[c as int] == ChannelView {
                unread: after[g as int].channels[c as int].unread,
                ..before.channels[c as int]
            }
            &&& forall|j: int|
                0 <= j < before.channels.len() && j != c ==> #[trigger] after[g as int].channels[j]
                    == before.channels[j]
            &&& after[g as int].unread == exists|j: int|
                0 <= j < before.channels.len() && j != c && (#[trigger] before.channels[j]).unread
        },
        _ => after == s.guilds,
    }
}

/// Leaving the shown channel, as every choice of a guild or channel does,
/// reads it in the sense of `left_channel_read`.
proof fn lemma_read_selected_reads(s: JijiView)
    requires
        selection_valid(s),
    ensures
        left_channel_read(s, read_selected(s)),
{
    if let (Some(g), Some(c)) = (s.selected_guild, s.selected_channel) {
        let g = g as int;
        let c = c as int;
        let before = s.guilds[g];
        let g1 = GuildView {
            channels: before.channels.update(c, ChannelView { unread: false, ..before.channels[c] }),
            ..before
        };
        let after = read_selected(s);
        assert(after[g] == GuildView { unread: any_unread(g1), ..g1 });
        let other = exists|j: int| 0 <= j < before.channels.len() && j != c && (#[trigger] before.channels[j]).unread;
        if any_unread(g1) {
            let j = choose|j: int| 0 <= j < g1.channels.len() && (#[trigger] g1.channels[j]).unread;
            assert(j != c);
            assert(before.channels[j].unread);
        }
        if other {
            let j = choose|j: int| 0 <= j < before.channels.len() && j != c && (#[trigger] before.channels[j]).unread;
            assert(g1.channels[j].unread);
        }
        assert(any_unread(g1) == other);
    }
}

/// Choosing a guild, or none, first leaves the channel shown: it is read,
/// and its guild stays unread only while another of its channels is.
pub proof fn lemma_guild_choice_reads_left_channel(s: JijiView, choice: Option<usize>)
    requires
        selection_valid(s),
    ensures
        left_channel_read(s, guild_selected(s, choice).0.guilds),
{
    lemma_read_selected_reads(s);
}

/// Choosing a channel, or none, first leaves the channel shown: it is read,
/// and its guild stays unread only while another of its channels is.
pub proof fn lemma_channel_choice_reads_left_channel(s: JijiView, choice: Option<usize>)
    requires
        selection_valid(s),
    ensures
        left_channel_read(s, channel_selected(s, choice).0.guilds),
{
    lemma_read_selected_reads(s);
}

impl Jiji {
    /// The selection points at a guild, and at a channel of that guild.
    pub open spec fn wf(&self) -> bool {
        selection_valid(self@)
    }

    /// Marks the selected channel read.
    fn mark_selected_read(&mut self)
        requires
            old(self).wf(),
        ensures
            final(self)@ == (JijiView { guilds: read_selected(old(self)@), ..old(self)@ }),
    {
        if let Some(g) = self.selected_guild {
            if let Some(c) = self.selected_channel {
                let ghost s = self@;
                self.guilds[g].channels[c].unread = false;
                self.guilds[g].check_unread();
                let ghost g0 = s.guilds[g as int];
                let ghost g1 = GuildView {
                    channels: g0.channels.update(c as int, ChannelView { unread: false, ..g0.channels[c as int] }),
                    ..g0
                };
                assert(self@.guilds[g as int].channels =~= g1.channels);
                assert(self@.guilds =~= read_selected(s));
            }
        }
    }

    /// The user picks a guild, or none. Returns the packet to send the bot.
    pub fn select_guild(&mut self, choice: Option<usize>) -> (res: Option<Packet>)
        requires
            old(self).wf(),
            choice matches Some(i) ==> i < old(self).guilds.len(),
            old(self).pending_bot_requests < usize::MAX,
        ensures
            final(self)@ == guild_selected(old(self)@, choice).0,
            res matches Some(p) ==> guild_selected(old(self)@, choice).1 == Some(p@),
            res is None ==> guild_selected(old(self)@, choice).1 is None,
            final(self).wf(),
    {
        proof {
            lemma_read_selected_shape(self@);
        }
        self.mark_selected_read();
        self.selected_guild = choice;
        self.selected_channel = None;
        let dm = String::from_str("dm");
        proof {
            reveal_strlit("dm");
            assert("dm"@ =~= dm_id());
        }
        match choice {
            Some(i) => {
                if self.guilds[i].channels.len() == 0 && self.guilds[i].id != dm {
                    self.pending_bot_requests = self.pending_bot_requests + 1;
                    Some(Packet::FetchChannels(self.guilds[i].id.clone()))
                } else {
                    None
                }
            },
            None => None,
        }
    }

    /// The user picks a channel of the selected guild, or none. Returns the
    /// packet to send the bot.
    pub fn select_channel(&mut self, choice: Option<usize>) -> (res: Option<Packet>)
        requires
            old(self).wf(),
            old(self).selected_guild is Some,
            choice matches Some(i) ==> i < old(self)@.guilds[old(self).selected_guild->0 as int].channels.len(),
            old(self).pending_bot_requests < usize::MAX,
        ensures
            final(self)@ == channel_selected(old(self)@, choice).0,
            res matches Some(p) ==> channel_selected(old(self)@, choice).1 == Some(p@),
            res is None ==> channel_selected(old(self)@, choice).1 is None,
            final(self).wf(),
    {
        proof {
            lemma_read_selected_shape(self@);
        }
        self.mark_selected_read();
        self.selected_channel = choice;
        let g = self.selected_guild.unwrap();
        match choice {
            Some(i) => {
                if self.guilds[g].channels[i].messages.len() == 1 {
                    self.pending_bot_requests = self.pending_bot_requests + 1;
                    let p = Packet::FetchMessages(
                        self.guilds[g].id.clone(),
                        self.guilds[g].channels[i].id.clone(),
                        String::new(),
                    );
                    Some(p)
                } else {
                    None
                }
            },
            None => None,
        }
    }

    /// The user sends the message being written. Returns the packet to send
    /// the bot.
    pub fn send_current_message(&mut self) -> (res: Option<Packet>)
        requires
            old(self).wf(),
        ensures
            final(self)@ == message_sent(old(self)@).0,
            res matches Some(p) ==> message_sent(old(self)@).1 == Some(p@),
            res is None ==> message_sent(old(self)@).1 is None,
    {
        if let Some(g) = self.selected_guild {
            if let Some(c) = self.selected_channel {
                if !self.current_message.as_str().is_empty() {
                    let mut content = String::new();
                    std::mem::swap(&mut content, &mut self.current_message);
                    return Some(Packet::SendMessage(self.guilds[g].channels[c].id.clone(), content));
                }
            }
        }
        None
    }

    /// The user asks for older messages of the selected channel. Returns the
    /// packet to send the bot.
    pub fn request_older_messages(&mut self) -> (res: Option<Packet>)
        requires
            old(self).wf(),
            old(self).pending_bot_requests < usize::MAX,
        ensures
            final(self)@ == older_requested(old(self)@).0,
            res matches Some(p) ==> older_requested(old(self)@).1 == Some(p@),
            res is None ==> older_requested(old(self)@).1 is None,
    {
        if let Some(g) = self.selected_guild {
            if let Some(c) = self.selected_channel {
                if self.guilds[g].channels[c].messages.len() >= 2 {
                    self.pending_bot_requests = self.pending_bot_requests + 1;
                    return Some(
                        Packet::FetchMessages(
                            self.guilds[g].id.clone(),
                            self.guilds[g].channels[c].id.clone(),
                            self.guilds[g].channels[c].messages[1].id.clone(),
                        ),
                    );
                }
            }
        }
        None
    }

    /// The user shows or hides the field of the bot's token.
    pub fn toggle_token_edit(&mut self)
        ensures
            final(self)@ == token_edit_toggled(old(self)@),
    {
        self.edit_token = !self.edit_token;
    }

    /// The user dismisses an error.
    pub fn dismiss_error(&mut self, index: usize)
        requires
            index < old(self).errors.len(),
        ensures
            final(self)@ == error_dismissed(old(self)@, index as nat),
    {
        let ghost before = self.errors@;
        self.errors.remove(index);
        assert(self@.errors =~= before.map_values(|s: String| s@).remove(index as int));
    }

    /// The user turns notifications of the selected channel on or off.
    pub fn set_notify(&mut self, on: bool)
        requires
            old(self).wf(),
            old(self).selected_channel is Some,
        ensures
            final(self)@ == notify_set(old(self)@, on),
            final(self).wf(),
    {
        let g = self.selected_guild.unwrap();
        let c = self.selected_channel.unwrap();
        let ghost s = self@;
        self.guilds[g].channels[c].notify = on;
        assert(self@.guilds[g as int].channels =~= s.guilds[g as int].channels.update(
            c as int,
            ChannelView { notify: on, ..s.guilds[g as int].channels[c as int] },
        ));
        assert(self@.guilds =~= s.guilds.update(
            g as int,
            GuildView {
                channels: s.guilds[g as int].channels.update(
                    c as int,
                    ChannelView { notify: on, ..s.guilds[g as int].channels[c as int] },
                ),
                ..s.guilds[g as int]
            },
        ));
    }

    /// The feed is about to show the selected channel: where its number of
    /// messages changed since it was last laid out, records the new number,
    /// asks for a redraw, and returns true.
    pub fn register_feed(&mut self) -> (changed: bool)
        requires
            old(self).wf(),
            old(self).selected_channel is Some,
        ensures
            ({
                let g = old(self).selected_guild->0 as int;
                let c = old(self).selected_channel->0 as int;
                let ch = old(self)@.guilds[g].channels[c];
                &&& changed == (ch.registered_messages != ch.messages.len())
                &&& final(self)@ == if changed {
                    JijiView {
                        guilds: old(self)@.guilds.update(
                            g,
                            GuildView {
                                channels: old(self)@.guilds[g].channels.update(
                                    c,
                                    ChannelView { registered_messages: ch.messages.len(), ..ch },
                                ),
                                ..old(self)@.guilds[g]
                            },
                        ),
                        redraw: true,
                        ..old(self)@
                    }
                } else {
                    old(self)@
                }
            }),
            final(self).wf(),
    {
        let g = self.selected_guild.unwrap();
        let c = self.selected_channel.unwrap();
        let ghost s = self@;
        let count = self.guilds[g].channels[c].messages.len();
        if self.guilds[g].channels[c].registered_messages == count {
            return false;
        }
        self.guilds[g].channels[c].registered_messages = count;
        self.redraw = true;
        let ghost ch = s.guilds[g as int].channels[c as int];
        assert(self@.guilds[g as int].channels =~= s.guilds[g as int].channels.update(
            c as int,
            ChannelView { registered_messages: ch.messages.len(), ..ch },
        ));
        assert(self@.guilds =~= s.guilds.update(
            g as int,
            GuildView {
                channels: s.guilds[g as int].channels.update(
                    c as int,
                    ChannelView { registered_messages: ch.messages.len(), ..ch },
                ),
                ..s.guilds[g as int]
            },
        ));
        true
    }
}

/// Where `first_position` points, and what it means when it finds nothing.
proof fn lemma_first_position(list: Seq<Seq<char>>, x: Seq<char>)
    ensures
        match first_position(list, x) {
            Some(p) => 0 <= p < list.len() && list[p] == x && forall|j: int|
                0 <= j < p ==> #[trigger] list[j] != x,
            None => forall|j: int| 0 <= j < list.len() ==> #[trigger] list[j] != x,
        },
    decreases list.len(),
{
    if list.len() > 0 {
        lemma_first_position(list.drop_last(), x);
        assert forall|j: int| 0 <= j < list.len() - 1 implies #[trigger] list[j] == list.drop_last()[j] by {}
        match first_position(list.drop_last(), x) {
            Some(p) => {
                assert(list[p] == list.drop_last()[p]);
            },
            None => {
                assert(forall|j: int| 0 <= j < list.len() - 1 ==> list.drop_last()[j] != x);
            },
        }
    }
}

/// Delivering a channel keeps the guilds, and no guild loses a channel.
proof fn lemma_deliver_channel_grows(guilds: Seq<GuildView>, waiting: Seq<Seq<char>>, c: ChannelView, k: nat)
    ensures
        deliver_channel(guilds, waiting, c, k).0.len() == guilds.len(),
        forall|g: int|
            0 <= g < guilds.len() ==> (#[trigger] deliver_channel(guilds, waiting, c, k).0[g]).channels.len()
                >= guilds[g].channels.len(),
    decreases k,
{
    if k > 0 {
        lemma_deliver_channel_grows(guilds, waiting, c, (k - 1) as nat);
    }
}

proof fn lemma_channel_keeps_selection(s: JijiView, c: ChannelView)
    requires
        selection_valid(s),
    ensures
        selection_valid(packet_step(s, PacketView::Channel(c)).0),
{
    let p = PacketView::Channel(c);
    let t = packet_step(s, p).0;
    lemma_deliver_channel_grows(s.guilds, s.channels_to_notify, c, s.guilds.len());
    let gs = deliver_channel(s.guilds, s.channels_to_notify, c, s.guilds.len()).0;
    assert(t.guilds == gs);
    if let Some(gi) = s.selected_guild {
        assert(gs[gi as int].channels.len() >= s.guilds[gi as int].channels.len());
    }
}

proof fn lemma_message_keeps_selection(s: JijiView, m: MessageView)
    requires
        selection_valid(s),
    ensures
        selection_valid(packet_step(s, PacketView::Message(m)).0),
{
    let t = packet_step(s, PacketView::Message(m)).0;
    assert(t.guilds == deliver_message(s.guilds, m));
    if let Some(gi) = last_guild(s.guilds, m.guild_id) {
        lemma_last_guild(s.guilds, m.guild_id);
        lemma_last_channel(s.guilds[gi].channels, m.channel_id);
        if let Some(sg) = s.selected_guild {
            assert(t.guilds[sg as int].channels.len() >= s.guilds[sg as int].channels.len());
        }
    }
}

proof fn lemma_end_keeps_selection(s: JijiView, g: Seq<char>, c: Seq<char>)
    requires
        selection_valid(s),
    ensures
        selection_valid(packet_step(s, PacketView::ChannelEnd(g, c)).0),
{
    let t = packet_step(s, PacketView::ChannelEnd(g, c)).0;
    assert(t.guilds == deliver_end(s.guilds, g, c));
    if let Some(gi) = last_guild(s.guilds, g) {
        lemma_last_guild(s.guilds, g);
        if let Some(sg) = s.selected_guild {
            assert(t.guilds[sg as int].channels.len() == s.guilds[sg as int].channels.len());
        }
    }
}

/// No packet from the bot leaves the selection pointing nowhere: guilds and
/// channels are only ever added.
pub proof fn lemma_packet_keeps_selection(s: JijiView, p: PacketView)
    requires
        selection_valid(s),
    ensures
        selection_valid(packet_step(s, p).0),
{
    let t = packet_step(s, p).0;
    match p {
        PacketView::Channel(c) => {
            lemma_channel_keeps_selection(s, c);
        },
        PacketView::Guild(g) => {
            if let Some(gi) = s.selected_guild {
                assert(t.guilds[gi as int] == s.guilds[gi as int]);
            }
        },
        PacketView::Message(m) => {
            lemma_message_keeps_selection(s, m);
        },
        PacketView::ChannelEnd(g, c) => {
            lemma_end_keeps_selection(s, g, c);
        },
        _ => {},
    }
}

/// Where `last_guild` points.
proof fn lemma_last_guild(gs: Seq<GuildView>, id: Seq<char>)
    ensures
        last_guild(gs, id) matches Some(i) ==> 0 <= i < gs.len() && gs[i].id == id,
    decreases gs.len(),
{
    if gs.len() > 0 {
        lemma_last_guild(gs.drop_last(), id);
    }
}

/// Where `last_channel` points.
proof fn lemma_last_channel(cs: Seq<ChannelView>, id: Seq<char>)
    ensures
        last_channel(cs, id) matches Some(i) ==> 0 <= i < cs.len() && cs[i].id == id,
    decreases cs.len(),
{
    if cs.len() > 0 {
        lemma_last_channel(cs.drop_last(), id);
    }
}

/// A message for a guild the client knows is kept: some channel of that guild
/// holds it afterwards.
pub proof fn lemma_message_kept(guilds: Seq<GuildView>, m: MessageView)
    requires
        last_guild(guilds, m.guild_id) is Some,
    ensures
        ({
            let gi = last_guild(guilds, m.guild_id)->0;
            exists|c: int|
                0 <= c < deliver_message(guilds, m)[gi].channels.len() && (#[trigger] deliver_message(
                    guilds,
                    m,
                )[gi].channels[c]).messages.contains(m)
        }),
{
    let gi = last_guild(guilds, m.guild_id)->0;
    lemma_last_guild(guilds, m.guild_id);
    lemma_last_channel(guilds[gi].channels, m.channel_id);
    let g = guilds[gi];
    let ci = match last_channel(g.channels, m.channel_id) {
        Some(ci) => ci,
        None => g.channels.len() as int,
    };
    let chans = match last_channel(g.channels, m.channel_id) {
        Some(ci) => g.channels,
        None => g.channels.push(new_channel(m.channel_id, m.channel_id, m.guild_id)),
    };
    let c2 = channel_insert(chans[ci], m);
    match crate::discord_structure::timestamp_slot(chans[ci].messages, m.timestamp) {
        Some(k) => {
            crate::discord_structure::lemma_slot_among(
                crate::time::rfc2822_instant(m.timestamp)->0,
                chans[ci].messages.map_values(|x: MessageView| crate::discord_structure::stamp_of(x)),
            );
            assert(c2.messages[k as int] == m);
        },
        None => {
            assert(c2.messages[c2.messages.len() - 1] == m);
        },
    }
    assert(deliver_message(guilds, m)[gi].channels[ci] == c2);
}

/// A message from the bot never turns a guild from unread to read: every
/// guild that was unread stays unread, and a guild is unread afterwards only
/// if it was before or one of its channels now is.
pub proof fn lemma_message_keeps_unread_guilds(s: JijiView, m: MessageView)
    ensures
        packet_step(s, PacketView::Message(m)).0.guilds.len() == s.guilds.len(),
        forall|k: int|
            0 <= k < s.guilds.len() && s.guilds[k].unread ==> (#[trigger] packet_step(
                s,
                PacketView::Message(m),
            ).0.guilds[k]).unread,
        forall|k: int|
            0 <= k < s.guilds.len() && (#[trigger] packet_step(s, PacketView::Message(m)).0.guilds[k]).unread
                ==> s.guilds[k].unread || any_unread(packet_step(s, PacketView::Message(m)).0.guilds[k]),
{
    let guilds = s.guilds;
    let after = packet_step(s, PacketView::Message(m)).0.guilds;
    assert(after == deliver_message(guilds, m));
    lemma_last_guild(guilds, m.guild_id);
    if let Some(gi) = last_guild(guilds, m.guild_id) {
        lemma_last_channel(guilds[gi].channels, m.channel_id);
        let g = guilds[gi];
        let ci = match last_channel(g.channels, m.channel_id) {
            Some(ci) => ci,
            None => g.channels.len() as int,
        };
        let chans = match last_channel(g.channels, m.channel_id) {
            Some(ci) => g.channels,
            None => g.channels.push(new_channel(m.channel_id, m.channel_id, m.guild_id)),
        };
        let c2 = channel_insert(chans[ci], m);
        assert(after[gi].channels[ci] == c2);
        assert(0 <= ci < after[gi].channels.len());
        assert forall|k: int|
            0 <= k < s.guilds.len() && (#[trigger] after[k]).unread implies s.guilds[k].unread || any_unread(
                after[k],
            ) by {
            if k == gi && !s.guilds[k].unread {
                assert(after[gi].channels[ci].unread);
            }
        }
    }
}

/// Setting an entry keeps every id once.
proof fn lemma_pairs_insert_distinct(pairs: Seq<(Seq<char>, Seq<char>)>, entry: (Seq<char>, Seq<char>))
    requires
        distinct_keys(pairs),
    ensures
        distinct_keys(pairs_insert(pairs, entry)),
        pairs_map(pairs_insert(pairs, entry)) == pairs_map(pairs).insert(entry.0, entry.1),
{
    lemma_first_position(keys(pairs), entry.0);
    match first_position(keys(pairs), entry.0) {
        Some(p) => {
            let q = pairs.update(p, entry);
            assert(keys(pairs)[p] == pairs[p].0);
            assert(distinct_keys(q)) by {
                assert forall|i: int, j: int|
                    0 <= i < q.len() && 0 <= j < q.len() && i != j implies (#[trigger] q[i]).0 != (
                    #[trigger] q[j]).0 by {
                    assert(pairs[i].0 == keys(pairs)[i]);
                    assert(pairs[j].0 == keys(pairs)[j]);
                }
            }
            lemma_pairs_map_index(pairs);
            lemma_pairs_map_index(q);
            let m1 = pairs_map(q);
            let m2 = pairs_map(pairs).insert(entry.0, entry.1);
            assert(q[p] == entry);
            assert(pairs_map(q).contains_key(entry.0));
            assert forall|k: Seq<char>| m1.contains_key(k) <==> m2.contains_key(k) by {
                if pairs_map(q).contains_key(k) {
                    let i = choose|i: int| 0 <= i < q.len() && (#[trigger] q[i]).0 == k;
                    if i != p {
                        assert(pairs[i] == q[i]);
                        assert(pairs_map(pairs).contains_key(k));
                    }
                }
                if k != entry.0 && pairs_map(pairs).contains_key(k) {
                    let i = choose|i: int| 0 <= i < pairs.len() && (#[trigger] pairs[i]).0 == k;
                    assert(q[i] == pairs[i]);
                    assert(pairs_map(q).contains_key(k));
                }
            }
            assert forall|k: Seq<char>| m1.contains_key(k) implies m1[k] == m2[k] by {
                let i = choose|i: int| 0 <= i < q.len() && (#[trigger] q[i]).0 == k;
                if i != p {
                    assert(pairs[i] == q[i]);
                }
            }
            assert(m1 =~= m2);
        },
        None => {
            assert(pairs.push(entry).drop_last() =~= pairs);
            assert(distinct_keys(pairs.push(entry))) by {
                assert forall|i: int| 0 <= i < pairs.len() implies (#[trigger] pairs[i]).0 != entry.0 by {
                    assert(keys(pairs)[i] == pairs[i].0);
                }
            }
        },
    }
}

/// With each id once, the map holds exactly the entries.
proof fn lemma_pairs_map_index(pairs: Seq<(Seq<char>, Seq<char>)>)
    requires
        distinct_keys(pairs),
    ensures
        forall|i: int|
            0 <= i < pairs.len() ==> pairs_map(pairs).contains_key((#[trigger] pairs[i]).0)
                && pairs_map(pairs)[pairs[i].0] == pairs[i].1,
        forall|k: Seq<char>|
            #[trigger] pairs_map(pairs).contains_key(k) ==> exists|i: int|
                0 <= i < pairs.len() && (#[trigger] pairs[i]).0 == k,
    decreases pairs.len(),
{
    if pairs.len() > 0 {
        let init = pairs.drop_last();
        assert(distinct_keys(init)) by {
            assert forall|i: int, j: int|
                0 <= i < init.len() && 0 <= j < init.len() && i != j implies (#[trigger] init[i]).0 != (
                #[trigger] init[j]).0 by {
                assert(init[i] == pairs[i] && init[j] == pairs[j]);
            }
        }
        lemma_pairs_map_index(init);
        assert forall|i: int| 0 <= i < pairs.len() implies pairs_map(pairs).contains_key(
            (#[trigger] pairs[i]).0,
        ) && pairs_map(pairs)[pairs[i].0] == pairs[i].1 by {
            if i < pairs.len() - 1 {
                assert(init[i] == pairs[i]);
                assert(pairs[i].0 != pairs[pairs.len() - 1].0);
            }
        }
        assert forall|k: Seq<char>| #[trigger] pairs_map(pairs).contains_key(k) implies exists|i: int|
            0 <= i < pairs.len() && (#[trigger] pairs[i]).0 == k by {
            if k != pairs.last().0 {
                assert(pairs_map(init).contains_key(k));
                let i = choose|i: int| 0 <= i < init.len() && (#[trigger] init[i]).0 == k;
                assert(pairs[i] == init[i]);
            } else {
                assert(pairs[pairs.len() - 1].0 == k);
            }
        }
    }
}

/// Setting entries in turn keeps every id once, and gives the map in which the
/// last name of each id wins.
proof fn lemma_pairs_insert_all(list: Seq<(Seq<char>, Seq<char>)>)
    ensures
        distinct_keys(pairs_insert_all(Seq::empty(), list)),
        pairs_map(pairs_insert_all(Seq::empty(), list)) == pairs_map(list),
    decreases list.len(),
{
    if list.len() > 0 {
        lemma_pairs_insert_all(list.drop_last());
        lemma_pairs_insert_distinct(pairs_insert_all(Seq::empty(), list.drop_last()), list.last());
    }
}

/// The saved state names each direct-message channel once, by the last name
/// the client holds for its id.
pub proof fn lemma_saved_direct_messages(s: JijiView)
    ensures
        distinct_keys(saved_state(s).dm_channels),
        pairs_map(saved_state(s).dm_channels) == pairs_map(dm_entries(s.guilds)),
{
    lemma_pairs_insert_all(dm_entries(s.guilds));
}

proof fn lemma_notify_ids_of_concat(a: Seq<ChannelView>, b: Seq<ChannelView>)
    ensures
        notify_ids_of(a + b) == notify_ids_of(a) + notify_ids_of(b),
    decreases b.len(),
{
    if b.len() == 0 {
        assert(a + b =~= a);
        assert(notify_ids_of(a) + notify_ids_of(b) =~= notify_ids_of(a));
    } else {
        lemma_notify_ids_of_concat(a, b.drop_last());
        assert((a + b).drop_last() =~= a + b.drop_last());
        assert((a + b).last() == b.last());
        assert(notify_ids_of(a + b) =~= notify_ids_of(a) + notify_ids_of(b));
    }
}

/// The guild of direct messages built from the saved channels holds them,
/// newest first, and the channels it notifies are those it took off the list.
proof fn lemma_dm_setup(pairs: Seq<(Seq<char>, Seq<char>)>, waiting: Seq<Seq<char>>, k: nat)
    requires
        distinct_keys(pairs),
        k <= pairs.len(),
    ensures
        dm_setup(pairs, waiting, k).0.id == dm_id(),
        dm_setup(pairs, waiting, k).0.channels.len() == k,
        forall|j: int|
            0 <= j < k ==> (#[trigger] dm_setup(pairs, waiting, k).0.channels[k - 1 - j]).id == pairs[j].0
                && dm_setup(pairs, waiting, k).0.channels[k - 1 - j].name == pairs[j].1,
        dm_setup(pairs, waiting, k).1.to_multiset().add(
            notify_ids_of(dm_setup(pairs, waiting, k).0.channels).to_multiset(),
        ) == waiting.to_multiset(),
    decreases k,
{
    broadcast use vstd::seq_lib::group_to_multiset_ensures, vstd::seq_lib::lemma_multiset_commutative, vstd::multiset::group_multiset_axioms;

    if k == 0 {
        let g = dm_setup(pairs, waiting, k).0;
        assert(notify_ids_of(g.channels) =~= Seq::<Seq<char>>::empty());
        assert(waiting.to_multiset().add(Seq::<Seq<char>>::empty().to_multiset()) =~= waiting.to_multiset());
    } else {
        lemma_dm_setup(pairs, waiting, (k - 1) as nat);
        let (g0, w0) = dm_setup(pairs, waiting, (k - 1) as nat);
        let id = pairs[k - 1].0;
        let (hit, w1) = take_notify(w0, id);
        let c2 = with_notify(new_channel(pairs[k - 1].1, id, dm_id()), hit);
        assert forall|i: int| 0 <= i < g0.channels.len() implies (#[trigger] g0.channels[i]).id != id by {
            let j = k - 2 - i;
            assert(g0.channels[k - 1 - 1 - j] == g0.channels[i]);
            assert(pairs[j].0 != pairs[k - 1].0);
        }
        assert(!crate::discord_structure::has_channel(g0, id));
        let g = dm_setup(pairs, waiting, k).0;
        assert(g.channels == g0.channels.insert(0, c2));
        assert forall|j: int| 0 <= j < k implies (#[trigger] g.channels[k - 1 - j]).id == pairs[j].0
            && g.channels[k - 1 - j].name == pairs[j].1 by {
            if j < k - 1 {
                assert(g.channels[k - 1 - j] == g0.channels[k - 1 - 1 - j]);
            }
        }
        assert(g0.channels.insert(0, c2) =~= seq![c2] + g0.channels);
        lemma_notify_ids_of_concat(seq![c2], g0.channels);
        assert(seq![c2].drop_last() =~= Seq::<ChannelView>::empty());
        assert(seq![c2].last() == c2);
        assert(notify_ids_of(Seq::<ChannelView>::empty()) == Seq::<Seq<char>>::empty());
        lemma_first_position(w0, id);
        if hit {
            let pos = first_position(w0, id)->0;
            assert(notify_ids_of(seq![c2]) =~= seq![id]);
            assert(w0.remove(pos).to_multiset() == w0.to_multiset().remove(w0[pos]));
            assert(w0.to_multiset().count(id) > 0);
            assert(w1.to_multiset().add(notify_ids_of(g.channels).to_multiset()) =~= w0.to_multiset().add(
                notify_ids_of(g0.channels).to_multiset(),
            ));
        } else {
            assert(notify_ids_of(seq![c2]) =~= Seq::<Seq<char>>::empty());
            assert(notify_ids_of(g.channels) =~= notify_ids_of(g0.channels));
        }
    }
}

proof fn lemma_concat_contains(a: Seq<Seq<char>>, b: Seq<Seq<char>>, x: Seq<char>)
    ensures
        (a + b).contains(x) <==> a.contains(x) || b.contains(x),
{
    if (a + b).contains(x) {
        let i = choose|i: int| 0 <= i < (a + b).len() && (a + b)[i] == x;
        if i >= a.len() {
            assert(b[i - a.len()] == x);
        }
    }
    if a.contains(x) {
        let i = choose|i: int| 0 <= i < a.len() && a[i] == x;
        assert((a + b)[i] == x);
    }
    if b.contains(x) {
        let i = choose|i: int| 0 <= i < b.len() && b[i] == x;
        assert((a + b)[a.len() + i] == x);
    }
}

proof fn lemma_remove_contains(w: Seq<Seq<char>>, p: int, x: Seq<char>)
    requires
        0 <= p < w.len(),
        w[p] != x,
    ensures
        w.remove(p).contains(x) <==> w.contains(x),
{
    let r = w.remove(p);
    if r.contains(x) {
        let i = choose|i: int| 0 <= i < r.len() && r[i] == x;
        if i < p {
            assert(w[i] == x);
        } else {
            assert(w[i + 1] == x);
        }
    }
    if w.contains(x) {
        let i = choose|i: int| 0 <= i < w.len() && w[i] == x;
        if i < p {
            assert(r[i] == x);
        } else {
            assert(r[i - 1] == x);
        }
    }
}

/// Some channel of some guild with this id notifies.
pub open spec fn notifies_somewhere(gs: Seq<GuildView>, id: Seq<char>) -> bool {
    exists|g: int, c: int|
        0 <= g < gs.len() && 0 <= c < gs[g].channels.len() && (#[trigger] gs[g].channels[c]).id == id
            && gs[g].channels[c].notify
}

proof fn lemma_notify_ids_of_contains(cs: Seq<ChannelView>, x: Seq<char>)
    ensures
        notify_ids_of(cs).contains(x) <==> exists|c: int|
            0 <= c < cs.len() && (#[trigger] cs[c]).id == x && cs[c].notify,
    decreases cs.len(),
{
    if cs.len() > 0 {
        lemma_notify_ids_of_contains(cs.drop_last(), x);
        let last = if cs.last().notify {
            seq![cs.last().id]
        } else {
            Seq::<Seq<char>>::empty()
        };
        lemma_concat_contains(notify_ids_of(cs.drop_last()), last, x);
        if exists|c: int| 0 <= c < cs.len() && (#[trigger] cs[c]).id == x && cs[c].notify {
            let c = choose|c: int| 0 <= c < cs.len() && (#[trigger] cs[c]).id == x && cs[c].notify;
            if c < cs.len() - 1 {
                assert(cs.drop_last()[c] == cs[c]);
            } else {
                assert(last[0] == x);
            }
        }
        if notify_ids_of(cs.drop_last()).contains(x) {
            let c = choose|c: int|
                0 <= c < cs.drop_last().len() && (#[trigger] cs.drop_last()[c]).id == x && cs.drop_last()[c].notify;
            assert(cs[c] == cs.drop_last()[c]);
        }
        if last.contains(x) {
            assert(cs[cs.len() - 1] == cs.last());
        }
    }
}

proof fn lemma_notify_ids_contains(gs: Seq<GuildView>, x: Seq<char>)
    ensures
        notify_ids(gs).contains(x) <==> notifies_somewhere(gs, x),
    decreases gs.len(),
{
    if gs.len() > 0 {
        let init = gs.drop_last();
        lemma_notify_ids_contains(init, x);
        lemma_notify_ids_of_contains(gs.last().channels, x);
        lemma_concat_contains(notify_ids(init), notify_ids_of(gs.last().channels), x);
        if notifies_somewhere(gs, x) {
            let (g, c) = choose|g: int, c: int|
                0 <= g < gs.len() && 0 <= c < gs[g].channels.len() && (#[trigger] gs[g].channels[c]).id == x
                    && gs[g].channels[c].notify;
            if g < gs.len() - 1 {
                assert(init[g] == gs[g]);
                assert(notifies_somewhere(init, x));
            } else {
                assert(gs.last().channels[c] == gs[g].channels[c]);
            }
        }
        if notifies_somewhere(init, x) {
            let (g, c) = choose|g: int, c: int|
                0 <= g < init.len() && 0 <= c < init[g].channels.len() && (#[trigger] init[g].channels[c]).id
                    == x && init[g].channels[c].notify;
            assert(init[g] == gs[g]);
        }
        if exists|c: int|
            0 <= c < gs.last().channels.len() && (#[trigger] gs.last().channels[c]).id == x
                && gs.last().channels[c].notify {
            let c = choose|c: int|
                0 <= c < gs.last().channels.len() && (#[trigger] gs.last().channels[c]).id == x
                    && gs.last().channels[c].notify;
            assert(gs[gs.len() - 1].channels[c] == gs.last().channels[c]);
        }
    }
}

/// In the guild of direct messages built from the first `k` saved channels,
/// a channel notifies exactly when its id was in the list of channels to
/// notify; the list keeps every id not among those channels.
proof fn lemma_dm_setup_notify(pairs: Seq<(Seq<char>, Seq<char>)>, waiting: Seq<Seq<char>>, k: nat)
    requires
        distinct_keys(pairs),
        k <= pairs.len(),
    ensures
        forall|j: int|
            0 <= j < k ==> (#[trigger] dm_setup(pairs, waiting, k).0.channels[k - 1 - j]).notify
                == waiting.contains(pairs[j].0),
        forall|x: Seq<char>|
            (forall|j: int| 0 <= j < k ==> pairs[j].0 != x) ==> (#[trigger] dm_setup(
                pairs,
                waiting,
                k,
            ).1.contains(x) == waiting.contains(x)),
    decreases k,
{
    if k > 0 {
        lemma_dm_setup_notify(pairs, waiting, (k - 1) as nat);
        lemma_dm_setup(pairs, waiting, (k - 1) as nat);
        let (g0, w0) = dm_setup(pairs, waiting, (k - 1) as nat);
        let id = pairs[k - 1].0;
        let (hit, w1) = take_notify(w0, id);
        let c2 = with_notify(new_channel(pairs[k - 1].1, id, dm_id()), hit);
        assert forall|i: int| 0 <= i < g0.channels.len() implies (#[trigger] g0.channels[i]).id != id by {
            let j = k - 2 - i;
            assert(g0.channels[k - 1 - 1 - j] == g0.channels[i]);
            assert(pairs[j].0 != pairs[k - 1].0);
        }
        assert(!crate::discord_structure::has_channel(g0, id));
        let (g, w) = dm_setup(pairs, waiting, k);
        assert(g.channels == g0.channels.insert(0, c2));
        assert(w == w1);
        lemma_first_position(w0, id);
        assert(hit == w0.contains(id)) by {
            if hit {
                let pos = first_position(w0, id)->0;
                assert(w0[pos] == id);
            }
        }
        assert(forall|j: int| 0 <= j < k - 1 ==> pairs[j].0 != id) by {
            assert forall|j: int| 0 <= j < k - 1 implies pairs[j].0 != id by {
                assert(pairs[j].0 != pairs[k - 1].0);
            }
        }
        assert(w0.contains(id) == waiting.contains(id));
        assert forall|j: int| 0 <= j < k implies (#[trigger] g.channels[k - 1 - j]).notify == waiting.contains(
            pairs[j].0,
        ) by {
            if j < k - 1 {
                assert(g.channels[k - 1 - j] == g0.channels[k - 1 - 1 - j]);
            }
        }
        assert forall|x: Seq<char>| (forall|j: int| 0 <= j < k ==> pairs[j].0 != x) implies (
        #[trigger] w.contains(x)) == waiting.contains(x) by {
            assert(forall|j: int| 0 <= j < k - 1 ==> pairs[j].0 != x);
            assert(w0.contains(x) == waiting.contains(x));
            assert(pairs[k - 1].0 != x);
            if hit {
                let pos = first_position(w0, id)->0;
                lemma_remove_contains(w0, pos, x);
            }
        }
    }
}

/// The guild of direct messages a client starts with maps each saved id to
/// its saved name.
proof fn lemma_loaded_direct_messages(st: AppStateView)
    requires
        distinct_keys(st.dm_channels),
    ensures
        pairs_map(dm_entries(initial_view(st).guilds)) == pairs_map(st.dm_channels),
{
    let pairs = st.dm_channels;
    let k = pairs.len();
    lemma_dm_setup(pairs, st.channels_to_notify, k);
    let dms = dm_setup(pairs, st.channels_to_notify, k).0;
    let s = initial_view(st);
    assert(s.guilds == seq![dms]);
    assert(seq![dms].drop_last() =~= Seq::<GuildView>::empty());
    let e = dms.channels.map_values(|c: ChannelView| (c.id, c.name));
    assert(seq![dms].last() == dms);
    assert(dm_entries(Seq::<GuildView>::empty()) == Seq::<(Seq<char>, Seq<char>)>::empty());
    assert(dm_entries_of(dms) == e);
    assert(dm_entries(s.guilds) =~= e);
    assert forall|i: int| 0 <= i < k implies #[trigger] e[i] == pairs[k - 1 - i] by {
        assert(dms.channels[k - 1 - (k - 1 - i)] == dms.channels[i]);
    }
    assert(distinct_keys(e)) by {
        assert forall|i: int, j: int| 0 <= i < e.len() && 0 <= j < e.len() && i != j implies (
        #[trigger] e[i]).0 != (#[trigger] e[j]).0 by {
            assert(e[i] == pairs[k - 1 - i] && e[j] == pairs[k - 1 - j]);
        }
    }
    lemma_pairs_map_index(e);
    lemma_pairs_map_index(pairs);
    let m1 = pairs_map(e);
    let m2 = pairs_map(pairs);
    assert forall|key: Seq<char>| m1.contains_key(key) <==> m2.contains_key(key) by {
        if pairs_map(e).contains_key(key) {
            let i = choose|i: int| 0 <= i < e.len() && (#[trigger] e[i]).0 == key;
            assert(pairs[k - 1 - i].0 == key);
        }
        if pairs_map(pairs).contains_key(key) {
            let i = choose|i: int| 0 <= i < pairs.len() && (#[trigger] pairs[i]).0 == key;
            assert(e[k - 1 - i] == pairs[i]);
        }
    }
    assert forall|key: Seq<char>| m1.contains_key(key) implies m1[key] == m2[key] by {
        let i = choose|i: int| 0 <= i < e.len() && (#[trigger] e[i]).0 == key;
        assert(pairs[k - 1 - i] == e[i]);
    }
    assert(m1 =~= m2);
}

/// Loading a saved state and saving it again keeps the direct-message
/// channels: the state saved maps each id to the name it was loaded with.
pub proof fn lemma_restart_keeps_direct_messages(st: AppStateView)
    requires
        distinct_keys(st.dm_channels),
    ensures
        pairs_map(saved_state(initial_view(st)).dm_channels) == pairs_map(st.dm_channels),
{
    lemma_loaded_direct_messages(st);
    lemma_saved_direct_messages(initial_view(st));
}

/// Saving the client, whatever happened while it ran, and starting again from
/// what it saved keeps the direct-message channels: the client starts with
/// the token and with one guild, of direct messages, that maps each id to the
/// last name the client held for it; and a channel of it notifies exactly
/// when its id was waiting for notifications or some channel with its id
/// notified.
pub proof fn lemma_reload_keeps_direct_messages(s: JijiView)
    ensures
        initial_view(saved_state(s)).bot_token == s.bot_token,
        initial_view(saved_state(s)).guilds.len() == 1,
        initial_view(saved_state(s)).guilds[0].id == dm_id(),
        pairs_map(dm_entries(initial_view(saved_state(s)).guilds)) == pairs_map(dm_entries(s.guilds)),
        forall|c: int|
            0 <= c < initial_view(saved_state(s)).guilds[0].channels.len() ==> (#[trigger] initial_view(
                saved_state(s),
            ).guilds[0].channels[c]).notify == (s.channels_to_notify.contains(
                initial_view(saved_state(s)).guilds[0].channels[c].id,
            ) || notifies_somewhere(s.guilds, initial_view(saved_state(s)).guilds[0].channels[c].id)),
{
    let st = saved_state(s);
    lemma_saved_direct_messages(s);
    lemma_loaded_direct_messages(st);
    let pairs = st.dm_channels;
    let k = pairs.len();
    lemma_dm_setup(pairs, st.channels_to_notify, k);
    lemma_dm_setup_notify(pairs, st.channels_to_notify, k);
    let dms = dm_setup(pairs, st.channels_to_notify, k).0;
    assert(initial_view(st).guilds[0] == dms);
    assert forall|c: int| 0 <= c < dms.channels.len() implies (#[trigger] dms.channels[c]).notify == (
    s.channels_to_notify.contains(dms.channels[c].id) || notifies_somewhere(s.guilds, dms.channels[c].id)) by {
        let j = k - 1 - c;
        assert(dms.channels[k - 1 - j] == dms.channels[c]);
        lemma_concat_contains(s.channels_to_notify, notify_ids(s.guilds), dms.channels[c].id);
        lemma_notify_ids_contains(s.guilds, dms.channels[c].id);
    }
}

/// Loading a saved state and saving it again keeps which channels notify: the
/// state saved lists the same channel ids, as many times each, as the state
/// it was loaded from.
pub proof fn lemma_restart_keeps_notifications(st: AppStateView)
    requires
        distinct_keys(st.dm_channels),
    ensures
        saved_state(initial_view(st)).channels_to_notify.to_multiset() == st.channels_to_notify.to_multiset(),
{
    broadcast use vstd::seq_lib::lemma_multiset_commutative;

    let pairs = st.dm_channels;
    let k = pairs.len();
    lemma_dm_setup(pairs, st.channels_to_notify, k);
    let (dms, w) = dm_setup(pairs, st.channels_to_notify, k);
    let s = initial_view(st);
    assert(s.guilds == seq![dms]);
    assert(seq![dms].drop_last() =~= Seq::<GuildView>::empty());
    assert(seq![dms].last() == dms);
    assert(notify_ids(Seq::<GuildView>::empty()) == Seq::<Seq<char>>::empty());
    assert(notify_ids(s.guilds) =~= notify_ids_of(dms.channels));
    assert(saved_state(s).channels_to_notify == w + notify_ids_of(dms.channels));
}

impl Jiji {
    /// Whether the client can take the packet: the end of a channel only
    /// comes for channels that still hold a message.
    pub fn accepts_packet(&self, packet: &Packet) -> (res: bool)
        ensures
            res == packet_acceptable(self@, packet@),
    {
        match packet {
            Packet::ChannelEnd(guild_id, channel_id) => {
                match find_last_guild(&self.guilds, guild_id) {
                    None => true,
                    Some(gi) => {
                        let ghost chans = self@.guilds[gi as int].channels;
                        assert(last_guild(self@.guilds, guild_id@)->0 == gi as int);
                        let mut j: usize = 0;
                        while j < self.guilds[gi].channels.len()
                            invariant
                                gi < self.guilds.len(),
                                j <= self.guilds@[gi as int].channels.len(),
                                chans == self@.guilds[gi as int].channels,
                                last_guild(self@.guilds, guild_id@)->0 == gi as int,
                                last_guild(self@.guilds, guild_id@) is Some,
                                packet@ == PacketView::ChannelEnd(guild_id@, channel_id@),
                                forall|k: int|
                                    0 <= k < j && (#[trigger] chans[k]).id == channel_id@
                                        ==> chans[k].messages.len() > 0,
                            decreases self.guilds@[gi as int].channels.len() - j,
                        {
                            assert(self.guilds@[gi as int].channels@[j as int]@ == chans[j as int]);
                            if self.guilds[gi].channels[j].id == *channel_id
                                && self.guilds[gi].channels[j].messages.len() == 0 {
                                assert(self@.guilds[gi as int].channels[j as int].id == channel_id@);
                                assert(self@.guilds[gi as int].channels[j as int].messages.len() == 0);
                                return false;
                            }
                            j = j + 1;
                        }
                        true
                    },
                }
            },
            _ => true,
        }
    }
}

} // verus!
