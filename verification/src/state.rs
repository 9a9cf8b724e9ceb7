//! What the client keeps between runs.

use vstd::prelude::*;

verus! {

/// The saved state: the bot's token, the channels whose notifications are on,
/// and the direct-message channels (id and name, each id once).
pub struct AppState {
    pub bot_token: String,
    pub channels_to_notify: Vec<String>,
    pub dm_channels: Vec<(String, String)>,
}

/// What the saved state holds.
pub struct AppStateView {
    pub bot_token: Seq<char>,
    pub channels_to_notify: Seq<Seq<char>>,
    pub dm_channels: Seq<(Seq<char>, Seq<char>)>,
}

impl View for AppState {
    type V = AppStateView;

    open spec fn view(&self) -> AppStateView {
        AppStateView {
            bot_token: self.bot_token@,
            channels_to_notify: self.channels_to_notify@.map_values(|s: String| s@),
            dm_channels: self.dm_channels@.map_values(|p: (String, String)| (p.0@, p.1@)),
        }
    }
}

/// No id stands twice among the direct-message channels.
pub open spec fn distinct_keys(pairs: Seq<(Seq<char>, Seq<char>)>) -> bool {
    forall|i: int, j: int|
        0 <= i < pairs.len() && 0 <= j < pairs.len() && i != j ==> (#[trigger] pairs[i]).0 != (
        #[trigger] pairs[j]).0
}

/// The direct-message channels as a map from id to name.
pub open spec fn pairs_map(pairs: Seq<(Seq<char>, Seq<char>)>) -> Map<Seq<char>, Seq<char>>
    decreases pairs.len(),
{
    if pairs.len() == 0 {
        Map::empty()
    } else {
        pairs_map(pairs.drop_last()).insert(pairs.last().0, pairs.last().1)
    }
}

impl AppState {
    /// The state is well formed: it names each direct-message channel once.
    pub open spec fn wf(&self) -> bool {
        distinct_keys(self@.dm_channels)
    }
}

impl AppState {
    /// Whether each direct-message channel is named once.
    pub fn has_distinct_ids(&self) -> (res: bool)
        ensures
            res == self.wf(),
    {
        let ghost pairs = self@.dm_channels;
        let mut i: usize = 0;
        while i < self.dm_channels.len()
            invariant
                i <= self.dm_channels.len(),
                pairs == self@.dm_channels,
                forall|a: int, b: int|
                    0 <= a < i && 0 <= b < pairs.len() && a != b ==> (#[trigger] pairs[a]).0 != (
                    #[trigger] pairs[b]).0,
            decreases self.dm_channels.len() - i,
        {
            let mut j: usize = 0;
            while j < self.dm_channels.len()
                invariant
                    i < self.dm_channels.len(),
                    j <= self.dm_channels.len(),
                    pairs == self@.dm_channels,
                    forall|a: int, b: int|
                        0 <= a < i && 0 <= b < pairs.len() && a != b ==> (#[trigger] pairs[a]).0 != (
                        #[trigger] pairs[b]).0,
                    forall|b: int| 0 <= b < j && b != i ==> pairs[i as int].0 != (#[trigger] pairs[b]).0,
                decreases self.dm_channels.len() - j,
            {
                assert(pairs[i as int].0 == self.dm_channels@[i as int].0@);
                assert(pairs[j as int].0 == self.dm_channels@[j as int].0@);
                if j != i && self.dm_channels[i].0 == self.dm_channels[j].0 {
                    return false;
                }
                j = j + 1;
            }
            i = i + 1;
        }
        true
    }
}

impl Default for AppState {
    /// No token, no notifications, no direct-message channels.
    fn default() -> (res: Self)
        ensures
            res@.bot_token == Seq::<char>::empty(),
            res@.channels_to_notify == Seq::<Seq<char>>::empty(),
            res@.dm_channels == Seq::<(Seq<char>, Seq<char>)>::empty(),
    {
        let res = Self { bot_token: String::new(), channels_to_notify: Vec::new(), dm_channels: Vec::new() };
        assert(res@.channels_to_notify =~= Seq::<Seq<char>>::empty());
        assert(res@.dm_channels =~= Seq::<(Seq<char>, Seq<char>)>::empty());
        res
    }
}

} // verus!
