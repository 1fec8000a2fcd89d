//! The channel-binding table: which Discord channels are bound to which IRC
//! channels. Lookups are directional (by source channel) and total: an
//! unbound channel simply yields no destinations.

use vstd::prelude::*;

verus! {

/// A configured pairing of one channel on each network, establishing a
/// bidirectional relay path.
pub struct Binding {
    /// The Discord channel ID.
    pub discord: u64,
    /// The IRC channel name.
    pub irc: String,
}

impl View for Binding {
    type V = (u64, Seq<char>);

    open spec fn view(&self) -> (u64, Seq<char>) {
        (self.discord, self.irc@)
    }
}

impl DeepView for Binding {
    type V = (u64, Seq<char>);

    open spec fn deep_view(&self) -> (u64, Seq<char>) {
        self@
    }
}

impl Clone for Binding {
    fn clone(&self) -> (r: Self)
        ensures
            r@ == self@,
    {
        Binding { discord: self.discord, irc: self.irc.clone() }
    }
}

/// The Discord channels reached from the named IRC channel: one destination
/// per binding whose IRC side matches, in table order.
pub open spec fn spec_discord_for_irc(bs: Seq<(u64, Seq<char>)>, chan: Seq<char>) -> Seq<u64> {
    bs.filter_map(
        |b: (u64, Seq<char>)|
            if b.1 == chan {
                Some(b.0)
            } else {
                None
            },
    )
}

/// The IRC channels reached from the named Discord channel: one destination
/// per binding whose Discord side matches, in table order.
pub open spec fn spec_irc_for_discord(bs: Seq<(u64, Seq<char>)>, chan: u64) -> Seq<Seq<char>> {
    bs.filter_map(
        |b: (u64, Seq<char>)|
            if b.0 == chan {
                Some(b.1)
            } else {
                None
            },
    )
}

/// Every IRC channel the table references, in table order (duplicates kept).
pub open spec fn spec_irc_channels(bs: Seq<(u64, Seq<char>)>) -> Seq<Seq<char>> {
    bs.map_values(|b: (u64, Seq<char>)| b.1)
}

/// Appending a binding appends its Discord side to the lookup result when
/// its IRC side matches, and changes nothing otherwise.
pub proof fn lemma_discord_for_irc_push(bs: Seq<(u64, Seq<char>)>, b: (u64, Seq<char>), chan: Seq<char>)
    ensures
        spec_discord_for_irc(bs.push(b), chan) == spec_discord_for_irc(bs, chan) + (if b.1 == chan {
            seq![b.0]
        } else {
            Seq::<u64>::empty()
        }),
{
    let s = bs.push(b);
    assert(s.drop_last() =~= bs);
    assert(s.last() == b);
    assert(spec_discord_for_irc(bs, chan) + Seq::<u64>::empty() =~= spec_discord_for_irc(
        bs,
        chan,
    ));
}

/// Appending a binding appends its IRC side to the lookup result when its
/// Discord side matches, and changes nothing otherwise.
pub proof fn lemma_irc_for_discord_push(bs: Seq<(u64, Seq<char>)>, b: (u64, Seq<char>), chan: u64)
    ensures
        spec_irc_for_discord(bs.push(b), chan) == spec_irc_for_discord(bs, chan) + (if b.0 == chan {
            seq![b.1]
        } else {
            Seq::<Seq<char>>::empty()
        }),
{
    let s = bs.push(b);
    assert(s.drop_last() =~= bs);
    assert(s.last() == b);
    assert(spec_irc_for_discord(bs, chan) + Seq::<Seq<char>>::empty() =~= spec_irc_for_discord(
        bs,
        chan,
    ));
}

/// Law: every binding whose IRC side matches the source channel contributes
/// exactly one destination, in table order — the destinations are precisely
/// the Discord sides of the matching bindings, so an inbound event on that
/// channel is delivered once per matching binding.
pub proof fn lemma_each_irc_binding_delivered(bs: Seq<(u64, Seq<char>)>, chan: Seq<char>)
    ensures
        spec_discord_for_irc(bs, chan) == bs.filter(|b: (u64, Seq<char>)| b.1 == chan).map_values(
            |b: (u64, Seq<char>)| b.0,
        ),
    decreases bs.len(),
{
    reveal(Seq::filter);
    if bs.len() == 0 {
        assert(spec_discord_for_irc(bs, chan) =~= bs.filter(
            |b: (u64, Seq<char>)| b.1 == chan,
        ).map_values(|b: (u64, Seq<char>)| b.0));
    } else {
        let rest = bs.drop_last();
        lemma_each_irc_binding_delivered(rest, chan);
        assert(rest.push(bs.last()) =~= bs);
        lemma_discord_for_irc_push(rest, bs.last(), chan);
        assert(spec_discord_for_irc(bs, chan) =~= bs.filter(
            |b: (u64, Seq<char>)| b.1 == chan,
        ).map_values(|b: (u64, Seq<char>)| b.0));
    }
}

/// Law: every binding whose Discord side matches the source channel
/// contributes exactly one destination, in table order (the mirror of
/// `lemma_each_irc_binding_delivered`).
pub proof fn lemma_each_discord_binding_delivered(bs: Seq<(u64, Seq<char>)>, chan: u64)
    ensures
        spec_irc_for_discord(bs, chan) == bs.filter(|b: (u64, Seq<char>)| b.0 == chan).map_values(
            |b: (u64, Seq<char>)| b.1,
        ),
    decreases bs.len(),
{
    reveal(Seq::filter);
    if bs.len() == 0 {
        assert(spec_irc_for_discord(bs, chan) =~= bs.filter(
            |b: (u64, Seq<char>)| b.0 == chan,
        ).map_values(|b: (u64, Seq<char>)| b.1));
    } else {
        let rest = bs.drop_last();
        lemma_each_discord_binding_delivered(rest, chan);
        assert(rest.push(bs.last()) =~= bs);
        lemma_irc_for_discord_push(rest, bs.last(), chan);
        assert(spec_irc_for_discord(bs, chan) =~= bs.filter(
            |b: (u64, Seq<char>)| b.0 == chan,
        ).map_values(|b: (u64, Seq<char>)| b.1));
    }
}

/// Law: a channel present in no binding yields no destinations, in either
/// direction — inbound events on an unbound channel are silently dropped.
pub proof fn lemma_unbound_channel_undelivered(bs: Seq<(u64, Seq<char>)>, irc: Seq<char>, discord: u64)
    requires
        forall|i: int| 0 <= i < bs.len() ==> #[trigger] bs[i].1 != irc,
        forall|i: int| 0 <= i < bs.len() ==> #[trigger] bs[i].0 != discord,
    ensures
        spec_discord_for_irc(bs, irc) == Seq::<u64>::empty(),
        spec_irc_for_discord(bs, discord) == Seq::<Seq<char>>::empty(),
    decreases bs.len(),
{
    if bs.len() == 0 {
        assert(spec_discord_for_irc(bs, irc) =~= Seq::<u64>::empty());
        assert(spec_irc_for_discord(bs, discord) =~= Seq::<Seq<char>>::empty());
    } else {
        let rest = bs.drop_last();
        assert(forall|i: int| 0 <= i < rest.len() ==> #[trigger] rest[i].1 != irc);
        assert(forall|i: int| 0 <= i < rest.len() ==> #[trigger] rest[i].0 != discord);
        lemma_unbound_channel_undelivered(rest, irc, discord);
        assert(rest.push(bs.last()) =~= bs);
        assert(bs[bs.len() - 1].1 != irc);
        lemma_discord_for_irc_push(rest, bs.last(), irc);
        lemma_irc_for_discord_push(rest, bs.last(), discord);
        assert(spec_discord_for_irc(bs, irc) =~= Seq::<u64>::empty());
        assert(spec_irc_for_discord(bs, discord) =~= Seq::<Seq<char>>::empty());
    }
}

/// Law: a lookup only ever names channels that the table itself binds — a
/// destination in the answer always comes from one of the table's own
/// bindings. Together with the wholesale replacement performed by
/// `crate::reload::ConfigStore::swap`, this is the value-level statement of
/// reload atomicity: after a swap installs a new table, no answer can mix in
/// a binding that only the replaced table had.
pub proof fn lemma_destinations_from_table(bs: Seq<(u64, Seq<char>)>, chan: Seq<char>, d: u64)
    requires
        spec_discord_for_irc(bs, chan).contains(d),
    ensures
        bs.contains((d, chan)),
{
    broadcast use vstd::prelude::Seq::lemma_filter_map_contains;

    let f = |b: (u64, Seq<char>)|
        if b.1 == chan {
            Some(b.0)
        } else {
            None
        };
    assert(spec_discord_for_irc(bs, chan).contains(d));
    let t = choose|t: (u64, Seq<char>)| #[trigger] bs.contains(t) && f(t) == Some(d);
    assert(t == (d, chan));
}

/// The mirror of `lemma_destinations_from_table` for the other direction:
/// an IRC destination in the answer always comes from one of the table's own
/// bindings.
pub proof fn lemma_irc_destinations_from_table(bs: Seq<(u64, Seq<char>)>, chan: u64, d: Seq<char>)
    requires
        spec_irc_for_discord(bs, chan).contains(d),
    ensures
        bs.contains((chan, d)),
{
    broadcast use vstd::prelude::Seq::lemma_filter_map_contains;

    let f = |b: (u64, Seq<char>)|
        if b.0 == chan {
            Some(b.1)
        } else {
            None
        };
    assert(spec_irc_for_discord(bs, chan).contains(d));
    let t = choose|t: (u64, Seq<char>)| #[trigger] bs.contains(t) && f(t) == Some(d);
    assert(t == (chan, d));
}

/// A complete binding table. It is replaced wholesale on reload, never
/// mutated in place; its view is the ordered sequence of bindings.
pub struct Config {
    bindings: Vec<Binding>,
}

impl View for Config {
    type V = Seq<(u64, Seq<char>)>;

    closed spec fn view(&self) -> Seq<(u64, Seq<char>)> {
        self.bindings.deep_view()
    }
}

impl Config {
    /// Builds a table from an ordered list of bindings.
    pub fn new(bindings: Vec<Binding>) -> (r: Config)
        ensures
            r@ == bindings.deep_view(),
    {
        Config { bindings }
    }

    /// Returns the Discord channels that should be sent messages from the
    /// named IRC channel.
    pub fn discord_for_irc(&self, irc: &String) -> (r: Vec<u64>)
        ensures
            r@ == spec_discord_for_irc(self@, irc@),
    {
        let mut r: Vec<u64> = Vec::new();
        let n = self.bindings.len();
        let mut i: usize = 0;
        while i < n
            invariant
                n == self.bindings.len(),
                0 <= i <= n,
                r@ == spec_discord_for_irc(self@.take(i as int), irc@),
            decreases n - i,
        {
            assert(self@[i as int] == self.bindings@[i as int].deep_view());
            if self.bindings[i].irc == *irc {
                r.push(self.bindings[i].discord);
            }
            proof {
                assert(self@.take(i + 1) =~= self@.take(i as int).push(self@[i as int]));
                lemma_discord_for_irc_push(self@.take(i as int), self@[i as int], irc@);
            }
            i += 1;
        }
        assert(self@.take(n as int) =~= self@);
        r
    }

    /// Returns the IRC channels that should be sent messages from the named
    /// Discord channel.
    pub fn irc_for_discord(&self, discord: u64) -> (r: Vec<String>)
        ensures
            r.deep_view() == spec_irc_for_discord(self@, discord),
    {
        let mut r: Vec<String> = Vec::new();
        let n = self.bindings.len();
        let mut i: usize = 0;
        while i < n
            invariant
                n == self.bindings.len(),
                0 <= i <= n,
                r.deep_view() == spec_irc_for_discord(self@.take(i as int), discord),
            decreases n - i,
        {
            assert(self@[i as int] == self.bindings@[i as int].deep_view());
            let ghost prev = r.deep_view();
            if self.bindings[i].discord == discord {
                r.push(self.bindings[i].irc.clone());
                assert(r.deep_view() =~= prev.push(self.bindings@[i as int].irc@));
            }
            proof {
                assert(self@.take(i + 1) =~= self@.take(i as int).push(self@[i as int]));
                lemma_irc_for_discord_push(self@.take(i as int), self@[i as int], discord);
            }
            i += 1;
        }
        assert(self@.take(n as int) =~= self@);
        r
    }

    /// Returns every IRC channel the table references (the channels that
    /// should be joined), in table order.
    pub fn irc_channels(&self) -> (r: Vec<String>)
        ensures
            r.deep_view() == spec_irc_channels(self@),
    {
        let mut r: Vec<String> = Vec::new();
        let n = self.bindings.len();
        let mut i: usize = 0;
        while i < n
            invariant
                n == self.bindings.len(),
                0 <= i <= n,
                r.deep_view() == spec_irc_channels(self@.take(i as int)),
            decreases n - i,
        {
            assert(self@[i as int] == self.bindings@[i as int].deep_view());
            let ghost prev = r.deep_view();
            r.push(self.bindings[i].irc.clone());
            assert(r.deep_view() =~= prev.push(self.bindings@[i as int].irc@));
            assert(spec_irc_channels(self@.take(i + 1)) =~= spec_irc_channels(
                self@.take(i as int),
            ).push(self@[i as int].1));
            i += 1;
        }
        assert(self@.take(n as int) =~= self@);
        r
    }

    /// The number of bindings in the table.
    pub fn len(&self) -> (r: usize)
        ensures
            r == self@.len(),
    {
        self.bindings.len()
    }
}

} // verus!
