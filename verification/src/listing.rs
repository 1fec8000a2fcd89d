//! Decision logic for the channel-listing front end: collecting the IRC
//! channel list from the server's LIST conversation, collecting each Discord
//! guild's text channels as guilds arrive, and turning a combined listing
//! into a ready-to-use binding table.

use vstd::prelude::*;

use crate::config::Binding;

verus! {

use vstd::string::StringExecFns;

/// A listing of all available channels on both networks.
pub struct Channels {
    /// The available IRC channels.
    pub irc: Vec<String>,
    /// Each available Discord guild, by name, with its text channels as
    /// (name, ID) pairs, in the order the guilds were collected.
    pub discord: Vec<(String, Vec<(String, u64)>)>,
}

/// One protocol event relevant to the IRC LIST conversation, as a closed
/// tagged variant translated by the adapter shim.
pub enum IrcListEvent {
    /// A LIST reply naming one channel.
    ListEntry(String),
    /// The end of the LIST replies.
    ListEnd,
    /// The end of the server's message of the day: the connection is ready.
    EndOfMotd,
    /// Anything else; ignored.
    Other,
}

/// What the caller must do after feeding one event to the lister.
pub enum IrcListAction {
    /// Nothing.
    Stay,
    /// Send the LIST request: the connection has become ready.
    RequestList,
    /// The listing is complete; collect it with `take_names`.
    Finished,
}

/// Folds the IRC LIST conversation into the list of channel names: channels
/// named by LIST replies accumulate in arrival order until the end-of-list
/// reply, and the LIST request itself is issued once the connection is ready.
pub struct ChannelLister {
    names: Vec<String>,
    done: bool,
}

impl ChannelLister {
    /// The channel names collected so far, in arrival order.
    pub closed spec fn names(&self) -> Seq<Seq<char>> {
        self.names.deep_view()
    }

    /// Whether the end of the list has been seen.
    pub closed spec fn is_done(&self) -> bool {
        self.done
    }

    /// A lister that has seen nothing yet.
    pub fn new() -> (r: ChannelLister)
        ensures
            r.names() == Seq::<Seq<char>>::empty(),
            !r.is_done(),
    {
        let r = ChannelLister { names: Vec::new(), done: false };
        proof {
            assert(r.names() =~= Seq::<Seq<char>>::empty());
        }
        r
    }

    /// Advances the fold by one event: a LIST reply appends its channel name
    /// and nothing else changes; the end of the list finishes the fold; the
    /// ready signal asks the caller to send the LIST request; anything else
    /// changes nothing.
    pub fn on_event(&mut self, ev: IrcListEvent) -> (act: IrcListAction)
        ensures
            match ev {
                IrcListEvent::ListEntry(name) => {
                    &&& final(self).names() == old(self).names().push(name@)
                    &&& final(self).is_done() == old(self).is_done()
                    &&& act is Stay
                },
                IrcListEvent::ListEnd => {
                    &&& final(self).names() == old(self).names()
                    &&& final(self).is_done()
                    &&& act is Finished
                },
                IrcListEvent::EndOfMotd => {
                    &&& final(self).names() == old(self).names()
                    &&& final(self).is_done() == old(self).is_done()
                    &&& act is RequestList
                },
                IrcListEvent::Other => {
                    &&& final(self).names() == old(self).names()
                    &&& final(self).is_done() == old(self).is_done()
                    &&& act is Stay
                },
            },
    {
        match ev {
            IrcListEvent::ListEntry(name) => {
                let ghost prev = self.names.deep_view();
                self.names.push(name);
                proof {
                    assert(self.names() =~= prev.push(self.names@.last()@));
                }
                IrcListAction::Stay
            },
            IrcListEvent::ListEnd => {
                self.done = true;
                IrcListAction::Finished
            },
            IrcListEvent::EndOfMotd => IrcListAction::RequestList,
            IrcListEvent::Other => IrcListAction::Stay,
        }
    }

    /// Hands out the collected channel list.
    pub fn take_names(self) -> (r: Vec<String>)
        ensures
            r.deep_view() == self.names(),
    {
        self.names
    }
}

/// The sequence with the first occurrence of `x` removed (unchanged when `x`
/// is absent).
pub open spec fn spec_remove_first(s: Seq<u64>, x: u64) -> Seq<u64>
    decreases s.len(),
{
    if s.len() == 0 {
        s
    } else if s.first() == x {
        s.drop_first()
    } else {
        seq![s.first()] + spec_remove_first(s.drop_first(), x)
    }
}

/// The text channels of one guild: the (name, ID) pairs flagged as text
/// channels, in the order given.
pub open spec fn spec_text_channels(chans: Seq<(Seq<char>, u64, bool)>) -> Seq<(Seq<char>, u64)> {
    chans.filter_map(
        |c: (Seq<char>, u64, bool)|
            if c.2 {
                Some((c.0, c.1))
            } else {
                None
            },
    )
}

/// Collects each expected Discord guild's text channels as guilds arrive:
/// a guild is stored once, when it arrives while still expected; the
/// collection is complete when every expected guild has been stored.
pub struct GuildCollector {
    pending: Vec<u64>,
    collected: Vec<(String, Vec<(String, u64)>)>,
}

impl GuildCollector {
    /// The IDs of the guilds still awaited.
    pub closed spec fn pending_ids(&self) -> Seq<u64> {
        self.pending@
    }

    /// The guilds stored so far: name and text channels, in arrival order.
    pub closed spec fn guilds(&self) -> Seq<(Seq<char>, Seq<(Seq<char>, u64)>)> {
        self.collected.deep_view()
    }

    /// A collector awaiting nothing.
    pub fn new() -> (r: GuildCollector)
        ensures
            r.pending_ids() == Seq::<u64>::empty(),
            r.guilds() == Seq::<(Seq<char>, Seq<(Seq<char>, u64)>)>::empty(),
    {
        let r = GuildCollector { pending: Vec::new(), collected: Vec::new() };
        proof {
            assert(r.guilds() =~= Seq::<(Seq<char>, Seq<(Seq<char>, u64)>)>::empty());
        }
        r
    }

    /// Registers one guild named in the ready event as awaited.
    pub fn expect_guild(&mut self, id: u64)
        ensures
            final(self).pending_ids() == old(self).pending_ids().push(id),
            final(self).guilds() == old(self).guilds(),
    {
        self.pending.push(id);
    }

    /// Stores one arriving guild: ignored unless still awaited; otherwise
    /// its text channels are recorded, it stops being awaited, and the
    /// return value says whether the collection is now complete.
    pub fn store_guild(
        &mut self,
        id: u64,
        name: String,
        channels: &Vec<(String, u64, bool)>,
    ) -> (done: bool)
        ensures
            !old(self).pending_ids().contains(id) ==> {
                &&& final(self).pending_ids() == old(self).pending_ids()
                &&& final(self).guilds() == old(self).guilds()
                &&& !done
            },
            old(self).pending_ids().contains(id) ==> {
                &&& final(self).pending_ids() == spec_remove_first(old(self).pending_ids(), id)
                &&& final(self).guilds() == old(self).guilds().push(
                    (name@, spec_text_channels(channels.deep_view())),
                )
                &&& done == (final(self).pending_ids().len() == 0)
            },
    {
        let ghost pv = self.pending@;
        let n = self.pending.len();
        let mut i: usize = 0;
        proof {
            assert(pv.skip(0) =~= pv);
        }
        while i < n
            invariant
                n == self.pending.len(),
                pv == self.pending@,
                pv == old(self).pending_ids(),
                self.collected == old(self).collected,
                self.guilds() == old(self).guilds(),
                0 <= i <= n,
                forall|t: int| 0 <= t < i ==> pv[t] != id,
                spec_remove_first(pv, id) == pv.take(i as int) + spec_remove_first(
                    pv.skip(i as int),
                    id,
                ),
            decreases n - i,
        {
            if self.pending[i] == id {
                proof {
                    assert(pv.skip(i as int).first() == pv[i as int]);
                    assert(pv.skip(i as int).drop_first() =~= pv.skip(i + 1));
                    assert(spec_remove_first(pv, id) =~= pv.take(i as int) + pv.skip(i + 1));
                    assert(pv.contains(id));
                }
                self.pending.remove(i);
                proof {
                    assert(self.pending@ =~= pv.take(i as int) + pv.skip(i + 1));
                }
                let text = text_channels(channels);
                let ghost prev = self.collected.deep_view();
                self.collected.push((name, text));
                proof {
                    assert(self.guilds() =~= prev.push(
                        (self.collected@.last().0@, self.collected@.last().1.deep_view()),
                    ));
                }
                return self.pending.len() == 0;
            }
            proof {
                assert(pv.skip(i as int).first() == pv[i as int]);
                assert(pv.skip(i as int).drop_first() =~= pv.skip(i + 1));
                assert(pv.take(i + 1) =~= pv.take(i as int).push(pv[i as int]));
                assert(pv.take(i as int) + (seq![pv[i as int]] + spec_remove_first(
                    pv.skip(i + 1),
                    id,
                )) =~= pv.take(i + 1) + spec_remove_first(pv.skip(i + 1), id));
            }
            i += 1;
        }
        proof {
            assert(pv.skip(n as int) =~= Seq::<u64>::empty());
            assert(pv.take(n as int) =~= pv);
            assert(spec_remove_first(pv, id) =~= pv);
            if pv.contains(id) {
                let t = choose|t: int| 0 <= t < pv.len() && pv[t] == id;
                assert(false);
            }
        }
        false
    }

    /// Combines the collected guilds with an IRC channel list into the full
    /// listing.
    pub fn finish(self, irc: Vec<String>) -> (r: Channels)
        ensures
            r.irc.deep_view() == irc.deep_view(),
            r.discord.deep_view() == self.guilds(),
    {
        Channels { irc, discord: self.collected }
    }
}

/// Keeps the (name, ID) pairs flagged as text channels, in order.
fn text_channels(chans: &Vec<(String, u64, bool)>) -> (r: Vec<(String, u64)>)
    ensures
        r.deep_view() == spec_text_channels(chans.deep_view()),
{
    let ghost cv = chans.deep_view();
    let mut r: Vec<(String, u64)> = Vec::new();
    let n = chans.len();
    let mut i: usize = 0;
    proof {
        assert(cv.len() == n);
        assert(r.deep_view() =~= spec_text_channels(cv.take(0)));
    }
    while i < n
        invariant
            n == chans.len(),
            cv == chans.deep_view(),
            cv.len() == n,
            0 <= i <= n,
            r.deep_view() == spec_text_channels(cv.take(i as int)),
        decreases n - i,
    {
        proof {
            assert(chans.deep_view()[i as int] == chans@[i as int].deep_view());
        }
        let ghost prev = r.deep_view();
        if chans[i].2 {
            r.push((chans[i].0.clone(), chans[i].1));
            assert(r.deep_view() =~= prev.push((cv[i as int].0, cv[i as int].1)));
        }
        proof {
            let t1 = cv.take(i + 1);
            assert(t1.drop_last() =~= cv.take(i as int));
            assert(t1.last() == cv[i as int]);
            assert(spec_text_channels(cv.take(i as int)) + Seq::<(Seq<char>, u64)>::empty()
                =~= spec_text_channels(cv.take(i as int)));
        }
        i += 1;
    }
    proof {
        assert(cv.take(n as int) =~= cv);
    }
    r
}

/// The bindings one guild's channel list contributes: a binding for each
/// channel whose IRC twin `#name` is among the available IRC channels.
pub open spec fn spec_bindings_from_guild(
    chans: Seq<(Seq<char>, u64)>,
    irc: Seq<Seq<char>>,
) -> Seq<(u64, Seq<char>)> {
    chans.filter_map(
        |c: (Seq<char>, u64)|
            if irc.contains(seq!['#'] + c.0) {
                Some((c.1, seq!['#'] + c.0))
            } else {
                None
            },
    )
}

/// Builds a ready-to-use binding table from a channel listing: for each
/// guild in order, a binding for each of its channels whose IRC twin
/// `#name` exists among the listed IRC channels.
pub fn bindings_from_channels(channels: &Channels) -> (r: Vec<Binding>)
    ensures
        r.deep_view() == channels.discord.deep_view().map_values(
            |g: (Seq<char>, Seq<(Seq<char>, u64)>)|
                spec_bindings_from_guild(g.1, channels.irc.deep_view()),
        ).flatten(),
{
    let ghost gv = channels.discord.deep_view();
    let ghost iv = channels.irc.deep_view();
    let ghost per_guild = |g: (Seq<char>, Seq<(Seq<char>, u64)>)|
        spec_bindings_from_guild(g.1, iv);
    let mut r: Vec<Binding> = Vec::new();
    let n = channels.discord.len();
    let mut i: usize = 0;
    proof {
        assert(gv.len() == n);
        assert(r.deep_view() =~= gv.take(0).map_values(per_guild).flatten());
    }
    while i < n
        invariant
            n == channels.discord.len(),
            gv == channels.discord.deep_view(),
            iv == channels.irc.deep_view(),
            gv.len() == n,
            per_guild == (|g: (Seq<char>, Seq<(Seq<char>, u64)>)|
                spec_bindings_from_guild(g.1, iv)),
            0 <= i <= n,
            r.deep_view() == gv.take(i as int).map_values(per_guild).flatten(),
        decreases n - i,
    {
        proof {
            assert(channels.discord.deep_view()[i as int] == channels.discord@[
                i as int].deep_view());
        }
        let ghost outer_prev = r.deep_view();
        let guild = &channels.discord[i].1;
        let ghost cv = guild.deep_view();
        let m = guild.len();
        let mut j: usize = 0;
        proof {
            assert(cv.len() == m);
            assert(cv == gv[i as int].1);
            assert(outer_prev + spec_bindings_from_guild(cv.take(0), iv) =~= outer_prev);
        }
        while j < m
            invariant
                m == guild.len(),
                cv == guild.deep_view(),
                iv == channels.irc.deep_view(),
                cv.len() == m,
                0 <= j <= m,
                r.deep_view() == outer_prev + spec_bindings_from_guild(cv.take(j as int), iv),
            decreases m - j,
        {
            proof {
                assert(guild.deep_view()[j as int] == guild@[j as int].deep_view());
            }
            let ghost before = r.deep_view();
            let mut irc_name = String::new();
            irc_name.append("#");
            irc_name.append(guild[j].0.as_str());
            proof {
                reveal_strlit("#");
                assert("#"@ =~= seq!['#']);
                assert(irc_name@ =~= seq!['#'] + cv[j as int].0);
            }
            if crate::router::vec_contains_string(&channels.irc, &irc_name) {
                r.push(Binding { discord: guild[j].1, irc: irc_name });
                assert(r.deep_view() =~= before.push((cv[j as int].1, seq!['#'] + cv[j as int].0)));
            }
            proof {
                let t1 = cv.take(j + 1);
                assert(t1.drop_last() =~= cv.take(j as int));
                assert(t1.last() == cv[j as int]);
                assert(spec_bindings_from_guild(cv.take(j as int), iv) + Seq::<
                    (u64, Seq<char>),
                >::empty() =~= spec_bindings_from_guild(cv.take(j as int), iv));
            }
            j += 1;
        }
        proof {
            assert(cv.take(m as int) =~= cv);
            let t1 = gv.take(i + 1).map_values(per_guild);
            let t0 = gv.take(i as int).map_values(per_guild);
            assert(gv.take(i + 1) =~= gv.take(i as int).push(gv[i as int]));
            assert(t1 =~= t0.push(per_guild(gv[i as int])));
            broadcast use vstd::prelude::Seq::lemma_flatten_push;

            assert(t1.flatten() == t0.flatten() + per_guild(gv[i as int]));
            assert(r.deep_view() =~= t1.flatten());
        }
        i += 1;
    }
    proof {
        assert(gv.take(n as int) =~= gv);
    }
    r
}

} // verus!
