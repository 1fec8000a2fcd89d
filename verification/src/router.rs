//! The relay router's decision logic: which deliveries an inbound event
//! produces (lookup, rendering, chunking, fan-out, in order), which inbound
//! messages are relayed at all, how one chat message expands into independent
//! events, and which channels reconciliation must join.

use vstd::prelude::*;

use crate::config::{spec_discord_for_irc, spec_irc_for_discord, Config};
use crate::format::{
    chunk, format_discord_for_irc, format_irc_for_discord, spec_chunk_text, spec_discord_rendering,
    spec_irc_rendering, IRC_MESSAGE_LIMIT,
};

verus! {

/// A message is relayed only when it was not authored by the bridge's own
/// account (otherwise every delivery would echo forever).
pub fn should_relay(author_id: u64, self_id: u64) -> (r: bool)
    ensures
        r == (author_id != self_id),
{
    author_id != self_id
}

/// One inbound chat message expands to independent events, each routed on
/// its own: first the text body, then one event per attachment URL.
pub open spec fn spec_expand_message(
    chan: u64,
    author: Seq<char>,
    content: Seq<char>,
    urls: Seq<Seq<char>>,
) -> Seq<(u64, Seq<char>, Seq<char>)> {
    seq![(chan, author, content)] + urls.map_values(|u: Seq<char>| (chan, author, u))
}

/// Expands one inbound chat message into its independent events.
pub fn expand_message(
    chan: u64,
    author: &String,
    content: String,
    attachments: &Vec<String>,
) -> (r: Vec<(u64, String, String)>)
    ensures
        r.deep_view() == spec_expand_message(
            chan,
            author@,
            content@,
            attachments.deep_view(),
        ),
{
    let ghost urls = attachments.deep_view();
    let mut r: Vec<(u64, String, String)> = Vec::new();
    r.push((chan, author.clone(), content));
    let n = attachments.len();
    let mut i: usize = 0;
    proof {
        assert(urls.len() == n);
        assert(r.deep_view() =~= seq![(chan, author@, content@)] + urls.take(0).map_values(
            |u: Seq<char>| (chan, author@, u),
        ));
    }
    while i < n
        invariant
            n == attachments.len(),
            urls == attachments.deep_view(),
            urls.len() == n,
            0 <= i <= n,
            r.deep_view() == seq![(chan, author@, content@)] + urls.take(i as int).map_values(
                |u: Seq<char>| (chan, author@, u),
            ),
        decreases n - i,
    {
        let ghost prev = r.deep_view();
        r.push((chan, author.clone(), attachments[i].clone()));
        proof {
            assert(attachments.deep_view()[i as int] == attachments@[i as int].deep_view());
            assert(r.deep_view() =~= prev.push((chan, author@, urls[i as int])));
            assert(urls.take(i + 1) =~= urls.take(i as int).push(urls[i as int]));
            assert(urls.take(i + 1).map_values(|u: Seq<char>| (chan, author@, u)) =~= urls.take(
                i as int,
            ).map_values(|u: Seq<char>| (chan, author@, u)).push((chan, author@, urls[i as int])));
            assert(r.deep_view() =~= seq![(chan, author@, content@)] + urls.take(i + 1).map_values(
                |u: Seq<char>| (chan, author@, u),
            ));
        }
        i += 1;
    }
    proof {
        assert(urls.take(n as int) =~= urls);
    }
    r
}

/// The deliveries produced by an inbound IRC event: one per matching
/// binding, in table order, each carrying the Discord-side rendering.
pub open spec fn spec_route_irc_to_discord(
    bs: Seq<(u64, Seq<char>)>,
    chan: Seq<char>,
    sender: Seq<char>,
    msg: Seq<char>,
) -> Seq<(u64, Seq<char>)> {
    spec_discord_for_irc(bs, chan).map_values(
        |d: u64| (d, spec_discord_rendering(sender, msg)),
    )
}

/// Routes one inbound IRC event: looks up the bound Discord channels and
/// renders the message once for each. An unbound channel yields no
/// deliveries and is not an error.
pub fn route_irc_to_discord(cfg: &Config, chan: &String, sender: &String, msg: &String) -> (r: Vec<
    (u64, String),
>)
    ensures
        r.deep_view() == spec_route_irc_to_discord(cfg@, chan@, sender@, msg@),
{
    let dests = cfg.discord_for_irc(chan);
    let ghost dv = dests@;
    let rendered = format_irc_for_discord(sender.clone(), msg.clone());
    let mut r: Vec<(u64, String)> = Vec::new();
    let n = dests.len();
    let mut i: usize = 0;
    proof {
        assert(r.deep_view() =~= dv.take(0).map_values(
            |d: u64| (d, spec_discord_rendering(sender@, msg@)),
        ));
    }
    while i < n
        invariant
            n == dests.len(),
            dv == dests@,
            rendered@ == spec_discord_rendering(sender@, msg@),
            0 <= i <= n,
            r.deep_view() == dv.take(i as int).map_values(
                |d: u64| (d, spec_discord_rendering(sender@, msg@)),
            ),
        decreases n - i,
    {
        let ghost prev = r.deep_view();
        r.push((dests[i], rendered.clone()));
        proof {
            assert(r.deep_view() =~= prev.push((dv[i as int], rendered@)));
            assert(dv.take(i + 1) =~= dv.take(i as int).push(dv[i as int]));
            assert(dv.take(i + 1).map_values(
                |d: u64| (d, spec_discord_rendering(sender@, msg@)),
            ) =~= prev.push((dv[i as int], rendered@)));
        }
        i += 1;
    }
    proof {
        assert(dv.take(n as int) =~= dv);
    }
    r
}

/// The deliveries produced by an inbound Discord event: for each matching
/// binding, in table order, the IRC-side rendering split into chunks under
/// the IRC byte limit, chunk order preserved within each destination.
pub open spec fn spec_route_discord_to_irc(
    bs: Seq<(u64, Seq<char>)>,
    chan: u64,
    sender: Seq<char>,
    msg: Seq<char>,
    limit: int,
) -> Seq<(Seq<char>, Seq<char>)> {
    spec_irc_for_discord(bs, chan).map_values(
        |dest: Seq<char>|
            spec_chunk_text(spec_irc_rendering(sender, msg), limit).map_values(
                |c: Seq<char>| (dest, c),
            ),
    ).flatten()
}

/// Routes one inbound Discord event: looks up the bound IRC channels,
/// renders the message, and chunks it under the IRC byte limit for each
/// destination, preserving chunk order per destination.
pub fn route_discord_to_irc(cfg: &Config, chan: u64, sender: &String, msg: &String) -> (r: Vec<
    (String, String),
>)
    ensures
        r.deep_view() == spec_route_discord_to_irc(
            cfg@,
            chan,
            sender@,
            msg@,
            IRC_MESSAGE_LIMIT as int,
        ),
{
    let dests = cfg.irc_for_discord(chan);
    let ghost dv = dests.deep_view();
    let rendered = format_discord_for_irc(sender.clone(), msg.clone());
    let chunks = chunk(rendered.as_str(), IRC_MESSAGE_LIMIT);
    let ghost cv = chunks.deep_view();
    let ghost per_dest = |dest: Seq<char>|
        spec_chunk_text(spec_irc_rendering(sender@, msg@), IRC_MESSAGE_LIMIT as int).map_values(
            |c: Seq<char>| (dest, c),
        );
    let mut r: Vec<(String, String)> = Vec::new();
    let n = dests.len();
    let m = chunks.len();
    let mut i: usize = 0;
    proof {
        assert(dv.len() == n);
        assert(cv.len() == m);
        assert(cv == spec_chunk_text(spec_irc_rendering(sender@, msg@), IRC_MESSAGE_LIMIT as int));
        assert(r.deep_view() =~= dv.take(0).map_values(per_dest).flatten());
    }
    while i < n
        invariant
            n == dests.len(),
            m == chunks.len(),
            dv == dests.deep_view(),
            cv == chunks.deep_view(),
            dv.len() == n,
            cv.len() == m,
            cv == spec_chunk_text(spec_irc_rendering(sender@, msg@), IRC_MESSAGE_LIMIT as int),
            per_dest == (|dest: Seq<char>|
                spec_chunk_text(
                    spec_irc_rendering(sender@, msg@),
                    IRC_MESSAGE_LIMIT as int,
                ).map_values(|c: Seq<char>| (dest, c))),
            0 <= i <= n,
            r.deep_view() == dv.take(i as int).map_values(per_dest).flatten(),
        decreases n - i,
    {
        let ghost outer_prev = r.deep_view();
        let ghost dest = dv[i as int];
        let mut j: usize = 0;
        while j < m
            invariant
                n == dests.len(),
                m == chunks.len(),
                dv == dests.deep_view(),
                cv == chunks.deep_view(),
                dv.len() == n,
                cv.len() == m,
                0 <= i < n,
                dest == dv[i as int],
                0 <= j <= m,
                r.deep_view() == outer_prev + cv.take(j as int).map_values(
                    |c: Seq<char>| (dest, c),
                ),
            decreases m - j,
        {
            let ghost before = r.deep_view();
            r.push((dests[i].clone(), chunks[j].clone()));
            proof {
                assert(dests.deep_view()[i as int] == dests@[i as int].deep_view());
                assert(chunks.deep_view()[j as int] == chunks@[j as int].deep_view());
                assert(r.deep_view() =~= before.push((dest, cv[j as int])));
                assert(cv.take(j + 1) =~= cv.take(j as int).push(cv[j as int]));
                assert(cv.take(j + 1).map_values(|c: Seq<char>| (dest, c)) =~= cv.take(
                    j as int,
                ).map_values(|c: Seq<char>| (dest, c)).push((dest, cv[j as int])));
                assert(r.deep_view() =~= outer_prev + cv.take(j + 1).map_values(
                    |c: Seq<char>| (dest, c),
                ));
            }
            j += 1;
        }
        proof {
            assert(cv.take(m as int) =~= cv);
            let t1 = dv.take(i + 1).map_values(per_dest);
            let t0 = dv.take(i as int).map_values(per_dest);
            assert(dv.take(i + 1) =~= dv.take(i as int).push(dest));
            assert(t1 =~= t0.push(per_dest(dest)));
            broadcast use vstd::prelude::Seq::lemma_flatten_push;

            assert(t1.flatten() == t0.flatten() + per_dest(dest));
            assert(per_dest(dest) =~= cv.map_values(|c: Seq<char>| (dest, c)));
            assert(r.deep_view() =~= t1.flatten());
        }
        i += 1;
    }
    proof {
        assert(dv.take(n as int) =~= dv);
    }
    r
}

/// Law: the targets of the deliveries for an inbound IRC event are exactly
/// the Discord sides of the bindings whose IRC side matches, in table order:
/// one delivery per matching binding, each carrying the same rendering.
pub proof fn lemma_relay_once_per_binding(
    bs: Seq<(u64, Seq<char>)>,
    chan: Seq<char>,
    sender: Seq<char>,
    msg: Seq<char>,
)
    ensures
        spec_route_irc_to_discord(bs, chan, sender, msg).map_values(|p: (u64, Seq<char>)| p.0)
            == bs.filter(|b: (u64, Seq<char>)| b.1 == chan).map_values(
            |b: (u64, Seq<char>)| b.0,
        ),
        forall|i: int|
            0 <= i < spec_route_irc_to_discord(bs, chan, sender, msg).len()
                ==> #[trigger] spec_route_irc_to_discord(bs, chan, sender, msg)[i].1
                == spec_discord_rendering(sender, msg),
{
    crate::config::lemma_each_irc_binding_delivered(bs, chan);
    assert(spec_route_irc_to_discord(bs, chan, sender, msg).map_values(|p: (u64, Seq<char>)| p.0)
        =~= spec_discord_for_irc(bs, chan));
}

/// Law: an inbound event on a channel no binding names produces no
/// deliveries, in either direction.
pub proof fn lemma_unbound_produces_nothing(
    bs: Seq<(u64, Seq<char>)>,
    irc_chan: Seq<char>,
    discord_chan: u64,
    sender: Seq<char>,
    msg: Seq<char>,
    limit: int,
)
    requires
        forall|i: int| 0 <= i < bs.len() ==> #[trigger] bs[i].1 != irc_chan,
        forall|i: int| 0 <= i < bs.len() ==> #[trigger] bs[i].0 != discord_chan,
    ensures
        spec_route_irc_to_discord(bs, irc_chan, sender, msg) == Seq::<(u64, Seq<char>)>::empty(),
        spec_route_discord_to_irc(bs, discord_chan, sender, msg, limit) == Seq::<
            (Seq<char>, Seq<char>),
        >::empty(),
{
    crate::config::lemma_unbound_channel_undelivered(bs, irc_chan, discord_chan);
    assert(spec_route_irc_to_discord(bs, irc_chan, sender, msg) =~= Seq::<
        (u64, Seq<char>),
    >::empty());
    assert(spec_irc_for_discord(bs, discord_chan).map_values(
        |dest: Seq<char>|
            spec_chunk_text(spec_irc_rendering(sender, msg), limit).map_values(
                |c: Seq<char>| (dest, c),
            ),
    ) =~= Seq::<Seq<(Seq<char>, Seq<char>)>>::empty());
    assert(spec_route_discord_to_irc(bs, discord_chan, sender, msg, limit) =~= Seq::<
        (Seq<char>, Seq<char>),
    >::empty());
}

/// The lifecycle of one relay direction.
#[derive(PartialEq, Eq, Structural, Clone, Copy, Debug)]
pub enum RelayState {
    /// Constructed, not yet wired to both adapters.
    Idle,
    /// Relaying inbound events.
    Streaming,
    /// Torn down; a dead side means there is nothing useful left to bridge.
    Terminated,
}

/// What can happen to one relay direction.
#[derive(PartialEq, Eq, Structural, Clone, Copy, Debug)]
pub enum RelayEvent {
    /// Both adapters and the binding table stand; streaming begins.
    Started,
    /// An inbound event was relayed; streaming continues.
    Relayed,
    /// An adapter surfaced its terminal failure.
    AdapterFailed,
    /// A queue's far end has permanently closed.
    QueueHungUp,
}

/// The transition table of one relay direction: startup begins streaming,
/// relaying keeps streaming, and either an adapter's terminal failure or a
/// closed queue terminates the direction — and with it, by the all-or-
/// nothing policy, the whole relay.
pub open spec fn spec_relay_step(s: RelayState, ev: RelayEvent) -> RelayState {
    match ev {
        RelayEvent::Started => if s is Idle {
            RelayState::Streaming
        } else {
            s
        },
        RelayEvent::Relayed => s,
        RelayEvent::AdapterFailed => RelayState::Terminated,
        RelayEvent::QueueHungUp => RelayState::Terminated,
    }
}

/// Advances one relay direction by one event.
pub fn relay_step(s: RelayState, ev: RelayEvent) -> (r: RelayState)
    ensures
        r == spec_relay_step(s, ev),
{
    match ev {
        RelayEvent::Started => if s == RelayState::Idle {
            RelayState::Streaming
        } else {
            s
        },
        RelayEvent::Relayed => s,
        RelayEvent::AdapterFailed => RelayState::Terminated,
        RelayEvent::QueueHungUp => RelayState::Terminated,
    }
}

/// Law: termination is final — no later event revives a terminated
/// direction.
pub proof fn lemma_termination_is_final(ev: RelayEvent)
    ensures
        spec_relay_step(RelayState::Terminated, ev) is Terminated,
{
}

/// The channels reconciliation must join: those the table now requires that
/// are not currently joined. Channels are never left automatically, so
/// nothing else is touched.
pub open spec fn spec_channels_to_join(
    desired: Seq<Seq<char>>,
    current: Seq<Seq<char>>,
) -> Seq<Seq<char>> {
    desired.filter(|c: Seq<char>| !current.contains(c))
}

/// Decides which channels to join so the joined set comes to include every
/// channel the table requires: the desired channels not currently joined,
/// in order (duplicates in `desired` kept, as each join is idempotent).
pub fn channels_to_join(desired: &Vec<String>, current: &Vec<String>) -> (r: Vec<String>)
    ensures
        r.deep_view() == spec_channels_to_join(desired.deep_view(), current.deep_view()),
{
    let ghost des = desired.deep_view();
    let ghost cur = current.deep_view();
    let mut r: Vec<String> = Vec::new();
    let n = desired.len();
    let mut i: usize = 0;
    proof {
        assert(des.len() == n);
        reveal(Seq::filter);
        assert(r.deep_view() =~= des.take(0).filter(|c: Seq<char>| !cur.contains(c)));
    }
    while i < n
        invariant
            n == desired.len(),
            des == desired.deep_view(),
            cur == current.deep_view(),
            des.len() == n,
            0 <= i <= n,
            r.deep_view() == des.take(i as int).filter(|c: Seq<char>| !cur.contains(c)),
        decreases n - i,
    {
        proof {
            assert(desired.deep_view()[i as int] == desired@[i as int].deep_view());
        }
        let ghost prev = r.deep_view();
        let joined = vec_contains_string(current, &desired[i]);
        if !joined {
            r.push(desired[i].clone());
            assert(r.deep_view() =~= prev.push(des[i as int]));
        }
        proof {
            reveal(Seq::filter);
            let p = |c: Seq<char>| !cur.contains(c);
            let t1 = des.take(i + 1);
            assert(t1.drop_last() =~= des.take(i as int));
            assert(t1.last() == des[i as int]);
            assert(t1.filter(p) == if p(des[i as int]) {
                des.take(i as int).filter(p).push(des[i as int])
            } else {
                des.take(i as int).filter(p)
            });
        }
        i += 1;
    }
    proof {
        assert(des.take(n as int) =~= des);
    }
    r
}

/// Whether any element of `hay` equals `needle`, by character content.
pub fn vec_contains_string(hay: &Vec<String>, needle: &String) -> (r: bool)
    ensures
        r == hay.deep_view().contains(needle@),
{
    let ghost hv = hay.deep_view();
    let n = hay.len();
    let mut i: usize = 0;
    proof {
        assert(hv.len() == n);
    }
    while i < n
        invariant
            n == hay.len(),
            hv == hay.deep_view(),
            hv.len() == n,
            0 <= i <= n,
            forall|t: int| 0 <= t < i ==> hv[t] != needle@,
        decreases n - i,
    {
        proof {
            assert(hay.deep_view()[i as int] == hay@[i as int].deep_view());
        }
        if hay[i] == *needle {
            assert(hv[i as int] == needle@);
            return true;
        }
        i += 1;
    }
    false
}

} // verus!
