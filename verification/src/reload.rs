//! Ownership of the live binding table: atomic wholesale replacement on
//! reload, plus the reload-notification fan-out. A consumer subscribes and
//! receives one message per successful reload; a subscription whose receiving
//! end has gone away is pruned at the next reload.

use std::sync::mpsc::{Receiver, Sender};
use vstd::prelude::*;

use crate::config::Config;

verus! {

/// Declares std::sync::mpsc::Sender, the delivery half of a subscription;
/// opaque here, handled only through the wrappers below.
#[verifier::external_type_specification]
#[verifier::external_body]
#[verifier::reject_recursive_types(T)]
pub struct ExSender<T>(Sender<T>);

/// Declares std::sync::mpsc::Receiver, the subscriber's half; the library
/// only creates and hands it out.
#[verifier::external_type_specification]
#[verifier::external_body]
#[verifier::reject_recursive_types(T)]
pub struct ExReceiver<T>(Receiver<T>);

/// Relies on std::sync::mpsc::channel: returns a connected sender/receiver
/// pair. Both halves are opaque here, so nothing further is promised.
#[verifier::external_body]
fn reload_channel() -> (Sender<()>, Receiver<()>) {
    std::sync::mpsc::channel()
}

/// Relies on std::sync::mpsc::Sender::send: delivery succeeds exactly when
/// the receiving end is still connected. Whether that holds depends on what
/// the rest of the process has done, so nothing is promised of the result.
#[verifier::external_body]
fn send_notification(s: &Sender<()>) -> bool {
    s.send(()).is_ok()
}

/// The elements of `s` selected by `keep`, in order (`keep` runs parallel to
/// `s`; a shorter `keep` selects nothing from the unmatched tail).
pub open spec fn spec_kept<T>(s: Seq<T>, keep: Seq<bool>) -> Seq<T>
    decreases s.len(),
{
    if s.len() == 0 {
        Seq::empty()
    } else {
        let rest = spec_kept(s.drop_last(), keep.drop_last());
        if keep.len() == s.len() && keep.last() {
            rest.push(s.last())
        } else {
            rest
        }
    }
}

/// Owner of the live binding table. Lookups go through `current`; a reload
/// goes through `swap`, which installs the new table wholesale and then
/// notifies every live subscriber.
pub struct ConfigStore {
    config: Config,
    subscribers: Vec<Sender<()>>,
}

impl View for ConfigStore {
    type V = Seq<(u64, Seq<char>)>;

    closed spec fn view(&self) -> Seq<(u64, Seq<char>)> {
        self.config@
    }
}

impl ConfigStore {
    /// The registered reload subscriptions, oldest first.
    pub closed spec fn subscribers(&self) -> Seq<Sender<()>> {
        self.subscribers@
    }

    /// Takes ownership of the initial table; no subscriptions yet.
    pub fn new(initial: Config) -> (r: ConfigStore)
        ensures
            r@ == initial@,
            r.subscribers() == Seq::<Sender<()>>::empty(),
    {
        ConfigStore { config: initial, subscribers: Vec::new() }
    }

    /// The table every lookup is answered from.
    pub fn current(&self) -> (r: &Config)
        ensures
            r@ == self@,
    {
        &self.config
    }

    /// Registers a new reload subscription and hands back its receiving end,
    /// which will be sent one message per subsequent successful reload.
    pub fn notify_on_reload(&mut self) -> (r: Receiver<()>)
        ensures
            final(self)@ == old(self)@,
            final(self).subscribers().len() == old(self).subscribers().len() + 1,
            final(self).subscribers().take(old(self).subscribers().len() as int) == old(
                self,
            ).subscribers(),
    {
        let (send, recv) = reload_channel();
        self.subscribers.push(send);
        proof {
            assert(self.subscribers@.take(self.subscribers@.len() - 1) =~= old(
                self,
            ).subscribers@);
        }
        recv
    }

    /// Atomically replaces the table: every future lookup is answered from
    /// `new_config` alone, and nothing of the replaced table survives. Each
    /// live subscriber is then notified once; subscribers whose receiving end
    /// has gone away are pruned, and no other subscription is touched.
    pub fn swap(&mut self, new_config: Config)
        ensures
            final(self)@ == new_config@,
            exists|keep: Seq<bool>|
                keep.len() == old(self).subscribers().len() && final(self).subscribers()
                    == spec_kept(old(self).subscribers(), keep),
    {
        self.config = new_config;
        let mut pending: Vec<Sender<()>> = Vec::new();
        core::mem::swap(&mut self.subscribers, &mut pending);
        let ghost orig: Seq<Sender<()>> = pending@;
        let ghost mut keep: Seq<bool> = Seq::empty();
        while pending.len() > 0
            invariant
                self.config@ == new_config@,
                keep.len() + pending@.len() == orig.len(),
                pending@ == orig.skip(keep.len() as int),
                self.subscribers@ == spec_kept(orig.take(keep.len() as int), keep),
            decreases pending@.len(),
        {
            let ghost i = keep.len() as int;
            let s = pending.remove(0);
            assert(s == orig[i]);
            assert(pending@ =~= orig.skip(i + 1));
            let ok = send_notification(&s);
            if ok {
                self.subscribers.push(s);
            }
            proof {
                let prev_keep = keep;
                keep = keep.push(ok);
                assert(orig.take(i + 1).drop_last() =~= orig.take(i));
                assert(keep.drop_last() =~= prev_keep);
            }
        }
        proof {
            assert(orig.take(keep.len() as int) =~= orig);
            assert(keep.len() == old(self).subscribers().len() && self.subscribers()
                == spec_kept(old(self).subscribers(), keep));
        }
    }
}

} // verus!
