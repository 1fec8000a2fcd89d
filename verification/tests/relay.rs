use janus::config::{Binding, Config};
use janus::reload::ConfigStore;
use janus::router::{
    channels_to_join, expand_message, relay_step, route_discord_to_irc, route_irc_to_discord,
    should_relay, RelayEvent, RelayState,
};

fn sample_table() -> Config {
    Config::new(vec![
        Binding { discord: 100, irc: String::from("#general") },
        Binding { discord: 200, irc: String::from("#general") },
    ])
}

#[test]
fn discord_event_reaches_one_irc_channel() {
    let cfg = sample_table();
    let out = route_discord_to_irc(&cfg, 100, &String::from("alice"), &String::from("hi"));
    assert_eq!(out.len(), 1);
    assert_eq!(out[0].0, "#general");
    assert_eq!(out[0].1, "alice: hi");
}

#[test]
fn irc_event_fans_out_to_both_discord_channels() {
    let cfg = sample_table();
    let out = route_irc_to_discord(
        &cfg,
        &String::from("#general"),
        &String::from("bob"),
        &String::from("yo"),
    );
    assert_eq!(out.len(), 2);
    assert_eq!(out[0].0, 100);
    assert_eq!(out[0].1, "__**bob**__: yo");
    assert_eq!(out[1].0, 200);
    assert_eq!(out[1].1, "__**bob**__: yo");
}

#[test]
fn one_delivery_per_matching_binding() {
    // A duplicated binding means two delivery attempts, in table order.
    let cfg = Config::new(vec![
        Binding { discord: 7, irc: String::from("#a") },
        Binding { discord: 9, irc: String::from("#b") },
        Binding { discord: 7, irc: String::from("#a") },
    ]);
    let dests = cfg.discord_for_irc(&String::from("#a"));
    assert_eq!(dests, vec![7, 7]);
    let back = cfg.irc_for_discord(7);
    assert_eq!(back, vec![String::from("#a"), String::from("#a")]);
}

#[test]
fn unbound_channel_yields_no_deliveries() {
    let cfg = sample_table();
    assert!(cfg.discord_for_irc(&String::from("#nowhere")).is_empty());
    assert!(cfg.irc_for_discord(555).is_empty());
    let out = route_irc_to_discord(
        &cfg,
        &String::from("#nowhere"),
        &String::from("bob"),
        &String::from("yo"),
    );
    assert!(out.is_empty());
    let out = route_discord_to_irc(&cfg, 555, &String::from("alice"), &String::from("hi"));
    assert!(out.is_empty());
}

#[test]
fn long_discord_message_is_chunked_per_destination() {
    let cfg = Config::new(vec![Binding { discord: 1, irc: String::from("#x") }]);
    // sender prefix "a: " (3 bytes) + 900 bytes of text = 903 bytes total.
    let msg: String = std::iter::repeat('m').take(900).collect();
    let out = route_discord_to_irc(&cfg, 1, &String::from("a"), &msg);
    assert_eq!(out.len(), 3);
    assert!(out.iter().all(|(chan, _)| chan == "#x"));
    assert!(out.iter().all(|(_, chunk)| chunk.len() <= 400));
    let total: usize = out.iter().map(|(_, chunk)| chunk.len()).sum();
    assert_eq!(total, 903);
    let rejoined: String = out.iter().map(|(_, chunk)| chunk.as_str()).collect();
    assert_eq!(rejoined, format!("a: {}", msg));
}

#[test]
fn irc_channels_lists_every_bound_channel() {
    let cfg = sample_table();
    assert_eq!(
        cfg.irc_channels(),
        vec![String::from("#general"), String::from("#general")]
    );
    assert_eq!(cfg.len(), 2);
}

#[test]
fn reconciliation_joins_exactly_the_missing_channel() {
    // A reload introduces "#new"; "#general" is already joined.
    let desired = vec![String::from("#general"), String::from("#new")];
    let current = vec![String::from("#general")];
    let to_join = channels_to_join(&desired, &current);
    assert_eq!(to_join, vec![String::from("#new")]);
}

#[test]
fn reconciliation_never_leaves_channels() {
    // A channel joined but no longer desired is not touched.
    let desired = vec![String::from("#a")];
    let current = vec![String::from("#a"), String::from("#stale")];
    assert!(channels_to_join(&desired, &current).is_empty());
}

#[test]
fn swap_installs_the_new_table_wholesale() {
    let mut store = ConfigStore::new(Config::new(vec![Binding {
        discord: 1,
        irc: String::from("#old"),
    }]));
    assert_eq!(store.current().discord_for_irc(&String::from("#old")), vec![1]);
    store.swap(Config::new(vec![Binding { discord: 2, irc: String::from("#new") }]));
    // Lookups answer from the new table alone: nothing of the old survives.
    assert!(store.current().discord_for_irc(&String::from("#old")).is_empty());
    assert_eq!(store.current().discord_for_irc(&String::from("#new")), vec![2]);
}

#[test]
fn swap_notifies_every_live_subscriber_once() {
    let mut store = ConfigStore::new(Config::new(Vec::new()));
    let rx1 = store.notify_on_reload();
    let rx2 = store.notify_on_reload();
    store.swap(Config::new(Vec::new()));
    assert!(rx1.try_recv().is_ok());
    assert!(rx2.try_recv().is_ok());
    assert!(rx1.try_recv().is_err());
}

#[test]
fn swap_prunes_dead_subscribers_and_keeps_live_ones() {
    let mut store = ConfigStore::new(Config::new(Vec::new()));
    let rx1 = store.notify_on_reload();
    let rx2 = store.notify_on_reload();
    drop(rx1);
    store.swap(Config::new(Vec::new()));
    assert!(rx2.try_recv().is_ok());
    // The surviving subscription keeps receiving on later reloads.
    store.swap(Config::new(Vec::new()));
    assert!(rx2.try_recv().is_ok());
}

#[test]
fn own_messages_are_not_relayed() {
    assert!(!should_relay(42, 42));
    assert!(should_relay(42, 43));
}

#[test]
fn message_with_attachments_expands_to_separate_events() {
    let events = expand_message(
        9,
        &String::from("alice"),
        String::from("look"),
        &vec![String::from("http://example.test/a.png"), String::from("http://example.test/b.png")],
    );
    assert_eq!(events.len(), 3);
    assert_eq!(events[0], (9, String::from("alice"), String::from("look")));
    assert_eq!(
        events[1],
        (9, String::from("alice"), String::from("http://example.test/a.png"))
    );
    assert_eq!(
        events[2],
        (9, String::from("alice"), String::from("http://example.test/b.png"))
    );
}

#[test]
fn relay_direction_lifecycle() {
    let s = relay_step(RelayState::Idle, RelayEvent::Started);
    assert_eq!(s, RelayState::Streaming);
    let s = relay_step(s, RelayEvent::Relayed);
    assert_eq!(s, RelayState::Streaming);
    let s = relay_step(s, RelayEvent::QueueHungUp);
    assert_eq!(s, RelayState::Terminated);
    // Termination is final.
    assert_eq!(relay_step(s, RelayEvent::Started), RelayState::Terminated);
    assert_eq!(
        relay_step(RelayState::Streaming, RelayEvent::AdapterFailed),
        RelayState::Terminated
    );
}
