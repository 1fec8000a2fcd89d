use janus::listing::{
    bindings_from_channels, Channels, ChannelLister, GuildCollector, IrcListAction, IrcListEvent,
};

#[test]
fn lister_requests_the_list_when_ready() {
    let mut lister = ChannelLister::new();
    assert!(matches!(lister.on_event(IrcListEvent::EndOfMotd), IrcListAction::RequestList));
}

#[test]
fn lister_collects_entries_until_the_end() {
    let mut lister = ChannelLister::new();
    assert!(matches!(lister.on_event(IrcListEvent::EndOfMotd), IrcListAction::RequestList));
    assert!(matches!(
        lister.on_event(IrcListEvent::ListEntry(String::from("#general"))),
        IrcListAction::Stay
    ));
    assert!(matches!(lister.on_event(IrcListEvent::Other), IrcListAction::Stay));
    assert!(matches!(
        lister.on_event(IrcListEvent::ListEntry(String::from("#random"))),
        IrcListAction::Stay
    ));
    assert!(matches!(lister.on_event(IrcListEvent::ListEnd), IrcListAction::Finished));
    assert_eq!(
        lister.take_names(),
        vec![String::from("#general"), String::from("#random")]
    );
}

#[test]
fn collector_stores_only_awaited_guilds_and_reports_completion() {
    let mut collector = GuildCollector::new();
    collector.expect_guild(10);
    collector.expect_guild(20);

    // An unexpected guild is ignored.
    let done = collector.store_guild(99, String::from("stranger"), &Vec::new());
    assert!(!done);

    let done = collector.store_guild(
        10,
        String::from("first"),
        &vec![
            (String::from("general"), 100u64, true),
            (String::from("voice-lounge"), 101u64, false),
        ],
    );
    assert!(!done);

    // A guild is stored once: a second arrival is ignored.
    let done = collector.store_guild(10, String::from("first"), &Vec::new());
    assert!(!done);

    let done = collector.store_guild(
        20,
        String::from("second"),
        &vec![(String::from("random"), 200u64, true)],
    );
    assert!(done);

    let channels = collector.finish(vec![String::from("#general")]);
    assert_eq!(channels.irc, vec![String::from("#general")]);
    assert_eq!(channels.discord.len(), 2);
    assert_eq!(channels.discord[0].0, "first");
    // Only text channels are kept.
    assert_eq!(channels.discord[0].1, vec![(String::from("general"), 100u64)]);
    assert_eq!(channels.discord[1].0, "second");
    assert_eq!(channels.discord[1].1, vec![(String::from("random"), 200u64)]);
}

#[test]
fn bindings_pair_channels_that_exist_on_both_sides() {
    let channels = Channels {
        irc: vec![String::from("#general"), String::from("#dev")],
        discord: vec![
            (
                String::from("guild-a"),
                vec![(String::from("general"), 100u64), (String::from("random"), 101u64)],
            ),
            (String::from("guild-b"), vec![(String::from("dev"), 200u64)]),
        ],
    };
    let bindings = bindings_from_channels(&channels);
    assert_eq!(bindings.len(), 2);
    assert_eq!(bindings[0].discord, 100);
    assert_eq!(bindings[0].irc, "#general");
    assert_eq!(bindings[1].discord, 200);
    assert_eq!(bindings[1].irc, "#dev");
}
