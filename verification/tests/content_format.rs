use janus::content::get_content;
use janus::format::{
    chunk, chunk_line, format_discord_for_irc, format_irc_for_discord, split_lines,
    IRC_MESSAGE_LIMIT,
};
use janus::mention::MentionCache;

#[test]
fn irc_rendering_is_plain_prefix() {
    let r = format_discord_for_irc(String::from("alice"), String::from("hi"));
    assert_eq!(r, "alice: hi");
}

#[test]
fn discord_rendering_emphasizes_the_sender() {
    let r = format_irc_for_discord(String::from("bob"), String::from("yo"));
    assert_eq!(r, "__**bob**__: yo");
}

#[test]
fn nine_hundred_bytes_at_limit_four_hundred_gives_three_chunks() {
    let text: String = std::iter::repeat('x').take(900).collect();
    let chunks = chunk(&text, 400);
    assert_eq!(chunks.len(), 3);
    assert!(chunks.iter().all(|c| c.len() <= 400));
    let total: usize = chunks.iter().map(|c| c.len()).sum();
    assert_eq!(total, 900);
    assert_eq!(chunks[0].len(), 400);
    assert_eq!(chunks[1].len(), 400);
    assert_eq!(chunks[2].len(), 100);
}

#[test]
fn irc_message_limit_is_four_hundred_bytes() {
    assert_eq!(IRC_MESSAGE_LIMIT, 400);
}

#[test]
fn short_text_is_one_chunk() {
    assert_eq!(chunk("hello", 400), vec![String::from("hello")]);
}

#[test]
fn lines_become_independent_chunks() {
    assert_eq!(
        chunk("one\ntwo", 400),
        vec![String::from("one"), String::from("two")]
    );
}

#[test]
fn empty_lines_yield_no_chunks() {
    assert_eq!(chunk("a\n\nb\n", 400), vec![String::from("a"), String::from("b")]);
}

#[test]
fn split_lines_round_trips_with_newlines() {
    let text = "a\n\nbc\n";
    let lines = split_lines(text);
    assert_eq!(
        lines,
        vec![String::from("a"), String::from(""), String::from("bc"), String::from("")]
    );
    assert_eq!(lines.join("\n"), text);
}

#[test]
fn chunk_line_round_trips_by_concatenation() {
    let line: String = std::iter::repeat('q').take(1000).collect();
    let chunks = chunk_line(&line, 333);
    assert!(chunks.iter().all(|c| c.len() <= 333));
    assert_eq!(chunks.concat(), line);
}

#[test]
fn exact_limit_line_leaves_no_empty_chunk() {
    let line: String = std::iter::repeat('e').take(400).collect();
    let chunks = chunk_line(&line, 400);
    assert_eq!(chunks.len(), 1);
    assert_eq!(chunks[0].len(), 400);
}

#[test]
fn chunks_never_split_a_grapheme() {
    // Each "e\u{301}" (e + combining accent) is one 3-byte grapheme; a
    // 4-byte budget fits only one whole grapheme per chunk.
    let line: String = "e\u{301}e\u{301}e\u{301}".to_string();
    let chunks = chunk_line(&line, 4);
    assert_eq!(chunks.len(), 3);
    for c in &chunks {
        assert_eq!(c.as_str(), "e\u{301}");
    }
    assert_eq!(chunks.concat(), line);
}

#[test]
fn oversized_grapheme_forms_its_own_chunk() {
    // One grapheme larger than the limit is still delivered whole.
    let line = "e\u{301}";
    let chunks = chunk_line(line, 1);
    assert_eq!(chunks, vec![String::from("e\u{301}")]);
}

#[test]
fn text_without_references_is_unchanged() {
    let mut cache = MentionCache::new();
    let text = String::from("plain text, no refs <@> <@!x> <not-a-ref>");
    let out = get_content(&text, &Vec::new(), &mut cache);
    assert_eq!(out, text);
    assert_eq!(cache.len(), 0);
}

#[test]
fn cached_reference_renders_the_cached_name() {
    let mut cache = MentionCache::new();
    cache.observe(42, String::from("alice"));
    let out = get_content(&String::from("hi <@42>!"), &Vec::new(), &mut cache);
    assert_eq!(out, "hi alice!");
}

#[test]
fn context_reference_renders_at_name_and_populates_cache() {
    let mut cache = MentionCache::new();
    let mentions = vec![(7u64, String::from("bob"))];
    let out = get_content(&String::from("ping <@7>"), &mentions, &mut cache);
    assert_eq!(out, "ping @bob");
    // The name found in the event's mention list is now cached (bare).
    assert_eq!(cache.resolve(7), Some(String::from("bob")));
    let again = get_content(&String::from("ping <@7>"), &Vec::new(), &mut cache);
    assert_eq!(again, "ping bob");
}

#[test]
fn unknown_reference_renders_the_raw_placeholder() {
    let mut cache = MentionCache::new();
    let out = get_content(&String::from("who is <@12345>?"), &Vec::new(), &mut cache);
    assert_eq!(out, "who is <@12345>?");
    assert_eq!(cache.len(), 0);
}

#[test]
fn bang_form_is_recognized_too() {
    let mut cache = MentionCache::new();
    cache.observe(5, String::from("eve"));
    let out = get_content(&String::from("<@!5> waves"), &Vec::new(), &mut cache);
    assert_eq!(out, "eve waves");
}

#[test]
fn reference_too_large_for_an_id_is_left_verbatim() {
    let mut cache = MentionCache::new();
    let text = String::from("<@99999999999999999999999999>");
    let out = get_content(&text, &Vec::new(), &mut cache);
    assert_eq!(out, text);
}

#[test]
fn several_references_resolve_in_order() {
    let mut cache = MentionCache::new();
    cache.observe(1, String::from("ann"));
    let mentions = vec![(2u64, String::from("ben"))];
    let out = get_content(&String::from("<@1> meets <@2> and <@3>"), &mentions, &mut cache);
    assert_eq!(out, "ann meets @ben and <@3>");
}

#[test]
fn observe_member_prefers_the_nickname() {
    let mut cache = MentionCache::new();
    cache.observe_member(8, Some(String::from("nick")), String::from("username"));
    assert_eq!(cache.resolve(8), Some(String::from("nick")));
    cache.observe_member(8, None, String::from("username"));
    assert_eq!(cache.resolve(8), Some(String::from("username")));
}

#[test]
fn later_observations_win() {
    let mut cache = MentionCache::new();
    cache.observe(3, String::from("old"));
    cache.observe(3, String::from("new"));
    assert_eq!(cache.resolve(3), Some(String::from("new")));
    assert_eq!(cache.resolve(4), None);
    assert_eq!(cache.len(), 1);
}

#[test]
fn resolve_or_search_falls_back_in_order() {
    let mut cache = MentionCache::new();
    let mentions = vec![(2u64, String::from("ben"))];
    assert_eq!(cache.resolve_or_search(2, &mentions), "@ben");
    assert_eq!(cache.resolve_or_search(2, &Vec::new()), "ben");
    assert_eq!(cache.resolve_or_search(9, &Vec::new()), "<@9>");
}
