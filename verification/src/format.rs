//! Pure content formatting: sender-prefix rendering for each destination
//! network, newline splitting, and chunking of over-long lines at grapheme
//! boundaries under a byte limit.

use unicode_segmentation::UnicodeSegmentation;
use vstd::prelude::*;

verus! {

use vstd::string::StringExecFns;

/// The per-message byte limit applied to IRC deliveries.
pub const IRC_MESSAGE_LIMIT: usize = 400;

/// The UTF-8 encoded size of a character sequence, in bytes.
pub open spec fn byte_len(s: Seq<char>) -> nat {
    vstd::utf8::encode_utf8(s).len()
}

/// UTF-8 encoding distributes over concatenation, so byte sizes add.
pub proof fn lemma_byte_len_concat(a: Seq<char>, b: Seq<char>)
    ensures
        byte_len(a + b) == byte_len(a) + byte_len(b),
    decreases a.len(),
{
    if a.len() == 0 {
        assert(a + b =~= b);
    } else {
        assert((a + b).drop_first() =~= a.drop_first() + b);
        assert((a + b)[0] == a[0]);
        lemma_byte_len_concat(a.drop_first(), b);
    }
}

/// How a Discord-originated message is rendered for IRC: a plain
/// `sender: text` prefix.
pub open spec fn spec_irc_rendering(sender: Seq<char>, msg: Seq<char>) -> Seq<char> {
    sender + seq![':', ' '] + msg
}

/// How an IRC-originated message is rendered for Discord: the sender name is
/// emphasized, `__**sender**__: text`.
pub open spec fn spec_discord_rendering(sender: Seq<char>, msg: Seq<char>) -> Seq<char> {
    seq!['_', '_', '*', '*'] + sender + seq!['*', '*', '_', '_', ':', ' '] + msg
}

/// Renders a Discord-originated message for delivery to IRC.
pub fn format_discord_for_irc(sender: String, msg: String) -> (r: String)
    ensures
        r@ == spec_irc_rendering(sender@, msg@),
{
    let ghost sv = sender@;
    let mut r = sender;
    r.append(": ");
    r.append(msg.as_str());
    proof {
        reveal_strlit(": ");
        assert(": "@ =~= seq![':', ' ']);
        assert(r@ =~= spec_irc_rendering(sv, msg@));
    }
    r
}

/// Renders an IRC-originated message for delivery to Discord.
pub fn format_irc_for_discord(sender: String, msg: String) -> (r: String)
    ensures
        r@ == spec_discord_rendering(sender@, msg@),
{
    let mut r = String::new();
    r.append("__**");
    r.append(sender.as_str());
    r.append("**__: ");
    r.append(msg.as_str());
    proof {
        reveal_strlit("__**");
        reveal_strlit("**__: ");
        assert("__**"@ =~= seq!['_', '_', '*', '*']);
        assert("**__: "@ =~= seq!['*', '*', '_', '_', ':', ' ']);
        assert(r@ =~= spec_discord_rendering(sender@, msg@));
    }
    r
}

/// The extended grapheme clusters of a character sequence, in order. The
/// clustering is a pure function of the text (Unicode UAX #29); its
/// definition is left to the segmentation library.
pub uninterp spec fn graphemes_of(s: Seq<char>) -> Seq<Seq<char>>;

/// Relies on unicode_segmentation::UnicodeSegmentation::graphemes (extended
/// grapheme clusters, UAX #29): the clusters are determined by the text
/// alone, partition it in order, and are never empty.
#[verifier::external_body]
pub(crate) fn split_graphemes(s: &str) -> (r: Vec<String>)
    ensures
        r.deep_view() == graphemes_of(s@),
        r.deep_view().flatten() == s@,
        forall|i: int| 0 <= i < r.deep_view().len() ==> r.deep_view()[i].len() > 0,
{
    s.graphemes(true).map(str::to_owned).collect()
}

/// Relies on str::chars: yields exactly the characters of the string, in
/// order (the view of a string slice is that character sequence).
#[verifier::external_body]
pub(crate) fn chars_vec(s: &str) -> (r: Vec<char>)
    ensures
        r@ == s@,
{
    s.chars().collect()
}

/// Relies on String: FromIterator<char>: collecting characters builds the
/// string with exactly those characters, in order.
#[verifier::external_body]
pub(crate) fn string_from_chars(cs: &Vec<char>) -> (r: String)
    ensures
        r@ == cs@,
{
    cs.iter().collect()
}

/// Relies on str::len: the length in bytes, which is the UTF-8 encoded size
/// of the characters; an in-memory string's byte length always fits usize.
#[verifier::external_body]
pub(crate) fn str_byte_len(s: &str) -> (r: usize)
    ensures
        r == byte_len(s@),
{
    s.len()
}

/// The position of the first newline in `s`, or `s.len()` if there is none.
pub open spec fn first_newline(s: Seq<char>) -> int
    decreases s.len(),
{
    if s.len() == 0 {
        0
    } else if s.first() == '\n' {
        0
    } else {
        1 + first_newline(s.drop_first())
    }
}

/// `first_newline` names the first newline: nothing before it is a newline,
/// and it is a newline unless the string has none.
pub proof fn lemma_first_newline(s: Seq<char>)
    ensures
        0 <= first_newline(s) <= s.len(),
        forall|j: int| 0 <= j < first_newline(s) ==> s[j] != '\n',
        first_newline(s) < s.len() ==> s[first_newline(s)] == '\n',
    decreases s.len(),
{
    if s.len() != 0 && s.first() != '\n' {
        lemma_first_newline(s.drop_first());
        assert forall|j: int| 0 <= j < first_newline(s) implies s[j] != '\n' by {
            if j > 0 {
                assert(s[j] == s.drop_first()[j - 1]);
            }
        }
    }
}

/// The converse: a position with no newline before it, and a newline (or the
/// end) at it, is `first_newline`.
pub proof fn lemma_first_newline_at(s: Seq<char>, k: int)
    requires
        0 <= k <= s.len(),
        forall|j: int| 0 <= j < k ==> s[j] != '\n',
        k < s.len() ==> s[k] == '\n',
    ensures
        first_newline(s) == k,
    decreases s.len(),
{
    if s.len() != 0 && s.first() != '\n' {
        assert(forall|j: int| 0 <= j < k - 1 ==> s.drop_first()[j] != '\n');
        lemma_first_newline_at(s.drop_first(), k - 1);
    }
}

/// The lines of `s`: the (possibly empty) stretches between newlines. A text
/// with `n` newlines has `n + 1` lines.
pub open spec fn spec_split_lines(s: Seq<char>) -> Seq<Seq<char>>
    decreases s.len(),
    via spec_split_lines_decreases
{
    let i = first_newline(s);
    if i >= s.len() {
        seq![s]
    } else {
        seq![s.take(i)] + spec_split_lines(s.skip(i + 1))
    }
}

#[via_fn]
proof fn spec_split_lines_decreases(s: Seq<char>) {
    lemma_first_newline(s);
}

/// Joining with newlines: the inverse of line splitting.
pub open spec fn spec_join_lines(lines: Seq<Seq<char>>) -> Seq<char>
    decreases lines.len(),
{
    if lines.len() == 0 {
        Seq::empty()
    } else if lines.len() == 1 {
        lines.first()
    } else {
        lines.first() + seq!['\n'] + spec_join_lines(lines.drop_first())
    }
}

/// Law: splitting at newlines loses nothing — joining the lines back with
/// newlines reproduces the text exactly.
pub proof fn lemma_split_join_round_trip(s: Seq<char>)
    ensures
        spec_join_lines(spec_split_lines(s)) == s,
    decreases s.len(),
{
    lemma_first_newline(s);
    let i = first_newline(s);
    if i >= s.len() {
        assert(spec_split_lines(s) == seq![s]);
    } else {
        lemma_split_join_round_trip(s.skip(i + 1));
        let rest = spec_split_lines(s.skip(i + 1));
        assert(rest.len() > 0) by {
            lemma_split_lines_nonempty(s.skip(i + 1));
        }
        let lines = seq![s.take(i)] + rest;
        assert(lines.drop_first() =~= rest);
        assert(lines.len() >= 2);
        assert(spec_join_lines(lines) == s.take(i) + seq!['\n'] + s.skip(i + 1));
        assert(s.take(i) + seq!['\n'] + s.skip(i + 1) =~= s);
    }
}

/// Splitting always yields at least one line.
pub proof fn lemma_split_lines_nonempty(s: Seq<char>)
    ensures
        spec_split_lines(s).len() >= 1,
{
    lemma_first_newline(s);
}

/// Splits the text at explicit newline boundaries. Each line is delivered as
/// an independent send, so receivers see separate lines.
pub fn split_lines(text: &str) -> (r: Vec<String>)
    ensures
        r.deep_view() == spec_split_lines(text@),
{
    let cs = chars_vec(text);
    let n = cs.len();
    let mut r: Vec<String> = Vec::new();
    let mut i0: usize = 0;
    proof {
        assert(text@.skip(0) =~= text@);
        assert(Seq::<Seq<char>>::empty() + spec_split_lines(text@) =~= spec_split_lines(text@));
    }
    loop
        invariant_except_break
            cs@ == text@,
            n == cs.len(),
            0 <= i0 <= n,
            spec_split_lines(text@) == r.deep_view() + spec_split_lines(text@.skip(i0 as int)),
        ensures
            r.deep_view() == spec_split_lines(text@),
        decreases n - i0,
    {
        let ghost rem = text@.skip(i0 as int);
        let mut line: Vec<char> = Vec::new();
        let mut j = i0;
        while j < n && cs[j] != '\n'
            invariant
                cs@ == text@,
                n == cs.len(),
                0 <= i0 <= j <= n,
                line@ == text@.subrange(i0 as int, j as int),
                forall|t: int| i0 <= t < j ==> text@[t] != '\n',
            decreases n - j,
        {
            line.push(cs[j]);
            assert(line@ =~= text@.subrange(i0 as int, j + 1));
            j += 1;
        }
        proof {
            assert(forall|t: int| 0 <= t < j - i0 ==> rem[t] != '\n');
            lemma_first_newline_at(rem, j - i0);
            assert(rem.take(j - i0) =~= text@.subrange(i0 as int, j as int));
        }
        let s = string_from_chars(&line);
        let ghost prev = r.deep_view();
        r.push(s);
        assert(r.deep_view() =~= prev.push(line@));
        if j >= n {
            proof {
                assert(rem =~= text@.subrange(i0 as int, n as int));
                assert(spec_split_lines(rem) == seq![rem]);
                assert(prev + spec_split_lines(rem) =~= prev.push(line@));
            }
            break;
        }
        proof {
            assert(spec_split_lines(rem) == seq![rem.take(j - i0)] + spec_split_lines(
                rem.skip(j - i0 + 1),
            ));
            assert(rem.skip(j - i0 + 1) =~= text@.skip(j + 1));
            assert(prev + spec_split_lines(rem) =~= prev.push(line@) + spec_split_lines(
                text@.skip(j + 1),
            ));
        }
        i0 = j + 1;
    }
    r
}

/// How many leading graphemes fit in `budget` bytes, taken greedily.
pub open spec fn spec_fit_count(gs: Seq<Seq<char>>, budget: int) -> nat
    decreases gs.len(),
{
    if gs.len() == 0 {
        0
    } else if byte_len(gs.first()) <= budget {
        1 + spec_fit_count(gs.drop_first(), budget - byte_len(gs.first()))
    } else {
        0
    }
}

/// The fit count never exceeds the number of graphemes.
pub proof fn lemma_fit_count_le(gs: Seq<Seq<char>>, budget: int)
    ensures
        spec_fit_count(gs, budget) <= gs.len(),
    decreases gs.len(),
{
    if gs.len() != 0 && byte_len(gs.first()) <= budget {
        lemma_fit_count_le(gs.drop_first(), budget - byte_len(gs.first()));
    }
}

/// What the greedily taken prefix occupies: at most the budget.
pub proof fn lemma_fit_count_bytes(gs: Seq<Seq<char>>, budget: int)
    requires
        budget >= 0,
    ensures
        byte_len(gs.take(spec_fit_count(gs, budget) as int).flatten()) <= budget,
    decreases gs.len(),
{
    let k = spec_fit_count(gs, budget) as int;
    lemma_fit_count_le(gs, budget);
    if gs.len() == 0 || byte_len(gs.first()) > budget {
        assert(gs.take(0).flatten() =~= Seq::<char>::empty());
        assert(vstd::utf8::encode_utf8(Seq::<char>::empty()) =~= Seq::<u8>::empty());
    } else {
        let w0 = byte_len(gs.first()) as int;
        lemma_fit_count_bytes(gs.drop_first(), budget - w0);
        let krest = spec_fit_count(gs.drop_first(), budget - w0) as int;
        assert(k == 1 + krest);
        let p = gs.take(k);
        assert(p.len() == k);
        assert(p.first() == gs.first());
        assert(p.drop_first() =~= gs.drop_first().take(krest));
        assert(p.flatten() == gs.first() + gs.drop_first().take(krest).flatten());
        lemma_byte_len_concat(gs.first(), gs.drop_first().take(krest).flatten());
    }
}

/// Greedy grouping of graphemes into chunks of at most `limit` bytes each; a
/// grapheme that alone exceeds the limit forms a chunk of its own, so
/// progress is always made and no grapheme is ever split.
pub open spec fn spec_chunks(gs: Seq<Seq<char>>, limit: int) -> Seq<Seq<char>>
    decreases gs.len(),
    via spec_chunks_decreases
{
    if gs.len() == 0 {
        Seq::empty()
    } else {
        let k = spec_fit_count(gs, limit);
        let k1 = if k == 0 {
            1int
        } else {
            k as int
        };
        seq![gs.take(k1).flatten()] + spec_chunks(gs.skip(k1), limit)
    }
}

#[via_fn]
proof fn spec_chunks_decreases(gs: Seq<Seq<char>>, limit: int) {
    if gs.len() != 0 {
        lemma_fit_count_le(gs, limit);
    }
}

/// Law: chunking loses nothing — concatenating the chunks of a line
/// reproduces the line's graphemes, hence the line, exactly.
pub proof fn lemma_chunks_round_trip(gs: Seq<Seq<char>>, limit: int)
    ensures
        spec_chunks(gs, limit).flatten() == gs.flatten(),
    decreases gs.len(),
{
    broadcast use vstd::prelude::Seq::lemma_flatten_push;

    if gs.len() != 0 {
        lemma_fit_count_le(gs, limit);
        let k = spec_fit_count(gs, limit);
        let k1 = if k == 0 {
            1int
        } else {
            k as int
        };
        lemma_chunks_round_trip(gs.skip(k1), limit);
        let head = gs.take(k1).flatten();
        let chunks = spec_chunks(gs, limit);
        assert(chunks == seq![head] + spec_chunks(gs.skip(k1), limit));
        lemma_flatten_concat_pieces(seq![head], spec_chunks(gs.skip(k1), limit));
        assert(seq![head].flatten() == head) by {
            assert(seq![head].drop_first() =~= Seq::<Seq<char>>::empty());
            assert(head + Seq::<char>::empty() =~= head);
        }
        lemma_flatten_concat_pieces(gs.take(k1), gs.skip(k1));
        assert(gs.take(k1) + gs.skip(k1) =~= gs);
    }
}

/// Flattening distributes over concatenation of sequence-of-sequences.
pub proof fn lemma_flatten_concat_pieces(a: Seq<Seq<char>>, b: Seq<Seq<char>>)
    ensures
        (a + b).flatten() == a.flatten() + b.flatten(),
    decreases a.len(),
{
    if a.len() == 0 {
        assert(a + b =~= b);
        assert(a.flatten() + b.flatten() =~= b.flatten());
    } else {
        assert((a + b).first() == a.first());
        assert((a + b).drop_first() =~= a.drop_first() + b);
        lemma_flatten_concat_pieces(a.drop_first(), b);
        assert(a.first() + (a.drop_first().flatten() + b.flatten()) =~= (a.first()
            + a.drop_first().flatten()) + b.flatten());
    }
}

/// Law: when every grapheme fits in the limit alone, every chunk fits in the
/// limit (the oversized-grapheme escape hatch is never taken).
pub proof fn lemma_chunks_fit(gs: Seq<Seq<char>>, limit: int)
    requires
        limit >= 0,
        forall|i: int| 0 <= i < gs.len() ==> byte_len(#[trigger] gs[i]) <= limit,
    ensures
        forall|j: int|
            0 <= j < spec_chunks(gs, limit).len() ==> byte_len(
                #[trigger] spec_chunks(gs, limit)[j],
            ) <= limit,
    decreases gs.len(),
{
    if gs.len() != 0 {
        lemma_fit_count_le(gs, limit);
        let k = spec_fit_count(gs, limit);
        assert(byte_len(gs.first()) <= limit);
        assert(k >= 1);
        lemma_fit_count_bytes(gs, limit);
        assert(forall|i: int|
            0 <= i < gs.skip(k as int).len() ==> byte_len(#[trigger] gs.skip(k as int)[i])
                <= limit);
        lemma_chunks_fit(gs.skip(k as int), limit);
        let chunks = spec_chunks(gs, limit);
        assert(chunks == seq![gs.take(k as int).flatten()] + spec_chunks(gs.skip(k as int), limit));
        assert forall|j: int| 0 <= j < chunks.len() implies byte_len(#[trigger] chunks[j])
            <= limit by {
            if j == 0 {
                assert(chunks[0] == gs.take(k as int).flatten());
            } else {
                assert(chunks[j] == spec_chunks(gs.skip(k as int), limit)[j - 1]);
            }
        }
    }
}

/// Law: chunks never split a grapheme — each chunk is the concatenation of a
/// consecutive run of the graphemes, in order.
pub proof fn lemma_chunks_grapheme_aligned(gs: Seq<Seq<char>>, limit: int)
    ensures
        forall|j: int|
            0 <= j < spec_chunks(gs, limit).len() ==> exists|lo: int, hi: int|
                0 <= lo <= hi <= gs.len() && #[trigger] spec_chunks(gs, limit)[j] == gs.subrange(
                    lo,
                    hi,
                ).flatten(),
    decreases gs.len(),
{
    if gs.len() != 0 {
        lemma_fit_count_le(gs, limit);
        let k = spec_fit_count(gs, limit);
        let k1 = if k == 0 {
            1int
        } else {
            k as int
        };
        lemma_chunks_grapheme_aligned(gs.skip(k1), limit);
        let chunks = spec_chunks(gs, limit);
        let rest = spec_chunks(gs.skip(k1), limit);
        assert(chunks == seq![gs.take(k1).flatten()] + rest);
        assert forall|j: int| 0 <= j < chunks.len() implies exists|lo: int, hi: int|
            0 <= lo <= hi <= gs.len() && #[trigger] chunks[j] == gs.subrange(lo, hi).flatten() by {
            if j == 0 {
                assert(gs.take(k1) =~= gs.subrange(0, k1));
                assert(chunks[0] == gs.subrange(0, k1).flatten());
            } else {
                assert(chunks[j] == rest[j - 1]);
                let (lo, hi) = choose|lo: int, hi: int|
                    0 <= lo <= hi <= gs.skip(k1).len() && #[trigger] rest[j - 1] == gs.skip(
                        k1,
                    ).subrange(lo, hi).flatten();
                assert(gs.skip(k1).subrange(lo, hi) =~= gs.subrange(lo + k1, hi + k1));
                assert(chunks[j] == gs.subrange(lo + k1, hi + k1).flatten());
            }
        }
    }
}

/// Law: no produced chunk is empty, since graphemes are not — an empty
/// remainder after a split is dropped rather than delivered.
pub proof fn lemma_chunks_nonempty(gs: Seq<Seq<char>>, limit: int)
    requires
        forall|i: int| 0 <= i < gs.len() ==> #[trigger] gs[i].len() > 0,
    ensures
        forall|j: int|
            0 <= j < spec_chunks(gs, limit).len() ==> #[trigger] spec_chunks(gs, limit)[j].len()
                > 0,
    decreases gs.len(),
{
    if gs.len() != 0 {
        lemma_fit_count_le(gs, limit);
        let k = spec_fit_count(gs, limit);
        let k1 = if k == 0 {
            1int
        } else {
            k as int
        };
        assert(forall|i: int| 0 <= i < gs.skip(k1).len() ==> #[trigger] gs.skip(k1)[i].len() > 0);
        lemma_chunks_nonempty(gs.skip(k1), limit);
        let chunks = spec_chunks(gs, limit);
        let rest = spec_chunks(gs.skip(k1), limit);
        assert(chunks == seq![gs.take(k1).flatten()] + rest);
        assert forall|j: int| 0 <= j < chunks.len() implies #[trigger] chunks[j].len() > 0 by {
            if j == 0 {
                let head = gs.take(k1);
                assert(head[0].len() > 0);
                head.lemma_flatten_length_ge_single_element_length(0);
            } else {
                assert(chunks[j] == rest[j - 1]);
            }
        }
    }
}

/// Law: chunking loses nothing across the whole text — rejoining each
/// line's chunks by concatenation and the lines by newlines reproduces the
/// text exactly. (That the grapheme clusters of each line partition it is
/// what the segmentation library guarantees; it is the hypothesis here.)
pub proof fn lemma_chunk_text_round_trip(s: Seq<char>, limit: int)
    requires
        forall|l: Seq<char>|
            #[trigger] spec_split_lines(s).contains(l) ==> graphemes_of(l).flatten() == l,
    ensures
        spec_join_lines(
            spec_split_lines(s).map_values(
                |l: Seq<char>| spec_chunks(graphemes_of(l), limit).flatten(),
            ),
        ) == s,
{
    let lines = spec_split_lines(s);
    let rejoined = lines.map_values(|l: Seq<char>| spec_chunks(graphemes_of(l), limit).flatten());
    assert forall|i: int| 0 <= i < lines.len() implies rejoined[i] == lines[i] by {
        assert(lines.contains(lines[i]));
        lemma_chunks_round_trip(graphemes_of(lines[i]), limit);
    }
    assert(rejoined =~= lines);
    lemma_split_join_round_trip(s);
}

/// Splits one newline-free line into chunks of at most `limit` bytes, never
/// splitting inside a grapheme cluster. A grapheme that alone exceeds the
/// limit is emitted as a chunk of its own. An empty line yields no chunks.
pub fn chunk_line(line: &str, limit: usize) -> (r: Vec<String>)
    ensures
        r.deep_view() == spec_chunks(graphemes_of(line@), limit as int),
{
    let gs = split_graphemes(line);
    let ghost gv = gs.deep_view();
    let n = gs.len();
    proof {
        assert(gv.len() == n);
    }
    let mut r: Vec<String> = Vec::new();
    let mut i: usize = 0;
    proof {
        assert(gv.skip(0) =~= gv);
        assert(Seq::<Seq<char>>::empty() + spec_chunks(gv, limit as int) =~= spec_chunks(
            gv,
            limit as int,
        ));
    }
    while i < n
        invariant
            n == gs.len(),
            gv == gs.deep_view(),
            0 <= i <= n,
            spec_chunks(gv, limit as int) == r.deep_view() + spec_chunks(
                gv.skip(i as int),
                limit as int,
            ),
        decreases n - i,
    {
        let ghost rem = gv.skip(i as int);
        // How many graphemes from position i fit in `limit` bytes, greedily.
        let mut k: usize = 0;
        let mut used: usize = 0;
        proof {
            assert(gv.len() == n);
            assert(rem.skip(0) =~= rem);
            assert(gv.subrange(i as int, i as int).flatten() =~= Seq::<char>::empty());
            assert(vstd::utf8::encode_utf8(Seq::<char>::empty()) =~= Seq::<u8>::empty());
        }
        while i + k < n && str_byte_len(gs[i + k].as_str()) <= limit - used
            invariant
                n == gs.len(),
                gv == gs.deep_view(),
                gv.len() == n,
                rem == gv.skip(i as int),
                0 <= i <= n,
                0 <= k <= n - i,
                used <= limit,
                used == byte_len(gv.subrange(i as int, i + k).flatten()),
                spec_fit_count(rem, limit as int) == k + spec_fit_count(
                    rem.skip(k as int),
                    limit - used,
                ),
            decreases n - i - k,
        {
            let w = str_byte_len(gs[i + k].as_str());
            proof {
                assert(gv.len() == n);
                assert(gs.deep_view()[i + k] == gs@[i + k].deep_view());
                assert(w == byte_len(gv[i + k]));
                let p = gv.subrange(i as int, i + k);
                let p1 = gv.subrange(i as int, i + k + 1);
                assert(p1 =~= p.push(gv[i + k]));
                broadcast use vstd::prelude::Seq::lemma_flatten_push;

                lemma_byte_len_concat(p.flatten(), gv[i + k]);
                assert(byte_len(p1.flatten()) == used + w);
                // one greedy step of the fit count
                let tail = rem.skip(k as int);
                assert(rem.len() == n - i);
                assert(tail.len() == n - i - k);
                assert(tail[0] == rem[k as int]);
                assert(rem[k as int] == gv[i + k]);
                assert(tail.first() == gv[i + k]);
                assert(byte_len(tail.first()) <= limit - used);
                assert(tail.drop_first() =~= rem.skip(k + 1));
                assert(spec_fit_count(tail, limit - used) == 1 + spec_fit_count(
                    rem.skip(k + 1),
                    limit - used - w,
                ));
            }
            used = used + w;
            k = k + 1;
        }
        proof {
            // the greedy scan stopped: the fit count from i is exactly k
            assert(gv.len() == n);
            let tail = rem.skip(k as int);
            assert(rem.len() == n - i);
            assert(tail.len() == n - i - k);
            if i + k < n {
                assert(gs.deep_view()[i + k] == gs@[i + k].deep_view());
                assert(tail[0] == rem[k as int]);
                assert(rem[k as int] == gv[i + k]);
                assert(tail.first() == gv[i + k]);
                assert(byte_len(tail.first()) > limit - used);
                assert(spec_fit_count(tail, limit - used) == 0);
            } else {
                assert(tail.len() == 0);
                assert(spec_fit_count(tail, limit - used) == 0);
            }
            assert(spec_fit_count(rem, limit as int) == k);
        }
        // Assemble the chunk: k graphemes, or a single oversized grapheme.
        let k1: usize = if k == 0 {
            1
        } else {
            k
        };
        let mut chunk = String::new();
        let mut j: usize = 0;
        while j < k1
            invariant
                n == gs.len(),
                gv == gs.deep_view(),
                0 <= i <= n,
                0 < k1 <= n - i,
                0 <= j <= k1,
                chunk@ == gv.subrange(i as int, i + j).flatten(),
            decreases k1 - j,
        {
            chunk.append(gs[i + j].as_str());
            proof {
                assert(gs.deep_view()[i + j] == gs@[i + j].deep_view());
                let p = gv.subrange(i as int, i + j);
                let p1 = gv.subrange(i as int, i + j + 1);
                assert(p1 =~= p.push(gv[i + j]));
                broadcast use vstd::prelude::Seq::lemma_flatten_push;

            }
            j += 1;
        }
        let ghost prev = r.deep_view();
        r.push(chunk);
        proof {
            assert(r.deep_view() =~= prev.push(gv.subrange(i as int, i + k1).flatten()));
            // one unfolding of spec_chunks on the remainder
            assert(rem.take(k1 as int) =~= gv.subrange(i as int, i + k1));
            assert(rem.skip(k1 as int) =~= gv.skip(i + k1));
            assert(spec_chunks(rem, limit as int) == seq![rem.take(k1 as int).flatten()]
                + spec_chunks(rem.skip(k1 as int), limit as int));
            assert(prev + spec_chunks(rem, limit as int) =~= prev.push(
                gv.subrange(i as int, i + k1).flatten(),
            ) + spec_chunks(gv.skip(i + k1), limit as int));
        }
        i = i + k1;
    }
    proof {
        assert(gv.skip(n as int) =~= Seq::<Seq<char>>::empty());
        assert(r.deep_view() + Seq::<Seq<char>>::empty() =~= r.deep_view());
    }
    r
}

/// The chunks of a whole text: each line is chunked independently, and the
/// results are concatenated in line order. Lines left empty (by consecutive
/// newlines, or a trailing one) yield no chunks.
pub open spec fn spec_chunk_text(s: Seq<char>, limit: int) -> Seq<Seq<char>> {
    spec_split_lines(s).map_values(|l: Seq<char>| spec_chunks(graphemes_of(l), limit)).flatten()
}

/// Splits outbound text first at newlines, then chunks each line under the
/// byte limit at grapheme boundaries.
pub fn chunk(text: &str, limit: usize) -> (r: Vec<String>)
    ensures
        r.deep_view() == spec_chunk_text(text@, limit as int),
{
    let lines = split_lines(text);
    let ghost lv = lines.deep_view();
    let ghost f = |l: Seq<char>| spec_chunks(graphemes_of(l), limit as int);
    let n = lines.len();
    proof {
        assert(lv.len() == n);
    }
    let mut r: Vec<String> = Vec::new();
    let mut i: usize = 0;
    while i < n
        invariant
            n == lines.len(),
            lv == lines.deep_view(),
            0 <= i <= n,
            r.deep_view() == lv.take(i as int).map_values(f).flatten(),
            f == (|l: Seq<char>| spec_chunks(graphemes_of(l), limit as int)),
        decreases n - i,
    {
        let ghost prev = r.deep_view();
        let mut cs = chunk_line(lines[i].as_str(), limit);
        let ghost csv = cs.deep_view();
        proof {
            assert(lines.deep_view()[i as int] == lines@[i as int].deep_view());
            assert(csv == f(lv[i as int]));
        }
        let m = cs.len();
        let mut j: usize = 0;
        while j < m
            invariant
                m == cs.len(),
                csv == cs.deep_view(),
                0 <= j <= m,
                r.deep_view() == prev + csv.take(j as int),
            decreases m - j,
        {
            let ghost before = r.deep_view();
            let piece = cs[j].clone();
            proof {
                assert(cs.deep_view()[j as int] == cs@[j as int].deep_view());
            }
            r.push(piece);
            proof {
                assert(r.deep_view() =~= before.push(csv[j as int]));
                assert(csv.take(j + 1) =~= csv.take(j as int).push(csv[j as int]));
                assert(before.push(csv[j as int]) =~= prev + csv.take(j + 1));
            }
            j += 1;
        }
        proof {
            assert(csv.take(m as int) =~= csv);
            let t1 = lv.take(i + 1).map_values(f);
            let t0 = lv.take(i as int).map_values(f);
            assert(lv.take(i + 1) =~= lv.take(i as int).push(lv[i as int]));
            assert(t1 =~= t0.push(f(lv[i as int])));
            broadcast use vstd::prelude::Seq::lemma_flatten_push;

            assert(t1.flatten() == t0.flatten() + f(lv[i as int]));
            assert(r.deep_view() =~= t1.flatten());
        }
        i += 1;
    }
    proof {
        assert(lv.take(n as int) =~= lv);
    }
    r
}

} // verus!
