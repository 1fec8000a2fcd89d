//! Inline user-reference resolution for Discord-originated text: scans for
//! the `<@id>` / `<@!id>` mention syntax and replaces each occurrence with a
//! human-readable form — the cached display name, a name found in the
//! message's own mention list (which also populates the cache), or a
//! bracketed raw form — leaving all other text untouched.

use vstd::prelude::*;

use crate::mention::MentionCache;

verus! {

/// A decimal digit.
pub open spec fn is_digit(c: char) -> bool {
    '0' as u32 <= c as u32 && c as u32 <= '9' as u32
}

/// The numeric value of one decimal digit.
pub open spec fn digit_val(c: char) -> int {
    c as u32 - '0' as u32
}

/// The numeric value of a digit string, most significant digit first.
pub open spec fn digits_val(ds: Seq<char>) -> int
    decreases ds.len(),
{
    if ds.len() == 0 {
        0
    } else {
        digits_val(ds.drop_last()) * 10 + digit_val(ds.last())
    }
}

/// The value of a digit string is never negative.
pub proof fn lemma_digits_val_nonneg(ds: Seq<char>)
    requires
        forall|t: int| 0 <= t < ds.len() ==> is_digit(#[trigger] ds[t]),
    ensures
        digits_val(ds) >= 0,
    decreases ds.len(),
{
    if ds.len() != 0 {
        lemma_digits_val_nonneg(ds.drop_last());
    }
}

/// The first position at or after `j` holding a non-digit (or the end).
pub open spec fn digit_run_end(s: Seq<char>, j: int) -> int
    decreases s.len() - j,
    when 0 <= j <= s.len()
{
    if j >= s.len() {
        j
    } else if is_digit(s[j]) {
        digit_run_end(s, j + 1)
    } else {
        j
    }
}

/// `digit_run_end` names the end of the digit run: everything from `j` up to
/// it is a digit, and it is past the run.
pub proof fn lemma_digit_run_end(s: Seq<char>, j: int)
    requires
        0 <= j <= s.len(),
    ensures
        j <= digit_run_end(s, j) <= s.len(),
        forall|t: int| j <= t < digit_run_end(s, j) ==> is_digit(#[trigger] s[t]),
        digit_run_end(s, j) < s.len() ==> !is_digit(s[digit_run_end(s, j)]),
    decreases s.len() - j,
{
    if j < s.len() && is_digit(s[j]) {
        lemma_digit_run_end(s, j + 1);
    }
}

/// The converse: a position bounding a pure digit run from `j` is the run's
/// end.
pub proof fn lemma_digit_run_end_at(s: Seq<char>, j: int, k: int)
    requires
        0 <= j <= k <= s.len(),
        forall|t: int| j <= t < k ==> is_digit(#[trigger] s[t]),
        k < s.len() ==> !is_digit(s[k]),
    ensures
        digit_run_end(s, j) == k,
    decreases s.len() - j,
{
    if j < s.len() && is_digit(s[j]) {
        lemma_digit_run_end_at(s, j + 1, k);
    }
}

/// Where the digits of a mention starting at `i` begin: after `<@`, or after
/// `<@!` when the optional bang is present.
pub open spec fn mention_digits_start(s: Seq<char>, i: int) -> int {
    if s[i + 2] == '!' {
        i + 3
    } else {
        i + 2
    }
}

/// Whether the mention syntax `<@digits>` or `<@!digits>` occurs at `i`, with
/// a value small enough to be a real user ID. A digit string too large for
/// 64 bits is not a recognizable reference and is left verbatim.
pub open spec fn spec_mention_at(s: Seq<char>, i: int) -> bool {
    &&& 0 <= i
    &&& i + 2 < s.len()
    &&& s[i] == '<'
    &&& s[i + 1] == '@'
    &&& {
        let j = mention_digits_start(s, i);
        let e = digit_run_end(s, j);
        &&& j <= s.len()
        &&& e > j
        &&& e < s.len()
        &&& s[e] == '>'
        &&& digits_val(s.subrange(j, e)) < 0x1_0000_0000_0000_0000
    }
}

/// The referenced user ID of the mention at `i`.
pub open spec fn spec_mention_id(s: Seq<char>, i: int) -> u64 {
    digits_val(s.subrange(mention_digits_start(s, i), digit_run_end(s, mention_digits_start(s, i))))
        as u64
}

/// The position just past the mention at `i` (past its closing `>`).
pub open spec fn spec_mention_end(s: Seq<char>, i: int) -> int {
    digit_run_end(s, mention_digits_start(s, i)) + 1
}

/// A recognized mention spans at least four characters.
pub proof fn lemma_mention_end_past(s: Seq<char>, i: int)
    requires
        spec_mention_at(s, i),
    ensures
        i + 4 <= spec_mention_end(s, i) <= s.len(),
{
    lemma_digit_run_end(s, mention_digits_start(s, i));
}

/// One decimal digit as a character.
pub open spec fn digit_char(d: int) -> char {
    if d == 0 {
        '0'
    } else if d == 1 {
        '1'
    } else if d == 2 {
        '2'
    } else if d == 3 {
        '3'
    } else if d == 4 {
        '4'
    } else if d == 5 {
        '5'
    } else if d == 6 {
        '6'
    } else if d == 7 {
        '7'
    } else if d == 8 {
        '8'
    } else {
        '9'
    }
}

/// The decimal rendering of a number, most significant digit first.
pub open spec fn spec_dec_digits(n: int) -> Seq<char>
    decreases n,
{
    if n < 10 {
        seq![digit_char(n)]
    } else {
        spec_dec_digits(n / 10).push(digit_char(n % 10))
    }
}

/// A decimal rendering is never empty.
pub proof fn lemma_dec_digits_nonempty(n: int)
    ensures
        spec_dec_digits(n).len() >= 1,
{
}

/// The first name attached to the given ID in the event's own mention list.
pub open spec fn spec_ctx_lookup(ctx: Seq<(u64, Seq<char>)>, id: u64) -> Option<Seq<char>>
    decreases ctx.len(),
{
    if ctx.len() == 0 {
        None
    } else if ctx.first().0 == id {
        Some(ctx.first().1)
    } else {
        spec_ctx_lookup(ctx.drop_first(), id)
    }
}

/// The bracketed raw form used when no name can be found: `<@id>`.
pub open spec fn spec_placeholder(id: u64) -> Seq<char> {
    seq!['<', '@'] + spec_dec_digits(id as int) + seq!['>']
}

/// What one recognized reference becomes, and how the cache changes: the
/// cached name as-is; otherwise a name from the event's mention list,
/// prefixed with `@` and recorded in the cache; otherwise the raw
/// placeholder, with the cache untouched.
pub open spec fn spec_resolve_mention(
    id: u64,
    cache: Map<u64, Seq<char>>,
    ctx: Seq<(u64, Seq<char>)>,
) -> (Seq<char>, Map<u64, Seq<char>>) {
    if cache.contains_key(id) {
        (cache[id], cache)
    } else {
        match spec_ctx_lookup(ctx, id) {
            Some(name) => (seq!['@'] + name, cache.insert(id, name)),
            None => (spec_placeholder(id), cache),
        }
    }
}

/// Law: a recognized reference never resolves to empty text, provided no
/// cached display name is itself empty.
pub proof fn lemma_resolution_nonempty(id: u64, cache: Map<u64, Seq<char>>, ctx: Seq<(u64, Seq<char>)>)
    requires
        cache.contains_key(id) ==> cache[id].len() > 0,
    ensures
        spec_resolve_mention(id, cache, ctx).0.len() > 0,
{
    lemma_dec_digits_nonempty(id as int);
}

/// The full scan from position `i`: literal characters are kept verbatim and
/// in order; each recognized reference is replaced by its resolution, with
/// cache updates threaded left to right.
pub open spec fn spec_scan(
    s: Seq<char>,
    i: int,
    cache: Map<u64, Seq<char>>,
    ctx: Seq<(u64, Seq<char>)>,
) -> (Seq<char>, Map<u64, Seq<char>>)
    decreases s.len() - i,
    when 0 <= i
    via spec_scan_decreases
{
    if i >= s.len() {
        (Seq::empty(), cache)
    } else if spec_mention_at(s, i) {
        let resolved = spec_resolve_mention(spec_mention_id(s, i), cache, ctx);
        let rest = spec_scan(s, spec_mention_end(s, i), resolved.1, ctx);
        (resolved.0 + rest.0, rest.1)
    } else {
        let rest = spec_scan(s, i + 1, cache, ctx);
        (seq![s[i]] + rest.0, rest.1)
    }
}

#[via_fn]
proof fn spec_scan_decreases(
    s: Seq<char>,
    i: int,
    cache: Map<u64, Seq<char>>,
    ctx: Seq<(u64, Seq<char>)>,
) {
    if i < s.len() && spec_mention_at(s, i) {
        lemma_mention_end_past(s, i);
    }
}

/// Law: on text with no recognizable reference the scan is the identity —
/// the text comes back unchanged and the cache is untouched.
pub proof fn lemma_no_references_unchanged(
    s: Seq<char>,
    cache: Map<u64, Seq<char>>,
    ctx: Seq<(u64, Seq<char>)>,
)
    requires
        forall|i: int| 0 <= i < s.len() ==> !spec_mention_at(s, i),
    ensures
        spec_scan(s, 0, cache, ctx).0 == s,
        spec_scan(s, 0, cache, ctx).1 == cache,
{
    lemma_scan_literal_from(s, 0, cache, ctx);
    assert(s.skip(0) =~= s);
}

/// Decides `is_digit` on a character.
fn digit_check(c: char) -> (r: bool)
    ensures
        r == is_digit(c),
{
    let u = c as u32;
    '0' as u32 <= u && u <= '9' as u32
}

/// The numeric value of one decimal digit character.
fn digit_of(c: char) -> (d: u64)
    requires
        is_digit(c),
    ensures
        d == digit_val(c),
{
    (c as u64) - ('0' as u64)
}

/// One decimal digit rendered as a character.
fn digit_char_of(d: u64) -> (c: char)
    requires
        d < 10,
    ensures
        c == digit_char(d as int),
{
    if d == 0 {
        '0'
    } else if d == 1 {
        '1'
    } else if d == 2 {
        '2'
    } else if d == 3 {
        '3'
    } else if d == 4 {
        '4'
    } else if d == 5 {
        '5'
    } else if d == 6 {
        '6'
    } else if d == 7 {
        '7'
    } else if d == 8 {
        '8'
    } else {
        '9'
    }
}

/// Appends the decimal rendering of `n` to `out`.
fn push_dec_digits(n: u64, out: &mut Vec<char>)
    ensures
        final(out)@ == old(out)@ + spec_dec_digits(n as int),
    decreases n,
{
    if n < 10 {
        out.push(digit_char_of(n));
        proof {
            assert(old(out)@ + spec_dec_digits(n as int) =~= old(out)@.push(digit_char(n as int)));
        }
    } else {
        push_dec_digits(n / 10, out);
        out.push(digit_char_of(n % 10));
        proof {
            assert(old(out)@ + spec_dec_digits(n as int) =~= (old(out)@ + spec_dec_digits(
                n as int / 10,
            )).push(digit_char(n as int % 10)));
        }
    }
}

/// Recognizes the mention syntax at position `i`, returning the referenced
/// ID and the position just past the closing `>`.
fn parse_mention_at(cs: &Vec<char>, i: usize) -> (r: Option<(u64, usize)>)
    requires
        i < cs@.len(),
    ensures
        match r {
            Some(pair) => spec_mention_at(cs@, i as int) && pair.0 == spec_mention_id(
                cs@,
                i as int,
            ) && pair.1 as int == spec_mention_end(cs@, i as int),
            None => !spec_mention_at(cs@, i as int),
        },
{
    let n = cs.len();
    if n < 4 || i >= n - 3 {
        proof {
            if spec_mention_at(cs@, i as int) {
                let j = mention_digits_start(cs@, i as int);
                lemma_digit_run_end(cs@, j);
            }
        }
        return None;
    }
    if cs[i] != '<' || cs[i + 1] != '@' {
        return None;
    }
    let j0: usize = if cs[i + 2] == '!' {
        i + 3
    } else {
        i + 2
    };
    let mut j = j0;
    let mut val: u64 = 0;
    let mut over = false;
    proof {
        assert(cs@.subrange(j0 as int, j0 as int) =~= Seq::<char>::empty());
    }
    while j < n && digit_check(cs[j])
        invariant
            n == cs@.len(),
            0 <= j0 <= j <= n,
            forall|t: int| j0 <= t < j ==> is_digit(#[trigger] cs@[t]),
            !over ==> val == digits_val(cs@.subrange(j0 as int, j as int)),
            over ==> digits_val(cs@.subrange(j0 as int, j as int)) >= 0x1_0000_0000_0000_0000,
        decreases n - j,
    {
        let d = digit_of(cs[j]);
        let ghost prefix = cs@.subrange(j0 as int, j as int);
        let ghost prefix1 = cs@.subrange(j0 as int, j + 1);
        proof {
            assert(prefix1.drop_last() =~= prefix);
            assert(prefix1.last() == cs@[j as int]);
            assert(digits_val(prefix1) == digits_val(prefix) * 10 + digit_val(cs@[j as int]));
        }
        if !over {
            if val <= (u64::MAX - d) / 10 {
                proof {
                    assert(val * 10 + d <= u64::MAX) by (nonlinear_arith)
                        requires
                            0 <= d <= 9,
                            0 <= val <= (u64::MAX - d) / 10,
                    ;
                }
                val = val * 10 + d;
            } else {
                proof {
                    assert(val * 10 + d >= 0x1_0000_0000_0000_0000) by (nonlinear_arith)
                        requires
                            0 <= d <= 9,
                            val > (u64::MAX - d) / 10,
                            val <= u64::MAX,
                    ;
                }
                over = true;
            }
        } else {
            proof {
                lemma_digits_val_nonneg(prefix);
                assert(digits_val(prefix) * 10 + digit_val(cs@[j as int]) >= digits_val(
                    prefix,
                )) by (nonlinear_arith)
                    requires
                        digits_val(prefix) >= 0,
                        digit_val(cs@[j as int]) >= 0,
                ;
            }
        }
        j += 1;
    }
    proof {
        lemma_digit_run_end_at(cs@, j0 as int, j as int);
    }
    if j == j0 {
        return None;
    }
    if j >= n {
        return None;
    }
    if cs[j] != '>' {
        return None;
    }
    if over {
        return None;
    }
    Some((val, j + 1))
}

/// The first name attached to `id` in the event's own mention list.
fn ctx_lookup(ctx: &Vec<(u64, String)>, id: u64) -> (r: Option<String>)
    ensures
        match r {
            Some(name) => spec_ctx_lookup(ctx.deep_view(), id) == Some(name@),
            None => spec_ctx_lookup(ctx.deep_view(), id) is None,
        },
{
    let ghost full = ctx.deep_view();
    let n = ctx.len();
    let mut t: usize = 0;
    proof {
        assert(full.skip(0) =~= full);
        assert(full.len() == n);
    }
    while t < n
        invariant
            n == ctx.len(),
            full == ctx.deep_view(),
            full.len() == n,
            0 <= t <= n,
            spec_ctx_lookup(full, id) == spec_ctx_lookup(full.skip(t as int), id),
        decreases n - t,
    {
        proof {
            assert(ctx.deep_view()[t as int] == ctx@[t as int].deep_view());
            assert(full.skip(t as int).first() == full[t as int]);
        }
        if ctx[t].0 == id {
            return Some(ctx[t].1.clone());
        }
        proof {
            assert(full.skip(t as int).drop_first() =~= full.skip(t + 1));
        }
        t += 1;
    }
    proof {
        assert(full.skip(n as int) =~= Seq::<(u64, Seq<char>)>::empty());
    }
    None
}

impl MentionCache {
    /// Resolves one referenced ID: the cached name if present; otherwise a
    /// name found in the event's own mention list (prefixed with `@` and
    /// recorded in the cache); otherwise the raw `<@id>` placeholder, so
    /// formatting never fails.
    pub fn resolve_or_search(&mut self, id: u64, context: &Vec<(u64, String)>) -> (r: String)
        ensures
            r@ == spec_resolve_mention(id, old(self)@, context.deep_view()).0,
            final(self)@ == spec_resolve_mention(id, old(self)@, context.deep_view()).1,
    {
        match self.resolve(id) {
            Some(name) => name,
            None => {
                match ctx_lookup(context, id) {
                    Some(name) => {
                        self.observe(id, name.clone());
                        let mut out: Vec<char> = Vec::new();
                        out.push('@');
                        let mut ncs = crate::format::chars_vec(name.as_str());
                        out.append(&mut ncs);
                        proof {
                            assert(out@ =~= seq!['@'] + name@);
                        }
                        crate::format::string_from_chars(&out)
                    },
                    None => {
                        let mut out: Vec<char> = Vec::new();
                        out.push('<');
                        out.push('@');
                        push_dec_digits(id, &mut out);
                        out.push('>');
                        proof {
                            assert(out@ =~= spec_placeholder(id));
                        }
                        crate::format::string_from_chars(&out)
                    },
                }
            },
        }
    }
}

/// Replaces every recognized inline user reference in `text`, resolving each
/// through the cache and the event's own mention list, and keeping all other
/// text verbatim and in order.
pub fn get_content(text: &String, mentions: &Vec<(u64, String)>, cache: &mut MentionCache) -> (r:
    String)
    ensures
        r@ == spec_scan(text@, 0, old(cache)@, mentions.deep_view()).0,
        final(cache)@ == spec_scan(text@, 0, old(cache)@, mentions.deep_view()).1,
{
    let ghost s = text@;
    let ghost ctx = mentions.deep_view();
    let ghost cache0 = cache@;
    let cs = crate::format::chars_vec(text.as_str());
    let n = cs.len();
    let mut out: Vec<char> = Vec::new();
    let mut i: usize = 0;
    proof {
        assert(Seq::<char>::empty() + spec_scan(s, 0, cache0, ctx).0 =~= spec_scan(
            s,
            0,
            cache0,
            ctx,
        ).0);
    }
    while i < n
        invariant
            n == s.len(),
            cs@ == s,
            ctx == mentions.deep_view(),
            0 <= i <= n,
            spec_scan(s, 0, cache0, ctx).0 == out@ + spec_scan(s, i as int, cache@, ctx).0,
            spec_scan(s, 0, cache0, ctx).1 == spec_scan(s, i as int, cache@, ctx).1,
        decreases n - i,
    {
        let ghost cache_here = cache@;
        match parse_mention_at(&cs, i) {
            Some(pair) => {
                let ghost resolved = spec_resolve_mention(pair.0, cache_here, ctx);
                proof {
                    lemma_mention_end_past(s, i as int);
                }
                let piece = cache.resolve_or_search(pair.0, mentions);
                let mut pcs = crate::format::chars_vec(piece.as_str());
                let ghost before = out@;
                out.append(&mut pcs);
                proof {
                    assert(spec_scan(s, i as int, cache_here, ctx).0 == resolved.0 + spec_scan(
                        s,
                        spec_mention_end(s, i as int),
                        resolved.1,
                        ctx,
                    ).0);
                    assert(out@ + spec_scan(s, pair.1 as int, cache@, ctx).0 =~= before
                        + spec_scan(s, i as int, cache_here, ctx).0);
                }
                i = pair.1;
            },
            None => {
                let ghost before = out@;
                out.push(cs[i]);
                proof {
                    assert(spec_scan(s, i as int, cache_here, ctx).0 == seq![s[i as int]]
                        + spec_scan(s, i + 1, cache_here, ctx).0);
                    assert(out@ + spec_scan(s, i + 1, cache@, ctx).0 =~= before + spec_scan(
                        s,
                        i as int,
                        cache_here,
                        ctx,
                    ).0);
                }
                i += 1;
            },
        }
    }
    proof {
        assert(out@ + Seq::<char>::empty() =~= out@);
    }
    crate::format::string_from_chars(&out)
}

/// Helper for `lemma_no_references_unchanged`, generalized over the start.
proof fn lemma_scan_literal_from(
    s: Seq<char>,
    i: int,
    cache: Map<u64, Seq<char>>,
    ctx: Seq<(u64, Seq<char>)>,
)
    requires
        0 <= i <= s.len(),
        forall|t: int| 0 <= t < s.len() ==> !spec_mention_at(s, t),
    ensures
        spec_scan(s, i, cache, ctx).0 == s.skip(i),
        spec_scan(s, i, cache, ctx).1 == cache,
    decreases s.len() - i,
{
    if i >= s.len() {
        assert(s.skip(i) =~= Seq::<char>::empty());
    } else {
        lemma_scan_literal_from(s, i + 1, cache, ctx);
        assert(seq![s[i]] + s.skip(i + 1) =~= s.skip(i));
    }
}

} // verus!
