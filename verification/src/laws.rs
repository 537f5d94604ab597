//! Properties that relate several parts of the library.
use vstd::prelude::*;

use crate::decode::needed_prefix;
use crate::feasibility::greedy_rules;
use crate::first_miss::miss_rules;
use crate::scan::{lemma_scan_decodes, scan_prefix, scan_step, ScanRules};
use crate::variants::{variant_rules, Variant};
use crate::teacher::{teach_state, teach_step, TState};
use crate::gamma::lemma_decode_take_prefix;
use crate::frame::{frame, lemma_parse_frame, parse};
use crate::bench::{tally_after, EncodeTally};
use crate::gamma::{hist_merge, merged, StatsView};
use crate::offsets::{lemma_merged_totals, lemma_offset_tokens_totals, offset_tallies, offsets_merged, OffsetPoint, OffsetView};
use crate::model::{
    copy_from, decode, expand, head_of, lemma_copy_matches, lemma_decode_push, lemma_expand_len, lemma_mod_add, lemma_mod_by,
    lemma_match_len_at, lemma_ring_of_concat, match_cap, match_holds, match_len_at, ring_after, ring_of,
    token_size, token_wf, Token,
};

verus! {

/// A payload framed from tokens that decode to `pixels` reads back as those
/// tokens, all of them are needed to produce `pixels.len()` bytes, and they
/// produce exactly `pixels`: decoding a re-encoded image gives the image.
pub proof fn lemma_payload_roundtrip(ts: Seq<Token>, pixels: Seq<u8>)
    requires
        forall|i: int| 0 <= i < ts.len() ==> #[trigger] token_wf(ts[i]),
        decode(ts) == pixels,
    ensures
        parse(frame(ts)) == Some(ts),
        needed_prefix(ts, pixels.len() as int, ts.len() as int),
        decode(ts.take(ts.len() as int)).take(pixels.len() as int) == pixels,
{
    lemma_parse_frame(ts);
    assert(ts.take(ts.len() as int) =~= ts);
    assert(pixels.take(pixels.len() as int) =~= pixels);
    if ts.len() > 0 {
        let init = ts.drop_last();
        assert(ts.take(ts.len() - 1) =~= init);
        assert(init.push(ts.last()) =~= ts);
        lemma_decode_push(init, ts.last());
        lemma_expand_len(ring_of(decode(init)), crate::model::head_of(decode(init).len() as int), ts.last());
        assert(token_wf(ts[ts.len() - 1]));
        assert(token_size(ts.last()) >= 1);
    }
}

/// Any two ring positions from which a match of the same length reproduces
/// the same bytes write the same bytes: which of them an encoder picks does
/// not change the ring that follows.
pub proof fn lemma_legal_positions_agree(
    ring: Seq<u8>,
    r: int,
    p1: int,
    p2: int,
    target: Seq<u8>,
    len: nat,
)
    requires
        ring.len() == 4096,
        len < 4096,
        match_holds(ring, r, p1, target, len as int),
        match_holds(ring, r, p2, target, len as int),
    ensures
        copy_from(ring, r, p1, len) == copy_from(ring, r, p2, len),
        ring_after(ring, r, copy_from(ring, r, p1, len)) == ring_after(
            ring,
            r,
            copy_from(ring, r, p2, len),
        ),
{
    lemma_copy_matches(ring, r, p1, target, len);
    lemma_copy_matches(ring, r, p2, target, len);
}

/// Merging the tallies of two sets of files does not depend on their order:
/// workers that split a corpus may be joined in any order.
pub proof fn lemma_stats_merge_commutes(a: StatsView, b: StatsView)
    ensures
        merged(a, b) == merged(b, a),
{
    assert(hist_merge(a.rank_dist_asc, b.rank_dist_asc) =~= hist_merge(b.rank_dist_asc, a.rank_dist_asc));
    assert(hist_merge(a.rank_pos_asc, b.rank_pos_asc) =~= hist_merge(b.rank_pos_asc, a.rank_pos_asc));
    assert(hist_merge(a.chosen_dist_hist, b.chosen_dist_hist) =~= hist_merge(
        b.chosen_dist_hist,
        a.chosen_dist_hist,
    ));
    assert(hist_merge(a.chosen_minus_min_hist, b.chosen_minus_min_hist) =~= hist_merge(
        b.chosen_minus_min_hist,
        a.chosen_minus_min_hist,
    ));
}

/// Merging grid counts does not depend on the order of the two sets of
/// files.
pub proof fn lemma_offsets_merge_commutes(a: OffsetView, b: OffsetView)
    ensures
        offsets_merged(a, b) == offsets_merged(b, a),
{
    assert(offsets_merged(a, b).chosen =~= offsets_merged(b, a).chosen);
    assert(offsets_merged(a, b).rejected =~= offsets_merged(b, a).rejected);
}

/// Every file an encoder run records is either a payload match or a
/// payload difference: the counts keep adding up (modulo 2^64).
pub proof fn lemma_tally_counts_add_up(t: EncodeTally, payload: Seq<u8>, original: Seq<u8>)
    requires
        t.files == t.payload_match.wrapping_add(t.payload_diff_files),
    ensures
        ({
            let u = tally_after(t, payload, original);
            u.files == u.payload_match.wrapping_add(u.payload_diff_files)
        }),
{
}

/// The grid counts always add up to the totals (modulo 2^64): replaying a
/// file's tokens, or merging the counts of two sets of files, adds as many
/// chosen (rejected) positions to the grid as to its total, so the
/// percentages a report prints over `total_chosen` sum to 100.
pub proof fn lemma_offset_totals_kept(
    v: OffsetView,
    o: OffsetView,
    input: Seq<u8>,
    w: int,
    ts: Seq<Token>,
)
    requires
        v.wf(),
        o.wf(),
        v.totals_match(),
        o.totals_match(),
        w > 0,
    ensures
        offset_tallies(v, input, w, ts).totals_match(),
        offsets_merged(v, o).totals_match(),
{
    lemma_offset_tokens_totals(input, w, ts, ts.len() as int, OffsetPoint { v, s: 0, stopped: false });
    lemma_merged_totals(v, o);
}

/// `weak` lets through everything `strong` does: the same start rule, a
/// threshold at least as high, lazy literals when `strong` allows them, and
/// no check that `strong` does not make.
pub open spec fn rules_weaker(weak: ScanRules, strong: ScanRules) -> bool {
    &&& weak.init_match == strong.init_match
    &&& weak.threshold >= strong.threshold
    &&& (strong.lazy ==> weak.lazy)
    &&& (weak.literal_must_match ==> strong.literal_must_match)
    &&& (weak.content_must_match ==> strong.content_must_match)
}

/// A replay under weaker rules accepts every token a replay under stricter
/// rules accepts, and writes the same bytes.
pub proof fn lemma_weaker_rules_accept(input: Seq<u8>, leaf: Seq<Token>, weak: ScanRules, strong: ScanRules, k: int)
    requires
        rules_weaker(weak, strong),
        0 <= k <= leaf.len(),
        scan_prefix(input, leaf, strong, k) is Some,
    ensures
        scan_prefix(input, leaf, weak, k) == scan_prefix(input, leaf, strong, k),
    decreases k,
{
    if k > 0 {
        lemma_weaker_rules_accept(input, leaf, weak, strong, k - 1);
        let w = scan_prefix(input, leaf, strong, k - 1)->0;
        assert(scan_step(input, w, leaf[k - 1], strong) is Ok);
        assert(scan_step(input, w, leaf[k - 1], weak) == scan_step(input, w, leaf[k - 1], strong));
    }
}

/// The greedy rules together with a check that each match, copied byte by
/// byte with write-back as a decoder copies it, reproduces the input.
pub open spec fn greedy_decoding_rules() -> ScanRules {
    ScanRules {
        threshold: 2,
        init_match: true,
        lazy: false,
        literal_must_match: true,
        content_must_match: true,
    }
}

/// A stream that covers the input under the greedy rules and whose matches
/// each reproduce the input when copied with write-back decodes to the
/// input, and the greedy check accepts it.
pub proof fn lemma_checked_stream_decodes(input: Seq<u8>, leaf: Seq<Token>)
    requires
        ({
            let w = scan_prefix(input, leaf, greedy_decoding_rules(), leaf.len() as int);
            w is Some && w->0.len() == input.len()
        }),
    ensures
        decode(leaf) == input,
        scan_prefix(input, leaf, greedy_rules(), leaf.len() as int) == scan_prefix(
            input,
            leaf,
            greedy_decoding_rules(),
            leaf.len() as int,
        ),
{
    let n = leaf.len() as int;
    lemma_scan_decodes(input, leaf, greedy_decoding_rules(), n);
    assert(leaf.take(n) =~= leaf);
    assert(input.take(input.len() as int) =~= input);
    lemma_weaker_rules_accept(input, leaf, greedy_rules(), greedy_decoding_rules(), n);
}

/// The checks are nested: a stream that passes the full greedy check has
/// no first miss at the same threshold, and passes every variant that lets
/// matches start on any slot.
pub proof fn lemma_feasible_passes_weaker_checks(input: Seq<u8>, leaf: Seq<Token>, v: Variant)
    requires
        ({
            let w = scan_prefix(input, leaf, greedy_rules(), leaf.len() as int);
            w is Some && w->0.len() == input.len()
        }),
        v.init_match,
        v.threshold >= 2,
    ensures
        scan_prefix(input, leaf, miss_rules(2, true), leaf.len() as int) is Some,
        ({
            let w = scan_prefix(input, leaf, variant_rules(v), leaf.len() as int);
            w is Some && w->0.len() == input.len()
        }),
{
    let n = leaf.len() as int;
    lemma_weaker_rules_accept(input, leaf, miss_rules(2, true), greedy_rules(), n);
    lemma_weaker_rules_accept(input, leaf, variant_rules(v), greedy_rules(), n);
}

/// One token of a teacher-forced replay that stands where a decoder that
/// has emitted `out` stands, when the token's bytes continue the input.
proof fn lemma_teach_step_decodes(out: Seq<u8>, input: Seq<u8>, t: Token, tick: Seq<u32>)
    requires
        token_wf(t),
        out + expand(t, out) == input.take((out + expand(t, out)).len() as int),
        (out + expand(t, out)).len() <= input.len(),
    ensures
        ({
            let st = teach_step(
                TState { ring: ring_of(out), tick, r: head_of(out.len() as int), pos: out.len() as int },
                t,
                input,
            );
            &&& st.ring == ring_of(out + expand(t, out))
            &&& st.r == head_of(out.len() + token_size(t) as int)
            &&& st.pos == out.len() + token_size(t)
        }),
{
    let s = out.len() as int;
    let bytes = expand(t, out);
    lemma_expand_len(ring_of(out), head_of(s), t);
    lemma_ring_of_concat(out, bytes);
    crate::model::lemma_ring_of_len(out);
    crate::model::lemma_mod_basics(0xfee + s);
    lemma_mod_add(0xfee + s, token_size(t) as int);
    match t {
        Token::Literal(b) => {
            assert((out + bytes)[s] == b);
            assert(input.take((out + bytes).len() as int)[s] == input[s]);
            assert(input[s] == b);
            assert(bytes =~= seq![b]);
            assert(bytes.drop_last() =~= Seq::<u8>::empty());
            lemma_mod_by(head_of(s), 0, head_of(s));
            assert(ring_after(ring_of(out), head_of(s), Seq::<u8>::empty()) == ring_of(out));
            assert(bytes.last() == b);
            assert(ring_after(ring_of(out), head_of(s), bytes) == ring_of(out).update(head_of(s), b));
        },
        Token::Match { pos, len } => {
            lemma_mod_by(pos as int, 0, pos as int);
        },
    }
}

/// Teacher forcing reproduces the decoder: for a stream that decodes to the
/// input, the replay that writes input bytes for literals and copies matches
/// from its own ring has, after every prefix of the tokens, the ring, head
/// and position of a decoder that has emitted that prefix.
pub proof fn lemma_teacher_is_decoder(ts: Seq<Token>, input: Seq<u8>, k: int)
    requires
        forall|i: int| 0 <= i < ts.len() ==> #[trigger] token_wf(ts[i]),
        decode(ts) == input,
        0 <= k <= ts.len(),
    ensures
        teach_state(ts, input, k).ring == ring_of(decode(ts.take(k))),
        teach_state(ts, input, k).r == head_of(decode(ts.take(k)).len() as int),
        teach_state(ts, input, k).pos == decode(ts.take(k)).len(),
    decreases k,
{
    if k == 0 {
        assert(ts.take(0) =~= Seq::<Token>::empty());
        lemma_mod_by(0xfee, 0, 0xfee);
    } else {
        lemma_teacher_is_decoder(ts, input, k - 1);
        let out = decode(ts.take(k - 1));
        let t = ts[k - 1];
        assert(token_wf(t));
        assert(ts.take(k) =~= ts.take(k - 1).push(t));
        lemma_decode_push(ts.take(k - 1), t);
        lemma_decode_take_prefix(ts, k);
        lemma_expand_len(ring_of(out), head_of(out.len() as int), t);
        let prev = teach_state(ts, input, k - 1);
        lemma_teach_step_decodes(out, input, t, prev.tick);
    }
}

/// A match that reproduces `len` bytes reproduces every shorter prefix of
/// them: the check of a match is monotone in its length.
pub proof fn lemma_match_holds_shorter(ring: Seq<u8>, r: int, pos: int, target: Seq<u8>, len: int, shorter: int)
    requires
        0 <= shorter <= len,
        match_holds(ring, r, pos, target, len),
    ensures
        match_holds(ring, r, pos, target, shorter),
{
}

/// The longest match from a position is 0 or between 3 and the cap, and a
/// match of any length from 3 to the cap holds from that position exactly
/// when the longest match is at least that long.
pub proof fn lemma_longest_match_at(ring: Seq<u8>, r: int, pos: int, target: Seq<u8>)
    ensures
        match_len_at(ring, r, pos, target) == 0 || 3 <= match_len_at(ring, r, pos, target)
            <= match_cap(target),
        forall|len: int|
            3 <= len <= match_cap(target) ==> (#[trigger] match_holds(ring, r, pos, target, len)
                <==> match_len_at(ring, r, pos, target) >= len),
{
    lemma_match_len_at(ring, r, pos, target);
    assert forall|len: int| 3 <= len <= match_cap(target) implies (#[trigger] match_holds(
        ring,
        r,
        pos,
        target,
        len,
    ) <==> match_len_at(ring, r, pos, target) >= len) by {
        if match_len_at(ring, r, pos, target) >= len {
            lemma_match_holds_shorter(ring, r, pos, target, match_len_at(ring, r, pos, target), len);
        }
    }
}

/// The write-back check of a match says whether copying it byte by byte
/// onto the ring, each byte read after the previous one was written, gives
/// the input bytes it stands for.
pub proof fn lemma_writeback_check_is_copy(ring: Seq<u8>, r: int, pos: int, input: Seq<u8>, s: int, len: int)
    requires
        ring.len() == 4096,
        0 <= s,
        0 <= len < 4096,
        s + len <= input.len(),
    ensures
        match_holds(ring, r, pos, input.skip(s), len) <==> copy_from(ring, r, pos, len as nat)
            == input.subrange(s, s + len),
{
    lemma_copy_matches(ring, r, pos, input.skip(s), len as nat);
    assert(input.skip(s).take(len) =~= input.subrange(s, s + len));
}

} // verus!
