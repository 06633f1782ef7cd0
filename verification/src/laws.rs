//! Library-wide laws: properties of the generation policies and the sampler
//! proved once and for all, over the same spec functions the executable
//! contracts use.

use vstd::prelude::*;
use crate::english_word::{
    ctx_of, spec_can_reach, spec_end_choice, spec_end_open, spec_first_reaching,
    spec_generate_word, spec_generate_word_target, spec_middle_open, spec_middle_target,
    spec_raw, spec_sample, spec_text,
};
use crate::model::{
    ModelView, lemma_find_token_in_table, lemma_transitions_wf, marker_free, spec_context,
    spec_find_token, spec_scaled, spec_transitions, table_total,
};

verus! {

// ---------------------------------------------------------------------------
// Empty sources
// ---------------------------------------------------------------------------
/// A byte source of length 0 yields an empty word under both policies.
pub proof fn lemma_empty_source(m: ModelView, target: nat)
    requires
        m.wf(),
    ensures
        spec_generate_word(m, Seq::empty()) == Seq::<char>::empty(),
        spec_generate_word_target(m, Seq::empty(), target) == Seq::<char>::empty(),
{
}

// ---------------------------------------------------------------------------
// Determinism
// ---------------------------------------------------------------------------
/// The word is a function of the byte-source content alone: two sources
/// holding the same bytes, in the same order, yield the same word under
/// either policy. (The generators' own contracts pin each run to these spec
/// functions, so repeated runs agree.)
pub proof fn lemma_deterministic(m: ModelView, b1: Seq<u8>, b2: Seq<u8>, target: nat)
    requires
        b1 == b2,
    ensures
        spec_generate_word(m, b1) == spec_generate_word(m, b2),
        spec_generate_word_target(m, b1, target) == spec_generate_word_target(m, b2, target),
{
}

// ---------------------------------------------------------------------------
// No positional markers in output
// ---------------------------------------------------------------------------
proof fn lemma_marker_free_concat(a: Seq<char>, b: Seq<char>)
    requires
        marker_free(a),
        marker_free(b),
    ensures
        marker_free(a + b),
{
    assert forall|i: int| 0 <= i < (a + b).len() implies (a + b)[i] != '^' && (a + b)[i] != '$' by {
        if i < a.len() {
            assert((a + b)[i] == a[i]);
        } else {
            assert((a + b)[i] == b[i - a.len()]);
        }
    }
}

proof fn lemma_text_marker_free(m: ModelView, tok: u16)
    requires
        m.wf(),
        (tok as int) < m.tokens.len(),
    ensures
        marker_free(spec_text(m, tok)),
{
}

proof fn lemma_sample_token_in_range(m: ModelView, kind: crate::model::TransView, ctx: Seq<u16>, raw: u32)
    requires
        m.wf(),
        kind.wf(m.context_len, m.tokens.len()),
        ctx.len() == m.context_len,
        spec_transitions(kind, ctx) is Some,
    ensures
        (spec_sample(m, spec_transitions(kind, ctx).unwrap(), raw) as int) < m.tokens.len(),
{
    let t = spec_transitions(kind, ctx).unwrap();
    lemma_transitions_wf(kind, m.context_len, m.tokens.len(), ctx);
    lemma_find_token_in_table(t, spec_scaled(raw, m.probability_max, table_total(t)));
}

proof fn lemma_end_open_marker_free(m: ModelView, bytes: Seq<u8>, pos: int, history: Seq<u16>)
    requires
        m.wf(),
    ensures
        marker_free(spec_end_open(m, bytes, pos, history)),
{
    let ctx = ctx_of(m, history);
    match spec_transitions(m.end, ctx) {
        None => {},
        Some(t) => {
            let raw = if 8 * bytes.len() - pos >= m.probability_bits {
                spec_raw(bytes, pos, m.probability_bits)
            } else {
                0u32
            };
            lemma_sample_token_in_range(m, m.end, ctx, raw);
            lemma_text_marker_free(m, spec_sample(m, t, raw));
        },
    }
}

proof fn lemma_middle_open_marker_free(m: ModelView, bytes: Seq<u8>, pos: int, history: Seq<u16>)
    requires
        m.wf(),
    ensures
        marker_free(spec_middle_open(m, bytes, pos, history)),
    decreases 8 * bytes.len() - pos,
{
    let ctx = ctx_of(m, history);
    if 8 * bytes.len() - pos < m.probability_bits {
        lemma_end_open_marker_free(m, bytes, pos, history);
    } else {
        match spec_transitions(m.middle, ctx) {
            None => {
                lemma_end_open_marker_free(m, bytes, pos, history);
            },
            Some(t) => {
                let tok = spec_sample(m, t, spec_raw(bytes, pos, m.probability_bits));
                lemma_sample_token_in_range(
                    m,
                    m.middle,
                    ctx,
                    spec_raw(bytes, pos, m.probability_bits),
                );
                lemma_text_marker_free(m, tok);
                lemma_middle_open_marker_free(
                    m,
                    bytes,
                    pos + m.probability_bits,
                    history.push(tok),
                );
                lemma_marker_free_concat(
                    spec_text(m, tok),
                    spec_middle_open(m, bytes, pos + m.probability_bits, history.push(tok)),
                );
            },
        }
    }
}

/// The open-ended policy never emits a positional marker character: every
/// appended fragment is a token text with its markers stripped.
pub proof fn lemma_generate_word_marker_free(m: ModelView, bytes: Seq<u8>)
    requires
        m.wf(),
    ensures
        marker_free(spec_generate_word(m, bytes)),
{
    let pb = m.probability_bits;
    if 8 * bytes.len() >= pb {
        let ctx = ctx_of(m, Seq::empty());
        match spec_transitions(m.middle, ctx) {
            None => {},
            Some(t) => {
                let tok = spec_sample(m, t, spec_raw(bytes, 0, pb));
                lemma_sample_token_in_range(m, m.middle, ctx, spec_raw(bytes, 0, pb));
                lemma_text_marker_free(m, tok);
                lemma_middle_open_marker_free(m, bytes, pb as int, seq![tok]);
                lemma_marker_free_concat(
                    spec_text(m, tok),
                    spec_middle_open(m, bytes, pb as int, seq![tok]),
                );
            },
        }
    }
}

proof fn lemma_end_choice_token_in_range(
    m: ModelView,
    kind: crate::model::TransView,
    ctx: Seq<u16>,
    cur: nat,
    target: nat,
    raw: u32,
)
    requires
        m.wf(),
        kind.wf(m.context_len, m.tokens.len()),
        ctx.len() == m.context_len,
        spec_transitions(kind, ctx) is Some,
    ensures
        (spec_end_choice(m, spec_transitions(kind, ctx).unwrap(), cur, target, raw) as int)
            < m.tokens.len(),
{
    let t = spec_transitions(kind, ctx).unwrap();
    lemma_transitions_wf(kind, m.context_len, m.tokens.len(), ctx);
    crate::english_word::lemma_end_choice_in_table(m, t, cur, target, raw);
}

proof fn lemma_middle_target_marker_free(
    m: ModelView,
    bytes: Seq<u8>,
    pos: int,
    history: Seq<u16>,
    cur: nat,
    target: nat,
)
    requires
        m.wf(),
    ensures
        marker_free(spec_middle_target(m, bytes, pos, history, cur, target)),
    decreases 8 * bytes.len() - pos,
{
    let pb = m.probability_bits;
    let ctx = ctx_of(m, history);
    match spec_transitions(m.middle, ctx) {
        None => {},
        Some(mt) => {
            let end_opt = spec_transitions(m.end, ctx);
            if end_opt is Some && spec_can_reach(m, end_opt.unwrap(), cur, target) {
                let raw = if 8 * bytes.len() - pos >= pb {
                    spec_raw(bytes, pos, pb)
                } else {
                    0u32
                };
                lemma_end_choice_token_in_range(m, m.end, ctx, cur, target, raw);
                lemma_text_marker_free(
                    m,
                    spec_end_choice(m, end_opt.unwrap(), cur, target, raw),
                );
            } else if 8 * bytes.len() - pos < pb {
            } else {
                let tok = spec_sample(m, mt, spec_raw(bytes, pos, pb));
                lemma_sample_token_in_range(m, m.middle, ctx, spec_raw(bytes, pos, pb));
                lemma_text_marker_free(m, tok);
                lemma_middle_target_marker_free(
                    m,
                    bytes,
                    pos + pb,
                    history.push(tok),
                    cur + spec_text(m, tok).len(),
                    target,
                );
                lemma_marker_free_concat(
                    spec_text(m, tok),
                    spec_middle_target(
                        m,
                        bytes,
                        pos + pb,
                        history.push(tok),
                        cur + spec_text(m, tok).len(),
                        target,
                    ),
                );
            }
        },
    }
}

/// The target-length policy never emits a positional marker character.
pub proof fn lemma_generate_word_target_marker_free(m: ModelView, bytes: Seq<u8>, target: nat)
    requires
        m.wf(),
    ensures
        marker_free(spec_generate_word_target(m, bytes, target)),
{
    let pb = m.probability_bits;
    if 8 * bytes.len() >= pb {
        let ctx = ctx_of(m, Seq::empty());
        match spec_transitions(m.middle, ctx) {
            None => {},
            Some(t) => {
                let tok = spec_sample(m, t, spec_raw(bytes, 0, pb));
                lemma_sample_token_in_range(m, m.middle, ctx, spec_raw(bytes, 0, pb));
                lemma_text_marker_free(m, tok);
                lemma_middle_target_marker_free(
                    m,
                    bytes,
                    pb as int,
                    seq![tok],
                    spec_text(m, tok).len(),
                    target,
                );
                lemma_marker_free_concat(
                    spec_text(m, tok),
                    spec_middle_target(
                        m,
                        bytes,
                        pb as int,
                        seq![tok],
                        spec_text(m, tok).len(),
                        target,
                    ),
                );
            },
        }
    }
}

// ---------------------------------------------------------------------------
// Target-length exit step
// ---------------------------------------------------------------------------
proof fn lemma_first_reaching_reaches(m: ModelView, et: Seq<(u16, u32)>, cur: nat, target: nat)
    requires
        exists|j: int|
            0 <= j < et.len() && cur + spec_text(m, (#[trigger] et[j]).0).len() >= target,
    ensures
        spec_first_reaching(m, et, cur, target) is Some,
        cur + spec_text(m, spec_first_reaching(m, et, cur, target).unwrap()).len() >= target,
    decreases et.len(),
{
    if cur + spec_text(m, et[0].0).len() >= target {
    } else {
        let j = choose|j: int|
            0 <= j < et.len() && cur + spec_text(m, (#[trigger] et[j]).0).len() >= target;
        assert(et.skip(1)[j - 1] == et[j]);
        lemma_first_reaching_reaches(m, et.skip(1), cur, target);
    }
}

/// When the exit step of the target-length policy fires because the target
/// is reachable — the running length already meets it, or some end token's
/// text would reach it — the chosen end token never leaves the finished word
/// short of the target, whatever the entropy sampled. (When nothing reaches
/// the target the policy still terminates, falling back to the table's last
/// entry; the sampled token is also kept, even when a shorter qualifying one
/// exists, so the word may exceed the shortest reachable length.)
pub proof fn lemma_end_choice_reaches_target(
    m: ModelView,
    et: Seq<(u16, u32)>,
    cur: nat,
    target: nat,
    raw: u32,
)
    requires
        et.len() > 0,
        spec_can_reach(m, et, cur, target),
    ensures
        cur + spec_text(m, spec_end_choice(m, et, cur, target, raw)).len() >= target,
{
    let sampled = spec_sample(m, et, raw);
    if cur + spec_text(m, sampled).len() < target {
        assert(cur < target);
        lemma_first_reaching_reaches(m, et, cur, target);
    }
}

// ---------------------------------------------------------------------------
// Rescaling extremes
// ---------------------------------------------------------------------------
proof fn lemma_find_at_total(t: Seq<(u16, u32)>)
    requires
        t.len() > 0,
        forall|p: int, q: int| 0 <= p < q < t.len() ==> t[p].1 < t[q].1,
    ensures
        spec_find_token(t, table_total(t)) == t[t.len() - 1].0,
    decreases t.len(),
{
    if t.len() == 1 {
    } else if t[0].1 >= table_total(t) {
        assert(t[0].1 < t[t.len() - 1].1);
    } else {
        assert(forall|p: int, q: int|
            0 <= p < q < t.skip(1).len() ==> t.skip(1)[p].1 < t.skip(1)[q].1);
        assert(t.skip(1)[t.skip(1).len() - 1] == t[t.len() - 1]);
        lemma_find_at_total(t.skip(1));
    }
}

/// A raw sample equal to the raw maximum rescales to the table's total mass
/// and picks the last (highest-cumulative) token, on any non-empty table
/// with strictly increasing cumulative weights.
pub proof fn lemma_sample_raw_max(t: Seq<(u16, u32)>, raw_max: u32)
    requires
        t.len() > 0,
        raw_max > 0,
        forall|p: int, q: int| 0 <= p < q < t.len() ==> t[p].1 < t[q].1,
    ensures
        spec_find_token(t, spec_scaled(raw_max, raw_max, table_total(t))) == t[t.len() - 1].0,
{
    let total = table_total(t);
    if total == 0 {
        assert(spec_scaled(raw_max, raw_max, total) == 0);
        assert(t.len() == 1) by {
            if t.len() > 1 {
                assert(t[0].1 < t[t.len() - 1].1);
            }
        };
    } else {
        assert(spec_scaled(raw_max, raw_max, total) == total) by {
            if raw_max != total {
                vstd::arithmetic::div_mod::lemma_div_multiples_vanish(
                    total as int,
                    raw_max as int,
                );
                assert((raw_max as int) * (total as int) == (raw_max as int) * (total as int));
            }
        };
        lemma_find_at_total(t);
    }
}

proof fn lemma_find_at_total_hits_total(t: Seq<(u16, u32)>)
    requires
        t.len() > 0,
        forall|p: int, q: int| 0 <= p <= q < t.len() ==> t[p].1 <= t[q].1,
    ensures
        exists|j: int|
            0 <= j < t.len() && (#[trigger] t[j]).0 == spec_find_token(t, table_total(t))
                && t[j].1 == table_total(t),
    decreases t.len(),
{
    let total = table_total(t);
    assert(t[0].1 <= t[t.len() - 1].1);
    if t[0].1 >= total {
        assert(t[0].0 == spec_find_token(t, total) && t[0].1 == total);
    } else {
        assert(t.len() > 1);
        let s = t.skip(1);
        assert(forall|p: int, q: int| 0 <= p <= q < s.len() ==> s[p].1 <= s[q].1);
        assert(s[s.len() - 1] == t[t.len() - 1]);
        lemma_find_at_total_hits_total(s);
        let j = choose|j: int|
            0 <= j < s.len() && (#[trigger] s[j]).0 == spec_find_token(s, table_total(s))
                && s[j].1 == table_total(s);
        assert(t[j + 1] == s[j]);
    }
}

/// On any non-empty table with non-decreasing cumulative weights, a raw
/// sample equal to the raw maximum picks a token whose cumulative weight is
/// the table's whole mass (with strictly increasing weights: the last token).
pub proof fn lemma_sample_raw_max_hits_total_mass(t: Seq<(u16, u32)>, raw_max: u32)
    requires
        t.len() > 0,
        raw_max > 0,
        forall|p: int, q: int| 0 <= p <= q < t.len() ==> t[p].1 <= t[q].1,
    ensures
        exists|j: int|
            0 <= j < t.len() && (#[trigger] t[j]).0 == spec_find_token(
                t,
                spec_scaled(raw_max, raw_max, table_total(t)),
            ) && t[j].1 == table_total(t),
{
    let total = table_total(t);
    if total == 0 {
        assert(spec_scaled(raw_max, raw_max, total) == 0);
        assert(t[0].1 <= t[t.len() - 1].1);
        assert(t[0].0 == spec_find_token(t, 0) && t[0].1 == total);
    } else {
        assert(spec_scaled(raw_max, raw_max, total) == total) by {
            if raw_max != total {
                vstd::arithmetic::div_mod::lemma_div_multiples_vanish(
                    total as int,
                    raw_max as int,
                );
            }
        };
        lemma_find_at_total_hits_total(t);
    }
}

/// A raw sample of 0 rescales to 0 and picks the table's first token, on any
/// non-empty table.
pub proof fn lemma_sample_zero(t: Seq<(u16, u32)>, raw_max: u32)
    requires
        t.len() > 0,
    ensures
        spec_find_token(t, spec_scaled(0, raw_max, table_total(t))) == t[0].0,
{
    let total = table_total(t);
    assert(spec_scaled(0, raw_max, total) == 0) by {
        if raw_max != 0 && raw_max != total && total != 0 {
            assert(0int * (total as int) == 0);
        }
    };
}

// ---------------------------------------------------------------------------
// Context padding
// ---------------------------------------------------------------------------
/// On a history shorter than the window, the context is left-padded with the
/// sentinel and keeps the history's own order on the right; on a longer one
/// it is exactly the history's last `context_len` entries.
pub proof fn lemma_context_padding(context_len: nat, none_token: u16, history: Seq<u16>)
    ensures
        spec_context(context_len, none_token, history).len() == context_len,
        history.len() < context_len ==> {
            &&& forall|i: int|
                0 <= i < context_len - history.len() ==> spec_context(
                    context_len,
                    none_token,
                    history,
                )[i] == none_token
            &&& forall|i: int|
                0 <= i < history.len() ==> spec_context(context_len, none_token, history)[
                    context_len - history.len() + i
                ] == history[i]
        },
        history.len() >= context_len ==> forall|i: int|
            0 <= i < context_len ==> spec_context(context_len, none_token, history)[i] == history[
                history.len() - context_len + i
            ],
{
}

} // verus!
