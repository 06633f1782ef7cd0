//! Word generation: drive the bit reader, context lookup and weighted
//! sampler through a start / middle / end state machine, under either the
//! open-ended (consume all entropy) or the target-length policy.

use vstd::prelude::*;
use vstd::string::StrSliceExecFns;
use vstd::string::StringExecFns;
use crate::bit_reader::{BitReader, bits_value, suffix_of, lemma_suffix_of_trans};
use crate::model::{
    ModelView, WordModel, build_context, find_token, scaled_value, spec_context,
    spec_find_token, spec_scaled, spec_transitions, table_total, token_text,
    lemma_transitions_wf, lemma_find_token_in_table, strip_markers,
};
use crate::traits::ByteReader;

verus! {

/// The context window the model builds over a history.
pub open spec fn ctx_of(m: ModelView, history: Seq<u16>) -> Seq<u16> {
    spec_context(m.context_len, m.none_token, history)
}

/// The raw sample read at bit position `pos`.
pub open spec fn spec_raw(bytes: Seq<u8>, pos: int, pb: nat) -> u32 {
    bits_value(bytes, pos, pb) as u32
}

/// A token's display text with markers stripped.
pub open spec fn spec_text(m: ModelView, tok: u16) -> Seq<char> {
    strip_markers(m.tokens[tok as int])
}

/// The token a raw sample picks from a table, after rescaling into the
/// table's weight domain.
pub open spec fn spec_sample(m: ModelView, t: Seq<(u16, u32)>, raw: u32) -> u16 {
    spec_find_token(t, spec_scaled(raw, m.probability_max, table_total(t)))
}

/// The end step of the open-ended policy: sample an end token from the end
/// table for the current context (a raw value of 0 when the entropy is
/// spent), or nothing when no end table applies.
pub open spec fn spec_end_open(m: ModelView, bytes: Seq<u8>, pos: int, history: Seq<u16>) -> Seq<
    char,
> {
    match spec_transitions(m.end, ctx_of(m, history)) {
        None => Seq::empty(),
        Some(t) => {
            let raw = if 8 * bytes.len() - pos >= m.probability_bits {
                spec_raw(bytes, pos, m.probability_bits)
            } else {
                0u32
            };
            spec_text(m, spec_sample(m, t, raw))
        },
    }
}

/// The middle loop of the open-ended policy, starting at bit position `pos`
/// with the given history: sample middle tokens while entropy and tables
/// last, then take the end step.
pub open spec fn spec_middle_open(
    m: ModelView,
    bytes: Seq<u8>,
    pos: int,
    history: Seq<u16>,
) -> Seq<char>
    decreases 8 * bytes.len() - pos,
        when m.probability_bits >= 1
{
    if 8 * bytes.len() - pos < m.probability_bits {
        spec_end_open(m, bytes, pos, history)
    } else {
        match spec_transitions(m.middle, ctx_of(m, history)) {
            None => spec_end_open(m, bytes, pos, history),
            Some(t) => {
                let tok = spec_sample(m, t, spec_raw(bytes, pos, m.probability_bits));
                spec_text(m, tok) + spec_middle_open(
                    m,
                    bytes,
                    pos + m.probability_bits,
                    history.push(tok),
                )
            },
        }
    }
}

/// The word the open-ended policy produces from a byte stream: empty when
/// the stream cannot yield one sample or no initial table applies; otherwise
/// a first token sampled from the middle tables over the empty history,
/// followed by the middle loop.
pub open spec fn spec_generate_word(m: ModelView, bytes: Seq<u8>) -> Seq<char> {
    let pb = m.probability_bits;
    if 8 * bytes.len() < pb {
        Seq::empty()
    } else {
        match spec_transitions(m.middle, ctx_of(m, Seq::empty())) {
            None => Seq::empty(),
            Some(t) => {
                let tok = spec_sample(m, t, spec_raw(bytes, 0, pb));
                spec_text(m, tok) + spec_middle_open(m, bytes, pb as int, seq![tok])
            },
        }
    }
}

/// Generate an English-like word from a byte source, consuming entropy until
/// it runs out or no continuation table applies. The word is a beginning
/// token, zero or more middle tokens, and an end token where one applies.
pub fn generate_word<R: ByteReader>(model: &WordModel, reader: &mut R) -> (result: String)
    requires
        model.wf(),
        8 * old(reader).bytes().len() + 64 <= usize::MAX,
    ensures
        result@ == spec_generate_word(model@, old(reader).bytes()),
        suffix_of(final(reader).bytes(), old(reader).bytes()),
{
    let ghost m = model@;
    let ghost bytes0 = old(reader).bytes();
    let mut bit_reader = BitReader::new(reader);
    let mut result = String::new();
    let pb = model.probability_bits;

    // Select beginning token
    let begin_value = match bit_reader.read_bits(reader, pb) {
        None => {
            return String::new();
        },
        Some(v) => v,
    };
    let empty_history: Vec<u16> = Vec::new();
    let context = build_context(model, &empty_history);
    let transitions = match crate::model::transitions_for_context(&model.middle, &context) {
        None => {
            return String::new();
        },
        Some(t) => t,
    };
    proof {
        lemma_transitions_wf(m.middle, m.context_len, m.tokens.len(), ctx_of(m, Seq::empty()));
        lemma_find_token_in_table(
            transitions@,
            spec_scaled(begin_value, m.probability_max, table_total(transitions@)),
        );
    }
    let total = if transitions.len() == 0 {
        0
    } else {
        transitions[transitions.len() - 1].1
    };
    let scaled = scaled_value(begin_value, model.probability_max, total);
    let first_token = find_token(&transitions, scaled);
    let txt = token_text(model, first_token);
    result.append(txt.as_str());
    let mut history: Vec<u16> = Vec::new();
    history.push(first_token);
    proof {
        assert(history@ =~= seq![first_token]);
        assert(result@ =~= spec_text(m, first_token));
    }

    // Select middle tokens while we have entropy
    loop
        invariant
            model.wf(),
            m == model@,
            pb == model.probability_bits,
            1 <= pb <= 32,
            bit_reader.inv(reader.bytes()),
            bit_reader.src(reader.bytes()) == bytes0,
            suffix_of(reader.bytes(), bytes0),
            spec_generate_word(m, bytes0) == result@ + spec_middle_open(
                m,
                bytes0,
                bit_reader.pos(),
                history@,
            ),
        ensures
            bit_reader.inv(reader.bytes()),
            bit_reader.src(reader.bytes()) == bytes0,
            suffix_of(reader.bytes(), bytes0),
            spec_generate_word(m, bytes0) == result@ + spec_end_open(
                m,
                bytes0,
                bit_reader.pos(),
                history@,
            ),
        decreases 8 * bytes0.len() - bit_reader.pos(),
    {
        proof {
            bit_reader.lemma_inv_pos_bound(reader.bytes());
        }
        let ghost reader_at_top = reader.bytes();
        let ghost pos_at_top = bit_reader.pos();
        if !bit_reader.has_more_bits(reader, pb) {
            proof {
                lemma_suffix_of_trans(reader.bytes(), reader_at_top, bytes0);
            }
            break;
        }
        proof {
            lemma_suffix_of_trans(reader.bytes(), reader_at_top, bytes0);
        }
        let context = build_context(model, &history);
        let transitions = match crate::model::transitions_for_context(&model.middle, &context) {
            None => {
                break;
            },
            Some(t) => t,
        };
        let ghost reader_mid = reader.bytes();
        let value = match bit_reader.read_bits(reader, pb) {
            None => {
                // has_more_bits has just established that a sample is available
                proof {
                    assert(false);
                }
                break;
            },
            Some(v) => v,
        };
        proof {
            lemma_suffix_of_trans(reader.bytes(), reader_mid, bytes0);
            lemma_transitions_wf(m.middle, m.context_len, m.tokens.len(), ctx_of(m, history@));
            lemma_find_token_in_table(
                transitions@,
                spec_scaled(value, m.probability_max, table_total(transitions@)),
            );
        }
        let total = if transitions.len() == 0 {
            0
        } else {
            transitions[transitions.len() - 1].1
        };
        let scaled = scaled_value(value, model.probability_max, total);
        let next_token = find_token(&transitions, scaled);
        let ghost result_before = result@;
        let ghost history_before = history@;
        let txt = token_text(model, next_token);
        result.append(txt.as_str());
        history.push(next_token);
        proof {
            assert(8 * bytes0.len() - pos_at_top >= pb);
            assert(spec_middle_open(m, bytes0, pos_at_top, history_before) == spec_text(
                m,
                next_token,
            ) + spec_middle_open(m, bytes0, pos_at_top + pb, history_before.push(next_token)));
            assert(history@ == history_before.push(next_token));
            assert(bit_reader.pos() == pos_at_top + pb);
            assert((result_before + spec_text(m, next_token)) + spec_middle_open(
                m,
                bytes0,
                bit_reader.pos(),
                history@,
            ) =~= result_before + (spec_text(m, next_token) + spec_middle_open(
                m,
                bytes0,
                bit_reader.pos(),
                history@,
            )));
        }
    }

    // Select end token using remaining bits or default
    proof {
        bit_reader.lemma_inv_pos_bound(reader.bytes());
    }
    let context = build_context(model, &history);
    let ghost reader_before_end = reader.bytes();
    let ghost pos_before_end = bit_reader.pos();
    if let Some(end_transitions) = crate::model::transitions_for_context(&model.end, &context) {
        let value = match bit_reader.read_bits(reader, pb) {
            None => 0,
            Some(v) => v,
        };
        proof {
            lemma_suffix_of_trans(reader.bytes(), reader_before_end, bytes0);
            lemma_transitions_wf(m.end, m.context_len, m.tokens.len(), ctx_of(m, history@));
            lemma_find_token_in_table(
                end_transitions@,
                spec_scaled(value, m.probability_max, table_total(end_transitions@)),
            );
        }
        let total = if end_transitions.len() == 0 {
            0
        } else {
            end_transitions[end_transitions.len() - 1].1
        };
        let scaled = scaled_value(value, model.probability_max, total);
        let end_token = find_token(&end_transitions, scaled);
        let txt = token_text(model, end_token);
        result.append(txt.as_str());
        proof {
            assert(spec_end_open(m, bytes0, pos_before_end, history@) == spec_text(m, end_token));
        }
    } else {
        proof {
            assert(result@ + Seq::<char>::empty() =~= result@);
        }
    }
    result
}

// ---------------------------------------------------------------------------
// Target-length policy
// ---------------------------------------------------------------------------
/// The target is already met, or at least one end token's text would bring
/// the running length up to it.
pub open spec fn spec_can_reach(m: ModelView, et: Seq<(u16, u32)>, cur: nat, target: nat) -> bool {
    cur >= target || exists|j: int|
        0 <= j < et.len() && cur + spec_text(m, (#[trigger] et[j]).0).len() >= target
}

/// The first entry of the end table, in stored order, whose text would reach
/// the target.
pub open spec fn spec_first_reaching(
    m: ModelView,
    et: Seq<(u16, u32)>,
    cur: nat,
    target: nat,
) -> Option<u16>
    decreases et.len(),
{
    if et.len() == 0 {
        None
    } else if cur + spec_text(m, et[0].0).len() >= target {
        Some(et[0].0)
    } else {
        spec_first_reaching(m, et.skip(1), cur, target)
    }
}

/// The end token the target-length policy picks: the sampled one, unless its
/// text would leave the word short of the target — then the first entry that
/// reaches the target, or, when none does, the table's last entry.
pub open spec fn spec_end_choice(
    m: ModelView,
    et: Seq<(u16, u32)>,
    cur: nat,
    target: nat,
    raw: u32,
) -> u16 {
    let sampled = spec_sample(m, et, raw);
    if cur + spec_text(m, sampled).len() < target {
        match spec_first_reaching(m, et, cur, target) {
            Some(tok) => tok,
            None => if et.len() > 0 {
                et[et.len() - 1].0
            } else {
                sampled
            },
        }
    } else {
        sampled
    }
}

proof fn lemma_first_reaching_in_table(m: ModelView, et: Seq<(u16, u32)>, cur: nat, target: nat)
    requires
        spec_first_reaching(m, et, cur, target) is Some,
    ensures
        exists|j: int|
            0 <= j < et.len() && (#[trigger] et[j]).0 == spec_first_reaching(
                m,
                et,
                cur,
                target,
            ).unwrap(),
    decreases et.len(),
{
    if et.len() == 0 {
    } else if cur + spec_text(m, et[0].0).len() >= target {
        assert(et[0].0 == spec_first_reaching(m, et, cur, target).unwrap());
    } else {
        lemma_first_reaching_in_table(m, et.skip(1), cur, target);
        let j = choose|j: int|
            0 <= j < et.skip(1).len() && (#[trigger] et.skip(1)[j]).0 == spec_first_reaching(
                m,
                et.skip(1),
                cur,
                target,
            ).unwrap();
        assert(et[j + 1].0 == spec_first_reaching(m, et, cur, target).unwrap());
    }
}

/// Whatever the sample and the target, the chosen end token is one of the
/// table's entries.
pub proof fn lemma_end_choice_in_table(
    m: ModelView,
    et: Seq<(u16, u32)>,
    cur: nat,
    target: nat,
    raw: u32,
)
    requires
        et.len() > 0,
    ensures
        exists|j: int|
            0 <= j < et.len() && (#[trigger] et[j]).0 == spec_end_choice(m, et, cur, target, raw),
{
    let sampled = spec_sample(m, et, raw);
    lemma_find_token_in_table(et, spec_scaled(raw, m.probability_max, table_total(et)));
    if cur + spec_text(m, sampled).len() < target {
        match spec_first_reaching(m, et, cur, target) {
            Some(_) => {
                lemma_first_reaching_in_table(m, et, cur, target);
            },
            None => {
                assert(et[et.len() - 1].0 == spec_end_choice(m, et, cur, target, raw));
            },
        }
    }
}

/// Can some end token (or the length already written) satisfy the target?
fn end_reaches(
    model: &WordModel,
    end_transitions: &Vec<(u16, u32)>,
    current_len: usize,
    target_len: usize,
) -> (b: bool)
    requires
        forall|j: int|
            0 <= j < end_transitions@.len() ==> (#[trigger] end_transitions@[j]).0
                < model@.tokens.len(),
    ensures
        b == spec_can_reach(
            model@,
            end_transitions@,
            current_len as nat,
            target_len as nat,
        ),
{
    let ghost m = model@;
    let ghost et = end_transitions@;
    if current_len >= target_len {
        return true;
    }
    let mut j: usize = 0;
    while j < end_transitions.len()
        invariant
            j <= et.len(),
            et == end_transitions@,
            m == model@,
            current_len < target_len,
            forall|i: int|
                0 <= i < et.len() ==> (#[trigger] et[i]).0 < m.tokens.len(),
            forall|i: int|
                0 <= i < j ==> current_len + spec_text(m, (#[trigger] et[i]).0).len()
                    < target_len,
        decreases et.len() - j,
    {
        let txt = token_text(model, end_transitions[j].0);
        if txt.as_str().unicode_len() >= target_len - current_len {
            proof {
                assert(current_len + spec_text(m, et[j as int].0).len() >= target_len);
            }
            return true;
        }
        j = j + 1;
    }
    false
}

/// Sample an end token and, when its text would leave the word short of the
/// target, override it with the first table entry that reaches the target
/// (or the last entry when none does).
fn choose_end_token(
    model: &WordModel,
    end_transitions: &Vec<(u16, u32)>,
    current_len: usize,
    target_len: usize,
    value: u32,
) -> (r: u16)
    requires
        end_transitions@.len() > 0,
        forall|j: int|
            0 <= j < end_transitions@.len() ==> (#[trigger] end_transitions@[j]).0
                < model@.tokens.len(),
    ensures
        r == spec_end_choice(
            model@,
            end_transitions@,
            current_len as nat,
            target_len as nat,
            value,
        ),
{
    let ghost m = model@;
    let ghost et = end_transitions@;
    let total = end_transitions[end_transitions.len() - 1].1;
    proof {
        assert(total == table_total(et));
        lemma_find_token_in_table(et, spec_scaled(value, m.probability_max, table_total(et)));
    }
    let scaled = scaled_value(value, model.probability_max, total);
    let end_token = find_token(end_transitions, scaled);
    let txt = token_text(model, end_token);
    let tl = txt.as_str().unicode_len();
    if current_len < target_len && tl < target_len - current_len {
        proof {
            assert(et.skip(0) =~= et);
        }
        let mut j: usize = 0;
        while j < end_transitions.len()
            invariant
                j <= et.len(),
                et == end_transitions@,
                m == model@,
                current_len < target_len,
                forall|i: int|
                    0 <= i < et.len() ==> (#[trigger] et[i]).0 < m.tokens.len(),
                current_len as nat + spec_text(m, spec_sample(m, et, value)).len()
                    < target_len as nat,
                spec_first_reaching(m, et, current_len as nat, target_len as nat)
                    == spec_first_reaching(
                    m,
                    et.skip(j as int),
                    current_len as nat,
                    target_len as nat,
                ),
            decreases et.len() - j,
        {
            let jt = token_text(model, end_transitions[j].0);
            proof {
                assert(et.skip(j as int)[0] == et[j as int]);
            }
            if jt.as_str().unicode_len() >= target_len - current_len {
                proof {
                    assert(current_len as nat + spec_text(m, et[j as int].0).len()
                        >= target_len as nat);
                    assert(spec_first_reaching(m, et.skip(j as int), current_len as nat,
                        target_len as nat) == Some(et[j as int].0));
                }
                return end_transitions[j].0;
            }
            proof {
                assert(et.skip(j as int).skip(1) =~= et.skip(j as int + 1));
            }
            j = j + 1;
        }
        proof {
            assert(et.skip(et.len() as int) =~= Seq::<(u16, u32)>::empty());
        }
        end_transitions[end_transitions.len() - 1].0
    } else {
        end_token
    }
}

/// The middle loop of the target-length policy: stop when no middle table
/// applies; exit through an end token as soon as the target is satisfiable;
/// otherwise sample a middle token while entropy lasts.
pub open spec fn spec_middle_target(
    m: ModelView,
    bytes: Seq<u8>,
    pos: int,
    history: Seq<u16>,
    cur: nat,
    target: nat,
) -> Seq<char>
    decreases 8 * bytes.len() - pos,
        when m.probability_bits >= 1
{
    let pb = m.probability_bits;
    match spec_transitions(m.middle, ctx_of(m, history)) {
        None => Seq::empty(),
        Some(mt) => {
            let end_opt = spec_transitions(m.end, ctx_of(m, history));
            if end_opt is Some && spec_can_reach(m, end_opt.unwrap(), cur, target) {
                let raw = if 8 * bytes.len() - pos >= pb {
                    spec_raw(bytes, pos, pb)
                } else {
                    0u32
                };
                spec_text(m, spec_end_choice(m, end_opt.unwrap(), cur, target, raw))
            } else if 8 * bytes.len() - pos < pb {
                Seq::empty()
            } else {
                let tok = spec_sample(m, mt, spec_raw(bytes, pos, pb));
                spec_text(m, tok) + spec_middle_target(
                    m,
                    bytes,
                    pos + pb,
                    history.push(tok),
                    cur + spec_text(m, tok).len(),
                    target,
                )
            }
        },
    }
}

/// The word the target-length policy produces from a byte stream and a
/// target length.
pub open spec fn spec_generate_word_target(m: ModelView, bytes: Seq<u8>, target: nat) -> Seq<
    char,
> {
    let pb = m.probability_bits;
    if 8 * bytes.len() < pb {
        Seq::empty()
    } else {
        match spec_transitions(m.middle, ctx_of(m, Seq::empty())) {
            None => Seq::empty(),
            Some(t) => {
                let tok = spec_sample(m, t, spec_raw(bytes, 0, pb));
                spec_text(m, tok) + spec_middle_target(
                    m,
                    bytes,
                    pb as int,
                    seq![tok],
                    spec_text(m, tok).len(),
                    target,
                )
            },
        }
    }
}

/// Generate an English-like word with a minimum target length.
///
/// The word ends with an end token as soon as the target can be reached.
/// When the sampled end token would fall short, the first end token long
/// enough takes its place, so the word never stops short of a reachable
/// target; a source that dies mid-word still yields a well-formed prefix.
pub fn generate_word_with_target_len<R: ByteReader>(
    model: &WordModel,
    reader: &mut R,
    target_len: usize,
) -> (result: String)
    requires
        model.wf(),
        8 * old(reader).bytes().len() + 64 <= usize::MAX,
    ensures
        result@ == spec_generate_word_target(model@, old(reader).bytes(), target_len as nat),
        suffix_of(final(reader).bytes(), old(reader).bytes()),
{
    let ghost m = model@;
    let ghost bytes0 = old(reader).bytes();
    let ghost target = target_len as nat;
    let mut bit_reader = BitReader::new(reader);
    let mut result = String::new();
    let pb = model.probability_bits;

    // Select beginning token
    let begin_value = match bit_reader.read_bits(reader, pb) {
        None => {
            return String::new();
        },
        Some(v) => v,
    };
    let empty_history: Vec<u16> = Vec::new();
    let context = build_context(model, &empty_history);
    let transitions = match crate::model::transitions_for_context(&model.middle, &context) {
        None => {
            return String::new();
        },
        Some(t) => t,
    };
    proof {
        lemma_transitions_wf(m.middle, m.context_len, m.tokens.len(), ctx_of(m, Seq::empty()));
        lemma_find_token_in_table(
            transitions@,
            spec_scaled(begin_value, m.probability_max, table_total(transitions@)),
        );
    }
    let total = if transitions.len() == 0 {
        0
    } else {
        transitions[transitions.len() - 1].1
    };
    let scaled = scaled_value(begin_value, model.probability_max, total);
    let first_token = find_token(&transitions, scaled);
    let txt = token_text(model, first_token);
    result.append(txt.as_str());
    let mut history: Vec<u16> = Vec::new();
    history.push(first_token);
    let mut current_len = result.as_str().unicode_len();
    proof {
        assert(history@ =~= seq![first_token]);
        assert(result@ =~= spec_text(m, first_token));
    }

    loop
        invariant_except_break
            current_len == result@.len(),
            spec_generate_word_target(m, bytes0, target) == result@ + spec_middle_target(
                m,
                bytes0,
                bit_reader.pos(),
                history@,
                current_len as nat,
                target,
            ),
        invariant
            model.wf(),
            m == model@,
            pb == model.probability_bits,
            1 <= pb <= 32,
            target == target_len as nat,
            bit_reader.inv(reader.bytes()),
            bit_reader.src(reader.bytes()) == bytes0,
            suffix_of(reader.bytes(), bytes0),
        ensures
            bit_reader.inv(reader.bytes()),
            suffix_of(reader.bytes(), bytes0),
            spec_generate_word_target(m, bytes0, target) == result@,
        decreases 8 * bytes0.len() - bit_reader.pos(),
    {
        proof {
            bit_reader.lemma_inv_pos_bound(reader.bytes());
        }
        let ghost pos_at_top = bit_reader.pos();
        let ghost cur_at_top = current_len as nat;
        let ghost history_at_top = history@;
        let context = build_context(model, &history);
        let middle_transitions = crate::model::transitions_for_context(&model.middle, &context);
        let end_transitions_opt = crate::model::transitions_for_context(&model.end, &context);
        let transitions = match middle_transitions {
            None => {
                proof {
                    assert(result@ + Seq::<char>::empty() =~= result@);
                }
                break;
            },
            Some(t) => t,
        };

        if let Some(end_transitions) = end_transitions_opt {
            proof {
                lemma_transitions_wf(m.end, m.context_len, m.tokens.len(), ctx_of(m, history@));
            }
            let can_reach_target = end_reaches(model, &end_transitions, current_len, target_len);
            if can_reach_target {
                let ghost reader_mid = reader.bytes();
                let value = match bit_reader.read_bits(reader, pb) {
                    None => 0,
                    Some(v) => v,
                };
                proof {
                    lemma_suffix_of_trans(reader.bytes(), reader_mid, bytes0);
                    lemma_end_choice_in_table(
                        m,
                        end_transitions@,
                        cur_at_top,
                        target,
                        value,
                    );
                }
                let end_token = choose_end_token(
                    model,
                    &end_transitions,
                    current_len,
                    target_len,
                    value,
                );
                let txt = token_text(model, end_token);
                result.append(txt.as_str());
                proof {
                    assert(spec_middle_target(
                        m,
                        bytes0,
                        pos_at_top,
                        history_at_top,
                        cur_at_top,
                        target,
                    ) == spec_text(m, end_token));
                }
                break;
            }
        }

        let ghost reader_mid = reader.bytes();
        let value = match bit_reader.read_bits(reader, pb) {
            None => {
                proof {
                    lemma_suffix_of_trans(reader.bytes(), reader_mid, bytes0);
                    assert(result@ + Seq::<char>::empty() =~= result@);
                }
                break;
            },
            Some(v) => v,
        };
        proof {
            lemma_suffix_of_trans(reader.bytes(), reader_mid, bytes0);
            lemma_transitions_wf(m.middle, m.context_len, m.tokens.len(), ctx_of(m, history@));
            lemma_find_token_in_table(
                transitions@,
                spec_scaled(value, m.probability_max, table_total(transitions@)),
            );
        }
        let total = if transitions.len() == 0 {
            0
        } else {
            transitions[transitions.len() - 1].1
        };
        let scaled = scaled_value(value, model.probability_max, total);
        let next_token = find_token(&transitions, scaled);
        let ghost result_before = result@;
        let txt = token_text(model, next_token);
        result.append(txt.as_str());
        history.push(next_token);
        current_len = result.as_str().unicode_len();
        proof {
            assert(8 * bytes0.len() - pos_at_top >= pb);
            assert(spec_middle_target(m, bytes0, pos_at_top, history_at_top, cur_at_top, target)
                == spec_text(m, next_token) + spec_middle_target(
                m,
                bytes0,
                pos_at_top + pb,
                history_at_top.push(next_token),
                cur_at_top + spec_text(m, next_token).len(),
                target,
            ));
            assert(history@ == history_at_top.push(next_token));
            assert(bit_reader.pos() == pos_at_top + pb);
            assert(current_len as nat == cur_at_top + spec_text(m, next_token).len());
            assert((result_before + spec_text(m, next_token)) + spec_middle_target(
                m,
                bytes0,
                bit_reader.pos(),
                history@,
                current_len as nat,
                target,
            ) =~= result_before + (spec_text(m, next_token) + spec_middle_target(
                m,
                bytes0,
                bit_reader.pos(),
                history@,
                current_len as nat,
                target,
            )));
        }
    }
    result
}

} // verus!

