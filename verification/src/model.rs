//! The static word model: token display texts and, per table kind, sorted
//! context windows with their weighted transition tables.

use vstd::prelude::*;
use vstd::string::StrSliceExecFns;
use vstd::string::StringExecFns;

verus! {

// ---------------------------------------------------------------------------
// Lexicographic order on fixed-length context windows
// ---------------------------------------------------------------------------
/// Strict lexicographic order on equal-length token-id windows, compared
/// element by element from position `i` on.
pub open spec fn lex_lt_from(a: Seq<u16>, b: Seq<u16>, i: int) -> bool
    decreases a.len() - i,
{
    if i < 0 || i >= a.len() || i >= b.len() {
        false
    } else if a[i] < b[i] {
        true
    } else if a[i] > b[i] {
        false
    } else {
        lex_lt_from(a, b, i + 1)
    }
}

/// Strict lexicographic order on equal-length token-id windows.
pub open spec fn lex_lt(a: Seq<u16>, b: Seq<u16>) -> bool {
    lex_lt_from(a, b, 0)
}

proof fn lemma_lex_lt_from_irrefl(a: Seq<u16>, i: int)
    ensures
        !lex_lt_from(a, a, i),
    decreases a.len() - i,
{
    if 0 <= i < a.len() {
        lemma_lex_lt_from_irrefl(a, i + 1);
    }
}

pub proof fn lemma_lex_lt_irrefl(a: Seq<u16>)
    ensures
        !lex_lt(a, a),
{
    lemma_lex_lt_from_irrefl(a, 0);
}

proof fn lemma_lex_lt_from_trans(a: Seq<u16>, b: Seq<u16>, c: Seq<u16>, i: int)
    requires
        a.len() == b.len() == c.len(),
        lex_lt_from(a, b, i),
        lex_lt_from(b, c, i),
    ensures
        lex_lt_from(a, c, i),
    decreases a.len() - i,
{
    if 0 <= i < a.len() {
        if a[i] == b[i] && b[i] == c[i] {
            lemma_lex_lt_from_trans(a, b, c, i + 1);
        }
    }
}

/// Strict lexicographic order is transitive.
pub proof fn lemma_lex_lt_trans(a: Seq<u16>, b: Seq<u16>, c: Seq<u16>)
    requires
        a.len() == b.len() == c.len(),
        lex_lt(a, b),
        lex_lt(b, c),
    ensures
        lex_lt(a, c),
{
    lemma_lex_lt_from_trans(a, b, c, 0);
}

/// Three-way comparison of two equal-length windows; negative means `a`
/// is lexicographically below `b`, positive means above, zero means equal.
pub fn cmp_context(a: &Vec<u16>, b: &Vec<u16>) -> (r: i8)
    requires
        a@.len() == b@.len(),
    ensures
        r == 0 <==> a@ == b@,
        r < 0 <==> lex_lt(a@, b@),
        r > 0 <==> lex_lt(b@, a@),
{
    let n = a.len();
    let mut i: usize = 0;
    while i < n
        invariant
            0 <= i <= n,
            n == a@.len() == b@.len(),
            forall|j: int| 0 <= j < i ==> a@[j] == b@[j],
            lex_lt(a@, b@) == lex_lt_from(a@, b@, i as int),
            lex_lt(b@, a@) == lex_lt_from(b@, a@, i as int),
        decreases n - i,
    {
        if a[i] < b[i] {
            return -1;
        }
        if a[i] > b[i] {
            return 1;
        }
        i = i + 1;
    }
    proof {
        assert(a@ =~= b@);
        lemma_lex_lt_irrefl(a@);
    }
    0
}

// ---------------------------------------------------------------------------
// The model data and its invariants
// ---------------------------------------------------------------------------
/// One table kind (middle or end): context windows sorted lexicographically,
/// a parallel `(offset, length)` index, and the shared transition array of
/// `(token id, cumulative weight)` pairs.
pub struct TransitionSet {
    pub contexts: Vec<Vec<u16>>,
    pub index: Vec<(u32, u16)>,
    pub data: Vec<(u16, u32)>,
}

/// Ghost image of a `TransitionSet`.
pub struct TransView {
    pub contexts: Seq<Seq<u16>>,
    pub index: Seq<(u32, u16)>,
    pub data: Seq<(u16, u32)>,
}

impl View for TransitionSet {
    type V = TransView;

    open spec fn view(&self) -> TransView {
        TransView {
            contexts: self.contexts.deep_view(),
            index: self.index@,
            data: self.data@,
        }
    }
}

impl TransView {
    /// The transition table slice that the `i`-th context points at.
    pub open spec fn table_at(self, i: int) -> Seq<(u16, u32)> {
        self.data.subrange(self.index[i].0 as int, self.index[i].0 + self.index[i].1)
    }

    /// The part of the static-data invariant that context lookup rests on:
    /// contexts have the window length, are strictly sorted, each one's index
    /// entry stays inside the data array, and a zero-length window (which
    /// degenerates to a single shared context) has that context present.
    pub open spec fn searchable(self, context_len: nat) -> bool {
        &&& self.contexts.len() == self.index.len()
        &&& (context_len == 0 ==> self.contexts.len() >= 1)
        &&& forall|i: int|
            0 <= i < self.contexts.len() ==> (#[trigger] self.contexts[i]).len() == context_len
        &&& forall|i: int, j: int|
            0 <= i < j < self.contexts.len() ==> lex_lt(
                #[trigger] self.contexts[i],
                #[trigger] self.contexts[j],
            )
        &&& forall|i: int|
            0 <= i < self.index.len() ==> (#[trigger] self.index[i]).0 + self.index[i].1
                <= self.data.len()
    }

    /// Static-data invariant: searchable, cumulative weights non-decreasing
    /// within each table, and every token id named by a table a valid index
    /// into the token list.
    pub open spec fn wf(self, context_len: nat, n_tokens: nat) -> bool {
        &&& self.searchable(context_len)
        &&& forall|i: int|
            0 <= i < self.data.len() ==> (#[trigger] self.data[i]).0 < n_tokens
        &&& forall|i: int, p: int, q: int|
            #![trigger self.index[i], self.data[p], self.data[q]]
            0 <= i < self.index.len() && self.index[i].0 <= p <= q < self.index[i].0
                + self.index[i].1 ==> self.data[p].1 <= self.data[q].1
    }
}

/// The whole static model: token display texts (with optional positional
/// markers), the context-window length, the sentinel id used to pad short
/// histories, the sample bit width with its maximum raw value, and the two
/// transition table kinds.
pub struct WordModel {
    pub tokens: Vec<String>,
    pub context_len: usize,
    pub none_token: u16,
    pub probability_bits: usize,
    pub probability_max: u32,
    pub middle: TransitionSet,
    pub end: TransitionSet,
}

/// Ghost image of a `WordModel`.
pub struct ModelView {
    pub tokens: Seq<Seq<char>>,
    pub context_len: nat,
    pub none_token: u16,
    pub probability_bits: nat,
    pub probability_max: u32,
    pub middle: TransView,
    pub end: TransView,
}

impl View for WordModel {
    type V = ModelView;

    open spec fn view(&self) -> ModelView {
        ModelView {
            tokens: self.tokens.deep_view(),
            context_len: self.context_len as nat,
            none_token: self.none_token,
            probability_bits: self.probability_bits as nat,
            probability_max: self.probability_max,
            middle: self.middle@,
            end: self.end@,
        }
    }
}

/// No positional marker character occurs in `s`.
pub open spec fn marker_free(s: Seq<char>) -> bool {
    forall|i: int| 0 <= i < s.len() ==> s[i] != '^' && s[i] != '$'
}

/// Drop a leading word-start marker and a trailing word-end marker.
pub open spec fn strip_markers(s: Seq<char>) -> Seq<char> {
    let a = if s.len() > 0 && s[0] == '^' {
        s.skip(1)
    } else {
        s
    };
    if a.len() > 0 && a[a.len() - 1] == '$' {
        a.take(a.len() - 1)
    } else {
        a
    }
}

impl ModelView {
    /// Static-data invariant of the whole model: a sample width of 1 to 32
    /// bits whose maximum raw value matches, both table kinds well-formed
    /// against the window length and the token count, and marker characters
    /// only in their positional places.
    pub open spec fn wf(self) -> bool {
        &&& 1 <= self.probability_bits <= 32
        &&& self.probability_max as nat == vstd::arithmetic::power2::pow2(self.probability_bits)
            - 1
        &&& self.middle.wf(self.context_len, self.tokens.len())
        &&& self.end.wf(self.context_len, self.tokens.len())
        &&& forall|i: int|
            0 <= i < self.tokens.len() ==> marker_free(strip_markers(#[trigger] self.tokens[i]))
    }
}

impl WordModel {
    /// Static-data invariant, on the executable model.
    pub open spec fn wf(self) -> bool {
        self@.wf()
    }
}

// ---------------------------------------------------------------------------
// Token text
// ---------------------------------------------------------------------------
/// The display text of a token, with its positional markers stripped.
pub fn token_text(model: &WordModel, token_id: u16) -> (r: String)
    requires
        (token_id as int) < model@.tokens.len(),
    ensures
        r@ == strip_markers(model@.tokens[token_id as int]),
{
    let t: &str = model.tokens[token_id as usize].as_str();
    let n = t.unicode_len();
    let start: usize = if n > 0 && t.get_char(0) == '^' {
        1
    } else {
        0
    };
    let end: usize = if n > start && t.get_char(n - 1) == '$' {
        n - 1
    } else {
        n
    };
    let piece = t.substring_char(start, end);
    let r = String::from_str(piece);
    proof {
        let s = model@.tokens[token_id as int];
        assert(r@ =~= strip_markers(s));
    }
    r
}

// ---------------------------------------------------------------------------
// Context building
// ---------------------------------------------------------------------------
/// The fixed-length window over the tail of `history`: its last `context_len`
/// entries, left-padded with the sentinel when the history is shorter.
pub open spec fn spec_context(context_len: nat, none_token: u16, history: Seq<u16>) -> Seq<u16> {
    Seq::new(
        context_len,
        |i: int|
            if i < context_len - history.len() {
                none_token
            } else {
                history[history.len() - context_len + i]
            },
    )
}

/// Build the context window for the current history: the last `context_len`
/// token ids, left-padded with the sentinel id when fewer are available.
pub fn build_context(model: &WordModel, history: &Vec<u16>) -> (r: Vec<u16>)
    ensures
        r@ == spec_context(model@.context_len, model@.none_token, history@),
{
    let cl = model.context_len;
    let take: usize = if history.len() < cl {
        history.len()
    } else {
        cl
    };
    let pad: usize = cl - take;
    let mut context: Vec<u16> = Vec::new();
    let mut i: usize = 0;
    while i < pad
        invariant
            i <= pad,
            context@.len() == i,
            forall|j: int| 0 <= j < i ==> context@[j] == model@.none_token,
        decreases pad - i,
    {
        context.push(model.none_token);
        i = i + 1;
    }
    let mut k: usize = 0;
    while k < take
        invariant
            k <= take,
            take <= history@.len(),
            take <= cl,
            pad == cl - take,
            context@.len() == pad + k,
            forall|j: int| 0 <= j < pad ==> context@[j] == model@.none_token,
            forall|j: int|
                pad <= j < pad + k ==> context@[j] == history@[history@.len() - take + j - pad],
        decreases take - k,
    {
        context.push(history[history.len() - take + k]);
        k = k + 1;
    }
    proof {
        assert(context@ =~= spec_context(model@.context_len, model@.none_token, history@));
    }
    context
}

// ---------------------------------------------------------------------------
// Context lookup
// ---------------------------------------------------------------------------
/// Where the context sits in the sorted context array; with a zero-length
/// window all contexts collapse to the single entry at position 0.
pub open spec fn spec_context_index(contexts: Seq<Seq<u16>>, ctx: Seq<u16>) -> Option<int> {
    if ctx.len() == 0 {
        Some(0int)
    } else if exists|i: int| 0 <= i < contexts.len() && contexts[i] == ctx {
        Some(choose|i: int| 0 <= i < contexts.len() && contexts[i] == ctx)
    } else {
        None
    }
}

/// Binary-search the sorted context array for an exact match.
pub fn context_index(contexts: &Vec<Vec<u16>>, context: &Vec<u16>) -> (r: Option<usize>)
    requires
        forall|i: int|
            0 <= i < contexts.deep_view().len() ==> (#[trigger] contexts.deep_view()[i]).len()
                == context@.len(),
        forall|i: int, j: int|
            0 <= i < j < contexts.deep_view().len() ==> lex_lt(
                #[trigger] contexts.deep_view()[i],
                #[trigger] contexts.deep_view()[j],
            ),
        context@.len() == 0 ==> contexts@.len() >= 1,
    ensures
        r matches Some(i) ==> spec_context_index(contexts.deep_view(), context@) == Some(i as int),
        r is None ==> spec_context_index(contexts.deep_view(), context@) is None,
{
    let ghost cv = contexts.deep_view();
    let ghost ctx = context@;
    if context.len() == 0 {
        return Some(0);
    }
    let mut low: usize = 0;
    let mut high: usize = contexts.len();
    proof {
        assert(cv.len() == contexts@.len());
    }
    while low < high
        invariant
            low <= high <= cv.len(),
            cv.len() == contexts@.len(),
            cv == contexts.deep_view(),
            ctx == context@,
            ctx.len() > 0,
            forall|i: int| 0 <= i < cv.len() ==> (#[trigger] cv[i]).len() == ctx.len(),
            forall|i: int, j: int|
                0 <= i < j < cv.len() ==> lex_lt(#[trigger] cv[i], #[trigger] cv[j]),
            forall|i: int| 0 <= i < low ==> lex_lt(#[trigger] cv[i], ctx),
            forall|i: int| high <= i < cv.len() ==> lex_lt(ctx, #[trigger] cv[i]),
        decreases high - low,
    {
        let mid = low + (high - low) / 2;
        proof {
            assert(cv[mid as int] =~= contexts@[mid as int]@);
        }
        let c = cmp_context(context, &contexts[mid]);
        if c < 0 {
            proof {
                assert forall|i: int| mid <= i < cv.len() implies lex_lt(ctx, #[trigger] cv[i]) by {
                    if i > mid {
                        lemma_lex_lt_trans(ctx, cv[mid as int], cv[i]);
                    }
                }
            }
            high = mid;
        } else if c > 0 {
            proof {
                assert forall|i: int| 0 <= i <= mid implies lex_lt(#[trigger] cv[i], ctx) by {
                    if i < mid {
                        lemma_lex_lt_trans(cv[i], cv[mid as int], ctx);
                    }
                }
            }
            low = mid + 1;
        } else {
            proof {
                let j = choose|j: int| 0 <= j < cv.len() && cv[j] == ctx;
                assert(cv[mid as int] == ctx);
                if j != mid {
                    if j < mid {
                        assert(lex_lt(cv[j], cv[mid as int]));
                    } else {
                        assert(lex_lt(cv[mid as int], cv[j]));
                    }
                    lemma_lex_lt_irrefl(ctx);
                }
            }
            return Some(mid);
        }
    }
    proof {
        assert forall|i: int| 0 <= i < cv.len() implies cv[i] != ctx by {
            if i < low {
                assert(lex_lt(cv[i], ctx));
            } else {
                assert(lex_lt(ctx, cv[i]));
            }
            if cv[i] == ctx {
                lemma_lex_lt_irrefl(ctx);
            }
        }
    }
    None
}

/// The transition table for a context, if the context is known and its table
/// is non-empty.
pub open spec fn spec_transitions(ts: TransView, ctx: Seq<u16>) -> Option<Seq<(u16, u32)>> {
    match spec_context_index(ts.contexts, ctx) {
        None => None,
        Some(i) => {
            if ts.index[i].1 == 0 {
                None
            } else {
                Some(ts.table_at(i))
            }
        },
    }
}

/// Look up the transition table for a context; absence of the context or an
/// empty table both mean "no table".
pub fn transitions_for_context(ts: &TransitionSet, context: &Vec<u16>) -> (r: Option<
    Vec<(u16, u32)>,
>)
    requires
        ts@.searchable(context@.len() as nat),
    ensures
        (r is Some) == (spec_transitions(ts@, context@) is Some),
        r matches Some(t) ==> t@ == spec_transitions(ts@, context@).unwrap(),
{
    let idx: usize = match context_index(&ts.contexts, context) {
        None => {
            return None;
        },
        Some(i) => i,
    };
    let (start, len) = ts.index[idx];
    if len == 0 {
        return None;
    }
    let start_us = start as usize;
    let len_us = len as usize;
    let data_len = ts.data.len();
    let mut out: Vec<(u16, u32)> = Vec::new();
    let mut k: usize = 0;
    while k < len_us
        invariant
            k <= len_us,
            idx < ts@.index.len(),
            start_us as int == ts@.index[idx as int].0,
            len_us as int == ts@.index[idx as int].1,
            start_us + len_us <= data_len,
            data_len == ts.data@.len(),
            ts@.data.len() == ts.data@.len(),
            out@.len() == k,
            forall|j: int| 0 <= j < k ==> out@[j] == ts@.data[start_us + j],
        decreases len_us - k,
    {
        out.push(ts.data[start_us + k]);
        k = k + 1;
    }
    proof {
        assert(out@ =~= ts@.table_at(idx as int));
    }
    Some(out)
}

// ---------------------------------------------------------------------------
// Weighted sampling
// ---------------------------------------------------------------------------
/// The total cumulative mass of a table: its last entry's weight.
pub open spec fn table_total(t: Seq<(u16, u32)>) -> u32 {
    if t.len() == 0 {
        0
    } else {
        t[t.len() - 1].1
    }
}

/// A raw sample rescaled from the domain `0..=max_value` into
/// `0..=target_max`: proportional with floor rounding, clamped to the target,
/// taken as-is (clamped) when the domains already agree or the raw domain is
/// degenerate.
pub open spec fn spec_scaled(value: u32, max_value: u32, target_max: u32) -> u32 {
    if target_max == 0 {
        0
    } else if max_value == 0 || max_value == target_max {
        if value < target_max {
            value
        } else {
            target_max
        }
    } else {
        let s = (value as int) * (target_max as int) / (max_value as int);
        if s < target_max {
            s as u32
        } else {
            target_max
        }
    }
}

/// Rescale a raw sample into a table's weight domain.
pub fn scaled_value(value: u32, max_value: u32, target_max: u32) -> (r: u32)
    ensures
        r == spec_scaled(value, max_value, target_max),
{
    if target_max == 0 {
        return 0;
    }
    if max_value == 0 || max_value == target_max {
        return if value < target_max {
            value
        } else {
            target_max
        };
    }
    proof {
        assert((value as u64) * (target_max as u64) <= (u32::MAX as u64) * (u32::MAX as u64))
            by (nonlinear_arith)
            requires
                value <= u32::MAX,
                target_max <= u32::MAX,
        ;
    }
    let scaled = ((value as u64) * (target_max as u64)) / (max_value as u64);
    if scaled < (target_max as u64) {
        scaled as u32
    } else {
        target_max
    }
}

/// A table handed out by `spec_transitions` on a well-formed set is
/// non-empty, names only valid token ids, and has non-decreasing cumulative
/// weights.
pub proof fn lemma_transitions_wf(ts: TransView, context_len: nat, n_tokens: nat, ctx: Seq<u16>)
    requires
        ts.wf(context_len, n_tokens),
        ctx.len() == context_len,
        spec_transitions(ts, ctx) is Some,
    ensures
        ({
            let t = spec_transitions(ts, ctx).unwrap();
            &&& t.len() > 0
            &&& forall|j: int| 0 <= j < t.len() ==> (#[trigger] t[j]).0 < n_tokens
            &&& forall|p: int, q: int| 0 <= p <= q < t.len() ==> t[p].1 <= t[q].1
        }),
{
    let i = spec_context_index(ts.contexts, ctx).unwrap();
    assert(0 <= i < ts.index.len());
    let t = spec_transitions(ts, ctx).unwrap();
    let start = ts.index[i].0 as int;
    let len = ts.index[i].1 as int;
    assert(t =~= ts.data.subrange(start, start + len));
    assert forall|j: int| 0 <= j < t.len() implies (#[trigger] t[j]).0 < n_tokens by {
        assert(t[j] == ts.data[start + j]);
    }
    assert forall|p: int, q: int| 0 <= p <= q < t.len() implies t[p].1 <= t[q].1 by {
        assert(t[p] == ts.data[start + p]);
        assert(t[q] == ts.data[start + q]);
        assert(ts.data[start + p].1 <= ts.data[start + q].1);
    }
}

/// The token chosen from a table by a scaled sample: the first entry whose
/// cumulative weight reaches the sample; when none does, the last entry, and
/// 0 for an empty table (a defensive fallback only — lookup never hands out
/// an empty table).
pub open spec fn spec_find_token(t: Seq<(u16, u32)>, value: u32) -> u16
    decreases t.len(),
{
    if t.len() == 0 {
        0
    } else if t[0].1 >= value {
        t[0].0
    } else if t.len() == 1 {
        t[0].0
    } else {
        spec_find_token(t.skip(1), value)
    }
}

/// Whatever the sample, the chosen token is one of the table's entries.
pub proof fn lemma_find_token_in_table(t: Seq<(u16, u32)>, value: u32)
    requires
        t.len() > 0,
    ensures
        exists|j: int| 0 <= j < t.len() && (#[trigger] t[j]).0 == spec_find_token(t, value),
    decreases t.len(),
{
    if t[0].1 >= value || t.len() == 1 {
        assert(t[0].0 == spec_find_token(t, value));
    } else {
        lemma_find_token_in_table(t.skip(1), value);
        let j = choose|j: int|
            0 <= j < t.skip(1).len() && (#[trigger] t.skip(1)[j]).0 == spec_find_token(
                t.skip(1),
                value,
            );
        assert(t[j + 1].0 == spec_find_token(t, value));
    }
}

proof fn lemma_find_token_all_below(t: Seq<(u16, u32)>, value: u32)
    requires
        t.len() > 0,
        forall|j: int| 0 <= j < t.len() ==> (#[trigger] t[j]).1 < value,
    ensures
        spec_find_token(t, value) == t[t.len() - 1].0,
    decreases t.len(),
{
    if t.len() > 1 {
        assert(forall|j: int| 0 <= j < t.skip(1).len() ==> (#[trigger] t.skip(1)[j]).1 < value);
        lemma_find_token_all_below(t.skip(1), value);
    }
}

/// Scan the table for the first entry whose cumulative weight is at least
/// `value`; fall back to the last entry (or 0 on an empty table).
pub fn find_token(transitions: &Vec<(u16, u32)>, value: u32) -> (r: u16)
    ensures
        r == spec_find_token(transitions@, value),
{
    let ghost t = transitions@;
    let n = transitions.len();
    proof {
        assert(t.skip(0) =~= t);
    }
    let mut i: usize = 0;
    while i < n
        invariant
            i <= n,
            n == t.len(),
            t == transitions@,
            forall|j: int| 0 <= j < i ==> (#[trigger] t[j]).1 < value,
            i < n ==> spec_find_token(t, value) == spec_find_token(t.skip(i as int), value),
        decreases n - i,
    {
        let (token_id, cumulative) = transitions[i];
        if cumulative >= value {
            proof {
                assert(t.skip(i as int)[0] == t[i as int]);
            }
            return token_id;
        }
        proof {
            if i + 1 < n {
                assert(t.skip(i as int).skip(1) =~= t.skip(i as int + 1));
                assert(t.skip(i as int)[0] == t[i as int]);
                assert(t.skip(i as int).len() > 1);
            }
        }
        i = i + 1;
    }
    if n == 0 {
        0
    } else {
        proof {
            lemma_find_token_all_below(t, value);
        }
        transitions[n - 1].0
    }
}

} // verus!


