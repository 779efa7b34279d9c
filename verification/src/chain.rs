//! The statistical text model.
//!
//! A `Chain` maps a context — the `depth` preceding tokens of a walk,
//! padded with empty strings at the start — to the list of
//! continuations observed after that context in the corpus, one list
//! item per occurrence, with `None` marking the end of a line.  A walk
//! starts from the all-pads context and keeps drawing one continuation
//! per step from the supplied randomness stream, so a walk is a pure
//! function of the model and of the stream state.
//!
//! Feeding goes line by line: every line is fed from the start
//! context, a line end is fed as an end marker, and one extra window
//! spanning each boundary between adjacent nonblank lines keeps a weak
//! cross-line continuity.  A blank line breaks that continuity.

use vstd::prelude::*;
use vstd::string::*;

use crate::stream::{step_state, stream_out, Stream};
use crate::text::{
    good_token, join_with_spaces, join_words, lemma_split_lines_clean, lemma_tokenize_good,
    split_into_lines, split_lines, tokenize, tokenize_line,
};

verus! {

/// One token of a context or of a walk.
pub type TokModel = Seq<char>;

/// A context: exactly `depth` items, empty items standing for pads.
pub type CtxModel = Seq<Seq<char>>;

/// The mathematical content of a chain: per context, the observed
/// continuations in feeding order.
pub type ChainModel = Seq<(Seq<Seq<char>>, Seq<Option<Seq<char>>>)>;

/// Upper bound on the tokens of one walk: the walk stops when it is
/// exhausted even if no end marker was drawn.
pub const WALK_LIMIT: usize = 400;

/// The start context: `depth` pads.
pub open spec fn pads(depth: nat) -> CtxModel {
    Seq::new(depth, |i: int| Seq::<char>::empty())
}

/// A continuation is either an end marker or a good token.
pub open spec fn good_next(n: Option<Seq<char>>) -> bool {
    match n {
        Some(t) => good_token(t),
        None => true,
    }
}

/// A context item is a pad or a good token.
pub open spec fn ctx_item_ok(t: Seq<char>) -> bool {
    t.len() == 0 || good_token(t)
}

/// A well-shaped context of the given depth.
pub open spec fn ctx_ok(ctx: CtxModel, depth: nat) -> bool {
    ctx.len() == depth && forall|j: int| 0 <= j < ctx.len() ==> ctx_item_ok(#[trigger] ctx[j])
}

/// The context that follows `ctx` after emitting token `t`.
pub open spec fn shift_ctx(ctx: CtxModel, t: TokModel) -> CtxModel {
    ctx.subrange(1, ctx.len() as int).push(t)
}

/// Well-formedness of one model entry.
pub open spec fn entry_m_wf(e: (Seq<Seq<char>>, Seq<Option<Seq<char>>>), depth: nat) -> bool {
    ctx_ok(e.0, depth) && e.1.len() >= 1 && forall|j: int|
        0 <= j < e.1.len() ==> good_next(#[trigger] e.1[j])
}

/// Well-formedness of a whole model: well-shaped entries with
/// pairwise distinct contexts.
pub open spec fn model_wf(m: ChainModel, depth: nat) -> bool {
    (forall|k: int| 0 <= k < m.len() ==> entry_m_wf(#[trigger] m[k], depth)) && (forall|
        k1: int,
        k2: int,
    |
        0 <= k1 < k2 < m.len() ==> m[k1].0 != m[k2].0)
}

/// The first entry with context `ctx`, searching from position `i`.
pub open spec fn find_from(m: ChainModel, ctx: CtxModel, i: nat) -> Option<nat>
    decreases m.len() + 1 - i,
{
    if i >= m.len() {
        None
    } else if m[i as int].0 == ctx {
        Some(i)
    } else {
        find_from(m, ctx, i + 1)
    }
}

/// The entry of the model that holds context `ctx`, if any.
pub open spec fn model_find(m: ChainModel, ctx: CtxModel) -> Option<nat> {
    find_from(m, ctx, 0)
}

/// A model is productive when the start context is present and every
/// one of its continuations is a real token: every walk then emits at
/// least one token before it can end.
pub open spec fn model_productive(m: ChainModel, depth: nat) -> bool {
    match model_find(m, pads(depth)) {
        None => false,
        Some(k) => forall|j: int| 0 <= j < m[k as int].1.len() ==> m[k as int].1[j] is Some,
    }
}

/// One observation added to the model: appended to the entry that
/// already holds the context, or opening a new entry at the end.
pub open spec fn model_add(m: ChainModel, ctx: CtxModel, nx: Option<Seq<char>>) -> ChainModel {
    match model_find(m, ctx) {
        Some(k) => m.update(k as int, (m[k as int].0, m[k as int].1.push(nx))),
        None => m.push((ctx, seq![nx])),
    }
}

/// What `find_from` returns: a match with no earlier match, or the
/// absence of any match from `i` on.
pub proof fn lemma_find_from_props(m: ChainModel, ctx: CtxModel, i: nat)
    requires
        i <= m.len(),
    ensures
        match find_from(m, ctx, i) {
            Some(k) => i <= k < m.len() && m[k as int].0 == ctx && forall|j: int|
                i <= j < k ==> m[j].0 != ctx,
            None => forall|j: int| i <= j < m.len() ==> m[j].0 != ctx,
        },
    decreases m.len() + 1 - i,
{
    if i < m.len() && m[i as int].0 != ctx {
        lemma_find_from_props(m, ctx, i + 1);
    }
}

/// Searching a model whose contexts agree pointwise finds the same
/// position.
pub proof fn lemma_find_from_same_ctxs(m1: ChainModel, m2: ChainModel, ctx: CtxModel, i: nat)
    requires
        m1.len() == m2.len(),
        forall|k: int| 0 <= k < m1.len() ==> m1[k].0 == #[trigger] m2[k].0,
    ensures
        find_from(m1, ctx, i) == find_from(m2, ctx, i),
    decreases m1.len() + 1 - i,
{
    if i < m1.len() {
        lemma_find_from_same_ctxs(m1, m2, ctx, i + 1);
    }
}

/// Searching after a push: an earlier match is kept; otherwise only
/// the new entry can match.
pub proof fn lemma_find_from_push(
    m: ChainModel,
    e: (Seq<Seq<char>>, Seq<Option<Seq<char>>>),
    ctx: CtxModel,
    i: nat,
)
    requires
        i <= m.len(),
    ensures
        find_from(m.push(e), ctx, i) == match find_from(m, ctx, i) {
            Some(k) => Some(k),
            None => if e.0 == ctx {
                Some(m.len())
            } else {
                None
            },
        },
    decreases m.len() + 1 - i,
{
    if i >= m.len() {
        assert(m.push(e)[i as int] == e);
        if e.0 == ctx {
            assert(find_from(m.push(e), ctx, i) == Some(i));
        } else {
            assert(find_from(m.push(e), ctx, i) == find_from(m.push(e), ctx, i + 1));
            assert(find_from(m.push(e), ctx, i + 1) == None::<nat>);
        }
    } else {
        assert(m.push(e)[i as int] == m[i as int]);
        if m[i as int].0 != ctx {
            lemma_find_from_push(m, e, ctx, i + 1);
        }
    }
}

/// Adding an observation keeps a model well formed.
pub proof fn lemma_model_add_wf(m: ChainModel, ctx: CtxModel, nx: Option<Seq<char>>, depth: nat)
    requires
        model_wf(m, depth),
        ctx_ok(ctx, depth),
        good_next(nx),
    ensures
        model_wf(model_add(m, ctx, nx), depth),
{
    lemma_find_from_props(m, ctx, 0);
    let m2 = model_add(m, ctx, nx);
    match model_find(m, ctx) {
        Some(k) => {
            assert(entry_m_wf(m[k as int], depth));
            assert forall|j: int| 0 <= j < m2.len() implies entry_m_wf(#[trigger] m2[j], depth) by {
                if j == k {
                    assert(m2[j].1 =~= m[k as int].1.push(nx));
                } else {
                    assert(m2[j] == m[j]);
                }
            }
            assert forall|k1: int, k2: int| 0 <= k1 < k2 < m2.len() implies m2[k1].0 != m2[k2].0 by {
                assert(m2[k1].0 == m[k1].0);
                assert(m2[k2].0 == m[k2].0);
            }
        },
        None => {
            assert forall|j: int| 0 <= j < m2.len() implies entry_m_wf(#[trigger] m2[j], depth) by {
                if j < m.len() {
                    assert(m2[j] == m[j]);
                } else {
                    assert(m2[j].1 =~= seq![nx]);
                }
            }
            assert forall|k1: int, k2: int| 0 <= k1 < k2 < m2.len() implies m2[k1].0 != m2[k2].0 by {
                if k2 < m.len() {
                } else {
                    assert(m2[k2].0 == ctx);
                    assert(m2[k1].0 == m[k1].0);
                }
            }
        },
    }
}

/// Adding never loses a context, and afterwards the added context is
/// present.
pub proof fn lemma_model_add_find(m: ChainModel, ctx: CtxModel, nx: Option<Seq<char>>, c: CtxModel)
    ensures
        model_find(m, c) is Some ==> model_find(model_add(m, ctx, nx), c) is Some,
        model_find(model_add(m, ctx, nx), ctx) is Some,
{
    let m2 = model_add(m, ctx, nx);
    match model_find(m, ctx) {
        Some(k) => {
            lemma_find_from_props(m, ctx, 0);
            lemma_find_from_same_ctxs(m, m2, c, 0);
            lemma_find_from_same_ctxs(m, m2, ctx, 0);
        },
        None => {
            lemma_find_from_push(m, (ctx, seq![nx]), c, 0);
            lemma_find_from_push(m, (ctx, seq![nx]), ctx, 0);
        },
    }
}

/// The start entry keeps holding only real tokens when everything fed
/// to the start context is a real token.
pub proof fn lemma_model_add_pads(m: ChainModel, ctx: CtxModel, nx: Option<Seq<char>>, depth: nat)
    requires
        pads_only_tokens(m, depth),
        ctx == pads(depth) ==> nx is Some,
    ensures
        pads_only_tokens(model_add(m, ctx, nx), depth),
{
    let m2 = model_add(m, ctx, nx);
    let p = pads(depth);
    lemma_find_from_props(m, ctx, 0);
    lemma_find_from_props(m, p, 0);
    match model_find(m, ctx) {
        Some(k) => {
            lemma_find_from_same_ctxs(m, m2, p, 0);
            match model_find(m, p) {
                Some(kp) => {
                    if k == kp {
                        assert(ctx == p);
                        assert(m2[kp as int].1 =~= m[kp as int].1.push(nx));
                    } else {
                        assert(m2[kp as int] == m[kp as int]);
                    }
                },
                None => {},
            }
        },
        None => {
            lemma_find_from_push(m, (ctx, seq![nx]), p, 0);
            match model_find(m, p) {
                Some(kp) => {
                    assert(m2[kp as int] == m[kp as int]);
                },
                None => {
                    if ctx == p {
                        assert(m2[m.len() as int].1 =~= seq![nx]);
                    }
                },
            }
        },
    }
}

/// Every continuation of the start entry is a real token (trivially
/// true while the start context is absent).
pub open spec fn pads_only_tokens(m: ChainModel, depth: nat) -> bool {
    match model_find(m, pads(depth)) {
        None => true,
        Some(k) => forall|j: int| 0 <= j < m[k as int].1.len() ==> m[k as int].1[j] is Some,
    }
}

/// The model after feeding the tokens of one line from position `i`,
/// with `ctx` the context reached so far; the line end is fed as an
/// end marker.
pub open spec fn feed_line(m: ChainModel, toks: Seq<Seq<char>>, ctx: CtxModel, i: nat) -> ChainModel
    decreases toks.len() + 1 - i,
{
    if i >= toks.len() {
        model_add(m, ctx, None)
    } else {
        feed_line(model_add(m, ctx, Some(toks[i as int])), toks, shift_ctx(ctx, toks[i as int]), i + 1)
    }
}

/// The context reached after the tokens of a line from position `i`.
pub open spec fn ctx_after(toks: Seq<Seq<char>>, ctx: CtxModel, i: nat) -> CtxModel
    decreases toks.len() + 1 - i,
{
    if i >= toks.len() {
        ctx
    } else {
        ctx_after(toks, shift_ctx(ctx, toks[i as int]), i + 1)
    }
}

/// The model after feeding the lines from position `k` on.  `carry`
/// is the context at the end of the previous nonblank line, if that
/// line was adjacent: its first use feeds the one window that spans
/// the line boundary.
pub open spec fn feed_lines(
    m: ChainModel,
    lines: Seq<Seq<char>>,
    depth: nat,
    k: nat,
    carry: Option<CtxModel>,
) -> ChainModel
    decreases lines.len() + 1 - k,
{
    if k >= lines.len() {
        m
    } else {
        let toks = tokenize(lines[k as int]);
        if toks.len() == 0 {
            feed_lines(m, lines, depth, k + 1, None)
        } else {
            let m1 = match carry {
                None => m,
                Some(bctx) => model_add(m, bctx, Some(toks[0])),
            };
            let m2 = feed_line(m1, toks, pads(depth), 0);
            feed_lines(m2, lines, depth, k + 1, Some(ctx_after(toks, pads(depth), 0)))
        }
    }
}

/// The model built from a whole corpus text.
pub open spec fn built_model(corpus: Seq<char>, depth: nat) -> ChainModel {
    feed_lines(Seq::empty(), split_lines(corpus), depth, 0, None)
}

/// One walk through the model: from `ctx` with stream state `s` and
/// `fuel` steps left, the tokens already emitted being `acc`.  Each
/// step draws one continuation, uniformly over the observed
/// occurrences; the walk ends on an end marker, on an unknown context
/// or when the fuel is exhausted.
pub open spec fn walk_from(
    m: ChainModel,
    ctx: CtxModel,
    s: u64,
    fuel: nat,
    acc: Seq<Seq<char>>,
) -> (Seq<Seq<char>>, u64)
    decreases fuel,
{
    if fuel == 0 {
        (acc, s)
    } else {
        match model_find(m, ctx) {
            None => (acc, s),
            Some(k) => {
                let nxs = m[k as int].1;
                let idx = (stream_out(s) as int) % (nxs.len() as int);
                let s2 = step_state(s);
                match nxs[idx] {
                    None => (acc, s2),
                    Some(t) => walk_from(m, shift_ctx(ctx, t), s2, (fuel - 1) as nat, acc.push(t)),
                }
            },
        }
    }
}

/// One full walk from the start context.
pub open spec fn spec_generate(m: ChainModel, depth: nat, s: u64) -> (Seq<Seq<char>>, u64) {
    walk_from(m, pads(depth), s, WALK_LIMIT as nat, Seq::empty())
}

/// A walk only appends, and on a well-formed model it appends only
/// good tokens.
pub proof fn lemma_walk_good(
    m: ChainModel,
    ctx: CtxModel,
    s: u64,
    fuel: nat,
    acc: Seq<Seq<char>>,
    depth: nat,
)
    requires
        model_wf(m, depth),
        forall|j: int| 0 <= j < acc.len() ==> good_token(#[trigger] acc[j]),
    ensures
        walk_from(m, ctx, s, fuel, acc).0.len() >= acc.len(),
        forall|j: int|
            0 <= j < walk_from(m, ctx, s, fuel, acc).0.len() ==> good_token(
                #[trigger] walk_from(m, ctx, s, fuel, acc).0[j],
            ),
    decreases fuel,
{
    if fuel > 0 {
        match model_find(m, ctx) {
            None => {},
            Some(k) => {
                lemma_find_from_props(m, ctx, 0);
                let nxs = m[k as int].1;
                let idx = (stream_out(s) as int) % (nxs.len() as int);
                assert(entry_m_wf(m[k as int], depth));
                assert(0 <= idx < nxs.len());
                match nxs[idx] {
                    None => {},
                    Some(t) => {
                        assert(good_next(nxs[idx]));
                        lemma_walk_good(
                            m,
                            shift_ctx(ctx, t),
                            step_state(s),
                            (fuel - 1) as nat,
                            acc.push(t),
                            depth,
                        );
                    },
                }
            },
        }
    }
}

/// On a productive model, every walk emits at least one token.
pub proof fn lemma_generate_productive(m: ChainModel, depth: nat, s: u64)
    requires
        model_wf(m, depth),
        model_productive(m, depth),
    ensures
        spec_generate(m, depth, s).0.len() >= 1,
{
    let p = pads(depth);
    let k = model_find(m, p)->Some_0;
    lemma_find_from_props(m, p, 0);
    let nxs = m[k as int].1;
    assert(entry_m_wf(m[k as int], depth));
    let idx = (stream_out(s) as int) % (nxs.len() as int);
    assert(0 <= idx < nxs.len());
    assert(nxs[idx] is Some);
    let t = nxs[idx]->Some_0;
    lemma_walk_good(
        m,
        shift_ctx(p, t),
        step_state(s),
        (WALK_LIMIT - 1) as nat,
        Seq::empty().push(t),
        depth,
    );
}

/// The statistical text model.
pub struct Entry {
    /// The context: exactly `depth` items, `""` standing for a pad.
    pub ctx: Vec<String>,
    /// The continuations observed after the context, `None` marking
    /// the end of a walk.
    pub nexts: Vec<Option<String>>,
}

/// The statistical text model: immutable once built, shared read-only
/// by every request.
pub struct Chain {
    /// The number of preceding tokens that make up a context.
    pub depth: usize,
    /// One entry per context observed in the corpus.
    pub entries: Vec<Entry>,
}

impl Entry {
    /// The mathematical content of this entry.
    pub open spec fn model(self) -> (Seq<Seq<char>>, Seq<Option<Seq<char>>>) {
        (self.ctx.deep_view(), self.nexts.deep_view())
    }
}

impl Chain {
    /// The mathematical content of this chain.
    pub open spec fn model(self) -> ChainModel {
        Seq::new(self.entries@.len(), |k: int| self.entries@[k].model())
    }

    /// Well-formedness: a positive depth and a well-formed model.
    pub open spec fn wf(self) -> bool {
        1 <= self.depth && model_wf(self.model(), self.depth as nat)
    }

    /// A chain every walk of which emits at least one token.
    pub open spec fn productive(self) -> bool {
        model_productive(self.model(), self.depth as nat)
    }
}

/// The model carried by a sequence of entries.
pub open spec fn entries_model(es: Seq<Entry>) -> ChainModel {
    Seq::new(es.len(), |k: int| es[k].model())
}

/// Builds the start context: `depth` pads.
pub(crate) fn make_pads(depth: usize) -> (v: Vec<String>)
    ensures
        v.deep_view() == pads(depth as nat),
{
    let mut v: Vec<String> = Vec::new();
    let mut i: usize = 0;
    while i < depth
        invariant
            i <= depth,
            v.deep_view() =~= pads(i as nat),
        decreases depth - i,
    {
        let ghost pre = v.deep_view();
        v.push(String::new());
        proof {
            assert(v.deep_view() =~= pre.push(Seq::<char>::empty()));
            assert(pre.push(Seq::<char>::empty()) =~= pads((i + 1) as nat));
        }
        i = i + 1;
    }
    v
}

/// Copies a context.
fn clone_strs(v: &Vec<String>) -> (r: Vec<String>)
    ensures
        r.deep_view() == v.deep_view(),
{
    let mut r: Vec<String> = Vec::new();
    let mut i: usize = 0;
    while i < v.len()
        invariant
            i <= v@.len(),
            r.deep_view() =~= v.deep_view().subrange(0, i as int),
        decreases v@.len() - i,
    {
        let ghost pre = r.deep_view();
        r.push(v[i].clone());
        proof {
            assert(r.deep_view() =~= pre.push(v@[i as int]@));
            assert(pre.push(v@[i as int]@) =~= v.deep_view().subrange(0, i + 1));
        }
        i = i + 1;
    }
    proof {
        assert(v.deep_view().subrange(0, v@.len() as int) =~= v.deep_view());
    }
    r
}

/// Compares two contexts by content.
fn vec_str_eq(a: &Vec<String>, b: &Vec<String>) -> (r: bool)
    ensures
        r == (a.deep_view() == b.deep_view()),
{
    if a.len() != b.len() {
        proof {
            assert(a.deep_view().len() == a@.len());
            assert(b.deep_view().len() == b@.len());
        }
        return false;
    }
    let mut i: usize = 0;
    while i < a.len()
        invariant
            i <= a@.len(),
            a@.len() == b@.len(),
            forall|j: int| 0 <= j < i ==> a.deep_view()[j] == b.deep_view()[j],
        decreases a@.len() - i,
    {
        if !(a[i] == b[i]) {
            proof {
                assert(a.deep_view()[i as int] != b.deep_view()[i as int]);
            }
            return false;
        }
        i = i + 1;
    }
    proof {
        assert(a.deep_view() =~= b.deep_view());
    }
    true
}

/// Finds the entry that holds a context.
pub(crate) fn find_entry(es: &Vec<Entry>, ctx: &Vec<String>) -> (r: Option<usize>)
    ensures
        match r {
            Some(k) => k < es@.len() && model_find(entries_model(es@), ctx.deep_view()) == Some(
                k as nat,
            ),
            None => model_find(entries_model(es@), ctx.deep_view()) is None,
        },
{
    let ghost m = entries_model(es@);
    let ghost cv = ctx.deep_view();
    let mut i: usize = 0;
    while i < es.len()
        invariant
            i <= es@.len(),
            m == entries_model(es@),
            cv == ctx.deep_view(),
            find_from(m, cv, 0) == find_from(m, cv, i as nat),
        decreases es@.len() - i,
    {
        if vec_str_eq(&es[i].ctx, ctx) {
            proof {
                assert(m[i as int].0 == cv);
            }
            return Some(i);
        }
        proof {
            assert(m[i as int].0 != cv);
        }
        i = i + 1;
    }
    None
}

/// Records one observation: `ctx` was continued by `nx`.
fn add_transition(c: &mut Chain, ctx: &Vec<String>, nx: Option<String>)
    ensures
        final(c).depth == old(c).depth,
        final(c).model() == model_add(old(c).model(), ctx.deep_view(), nx.deep_view()),
{
    proof {
        assert(c.model() =~= entries_model(c.entries@));
    }
    let found = find_entry(&c.entries, ctx);
    let ghost m0 = c.model();
    match found {
        Some(k) => {
            c.entries[k].nexts.push(nx);
            proof {
                assert(c.model() =~~= model_add(m0, ctx.deep_view(), nx.deep_view()));
            }
        },
        None => {
            let e = Entry { ctx: clone_strs(ctx), nexts: vec![nx] };
            proof {
                assert(e.nexts.deep_view() =~~= seq![nx.deep_view()]);
            }
            c.entries.push(e);
            proof {
                assert(c.model() =~~= model_add(m0, ctx.deep_view(), nx.deep_view()));
            }
        },
    }
}

/// The context that follows after emitting one token.
fn shift_vec(ctx: Vec<String>, t: String) -> (r: Vec<String>)
    requires
        ctx@.len() >= 1,
    ensures
        r.deep_view() == shift_ctx(ctx.deep_view(), t@),
{
    let mut r: Vec<String> = Vec::new();
    let mut i: usize = 1;
    while i < ctx.len()
        invariant
            1 <= i <= ctx@.len(),
            r.deep_view() =~= ctx.deep_view().subrange(1, i as int),
        decreases ctx@.len() - i,
    {
        let ghost pre = r.deep_view();
        r.push(ctx[i].clone());
        proof {
            assert(r.deep_view() =~= pre.push(ctx@[i as int]@));
            assert(pre.push(ctx@[i as int]@) =~= ctx.deep_view().subrange(1, i + 1));
        }
        i = i + 1;
    }
    let ghost pre = r.deep_view();
    r.push(t);
    proof {
        assert(r.deep_view() =~= pre.push(t@));
        assert(pre.push(t@) =~= shift_ctx(ctx.deep_view(), t@));
    }
    r
}

/// One random walk through the chain: the token sequence it emits.
/// The result is a pure function of the chain and of the stream state;
/// on a productive chain it is never empty.
pub fn markov_walk(c: &Chain, rng: &mut Stream) -> (toks: Vec<String>)
    requires
        c.wf(),
    ensures
        toks.deep_view() == spec_generate(c.model(), c.depth as nat, old(rng)@).0,
        final(rng)@ == spec_generate(c.model(), c.depth as nat, old(rng)@).1,
        forall|j: int| 0 <= j < toks.deep_view().len() ==> good_token(#[trigger] toks.deep_view()[j]),
        c.productive() ==> toks@.len() >= 1,
{
    let ghost m = c.model();
    let ghost dep = c.depth as nat;
    let ghost s0: u64 = rng@;
    let mut toks: Vec<String> = Vec::new();
    let mut ctx: Vec<String> = make_pads(c.depth);
    let mut fuel: usize = WALK_LIMIT;
    let mut done: bool = false;
    proof {
        lemma_walk_good(m, pads(dep), s0, WALK_LIMIT as nat, Seq::empty(), dep);
        if c.productive() {
            lemma_generate_productive(m, dep, s0);
        }
        assert(toks.deep_view() =~= Seq::<Seq<char>>::empty());
    }
    while !done && fuel > 0
        invariant
            c.wf(),
            m == c.model(),
            dep == c.depth as nat,
            fuel <= WALK_LIMIT,
            ctx@.len() == c.depth,
            forall|j: int|
                0 <= j < toks.deep_view().len() ==> good_token(#[trigger] toks.deep_view()[j]),
            if done {
                (toks.deep_view(), rng@) == spec_generate(m, dep, s0)
            } else {
                walk_from(m, ctx.deep_view(), rng@, fuel as nat, toks.deep_view()) == spec_generate(
                    m,
                    dep,
                    s0,
                )
            },
        decreases fuel + (if done { 0int } else { 1int }),
    {
        let ghost pre_toks = toks.deep_view();
        let ghost pre_ctx = ctx.deep_view();
        let ghost pre_s = rng@;
        match find_entry(&c.entries, &ctx) {
            None => {
                proof {
                    assert(entries_model(c.entries@) =~= m);
                }
                done = true;
            },
            Some(k) => {
                proof {
                    assert(entries_model(c.entries@) =~= m);
                    assert(entry_m_wf(m[k as int], dep));
                }
                let e: &Entry = &c.entries[k];
                let n: usize = e.nexts.len();
                proof {
                    assert(m[k as int].1 == e.nexts.deep_view());
                    assert(n >= 1);
                }
                let d: u64 = rng.next_u64();
                let idx: usize = (d % (n as u64)) as usize;
                proof {
                    assert(idx as int == (stream_out(pre_s) as int) % (n as int));
                }
                match &e.nexts[idx] {
                    None => {
                        proof {
                            assert(m[k as int].1[idx as int] is None);
                        }
                        done = true;
                    },
                    Some(t) => {
                        proof {
                            assert(m[k as int].1[idx as int] == Some(t@));
                            assert(good_next(m[k as int].1[idx as int]));
                        }
                        let t1: String = t.clone();
                        let t2: String = t.clone();
                        toks.push(t1);
                        ctx = shift_vec(ctx, t2);
                        fuel = fuel - 1;
                        proof {
                            assert(toks.deep_view() =~= pre_toks.push(t@));
                            assert(ctx.deep_view().len() == pre_ctx.len());
                            assert(ctx@.len() == ctx.deep_view().len());
                        }
                    },
                }
            },
        }
    }
    proof {
        if !done {
            assert(fuel == 0);
            assert(walk_from(m, ctx.deep_view(), rng@, 0, toks.deep_view()) == (
                toks.deep_view(),
                rng@,
            ));
        }
    }
    toks
}

/// The start context is well shaped.
pub proof fn lemma_pads_ok(depth: nat)
    ensures
        ctx_ok(pads(depth), depth),
{
    assert forall|j: int| 0 <= j < pads(depth).len() implies ctx_item_ok(
        #[trigger] pads(depth)[j],
    ) by {
        assert(pads(depth)[j].len() == 0);
    }
}

/// Shifting a well-shaped context by a good token keeps it well
/// shaped, and the token becomes its last item.
pub proof fn lemma_shift_ok(ctx: CtxModel, t: TokModel, depth: nat)
    requires
        ctx_ok(ctx, depth),
        good_token(t),
        depth >= 1,
    ensures
        ctx_ok(shift_ctx(ctx, t), depth),
        shift_ctx(ctx, t)[depth - 1] == t,
{
    let s2 = shift_ctx(ctx, t);
    assert(s2.len() == depth);
    assert forall|j: int| 0 <= j < s2.len() implies ctx_item_ok(#[trigger] s2[j]) by {
        if j < depth - 1 {
            assert(s2[j] == ctx[j + 1]);
        } else {
            assert(s2[j] == t);
        }
    }
}

/// A context whose last item is a real token is not the start context.
pub proof fn lemma_tailed_not_pads(ctx: CtxModel, depth: nat)
    requires
        depth >= 1,
        ctx.len() == depth,
        good_token(ctx[depth - 1]),
    ensures
        ctx != pads(depth),
{
    assert(pads(depth)[depth - 1].len() == 0);
    if ctx == pads(depth) {
        assert(ctx[depth - 1] == pads(depth)[depth - 1]);
        assert(false);
    }
}

/// Adding an observation never empties a model, and the result is
/// never empty.
pub proof fn lemma_model_add_len(m: ChainModel, ctx: CtxModel, nx: Option<Seq<char>>)
    ensures
        model_add(m, ctx, nx).len() >= m.len(),
        model_add(m, ctx, nx).len() >= 1,
{
    lemma_find_from_props(m, ctx, 0);
}

/// Builds the model from a corpus text.  Every line is fed from the
/// start context and closed with an end marker; one window across each
/// boundary of adjacent nonblank lines keeps a weak continuity.
/// Returns nothing when the corpus holds no token at all.
pub fn build_chain(corpus: &str, depth: usize) -> (r: Option<Chain>)
    requires
        1 <= depth,
    ensures
        match r {
            Some(c) => c.depth == depth && c.wf() && c.productive() && c.model() == built_model(
                corpus@,
                depth as nat,
            ),
            None => built_model(corpus@, depth as nat).len() == 0,
        },
{
    let ghost dep = depth as nat;
    let ghost lv = split_lines(corpus@);
    let ghost target = built_model(corpus@, dep);
    let lines: Vec<String> = split_into_lines(corpus);
    let mut c = Chain { depth, entries: Vec::new() };
    let mut carry: Option<Vec<String>> = None;
    let mut k: usize = 0;
    proof {
        assert(c.model() =~= Seq::<(Seq<Seq<char>>, Seq<Option<Seq<char>>>)>::empty());
    }
    while k < lines.len()
        invariant
            1 <= depth,
            dep == depth as nat,
            lv == split_lines(corpus@),
            target == built_model(corpus@, dep),
            lines.deep_view() == lv,
            k <= lines@.len(),
            lines@.len() == lv.len(),
            c.depth == depth,
            model_wf(c.model(), dep),
            pads_only_tokens(c.model(), dep),
            c.model().len() > 0 ==> model_find(c.model(), pads(dep)) is Some,
            feed_lines(c.model(), lv, dep, k as nat, carry.deep_view()) == target,
            match carry {
                Some(v) => ctx_ok(v.deep_view(), dep) && c.model().len() > 0,
                None => true,
            },
        decreases lines@.len() - k,
    {
        let ghost m_pre = c.model();
        proof {
            lemma_split_lines_clean(corpus@);
            assert(lines@[k as int]@ == lv[k as int]);
            assert(forall|j: int| 0 <= j < lv[k as int].len() ==> #[trigger] lv[k as int][j] != '\n');
            lemma_tokenize_good(lv[k as int]);
        }
        let toks: Vec<String> = tokenize_line(lines[k].as_str());
        if toks.len() == 0 {
            carry = None;
            proof {
                assert(toks.deep_view().len() == 0);
            }
        } else {
            let ghost tv = toks.deep_view();
            proof {
                assert(tv == tokenize(lv[k as int]));
                assert(tv.len() == toks@.len());
                assert(forall|j: int| 0 <= j < tv.len() ==> good_token(#[trigger] tv[j]));
            }
            match &carry {
                Some(bctx) => {
                    let first: String = toks[0].clone();
                    proof {
                        let ghost mm = c.model();
                        lemma_model_add_wf(mm, bctx.deep_view(), Some(tv[0]), dep);
                        lemma_model_add_pads(mm, bctx.deep_view(), Some(tv[0]), dep);
                        lemma_model_add_find(mm, bctx.deep_view(), Some(tv[0]), pads(dep));
                        lemma_model_add_len(mm, bctx.deep_view(), Some(tv[0]));
                        assert(first@ == tv[0]);
                    }
                    add_transition(&mut c, bctx, Some(first));
                },
                None => {},
            }
            let mut ctx: Vec<String> = make_pads(depth);
            let ghost m1 = c.model();
            let ghost line_target = feed_line(m1, tv, pads(dep), 0);
            let ghost ctx_target = ctx_after(tv, pads(dep), 0);
            proof {
                lemma_pads_ok(dep);
            }
            let mut i: usize = 0;
            while i < toks.len()
                invariant
                    1 <= depth,
                    dep == depth as nat,
                    c.depth == depth,
                    i <= toks@.len(),
                    tv == toks.deep_view(),
                    tv.len() == toks@.len(),
                    forall|j: int| 0 <= j < tv.len() ==> good_token(#[trigger] tv[j]),
                    ctx_ok(ctx.deep_view(), dep),
                    ctx@.len() == depth,
                    i == 0 ==> ctx.deep_view() == pads(dep),
                    i > 0 ==> good_token(ctx.deep_view()[depth - 1]),
                    model_wf(c.model(), dep),
                    pads_only_tokens(c.model(), dep),
                    c.model().len() > 0 ==> model_find(c.model(), pads(dep)) is Some,
                    i > 0 ==> c.model().len() > 0,
                    feed_line(c.model(), tv, ctx.deep_view(), i as nat) == line_target,
                    ctx_after(tv, ctx.deep_view(), i as nat) == ctx_target,
                decreases toks@.len() - i,
            {
                let t1: String = toks[i].clone();
                let t2: String = toks[i].clone();
                let ghost mm = c.model();
                let ghost cv = ctx.deep_view();
                proof {
                    assert(t1@ == tv[i as int]);
                    lemma_model_add_wf(mm, cv, Some(tv[i as int]), dep);
                    lemma_model_add_pads(mm, cv, Some(tv[i as int]), dep);
                    lemma_model_add_find(mm, cv, Some(tv[i as int]), pads(dep));
                    lemma_model_add_len(mm, cv, Some(tv[i as int]));
                    if i == 0 {
                        lemma_pads_ok(dep);
                        assert(cv == pads(dep));
                    }
                }
                add_transition(&mut c, &ctx, Some(t1));
                ctx = shift_vec(ctx, t2);
                proof {
                    lemma_shift_ok(cv, tv[i as int], dep);
                    assert(ctx.deep_view() == shift_ctx(cv, tv[i as int]));
                    assert(ctx@.len() == ctx.deep_view().len());
                }
                i = i + 1;
            }
            let ghost mm = c.model();
            let ghost cv = ctx.deep_view();
            proof {
                lemma_tailed_not_pads(cv, dep);
                lemma_model_add_wf(mm, cv, None, dep);
                lemma_model_add_pads(mm, cv, None, dep);
                lemma_model_add_find(mm, cv, None, pads(dep));
                lemma_model_add_len(mm, cv, None);
            }
            add_transition(&mut c, &ctx, None);
            carry = Some(ctx);
            proof {
                assert(c.model() == line_target);
                assert(cv == ctx_target);
                assert(carry.deep_view() == Some(ctx_target));
            }
        }
        k = k + 1;
    }
    if c.entries.len() == 0 {
        proof {
            assert(c.model().len() == 0);
        }
        None
    } else {
        proof {
            assert(c.model().len() > 0);
        }
        Some(c)
    }
}

/// One walk joined into a single string with spaces, as the page
/// assembly consumes it.
pub fn markov_generate(c: &Chain, rng: &mut Stream) -> (s: String)
    requires
        c.wf(),
    ensures
        s@ == join_words(spec_generate(c.model(), c.depth as nat, old(rng)@).0),
        final(rng)@ == spec_generate(c.model(), c.depth as nat, old(rng)@).1,
{
    let toks = markov_walk(c, rng);
    join_with_spaces(&toks)
}

} // verus!
