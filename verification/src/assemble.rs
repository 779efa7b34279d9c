//! The content assembler.
//!
//! One call turns a model and a seeded stream into a full synthetic
//! page: a title of 2 to 5 words, body paragraphs accumulated until
//! at least 1000 characters, a two-word author line with a fixed
//! fallback, and 2 to 10 pseudo-word link anchors.  The draws happen
//! in exactly that order, so the whole bundle is a pure function of
//! the model and of the initial stream state.

use vstd::prelude::*;
use vstd::string::*;

use crate::chain::{model_productive, model_wf, spec_generate, Chain, ChainModel};
use crate::stream::{
    is_lower, range_out, step_state, word_end_state, word_out, Stream,
};
use crate::text::{good_token, join_with_spaces, join_words, lemma_join_push};

verus! {

/// Least number of words of a title.
pub const TITLE_MIN_WORDS: usize = 2;

/// Greatest number of words of a title.
pub const TITLE_MAX_WORDS: usize = 5;

/// Least length of the joined body paragraphs, in characters.
pub const BODY_MIN_CHARS: usize = 1000;

/// Steps that the body accumulation can take; it never needs more,
/// since every paragraph adds at least one character.
pub const BODY_FUEL: usize = 1001;

/// Least number of links of a page.
pub const LINK_MIN_COUNT: u64 = 2;

/// Greatest number of links of a page.
pub const LINK_MAX_COUNT: u64 = 10;

/// Least length of one link anchor.
pub const LINK_MIN_LEN: usize = 4;

/// Greatest length of one link anchor.
pub const LINK_MAX_LEN: usize = 12;

/// The words of a phrase: whole walks are appended until `min` words
/// have accumulated.  `fuel` bounds the accumulation; `min` suffices,
/// since on a productive model every walk yields a word.
pub open spec fn phrase_words(
    m: ChainModel,
    depth: nat,
    s: u64,
    acc: Seq<Seq<char>>,
    min: nat,
    fuel: nat,
) -> (Seq<Seq<char>>, u64)
    decreases fuel,
{
    if acc.len() >= min || fuel == 0 {
        (acc, s)
    } else {
        let g = spec_generate(m, depth, s);
        phrase_words(m, depth, g.1, acc + g.0, min, (fuel - 1) as nat)
    }
}

/// The words of a phrase, cut to at most `max`.
pub open spec fn phrase_cut(m: ChainModel, depth: nat, s: u64, min: nat, max: nat) -> Seq<
    Seq<char>,
> {
    let ws = phrase_words(m, depth, s, Seq::empty(), min, min).0;
    if ws.len() <= max {
        ws
    } else {
        ws.subrange(0, max as int)
    }
}

/// A whole phrase: the cut words joined with spaces, and the stream
/// state left behind.
pub open spec fn spec_phrase(m: ChainModel, depth: nat, s: u64, min: nat, max: nat) -> (
    Seq<char>,
    u64,
) {
    (
        join_words(phrase_cut(m, depth, s, min, max)),
        phrase_words(m, depth, s, Seq::empty(), min, min).1,
    )
}

/// On a productive model, phrase accumulation with fuel covering the
/// missing words reaches at least `min` words.
pub proof fn lemma_phrase_words_min(
    m: ChainModel,
    depth: nat,
    s: u64,
    acc: Seq<Seq<char>>,
    min: nat,
    fuel: nat,
)
    requires
        model_wf(m, depth),
        model_productive(m, depth),
        fuel + acc.len() >= min,
    ensures
        phrase_words(m, depth, s, acc, min, fuel).0.len() >= min,
    decreases fuel,
{
    if acc.len() >= min || fuel == 0 {
    } else {
        let g = spec_generate(m, depth, s);
        crate::chain::lemma_generate_productive(m, depth, s);
        lemma_phrase_words_min(m, depth, g.1, acc + g.0, min, (fuel - 1) as nat);
    }
}

/// The body paragraphs: one walk per paragraph, with one draw burnt
/// after each, until the joined body reaches `BODY_MIN_CHARS`.
pub open spec fn spec_body(
    m: ChainModel,
    depth: nat,
    s: u64,
    paras: Seq<Seq<char>>,
    fuel: nat,
) -> (Seq<Seq<char>>, u64)
    decreases fuel,
{
    if join_words(paras).len() >= BODY_MIN_CHARS || fuel == 0 {
        (paras, s)
    } else {
        let g = spec_generate(m, depth, s);
        spec_body(m, depth, step_state(g.1), paras.push(join_words(g.0)), (fuel - 1) as nat)
    }
}

/// The author line: the first two words of one walk, or the fixed
/// fallback when the walk yields fewer than two.
pub open spec fn spec_author(m: ChainModel, depth: nat, s: u64) -> (Seq<char>, u64) {
    let g = spec_generate(m, depth, s);
    if g.0.len() >= 2 {
        (join_words(g.0.subrange(0, 2)), g.1)
    } else {
        ("Unknown author"@, g.1)
    }
}

/// The link anchors accumulated over `n` pseudo-word draws.
pub open spec fn links_acc(s: u64, acc: Seq<Seq<char>>, n: nat) -> (Seq<Seq<char>>, u64)
    decreases n,
{
    if n == 0 {
        (acc, s)
    } else {
        links_acc(
            word_end_state(s, LINK_MIN_LEN as u64, LINK_MAX_LEN as u64),
            acc.push(word_out(s, LINK_MIN_LEN as u64, LINK_MAX_LEN as u64)),
            (n - 1) as nat,
        )
    }
}

/// The links of a page: one count draw in `[2, 10]`, then that many
/// pseudo-words of 4 to 12 lowercase letters.
pub open spec fn spec_links(s: u64) -> (Seq<Seq<char>>, u64) {
    let k = range_out(s, LINK_MIN_COUNT, LINK_MAX_COUNT);
    links_acc(step_state(s), Seq::empty(), k as nat)
}

/// The mathematical content of a generated page.
pub struct BundleModel {
    /// The title text.
    pub title: Seq<char>,
    /// The body paragraphs, in order.
    pub paragraphs: Seq<Seq<char>>,
    /// The author line.
    pub author: Seq<char>,
    /// The link anchors, in order.
    pub links: Seq<Seq<char>>,
}

/// A whole page and the stream state left behind: title, then body,
/// then author, then links, in that fixed draw order.
pub open spec fn spec_assemble(m: ChainModel, depth: nat, s: u64) -> (BundleModel, u64) {
    let t = spec_phrase(m, depth, s, TITLE_MIN_WORDS as nat, TITLE_MAX_WORDS as nat);
    let b = spec_body(m, depth, t.1, Seq::empty(), BODY_FUEL as nat);
    let a = spec_author(m, depth, b.1);
    let l = spec_links(a.1);
    (BundleModel { title: t.0, paragraphs: b.0, author: a.0, links: l.0 }, l.1)
}

/// One generated page, produced once per request and discarded after
/// rendering.
pub struct ContentBundle {
    /// The title: 2 to 5 words.
    pub title: String,
    /// The body paragraphs; joined they hold at least 1000 characters.
    pub paragraphs: Vec<String>,
    /// The author line, or "Unknown author".
    pub author: String,
    /// 2 to 10 link anchors of 4 to 12 lowercase letters each.
    pub links: Vec<String>,
}

impl View for ContentBundle {
    type V = BundleModel;

    open spec fn view(&self) -> BundleModel {
        BundleModel {
            title: self.title@,
            paragraphs: self.paragraphs.deep_view(),
            author: self.author@,
            links: self.links.deep_view(),
        }
    }
}

/// Generates a pseudo-word of `min` to `max` random lowercase letters.
pub fn random_word(rng: &mut Stream, min: usize, max: usize) -> (w: String)
    requires
        1 <= min <= max,
    ensures
        w@ == word_out(old(rng)@, min as u64, max as u64),
        final(rng)@ == word_end_state(old(rng)@, min as u64, max as u64),
        min <= w@.len() <= max,
        forall|i: int| 0 <= i < w@.len() ==> is_lower(#[trigger] w@[i]),
{
    rng.next_word(min, max)
}

/// A phrase of `min` to `max` words: whole walks are accumulated
/// until `min` words are at hand, then the list is cut to `max` and
/// joined with spaces.
pub fn random_phrase(c: &Chain, rng: &mut Stream, min: usize, max: usize) -> (s: String)
    requires
        c.wf(),
        c.productive(),
        1 <= min <= max,
    ensures
        s@ == spec_phrase(c.model(), c.depth as nat, old(rng)@, min as nat, max as nat).0,
        final(rng)@ == spec_phrase(c.model(), c.depth as nat, old(rng)@, min as nat, max as nat).1,
        min <= phrase_cut(c.model(), c.depth as nat, old(rng)@, min as nat, max as nat).len()
            <= max,
{
    let ghost m = c.model();
    let ghost dep = c.depth as nat;
    let ghost s0: u64 = rng@;
    let ghost target = phrase_words(m, dep, s0, Seq::empty(), min as nat, min as nat);
    let mut words: Vec<String> = Vec::new();
    let ghost mut fuel: nat = min as nat;
    proof {
        assert(words.deep_view() =~= Seq::<Seq<char>>::empty());
        lemma_phrase_words_min(m, dep, s0, Seq::empty(), min as nat, min as nat);
    }
    while words.len() < min
        invariant
            c.wf(),
            c.productive(),
            m == c.model(),
            dep == c.depth as nat,
            1 <= min <= max,
            words.deep_view().len() == words@.len(),
            fuel as int >= min - words@.len(),
            phrase_words(m, dep, rng@, words.deep_view(), min as nat, fuel) == target,
        decreases fuel,
    {
        let ghost pre_words = words.deep_view();
        let ghost pre_s = rng@;
        let mut toks: Vec<String> = crate::chain::markov_walk(c, rng);
        let ghost tv = toks.deep_view();
        words.append(&mut toks);
        proof {
            assert(words.deep_view() =~= pre_words + tv);
            assert(tv.len() >= 1);
            fuel = (fuel - 1) as nat;
        }
    }
    proof {
        assert(phrase_words(m, dep, rng@, words.deep_view(), min as nat, fuel) == (
            words.deep_view(),
            rng@,
        ));
    }
    let ghost full = words.deep_view();
    words.truncate(max);
    proof {
        if full.len() <= max {
            assert(words.deep_view() =~= full);
        } else {
            assert(words.deep_view() =~= full.subrange(0, max as int));
        }
        assert(words.deep_view() == phrase_cut(m, dep, s0, min as nat, max as nat));
    }
    join_with_spaces(&words)
}

/// The author line: the first two words of one walk, or exactly
/// "Unknown author" when the walk yields fewer than two words.
pub fn author_line(c: &Chain, rng: &mut Stream) -> (a: String)
    requires
        c.wf(),
    ensures
        a@ == spec_author(c.model(), c.depth as nat, old(rng)@).0,
        final(rng)@ == spec_author(c.model(), c.depth as nat, old(rng)@).1,
        spec_generate(c.model(), c.depth as nat, old(rng)@).0.len() < 2 ==> a@
            == "Unknown author"@,
        spec_generate(c.model(), c.depth as nat, old(rng)@).0.len() >= 2 ==> a@ == join_words(
            spec_generate(c.model(), c.depth as nat, old(rng)@).0.subrange(0, 2),
        ),
{
    let toks = crate::chain::markov_walk(c, rng);
    if toks.len() >= 2 {
        let mut two: Vec<String> = Vec::new();
        two.push(toks[0].clone());
        two.push(toks[1].clone());
        proof {
            assert(two.deep_view() =~= toks.deep_view().subrange(0, 2));
        }
        join_with_spaces(&two)
    } else {
        String::from_str("Unknown author")
    }
}

/// Draws the link anchors: a count in `[2, 10]`, then that many
/// pseudo-words of 4 to 12 lowercase letters.
pub fn draw_links(rng: &mut Stream) -> (links: Vec<String>)
    ensures
        links.deep_view() == spec_links(old(rng)@).0,
        final(rng)@ == spec_links(old(rng)@).1,
        LINK_MIN_COUNT <= links@.len() <= LINK_MAX_COUNT,
        forall|x: int|
            0 <= x < links.deep_view().len() ==> LINK_MIN_LEN <= #[trigger] links.deep_view()[x].len()
                <= LINK_MAX_LEN,
        forall|x: int, y: int|
            0 <= x < links.deep_view().len() && 0 <= y < links.deep_view()[x].len() ==> is_lower(
                #[trigger] links.deep_view()[x][y],
            ),
{
    let ghost s0: u64 = rng@;
    let count: u64 = rng.next_uint_range(LINK_MIN_COUNT, LINK_MAX_COUNT);
    let ghost target = links_acc(rng@, Seq::empty(), count as nat);
    let mut links: Vec<String> = Vec::new();
    let mut j: u64 = 0;
    proof {
        assert(links.deep_view() =~= Seq::<Seq<char>>::empty());
    }
    while j < count
        invariant
            j <= count,
            links.deep_view().len() == links@.len(),
            links@.len() == j,
            links_acc(rng@, links.deep_view(), (count - j) as nat) == target,
            target == spec_links(s0),
            forall|x: int|
                0 <= x < links.deep_view().len() ==> LINK_MIN_LEN
                    <= #[trigger] links.deep_view()[x].len() <= LINK_MAX_LEN,
            forall|x: int, y: int|
                0 <= x < links.deep_view().len() && 0 <= y < links.deep_view()[x].len()
                    ==> is_lower(#[trigger] links.deep_view()[x][y]),
        decreases count - j,
    {
        let ghost pre = links.deep_view();
        let w = rng.next_word(LINK_MIN_LEN, LINK_MAX_LEN);
        let ghost wv = w@;
        links.push(w);
        proof {
            assert(links.deep_view() =~= pre.push(wv));
        }
        j = j + 1;
    }
    links
}

/// Assembles one whole page: title, body, author line and links, in
/// that fixed order of draws against the stream.  The result is a
/// pure function of the model and of the initial stream state, the
/// title holds 2 to 5 words, the joined body at least 1000
/// characters, and the links obey their count and shape bounds.
pub fn assemble(c: &Chain, rng: &mut Stream) -> (b: ContentBundle)
    requires
        c.wf(),
        c.productive(),
    ensures
        b@ == spec_assemble(c.model(), c.depth as nat, old(rng)@).0,
        final(rng)@ == spec_assemble(c.model(), c.depth as nat, old(rng)@).1,
        join_words(b@.paragraphs).len() >= BODY_MIN_CHARS,
        TITLE_MIN_WORDS <= phrase_cut(
            c.model(),
            c.depth as nat,
            old(rng)@,
            TITLE_MIN_WORDS as nat,
            TITLE_MAX_WORDS as nat,
        ).len() <= TITLE_MAX_WORDS,
        b@.title == join_words(
            phrase_cut(
                c.model(),
                c.depth as nat,
                old(rng)@,
                TITLE_MIN_WORDS as nat,
                TITLE_MAX_WORDS as nat,
            ),
        ),
        LINK_MIN_COUNT <= b@.links.len() <= LINK_MAX_COUNT,
        forall|x: int|
            0 <= x < b@.links.len() ==> LINK_MIN_LEN <= #[trigger] b@.links[x].len()
                <= LINK_MAX_LEN,
        forall|x: int, y: int|
            0 <= x < b@.links.len() && 0 <= y < b@.links[x].len() ==> is_lower(
                #[trigger] b@.links[x][y],
            ),
{
    let title: String = random_phrase(c, rng, TITLE_MIN_WORDS, TITLE_MAX_WORDS);
    let paragraphs: Vec<String> = body_paragraphs(c, rng);
    let author: String = author_line(c, rng);
    let links: Vec<String> = draw_links(rng);
    ContentBundle { title, paragraphs, author, links }
}

/// Accumulates body paragraphs, one walk each with one draw burnt
/// after it, until the joined body reaches `BODY_MIN_CHARS`.
pub fn body_paragraphs(c: &Chain, rng: &mut Stream) -> (paras: Vec<String>)
    requires
        c.wf(),
        c.productive(),
    ensures
        paras.deep_view() == spec_body(
            c.model(),
            c.depth as nat,
            old(rng)@,
            Seq::empty(),
            BODY_FUEL as nat,
        ).0,
        final(rng)@ == spec_body(
            c.model(),
            c.depth as nat,
            old(rng)@,
            Seq::empty(),
            BODY_FUEL as nat,
        ).1,
        join_words(paras.deep_view()).len() >= BODY_MIN_CHARS,
{
    let ghost m = c.model();
    let ghost dep = c.depth as nat;
    let ghost s0: u64 = rng@;
    let ghost target = spec_body(m, dep, s0, Seq::empty(), BODY_FUEL as nat);
    let mut paras: Vec<String> = Vec::new();
    let mut total: usize = 0;
    let ghost mut fuel: nat = BODY_FUEL as nat;
    proof {
        assert(paras.deep_view() =~= Seq::<Seq<char>>::empty());
        assert(join_words(paras.deep_view()) =~= Seq::<char>::empty());
    }
    while total < BODY_MIN_CHARS
        invariant
            c.wf(),
            c.productive(),
            m == c.model(),
            dep == c.depth as nat,
            paras.deep_view().len() == paras@.len(),
            total <= BODY_MIN_CHARS,
            join_words(paras.deep_view()).len() >= BODY_MIN_CHARS ==> total == BODY_MIN_CHARS,
            join_words(paras.deep_view()).len() < BODY_MIN_CHARS ==> total == join_words(
                paras.deep_view(),
            ).len(),
            fuel as int >= BODY_FUEL - total,
            spec_body(m, dep, rng@, paras.deep_view(), fuel) == target,
        decreases BODY_MIN_CHARS - total,
    {
        let ghost pre_paras = paras.deep_view();
        let ghost pre_jl = join_words(pre_paras).len();
        let toks: Vec<String> = crate::chain::markov_walk(c, rng);
        let p: String = join_with_spaces(&toks);
        let ghost pv = p@;
        let pl: usize = p.as_str().unicode_len();
        let first: bool = paras.len() == 0;
        paras.push(p);
        let _burn: u64 = rng.next_u64();
        proof {
            assert(paras.deep_view() =~= pre_paras.push(pv));
            lemma_join_push(pre_paras, pv);
            assert(toks.deep_view().len() >= 1);
            assert(good_token(toks.deep_view()[0]));
            assert(pv.len() >= 1);
            fuel = (fuel - 1) as nat;
        }
        let new_total: usize = if pl >= BODY_MIN_CHARS {
            BODY_MIN_CHARS
        } else if first {
            pl
        } else {
            let t2: usize = total + 1 + pl;
            if t2 >= BODY_MIN_CHARS {
                BODY_MIN_CHARS
            } else {
                t2
            }
        };
        total = new_total;
    }
    proof {
        assert(join_words(paras.deep_view()).len() >= BODY_MIN_CHARS);
        assert(spec_body(m, dep, rng@, paras.deep_view(), fuel) == (paras.deep_view(), rng@));
    }
    paras
}

} // verus!
