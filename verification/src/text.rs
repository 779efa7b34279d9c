//! Text helpers: splitting corpus lines into tokens and joining token
//! sequences back into strings.
//!
//! A token is a maximal run of non-blank characters of a line.  Lines
//! never contain a line feed, so every token is nonempty and free of
//! blanks and line feeds; the rest of the library relies on that shape.

use vstd::prelude::*;
use vstd::string::*;

verus! {

/// Blank characters that separate tokens within a line.
pub open spec fn is_blank(c: char) -> bool {
    c == ' ' || c == '\t' || c == '\r'
}

/// A token as the tokenizer produces it: nonempty, no blanks, no line feed.
pub open spec fn good_token(t: Seq<char>) -> bool {
    t.len() > 0 && forall|j: int| 0 <= j < t.len() ==> !is_blank(#[trigger] t[j]) && t[j] != '\n'
}

/// The tokens of `s` from position `i` on, with `cur` the partial token
/// read so far.
pub open spec fn toks_from(s: Seq<char>, i: nat, cur: Seq<char>) -> Seq<Seq<char>>
    decreases s.len() + 1 - i,
{
    if i >= s.len() {
        if cur.len() > 0 {
            seq![cur]
        } else {
            seq![]
        }
    } else if is_blank(s[i as int]) {
        (if cur.len() > 0 {
            seq![cur]
        } else {
            seq![]
        }) + toks_from(s, i + 1, Seq::empty())
    } else {
        toks_from(s, i + 1, cur.push(s[i as int]))
    }
}

/// The whitespace-separated tokens of one line.
pub open spec fn tokenize(s: Seq<char>) -> Seq<Seq<char>> {
    toks_from(s, 0, Seq::empty())
}

/// Every token of a line without line feeds is a `good_token`.
pub proof fn lemma_toks_from_good(s: Seq<char>, i: nat, cur: Seq<char>)
    requires
        i <= s.len(),
        forall|j: int| 0 <= j < s.len() ==> #[trigger] s[j] != '\n',
        forall|j: int| 0 <= j < cur.len() ==> !is_blank(#[trigger] cur[j]) && cur[j] != '\n',
    ensures
        forall|k: int|
            0 <= k < toks_from(s, i, cur).len() ==> good_token(#[trigger] toks_from(s, i, cur)[k]),
    decreases s.len() + 1 - i,
{
    if i >= s.len() {
        if cur.len() > 0 {
            assert(good_token(cur));
            assert(toks_from(s, i, cur) =~= seq![cur]);
        }
    } else if is_blank(s[i as int]) {
        lemma_toks_from_good(s, i + 1, Seq::empty());
        let emitted: Seq<Seq<char>> = if cur.len() > 0 {
            seq![cur]
        } else {
            seq![]
        };
        let rest = toks_from(s, i + 1, Seq::empty());
        assert(toks_from(s, i, cur) =~= emitted + rest);
        assert forall|k: int| 0 <= k < (emitted + rest).len() implies good_token(
            #[trigger] (emitted + rest)[k],
        ) by {
            if k < emitted.len() {
                assert((emitted + rest)[k] == cur);
            } else {
                assert((emitted + rest)[k] == rest[k - emitted.len()]);
            }
        }
    } else {
        let cur2 = cur.push(s[i as int]);
        assert(forall|j: int|
            0 <= j < cur2.len() ==> !is_blank(#[trigger] cur2[j]) && cur2[j] != '\n');
        lemma_toks_from_good(s, i + 1, cur2);
        assert(toks_from(s, i, cur) == toks_from(s, i + 1, cur2));
        assert forall|k: int| 0 <= k < toks_from(s, i, cur).len() implies good_token(
            #[trigger] toks_from(s, i, cur)[k],
        ) by {
            assert(toks_from(s, i, cur)[k] == toks_from(s, i + 1, cur2)[k]);
        }
    }
}

/// Every token of `tokenize` on a line without line feeds is good.
pub proof fn lemma_tokenize_good(s: Seq<char>)
    requires
        forall|j: int| 0 <= j < s.len() ==> #[trigger] s[j] != '\n',
    ensures
        forall|k: int| 0 <= k < tokenize(s).len() ==> good_token(#[trigger] tokenize(s)[k]),
{
    lemma_toks_from_good(s, 0, Seq::empty());
}

/// A split has at least one line.
pub proof fn lemma_lines_from_count(s: Seq<char>, i: nat, cur: Seq<char>)
    requires
        i <= s.len(),
    ensures
        lines_from(s, i, cur).len() >= 1,
    decreases s.len() + 1 - i,
{
    if i >= s.len() {
    } else if s[i as int] == '\n' {
    } else {
        lemma_lines_from_count(s, i + 1, cur.push(s[i as int]));
    }
}

/// Dropping the first character of a good token of two or more
/// characters leaves a good token.
pub proof fn lemma_subrange_good(t: Seq<char>)
    requires
        good_token(t),
        t.len() >= 2,
    ensures
        good_token(t.subrange(1, t.len() as int)),
{
    let s2 = t.subrange(1, t.len() as int);
    assert forall|y: int| 0 <= y < s2.len() implies !is_blank(#[trigger] s2[y]) && s2[y] != '\n' by {
        assert(s2[y] == t[y + 1]);
    }
}

/// Relies on `String::push`: appends exactly the one character.
#[verifier::external_body]
pub(crate) fn push_char(s: &mut String, c: char)
    ensures
        final(s)@ == old(s)@.push(c),
{
    s.push(c);
}

/// Splits one line into its whitespace-separated tokens.
pub fn tokenize_line(line: &str) -> (toks: Vec<String>)
    ensures
        toks.deep_view() == tokenize(line@),
{
    let n: usize = line.unicode_len();
    let mut toks: Vec<String> = Vec::new();
    let mut cur: String = String::new();
    let mut i: usize = 0;
    proof {
        assert(toks.deep_view() =~= Seq::<Seq<char>>::empty());
    }
    while i < n
        invariant
            i <= n,
            n == line@.len(),
            cur@ == Seq::<char>::empty() || cur@.len() > 0,
            toks.deep_view() + toks_from(line@, i as nat, cur@) =~= tokenize(line@),
        decreases n - i,
    {
        let ghost pre_toks = toks.deep_view();
        let ghost pre_cur = cur@;
        let c: char = line.get_char(i);
        if c == ' ' || c == '\t' || c == '\r' {
            if !cur.as_str().is_empty() {
                toks.push(cur);
                cur = String::new();
                proof {
                    assert(toks.deep_view() =~= pre_toks.push(pre_cur));
                    assert(toks_from(line@, i as nat, pre_cur) =~= seq![pre_cur] + toks_from(
                        line@,
                        (i + 1) as nat,
                        Seq::empty(),
                    ));
                    assert(pre_toks + (seq![pre_cur] + toks_from(line@, (i + 1) as nat, Seq::empty()))
                        =~= pre_toks.push(pre_cur) + toks_from(line@, (i + 1) as nat, Seq::empty()));
                }
            } else {
                proof {
                    assert(toks_from(line@, i as nat, pre_cur) =~= Seq::<Seq<char>>::empty()
                        + toks_from(line@, (i + 1) as nat, Seq::empty()));
                }
            }
        } else {
            push_char(&mut cur, c);
        }
        i = i + 1;
    }
    if !cur.as_str().is_empty() {
        let ghost pre_toks = toks.deep_view();
        let ghost pre_cur = cur@;
        toks.push(cur);
        proof {
            assert(toks.deep_view() =~= pre_toks.push(pre_cur));
            assert(pre_toks + seq![pre_cur] =~= pre_toks.push(pre_cur));
        }
    }
    toks
}

/// The lines of `s` from position `i` on, with `cur` the partial line
/// read so far.  A line feed ends a line; empty lines are kept.
pub open spec fn lines_from(s: Seq<char>, i: nat, cur: Seq<char>) -> Seq<Seq<char>>
    decreases s.len() + 1 - i,
{
    if i >= s.len() {
        seq![cur]
    } else if s[i as int] == '\n' {
        seq![cur] + lines_from(s, i + 1, Seq::empty())
    } else {
        lines_from(s, i + 1, cur.push(s[i as int]))
    }
}

/// The lines of a whole corpus text.
pub open spec fn split_lines(s: Seq<char>) -> Seq<Seq<char>> {
    lines_from(s, 0, Seq::empty())
}

/// No line of a split holds a line feed.
pub proof fn lemma_lines_from_clean(s: Seq<char>, i: nat, cur: Seq<char>)
    requires
        i <= s.len(),
        forall|j: int| 0 <= j < cur.len() ==> #[trigger] cur[j] != '\n',
    ensures
        forall|k: int, j: int|
            0 <= k < lines_from(s, i, cur).len() && 0 <= j < lines_from(s, i, cur)[k].len()
                ==> #[trigger] lines_from(s, i, cur)[k][j] != '\n',
    decreases s.len() + 1 - i,
{
    if i >= s.len() {
        assert(lines_from(s, i, cur) =~= seq![cur]);
    } else if s[i as int] == '\n' {
        lemma_lines_from_clean(s, i + 1, Seq::empty());
        let rest = lines_from(s, i + 1, Seq::empty());
        assert(lines_from(s, i, cur) =~= seq![cur] + rest);
        assert forall|k: int, j: int|
            0 <= k < (seq![cur] + rest).len() && 0 <= j < (seq![cur] + rest)[k].len() implies (
        seq![cur] + rest)[k][j] != '\n' by {
            if k == 0 {
                assert((seq![cur] + rest)[k] == cur);
            } else {
                assert((seq![cur] + rest)[k] == rest[k - 1]);
            }
        }
    } else {
        let cur2 = cur.push(s[i as int]);
        assert(forall|j: int| 0 <= j < cur2.len() ==> #[trigger] cur2[j] != '\n');
        lemma_lines_from_clean(s, i + 1, cur2);
        assert(lines_from(s, i, cur) == lines_from(s, i + 1, cur2));
    }
}

/// No line of `split_lines` holds a line feed.
pub proof fn lemma_split_lines_clean(s: Seq<char>)
    ensures
        forall|k: int, j: int|
            0 <= k < split_lines(s).len() && 0 <= j < split_lines(s)[k].len()
                ==> #[trigger] split_lines(s)[k][j] != '\n',
{
    lemma_lines_from_clean(s, 0, Seq::empty());
}

/// Splits a corpus text into its lines.
pub fn split_into_lines(s: &str) -> (lines: Vec<String>)
    ensures
        lines.deep_view() == split_lines(s@),
{
    let n: usize = s.unicode_len();
    let mut lines: Vec<String> = Vec::new();
    let mut cur: String = String::new();
    let mut i: usize = 0;
    proof {
        assert(lines.deep_view() =~= Seq::<Seq<char>>::empty());
    }
    while i < n
        invariant
            i <= n,
            n == s@.len(),
            lines.deep_view() + lines_from(s@, i as nat, cur@) =~= split_lines(s@),
        decreases n - i,
    {
        let ghost pre_lines = lines.deep_view();
        let ghost pre_cur = cur@;
        let c: char = s.get_char(i);
        if c == '\n' {
            lines.push(cur);
            cur = String::new();
            proof {
                assert(lines.deep_view() =~= pre_lines.push(pre_cur));
                assert(pre_lines + (seq![pre_cur] + lines_from(s@, (i + 1) as nat, Seq::empty()))
                    =~= pre_lines.push(pre_cur) + lines_from(s@, (i + 1) as nat, Seq::empty()));
            }
        } else {
            push_char(&mut cur, c);
        }
        i = i + 1;
    }
    let ghost pre_lines = lines.deep_view();
    let ghost pre_cur = cur@;
    lines.push(cur);
    proof {
        assert(lines.deep_view() =~= pre_lines.push(pre_cur));
        assert(pre_lines + seq![pre_cur] =~= pre_lines.push(pre_cur));
    }
    lines
}

/// The tail of a join: the separator before each word from `i` on.
pub open spec fn join_tail(ws: Seq<Seq<char>>, sep: char, i: nat) -> Seq<char>
    decreases ws.len() + 1 - i,
{
    if i >= ws.len() {
        Seq::empty()
    } else {
        seq![sep] + ws[i as int] + join_tail(ws, sep, i + 1)
    }
}

/// The words of `ws` joined with single separators.
pub open spec fn join_sep(ws: Seq<Seq<char>>, sep: char) -> Seq<char> {
    if ws.len() == 0 {
        Seq::empty()
    } else {
        ws[0] + join_tail(ws, sep, 1)
    }
}

/// The words of `ws` joined with single spaces.
pub open spec fn join_words(ws: Seq<Seq<char>>) -> Seq<char> {
    join_sep(ws, ' ')
}

/// Appending a word appends a separator and the word to the join tail.
pub proof fn lemma_join_tail_push(ws: Seq<Seq<char>>, sep: char, p: Seq<char>, i: nat)
    requires
        1 <= i <= ws.len(),
    ensures
        join_tail(ws.push(p), sep, i) == join_tail(ws, sep, i) + seq![sep] + p,
    decreases ws.len() + 1 - i,
{
    if i == ws.len() {
        assert(ws.push(p)[i as int] == p);
        assert(join_tail(ws.push(p), sep, i + 1) =~= Seq::<char>::empty());
        assert(join_tail(ws.push(p), sep, i) =~= join_tail(ws, sep, i) + seq![sep] + p);
    } else {
        lemma_join_tail_push(ws, sep, p, i + 1);
        assert(ws.push(p)[i as int] == ws[i as int]);
        assert(seq![sep] + ws[i as int] + (join_tail(ws, sep, i + 1) + seq![sep] + p) =~= (seq![sep]
            + ws[i as int] + join_tail(ws, sep, i + 1)) + seq![sep] + p);
    }
}

/// Appending a word appends a separator and the word to the join,
/// except to an empty join.
pub proof fn lemma_join_sep_push(ws: Seq<Seq<char>>, sep: char, p: Seq<char>)
    ensures
        join_sep(ws.push(p), sep) == if ws.len() == 0 {
            p
        } else {
            join_sep(ws, sep) + seq![sep] + p
        },
{
    if ws.len() == 0 {
        assert(ws.push(p)[0] == p);
        assert(join_tail(ws.push(p), sep, 1) =~= Seq::<char>::empty());
        assert(join_sep(ws.push(p), sep) =~= p);
    } else {
        assert(ws.push(p)[0] == ws[0]);
        lemma_join_tail_push(ws, sep, p, 1);
        assert(ws[0] + (join_tail(ws, sep, 1) + seq![sep] + p) =~= (ws[0] + join_tail(ws, sep, 1))
            + seq![sep] + p);
    }
}

/// `lemma_join_sep_push` for the space join.
pub proof fn lemma_join_push(ws: Seq<Seq<char>>, p: Seq<char>)
    ensures
        join_words(ws.push(p)) == if ws.len() == 0 {
            p
        } else {
            join_words(ws) + seq![' '] + p
        },
{
    lemma_join_sep_push(ws, ' ', p);
}

/// Tokenizing depends only on the text from the position on.
pub proof fn lemma_toks_from_shift(s1: Seq<char>, i1: nat, s2: Seq<char>, i2: nat, cur: Seq<char>)
    requires
        i1 <= s1.len(),
        i2 <= s2.len(),
        s1.subrange(i1 as int, s1.len() as int) == s2.subrange(i2 as int, s2.len() as int),
    ensures
        toks_from(s1, i1, cur) == toks_from(s2, i2, cur),
    decreases s1.len() + 1 - i1,
{
    assert(s1.len() - i1 == s2.len() - i2) by {
        assert(s1.subrange(i1 as int, s1.len() as int).len() == s1.len() - i1);
        assert(s2.subrange(i2 as int, s2.len() as int).len() == s2.len() - i2);
        assert(s1.subrange(i1 as int, s1.len() as int).len() == s2.subrange(
            i2 as int,
            s2.len() as int,
        ).len());
    }
    if i1 < s1.len() {
        assert(s1[i1 as int] == s2[i2 as int]) by {
            assert(s1.subrange(i1 as int, s1.len() as int)[0] == s1[i1 as int]);
            assert(s2.subrange(i2 as int, s2.len() as int)[0] == s2[i2 as int]);
        }
        assert(s1.subrange(i1 as int + 1, s1.len() as int) =~= s2.subrange(i2 as int + 1, s2.len() as int)) by {
            assert forall|j: int| #![trigger s1.subrange(i1 as int + 1, s1.len() as int)[j]] 0 <= j < s1.len() - i1 - 1 implies s1.subrange(
                i1 as int + 1,
                s1.len() as int,
            )[j] == s2.subrange(i2 as int + 1, s2.len() as int)[j] by {
                assert(s1.subrange(i1 as int, s1.len() as int)[j + 1] == s1[i1 as int + 1 + j]);
                assert(s2.subrange(i2 as int, s2.len() as int)[j + 1] == s2[i2 as int + 1 + j]);
            }
        }
        if is_blank(s1[i1 as int]) {
            lemma_toks_from_shift(s1, i1 + 1, s2, i2 + 1, Seq::empty());
        } else {
            lemma_toks_from_shift(s1, i1 + 1, s2, i2 + 1, cur.push(s1[i1 as int]));
        }
    }
}

/// Tokenizing walks over a run of non-blank characters, gathering
/// them into the current token.
pub proof fn lemma_toks_consume(s: Seq<char>, i: nat, n: nat, cur: Seq<char>)
    requires
        i + n <= s.len(),
        forall|j: int| i <= j < i + n ==> !is_blank(#[trigger] s[j]),
    ensures
        toks_from(s, i, cur) == toks_from(s, i + n, cur + s.subrange(i as int, (i + n) as int)),
    decreases n,
{
    if n == 0 {
        assert(cur + s.subrange(i as int, i as int) =~= cur);
    } else {
        assert(!is_blank(s[i as int]));
        lemma_toks_consume(s, i + 1, (n - 1) as nat, cur.push(s[i as int]));
        assert(cur.push(s[i as int]) + s.subrange(i as int + 1, (i + n) as int) =~= cur + s.subrange(
            i as int,
            (i + n) as int,
        ));
    }
}

/// The join tail from position `i` equals the join tail of the
/// sequence without its first word, shifted by one.
pub proof fn lemma_join_tail_drop(ws: Seq<Seq<char>>, sep: char, i: nat)
    requires
        1 <= i <= ws.len(),
    ensures
        join_tail(ws, sep, i) == join_tail(ws.subrange(1, ws.len() as int), sep, (i - 1) as nat),
    decreases ws.len() + 1 - i,
{
    if i < ws.len() {
        assert(ws.subrange(1, ws.len() as int)[i - 1] == ws[i as int]);
        lemma_join_tail_drop(ws, sep, i + 1);
    }
}

/// A join decomposed at its first word.
pub proof fn lemma_join_head(ws: Seq<Seq<char>>, sep: char)
    requires
        ws.len() >= 1,
    ensures
        join_sep(ws, sep) == if ws.len() == 1 {
            ws[0]
        } else {
            ws[0] + seq![sep] + join_sep(ws.subrange(1, ws.len() as int), sep)
        },
{
    if ws.len() == 1 {
        assert(join_tail(ws, sep, 1) =~= Seq::<char>::empty());
        assert(ws[0] + Seq::<char>::empty() =~= ws[0]);
    } else {
        let rest = ws.subrange(1, ws.len() as int);
        assert(rest[0] == ws[1]);
        lemma_join_tail_drop(ws, sep, 2);
        assert(join_tail(ws, sep, 1) == seq![sep] + ws[1] + join_tail(rest, sep, 1));
        assert(ws[0] + (seq![sep] + ws[1] + join_tail(rest, sep, 1)) =~= ws[0] + seq![sep] + (ws[1]
            + join_tail(rest, sep, 1)));
    }
}

/// Tokenizing undoes a space join of good tokens.
pub proof fn lemma_tokenize_join(items: Seq<Seq<char>>)
    requires
        forall|k: int| 0 <= k < items.len() ==> good_token(#[trigger] items[k]),
    ensures
        tokenize(join_sep(items, ' ')) == items,
    decreases items.len(),
{
    let s = join_sep(items, ' ');
    if items.len() == 0 {
        assert(tokenize(s) =~= Seq::<Seq<char>>::empty());
    } else {
        let t = items[0];
        assert(good_token(t));
        lemma_join_head(items, ' ');
        if items.len() == 1 {
            assert(s == t);
            assert(forall|j: int| 0 <= j < t.len() ==> !is_blank(#[trigger] s[j]));
            lemma_toks_consume(s, 0, t.len(), Seq::empty());
            assert(Seq::<char>::empty() + s.subrange(0, t.len() as int) =~= t);
            assert(toks_from(s, t.len(), t) =~= seq![t]);
            assert(tokenize(s) =~= items);
        } else {
            let rest = items.subrange(1, items.len() as int);
            let rs = join_sep(rest, ' ');
            assert(s == t + seq![' '] + rs);
            assert forall|j: int| 0 <= j < t.len() implies !is_blank(#[trigger] s[j]) by {
                assert(s[j] == t[j]);
            }
            lemma_toks_consume(s, 0, t.len(), Seq::empty());
            assert(Seq::<char>::empty() + s.subrange(0, t.len() as int) =~= t);
            assert(s[t.len() as int] == ' ');
            assert(t.len() > 0);
            assert(toks_from(s, t.len(), t) == seq![t] + toks_from(s, t.len() + 1, Seq::empty()));
            assert(s.subrange(t.len() as int + 1, s.len() as int) =~= rs.subrange(0, rs.len() as int));
            assert(rs.subrange(0, rs.len() as int) =~= rs);
            lemma_toks_from_shift(s, (t.len() + 1) as nat, rs, 0, Seq::empty());
            lemma_tokenize_join(rest);
            assert(seq![t] + rest =~= items);
        }
    }
}

/// Line splitting depends only on the text from the position on.
pub proof fn lemma_lines_from_shift(s1: Seq<char>, i1: nat, s2: Seq<char>, i2: nat, cur: Seq<char>)
    requires
        i1 <= s1.len(),
        i2 <= s2.len(),
        s1.subrange(i1 as int, s1.len() as int) == s2.subrange(i2 as int, s2.len() as int),
    ensures
        lines_from(s1, i1, cur) == lines_from(s2, i2, cur),
    decreases s1.len() + 1 - i1,
{
    assert(s1.len() - i1 == s2.len() - i2) by {
        assert(s1.subrange(i1 as int, s1.len() as int).len() == s1.len() - i1);
        assert(s2.subrange(i2 as int, s2.len() as int).len() == s2.len() - i2);
        assert(s1.subrange(i1 as int, s1.len() as int).len() == s2.subrange(
            i2 as int,
            s2.len() as int,
        ).len());
    }
    if i1 < s1.len() {
        assert(s1[i1 as int] == s2[i2 as int]) by {
            assert(s1.subrange(i1 as int, s1.len() as int)[0] == s1[i1 as int]);
            assert(s2.subrange(i2 as int, s2.len() as int)[0] == s2[i2 as int]);
        }
        assert(s1.subrange(i1 as int + 1, s1.len() as int) =~= s2.subrange(i2 as int + 1, s2.len() as int)) by {
            assert forall|j: int| #![trigger s1.subrange(i1 as int + 1, s1.len() as int)[j]] 0 <= j < s1.len() - i1 - 1 implies s1.subrange(
                i1 as int + 1,
                s1.len() as int,
            )[j] == s2.subrange(i2 as int + 1, s2.len() as int)[j] by {
                assert(s1.subrange(i1 as int, s1.len() as int)[j + 1] == s1[i1 as int + 1 + j]);
                assert(s2.subrange(i2 as int, s2.len() as int)[j + 1] == s2[i2 as int + 1 + j]);
            }
        }
        if s1[i1 as int] == '\n' {
            lemma_lines_from_shift(s1, i1 + 1, s2, i2 + 1, Seq::empty());
        } else {
            lemma_lines_from_shift(s1, i1 + 1, s2, i2 + 1, cur.push(s1[i1 as int]));
        }
    }
}

/// Line splitting walks over a run of characters without line feeds,
/// gathering them into the current line.
pub proof fn lemma_lines_consume(s: Seq<char>, i: nat, n: nat, cur: Seq<char>)
    requires
        i + n <= s.len(),
        forall|j: int| i <= j < i + n ==> #[trigger] s[j] != '\n',
    ensures
        lines_from(s, i, cur) == lines_from(s, i + n, cur + s.subrange(i as int, (i + n) as int)),
    decreases n,
{
    if n == 0 {
        assert(cur + s.subrange(i as int, i as int) =~= cur);
    } else {
        assert(s[i as int] != '\n');
        lemma_lines_consume(s, i + 1, (n - 1) as nat, cur.push(s[i as int]));
        assert(cur.push(s[i as int]) + s.subrange(i as int + 1, (i + n) as int) =~= cur + s.subrange(
            i as int,
            (i + n) as int,
        ));
    }
}

/// Splitting undoes a line-feed join of lines without line feeds.
pub proof fn lemma_split_join(lines: Seq<Seq<char>>)
    requires
        lines.len() >= 1,
        forall|k: int, j: int|
            0 <= k < lines.len() && 0 <= j < lines[k].len() ==> #[trigger] lines[k][j] != '\n',
    ensures
        split_lines(join_sep(lines, '\n')) == lines,
    decreases lines.len(),
{
    let s = join_sep(lines, '\n');
    let t = lines[0];
    lemma_join_head(lines, '\n');
    if lines.len() == 1 {
        assert(s == t);
        assert(forall|j: int| 0 <= j < t.len() ==> #[trigger] s[j] != '\n');
        lemma_lines_consume(s, 0, t.len(), Seq::empty());
        assert(Seq::<char>::empty() + s.subrange(0, t.len() as int) =~= t);
        assert(lines_from(s, t.len(), t) =~= seq![t]);
        assert(split_lines(s) =~= lines);
    } else {
        let rest = lines.subrange(1, lines.len() as int);
        let rs = join_sep(rest, '\n');
        assert(s == t + seq!['\n'] + rs);
        assert forall|j: int| 0 <= j < t.len() implies #[trigger] s[j] != '\n' by {
            assert(s[j] == t[j]);
        }
        lemma_lines_consume(s, 0, t.len(), Seq::empty());
        assert(Seq::<char>::empty() + s.subrange(0, t.len() as int) =~= t);
        assert(s[t.len() as int] == '\n');
        assert(lines_from(s, t.len(), t) == seq![t] + lines_from(s, t.len() + 1, Seq::empty()));
        assert(s.subrange(t.len() as int + 1, s.len() as int) =~= rs.subrange(0, rs.len() as int));
        assert(rs.subrange(0, rs.len() as int) =~= rs);
        lemma_lines_from_shift(s, (t.len() + 1) as nat, rs, 0, Seq::empty());
        lemma_split_join(rest);
        assert(seq![t] + rest =~= lines);
    }
}

/// Joins words with a single separator character between them.
pub fn join_with_char(ws: &Vec<String>, sep: char) -> (r: String)
    ensures
        r@ == join_sep(ws.deep_view(), sep),
{
    let mut r: String = String::new();
    if ws.len() == 0 {
        return r;
    }
    r.append(ws[0].as_str());
    let mut i: usize = 1;
    while i < ws.len()
        invariant
            1 <= i <= ws.len(),
            ws.len() == ws.deep_view().len(),
            r@ + join_tail(ws.deep_view(), sep, i as nat) =~= join_sep(ws.deep_view(), sep),
        decreases ws.len() - i,
    {
        let ghost pre = r@;
        push_char(&mut r, sep);
        r.append(ws[i].as_str());
        proof {
            assert(pre + (seq![sep] + ws.deep_view()[i as int] + join_tail(
                ws.deep_view(),
                sep,
                (i + 1) as nat,
            )) =~= r@ + join_tail(ws.deep_view(), sep, (i + 1) as nat));
        }
        i = i + 1;
    }
    r
}

/// Joins words with single spaces.
pub fn join_with_spaces(ws: &Vec<String>) -> (r: String)
    ensures
        r@ == join_words(ws.deep_view()),
{
    join_with_char(ws, ' ')
}

} // verus!
