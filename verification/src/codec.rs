//! The snapshot format of the text model.
//!
//! A snapshot is plain text: a first line with the depth in decimal,
//! then one line per entry.  Each line holds the context items and
//! then the continuations, separated by spaces: `^` is a context pad,
//! `.` followed by the token is a real token, `$` is the end marker.
//! Tokens never hold blanks or line feeds, so the format needs no
//! escaping.  Decoding validates everything it reads and yields
//! nothing on any malformed or unproductive snapshot.

use vstd::prelude::*;
use vstd::string::*;

use crate::chain::{
    ctx_item_ok, ctx_ok, entries_model, entry_m_wf, find_entry, good_next,
    lemma_find_from_props, make_pads, model_find, model_productive, model_wf, pads, Chain,
    ChainModel, CtxModel, Entry,
};
use crate::text::{
    good_token, join_sep, join_with_char, join_with_spaces, lemma_split_lines_clean,
    lemma_tokenize_good, push_char, split_into_lines, split_lines, tokenize, tokenize_line,
};

verus! {

/// Largest value the depth line may carry.
pub const DEPTH_CAP: u64 = 0xFFFF_FFFF;

/// The decimal digit character of `d`.
pub open spec fn digit_char(d: nat) -> char {
    ((48 + d) as u8) as char
}

/// The decimal digits of `n`, most significant first.
pub open spec fn num_digits(n: nat) -> Seq<char>
    decreases n,
{
    if n < 10 {
        seq![digit_char(n)]
    } else {
        num_digits(n / 10).push(digit_char(n % 10))
    }
}

/// One step of decimal parsing from position `i` with value `acc`.
pub open spec fn parse_num(s: Seq<char>, i: nat, acc: nat) -> Option<nat>
    decreases s.len() + 1 - i,
{
    if i >= s.len() {
        Some(acc)
    } else {
        let u = s[i as int] as u32;
        if u < 48 || u > 57 {
            None
        } else {
            let a2 = acc * 10 + (u - 48);
            if a2 > DEPTH_CAP {
                None
            } else {
                parse_num(s, i + 1, a2 as nat)
            }
        }
    }
}

/// The number held by a whole line of decimal digits.
pub open spec fn spec_parse_usize(s: Seq<char>) -> Option<nat> {
    if s.len() == 0 {
        None
    } else {
        parse_num(s, 0, 0)
    }
}

/// The encoding of one context item.
pub open spec fn enc_ctx_item(t: Seq<char>) -> Seq<char> {
    if t.len() == 0 {
        seq!['^']
    } else {
        seq!['.'] + t
    }
}

/// The encoding of one continuation.
pub open spec fn enc_next_item(n: Option<Seq<char>>) -> Seq<char> {
    match n {
        None => seq!['$'],
        Some(t) => seq!['.'] + t,
    }
}

/// The items of one entry line.
pub open spec fn enc_entry_items(e: (Seq<Seq<char>>, Seq<Option<Seq<char>>>)) -> Seq<Seq<char>> {
    e.0.map_values(|t: Seq<char>| enc_ctx_item(t)) + e.1.map_values(
        |n: Option<Seq<char>>| enc_next_item(n),
    )
}

/// One whole entry line.
pub open spec fn enc_entry_line(e: (Seq<Seq<char>>, Seq<Option<Seq<char>>>)) -> Seq<char> {
    join_sep(enc_entry_items(e), ' ')
}

/// A whole snapshot: the depth line, then one line per entry.
pub open spec fn spec_encode(depth: nat, m: ChainModel) -> Seq<char> {
    join_sep(
        seq![num_digits(depth)] + m.map_values(
            |e: (Seq<Seq<char>>, Seq<Option<Seq<char>>>)| enc_entry_line(e),
        ),
        '\n',
    )
}

/// The context item that an encoded item denotes, if any.
pub open spec fn dec_ctx_item(it: Seq<char>) -> Option<Seq<char>> {
    if it.len() == 1 && it[0] == '^' {
        Some(Seq::empty())
    } else if it.len() >= 2 && it[0] == '.' {
        Some(it.subrange(1, it.len() as int))
    } else {
        None
    }
}

/// The continuation that an encoded item denotes, if any.
pub open spec fn dec_next_item(it: Seq<char>) -> Option<Option<Seq<char>>> {
    if it.len() == 1 && it[0] == '$' {
        Some(None)
    } else if it.len() >= 2 && it[0] == '.' {
        Some(Some(it.subrange(1, it.len() as int)))
    } else {
        None
    }
}

/// Decodes the first `depth` items of a line into a context.
pub open spec fn dec_ctx_items(items: Seq<Seq<char>>, j: nat, depth: nat, acc: CtxModel) -> Option<
    CtxModel,
>
    decreases depth + 1 - j,
{
    if j >= depth {
        Some(acc)
    } else {
        match dec_ctx_item(items[j as int]) {
            None => None,
            Some(t) => dec_ctx_items(items, j + 1, depth, acc.push(t)),
        }
    }
}

/// Decodes the items from `j` on into continuations.
pub open spec fn dec_next_items(items: Seq<Seq<char>>, j: nat, acc: Seq<Option<Seq<char>>>) -> Option<
    Seq<Option<Seq<char>>>,
>
    decreases items.len() + 1 - j,
{
    if j >= items.len() {
        Some(acc)
    } else {
        match dec_next_item(items[j as int]) {
            None => None,
            Some(n) => dec_next_items(items, j + 1, acc.push(n)),
        }
    }
}

/// Decodes the entry lines from `k` on into a model; a repeated
/// context or any malformed item makes the snapshot invalid.
pub open spec fn dec_lines(lines: Seq<Seq<char>>, k: nat, depth: nat, m: ChainModel) -> Option<
    ChainModel,
>
    decreases lines.len() + 1 - k,
{
    if k >= lines.len() {
        Some(m)
    } else {
        let items = tokenize(lines[k as int]);
        if items.len() < depth + 1 {
            None
        } else {
            match dec_ctx_items(items, 0, depth, Seq::empty()) {
                None => None,
                Some(ctx) => match dec_next_items(items, depth, Seq::empty()) {
                    None => None,
                    Some(nxs) => if model_find(m, ctx) is Some {
                        None
                    } else {
                        dec_lines(lines, k + 1, depth, m.push((ctx, nxs)))
                    },
                },
            }
        }
    }
}

/// What a whole snapshot text denotes: a depth and a model, or
/// nothing when any part is malformed or the model is unproductive.
pub open spec fn spec_decode(s: Seq<char>) -> Option<(nat, ChainModel)> {
    let lines = split_lines(s);
    match spec_parse_usize(lines[0]) {
        None => None,
        Some(depth) => if depth == 0 {
            None
        } else {
            match dec_lines(lines, 1, depth, Seq::empty()) {
                None => None,
                Some(m) => if model_productive(m, depth) {
                    Some((depth, m))
                } else {
                    None
                },
            }
        },
    }
}

/// The digits of a number are decimal digit characters.
pub proof fn lemma_digits_chars(n: nat)
    ensures
        num_digits(n).len() >= 1,
        forall|j: int|
            0 <= j < num_digits(n).len() ==> 48 <= (#[trigger] num_digits(n)[j]) as u32 <= 57,
    decreases n,
{
    if n < 10 {
        assert(num_digits(n)[0] == digit_char(n));
        assert(digit_char(n) as u32 == 48 + n);
    } else {
        lemma_digits_chars(n / 10);
        let pre = num_digits(n / 10);
        assert(digit_char(n % 10) as u32 == 48 + n % 10);
        assert forall|j: int| 0 <= j < num_digits(n).len() implies 48 <= (#[trigger] num_digits(
            n,
        )[j]) as u32 <= 57 by {
            if j < pre.len() {
                assert(num_digits(n)[j] == pre[j]);
            } else {
                assert(num_digits(n)[j] == digit_char(n % 10));
            }
        }
    }
}

/// Parsing one appended character multiplies the value by ten and
/// adds the digit, within the cap.
pub proof fn lemma_parse_push(s: Seq<char>, c: char, i: nat, acc: nat)
    requires
        i <= s.len(),
        parse_num(s, i, acc) is Some,
    ensures
        parse_num(s.push(c), i, acc) == ({
            let v = parse_num(s, i, acc)->Some_0;
            let u = c as u32;
            if u < 48 || u > 57 {
                None::<nat>
            } else if v * 10 + u - 48 > DEPTH_CAP {
                None::<nat>
            } else {
                Some((v * 10 + u - 48) as nat)
            }
        }),
    decreases s.len() + 1 - i,
{
    if i >= s.len() {
        assert(s.push(c)[i as int] == c);
        assert(parse_num(s.push(c), i + 1, (acc * 10 + (c as u32 - 48)) as nat) == Some(
            (acc * 10 + (c as u32 - 48)) as nat,
        ));
    } else {
        assert(s.push(c)[i as int] == s[i as int]);
        let u = s[i as int] as u32;
        if 48 <= u <= 57 && acc * 10 + (u - 48) <= DEPTH_CAP {
            lemma_parse_push(s, c, i + 1, (acc * 10 + (u - 48)) as nat);
        }
    }
}

/// Parsing undoes printing, for numbers within the cap.
pub proof fn lemma_parse_digits(n: nat)
    requires
        n <= DEPTH_CAP,
    ensures
        spec_parse_usize(num_digits(n)) == Some(n),
    decreases n,
{
    lemma_digits_chars(n);
    if n < 10 {
        assert(num_digits(n)[0] == digit_char(n));
        assert(digit_char(n) as u32 == 48 + n);
        assert(parse_num(num_digits(n), 1, n) == Some(n));
    } else {
        lemma_parse_digits(n / 10);
        lemma_parse_push(num_digits(n / 10), digit_char(n % 10), 0, 0);
        assert(digit_char(n % 10) as u32 == 48 + n % 10);
        vstd::arithmetic::div_mod::lemma_fundamental_div_mod(n as int, 10);
        assert(num_digits(n / 10).len() >= 1);
        assert(num_digits(n).len() >= 1);
    }
}

/// Decoding undoes the encoding of one context item, and the encoded
/// item is a good token.
pub proof fn lemma_ctx_item_round(t: Seq<char>)
    requires
        ctx_item_ok(t),
    ensures
        dec_ctx_item(enc_ctx_item(t)) == Some(t),
        good_token(enc_ctx_item(t)),
{
    let e = enc_ctx_item(t);
    if t.len() == 0 {
        assert(e[0] == '^');
        assert(!crate::text::is_blank('^') && '^' != '\n');
    } else {
        assert(e[0] == '.');
        assert(e.len() == t.len() + 1 >= 2);
        assert(e.subrange(1, e.len() as int) =~= t);
        assert forall|j: int| 0 <= j < e.len() implies !crate::text::is_blank(#[trigger] e[j])
            && e[j] != '\n' by {
            if j > 0 {
                assert(e[j] == t[j - 1]);
            }
        }
    }
}

/// Decoding undoes the encoding of one continuation, and the encoded
/// item is a good token.
pub proof fn lemma_next_item_round(n: Option<Seq<char>>)
    requires
        good_next(n),
    ensures
        dec_next_item(enc_next_item(n)) == Some(n),
        good_token(enc_next_item(n)),
{
    let e = enc_next_item(n);
    match n {
        None => {
            assert(e[0] == '$');
            assert(!crate::text::is_blank('$') && '$' != '\n');
        },
        Some(t) => {
            assert(e[0] == '.');
            assert(e.len() == t.len() + 1 >= 2);
            assert(e.subrange(1, e.len() as int) =~= t);
            assert forall|j: int| 0 <= j < e.len() implies !crate::text::is_blank(#[trigger] e[j])
                && e[j] != '\n' by {
                if j > 0 {
                    assert(e[j] == t[j - 1]);
                }
            }
        },
    }
}

/// Decoding the encoded context items of an entry from position `j`
/// with the first `j` items already decoded yields the whole context.
pub proof fn lemma_dec_ctx_round(items: Seq<Seq<char>>, e0: CtxModel, j: nat, depth: nat)
    requires
        j <= depth,
        e0.len() == depth,
        forall|x: int| 0 <= x < depth ==> #[trigger] items[x] == enc_ctx_item(e0[x]),
        forall|x: int| 0 <= x < depth ==> ctx_item_ok(#[trigger] e0[x]),
    ensures
        dec_ctx_items(items, j, depth, e0.subrange(0, j as int)) == Some(e0),
    decreases depth - j,
{
    if j >= depth {
        assert(e0.subrange(0, j as int) =~= e0);
    } else {
        lemma_ctx_item_round(e0[j as int]);
        assert(e0.subrange(0, j as int).push(e0[j as int]) =~= e0.subrange(0, j as int + 1));
        lemma_dec_ctx_round(items, e0, j + 1, depth);
    }
}

/// Decoding the encoded continuations of an entry from offset
/// `depth + j` with the first `j` already decoded yields them all.
pub proof fn lemma_dec_next_round(
    items: Seq<Seq<char>>,
    e1: Seq<Option<Seq<char>>>,
    j: nat,
    depth: nat,
)
    requires
        j <= e1.len(),
        items.len() == depth + e1.len(),
        forall|x: int| 0 <= x < e1.len() ==> #[trigger] items[depth + x] == enc_next_item(e1[x]),
        forall|x: int| 0 <= x < e1.len() ==> good_next(#[trigger] e1[x]),
    ensures
        dec_next_items(items, (depth + j) as nat, e1.subrange(0, j as int)) == Some(e1),
    decreases e1.len() - j,
{
    if j >= e1.len() {
        assert(e1.subrange(0, j as int) =~= e1);
    } else {
        lemma_next_item_round(e1[j as int]);
        assert(items[(depth + j) as int] == enc_next_item(e1[j as int]));
        assert(e1.subrange(0, j as int).push(e1[j as int]) =~= e1.subrange(0, j as int + 1));
        lemma_dec_next_round(items, e1, j + 1, depth);
    }
}

/// The encoded items of a well-formed entry: their count, their
/// shapes, and their goodness as tokens.
pub proof fn lemma_entry_items(e: (Seq<Seq<char>>, Seq<Option<Seq<char>>>), depth: nat)
    requires
        entry_m_wf(e, depth),
    ensures
        enc_entry_items(e).len() == depth + e.1.len(),
        forall|k: int|
            0 <= k < enc_entry_items(e).len() ==> good_token(#[trigger] enc_entry_items(e)[k]),
        dec_ctx_items(enc_entry_items(e), 0, depth, Seq::empty()) == Some(e.0),
        dec_next_items(enc_entry_items(e), depth, Seq::empty()) == Some(e.1),
{
    let items = enc_entry_items(e);
    assert(items.len() == depth + e.1.len());
    assert forall|k: int| 0 <= k < items.len() implies good_token(#[trigger] items[k]) by {
        if k < depth {
            assert(items[k] == enc_ctx_item(e.0[k]));
            lemma_ctx_item_round(e.0[k]);
        } else {
            assert(items[k] == enc_next_item(e.1[k - depth]));
            lemma_next_item_round(e.1[k - depth]);
        }
    }
    assert(forall|x: int| 0 <= x < depth ==> #[trigger] items[x] == enc_ctx_item(e.0[x]));
    assert(e.0.subrange(0, 0) =~= Seq::<Seq<char>>::empty());
    lemma_dec_ctx_round(items, e.0, 0, depth);
    assert(forall|x: int| 0 <= x < e.1.len() ==> #[trigger] items[depth + x] == enc_next_item(
        e.1[x],
    ));
    assert(e.1.subrange(0, 0) =~= Seq::<Option<Seq<char>>>::empty());
    lemma_dec_next_round(items, e.1, 0, depth);
}

/// A join of line-feed-free words with a separator other than a line
/// feed holds no line feed.
pub proof fn lemma_join_tail_no_newline(ws: Seq<Seq<char>>, sep: char, i: nat)
    requires
        sep != '\n',
        forall|k: int, j: int|
            0 <= k < ws.len() && 0 <= j < ws[k].len() ==> #[trigger] ws[k][j] != '\n',
        1 <= i,
    ensures
        forall|j: int|
            0 <= j < crate::text::join_tail(ws, sep, i).len() ==> #[trigger] crate::text::join_tail(
                ws,
                sep,
                i,
            )[j] != '\n',
    decreases ws.len() + 1 - i,
{
    if i < ws.len() {
        lemma_join_tail_no_newline(ws, sep, i + 1);
        let jt = crate::text::join_tail(ws, sep, i);
        let rest = crate::text::join_tail(ws, sep, i + 1);
        assert(jt == seq![sep] + ws[i as int] + rest);
        assert forall|j: int| 0 <= j < jt.len() implies #[trigger] jt[j] != '\n' by {
            if j == 0 {
                assert(jt[j] == sep);
            } else if j < 1 + ws[i as int].len() {
                assert(jt[j] == ws[i as int][j - 1]);
            } else {
                assert(jt[j] == rest[j - 1 - ws[i as int].len()]);
            }
        }
    }
}

/// A join of line-feed-free words with a separator other than a line
/// feed holds no line feed.
pub proof fn lemma_join_no_newline(ws: Seq<Seq<char>>, sep: char)
    requires
        sep != '\n',
        forall|k: int, j: int|
            0 <= k < ws.len() && 0 <= j < ws[k].len() ==> #[trigger] ws[k][j] != '\n',
    ensures
        forall|j: int|
            0 <= j < join_sep(ws, sep).len() ==> #[trigger] join_sep(ws, sep)[j] != '\n',
{
    if ws.len() > 0 {
        lemma_join_tail_no_newline(ws, sep, 1);
        let s = join_sep(ws, sep);
        let rest = crate::text::join_tail(ws, sep, 1);
        assert(s == ws[0] + rest);
        assert forall|j: int| 0 <= j < s.len() implies #[trigger] s[j] != '\n' by {
            if j < ws[0].len() {
                assert(s[j] == ws[0][j]);
            } else {
                assert(s[j] == rest[j - ws[0].len()]);
            }
        }
    }
}

/// Decoding the encoded entry lines of a well-formed model, with the
/// first `k - 1` entries already rebuilt, yields the whole model.
pub proof fn lemma_dec_lines_round(m: ChainModel, depth: nat, lines: Seq<Seq<char>>, k: nat)
    requires
        model_wf(m, depth),
        lines.len() == m.len() + 1,
        1 <= k <= lines.len(),
        forall|x: int| 0 <= x < m.len() ==> #[trigger] lines[x + 1] == enc_entry_line(m[x]),
    ensures
        dec_lines(lines, k, depth, m.subrange(0, k - 1)) == Some(m),
    decreases lines.len() + 1 - k,
{
    let acc = m.subrange(0, k - 1);
    if k >= lines.len() {
        assert(acc =~= m);
    } else {
        let e = m[k - 1];
        assert(entry_m_wf(e, depth));
        assert(lines[(k - 1) + 1] == enc_entry_line(m[k - 1]));
        assert(lines[k as int] == enc_entry_line(e));
        lemma_entry_items(e, depth);
        crate::text::lemma_tokenize_join(enc_entry_items(e));
        let items = tokenize(lines[k as int]);
        assert(items == enc_entry_items(e));
        assert(items.len() >= depth + 1);
        match model_find(acc, e.0) {
            Some(kk) => {
                lemma_find_from_props(acc, e.0, 0);
                assert(acc[kk as int] == m[kk as int]);
                assert(m[kk as int].0 == m[k - 1].0);
                assert(false);
            },
            None => {},
        }
        assert((e.0, e.1) == e);
        assert(acc.push(e) =~= m.subrange(0, k as int));
        lemma_dec_lines_round(m, depth, lines, k + 1);
    }
}

/// The snapshot of a well-formed productive model reads back exactly:
/// what `encode_chain` writes, `decode_chain` accepts and rebuilds,
/// entry for entry.
pub proof fn lemma_snapshot_round_trip(depth: nat, m: ChainModel)
    requires
        model_wf(m, depth),
        model_productive(m, depth),
        1 <= depth <= DEPTH_CAP,
    ensures
        spec_decode(spec_encode(depth, m)) == Some((depth, m)),
{
    let entry_lines = m.map_values(
        |e: (Seq<Seq<char>>, Seq<Option<Seq<char>>>)| enc_entry_line(e),
    );
    let all_lines = seq![num_digits(depth)] + entry_lines;
    let s = spec_encode(depth, m);
    assert(s == join_sep(all_lines, '\n'));
    lemma_digits_chars(depth);
    assert forall|k: int, j: int|
        0 <= k < all_lines.len() && 0 <= j < all_lines[k].len() implies #[trigger] all_lines[k][j]
        != '\n' by {
        if k == 0 {
            assert(all_lines[k] == num_digits(depth));
            assert(48 <= all_lines[k][j] as u32 <= 57);
            assert('\n' as u32 == 10);
        } else {
            let e = m[k - 1];
            assert(all_lines[k] == enc_entry_line(e));
            assert(entry_m_wf(e, depth));
            lemma_entry_items(e, depth);
            lemma_join_no_newline(enc_entry_items(e), ' ');
        }
    }
    crate::text::lemma_split_join(all_lines);
    assert(split_lines(s) == all_lines);
    assert(all_lines[0] == num_digits(depth));
    lemma_parse_digits(depth);
    assert(m.subrange(0, 0) =~= Seq::<(Seq<Seq<char>>, Seq<Option<Seq<char>>>)>::empty());
    assert(forall|x: int| 0 <= x < m.len() ==> #[trigger] all_lines[x + 1] == enc_entry_line(
        m[x],
    ));
    lemma_dec_lines_round(m, depth, all_lines, 1);
    assert(dec_lines(all_lines, 1, depth, Seq::empty()) == Some(m));
}

/// Prints a number in decimal.
fn print_num(n: usize) -> (r: String)
    ensures
        r@ == num_digits(n as nat),
    decreases n,
{
    if n < 10 {
        let mut s: String = String::new();
        push_char(&mut s, (48u8 + n as u8) as char);
        proof {
            assert(s@ =~= seq![digit_char(n as nat)]);
        }
        s
    } else {
        let mut s: String = print_num(n / 10);
        push_char(&mut s, (48u8 + (n % 10) as u8) as char);
        s
    }
}

/// Parses a whole line as a decimal number.
fn parse_usize_line(s: &str) -> (r: Option<usize>)
    ensures
        match r {
            Some(v) => spec_parse_usize(s@) == Some(v as nat) && v <= DEPTH_CAP,
            None => spec_parse_usize(s@) is None,
        },
{
    let n: usize = s.unicode_len();
    if n == 0 {
        return None;
    }
    let mut acc: u64 = 0;
    let mut i: usize = 0;
    while i < n
        invariant
            i <= n,
            n == s@.len(),
            acc <= DEPTH_CAP,
            parse_num(s@, i as nat, acc as nat) == parse_num(s@, 0, 0),
        decreases n - i,
    {
        let c: char = s.get_char(i);
        let u: u32 = c as u32;
        if u < 48 || u > 57 {
            return None;
        }
        let a2: u64 = acc * 10 + ((u - 48) as u64);
        if a2 > DEPTH_CAP {
            return None;
        }
        acc = a2;
        i = i + 1;
    }
    Some(acc as usize)
}

/// Writes the snapshot text of a chain.
pub fn encode_chain(c: &Chain) -> (r: String)
    ensures
        r@ == spec_encode(c.depth as nat, c.model()),
{
    let ghost m = c.model();
    let ghost all_lines = seq![num_digits(c.depth as nat)] + m.map_values(
        |e: (Seq<Seq<char>>, Seq<Option<Seq<char>>>)| enc_entry_line(e),
    );
    let mut lines: Vec<String> = Vec::new();
    lines.push(print_num(c.depth));
    let mut k: usize = 0;
    proof {
        assert(lines.deep_view() =~= all_lines.subrange(0, 1));
    }
    while k < c.entries.len()
        invariant
            k <= c.entries@.len(),
            m == c.model(),
            m.len() == c.entries@.len(),
            all_lines == seq![num_digits(c.depth as nat)] + m.map_values(
                |e: (Seq<Seq<char>>, Seq<Option<Seq<char>>>)| enc_entry_line(e),
            ),
            all_lines.len() == m.len() + 1,
            lines.deep_view() =~= all_lines.subrange(0, k + 1),
        decreases c.entries@.len() - k,
    {
        let e: &Entry = &c.entries[k];
        let ghost em = m[k as int];
        proof {
            assert(em == e.model());
        }
        let mut items: Vec<String> = Vec::new();
        let mut j: usize = 0;
        proof {
            assert(items.deep_view() =~= enc_entry_items(em).subrange(0, 0));
            assert(enc_entry_items(em).len() == em.0.len() + em.1.len());
        }
        while j < e.ctx.len()
            invariant
                j <= e.ctx@.len(),
                em == e.model(),
                em.0.len() == e.ctx@.len(),
                em.1.len() == e.nexts@.len(),
                enc_entry_items(em).len() == em.0.len() + em.1.len(),
                forall|x: int|
                    0 <= x < em.0.len() ==> #[trigger] enc_entry_items(em)[x] == enc_ctx_item(
                        em.0[x],
                    ),
                items.deep_view() =~= enc_entry_items(em).subrange(0, j as int),
            decreases e.ctx@.len() - j,
        {
            let ghost pre = items.deep_view();
            let t: &String = &e.ctx[j];
            let mut it: String = String::new();
            if t.as_str().is_empty() {
                push_char(&mut it, '^');
                proof {
                    assert(it@ =~= enc_ctx_item(em.0[j as int]));
                }
            } else {
                push_char(&mut it, '.');
                it.append(t.as_str());
                proof {
                    assert(it@ =~= enc_ctx_item(em.0[j as int]));
                }
            }
            items.push(it);
            proof {
                assert(items.deep_view() =~= pre.push(enc_ctx_item(em.0[j as int])));
                assert(items.deep_view() =~= enc_entry_items(em).subrange(0, j + 1));
            }
            j = j + 1;
        }
        let mut x: usize = 0;
        while x < e.nexts.len()
            invariant
                x <= e.nexts@.len(),
                em == e.model(),
                em.0.len() == e.ctx@.len(),
                em.1.len() == e.nexts@.len(),
                enc_entry_items(em).len() == em.0.len() + em.1.len(),
                forall|y: int|
                    0 <= y < em.1.len() ==> #[trigger] enc_entry_items(em)[em.0.len() + y]
                        == enc_next_item(em.1[y]),
                items.deep_view() =~= enc_entry_items(em).subrange(0, em.0.len() + x),
            decreases e.nexts@.len() - x,
        {
            let ghost pre = items.deep_view();
            let mut it: String = String::new();
            match &e.nexts[x] {
                None => {
                    push_char(&mut it, '$');
                    proof {
                        assert(it@ =~= enc_next_item(em.1[x as int]));
                    }
                },
                Some(t) => {
                    push_char(&mut it, '.');
                    it.append(t.as_str());
                    proof {
                        assert(it@ =~= enc_next_item(em.1[x as int]));
                    }
                },
            }
            items.push(it);
            proof {
                assert(items.deep_view() =~= pre.push(enc_next_item(em.1[x as int])));
                assert(items.deep_view() =~= enc_entry_items(em).subrange(0, em.0.len() + x + 1));
            }
            x = x + 1;
        }
        proof {
            assert(items.deep_view() =~= enc_entry_items(em));
        }
        let line: String = join_with_spaces(&items);
        let ghost pre_lines = lines.deep_view();
        lines.push(line);
        proof {
            assert(all_lines[k + 1] == enc_entry_line(em));
            assert(lines.deep_view() =~= pre_lines.push(enc_entry_line(em)));
            assert(lines.deep_view() =~= all_lines.subrange(0, k + 2));
        }
        k = k + 1;
    }
    proof {
        assert(lines.deep_view() =~= all_lines);
    }
    join_with_char(&lines, '\n')
}

/// Reads a snapshot text back into a chain, validating everything it
/// reads: any malformed line, repeated context or unproductive model
/// yields nothing, exactly as `spec_decode` says.
#[verifier::loop_isolation(false)]
pub fn decode_chain(s: &str) -> (r: Option<Chain>)
    ensures
        match r {
            Some(c) => spec_decode(s@) == Some((c.depth as nat, c.model())) && c.wf()
                && c.productive() && 1 <= c.depth,
            None => spec_decode(s@) is None,
        },
{
    let ghost lv = split_lines(s@);
    let lines: Vec<String> = split_into_lines(s);
    proof {
        lemma_split_lines_clean(s@);
        crate::text::lemma_lines_from_count(s@, 0, Seq::empty());
        assert(lines@.len() == lv.len());
        assert(lines@[0]@ == lv[0]);
    }
    let depth: usize = match parse_usize_line(lines[0].as_str()) {
        None => {
            return None;
        },
        Some(d) => d,
    };
    if depth == 0 {
        return None;
    }
    let mut c = Chain { depth, entries: Vec::new() };
    let ghost dep = depth as nat;
    let ghost target = dec_lines(lv, 1, dep, Seq::empty());
    proof {
        assert(c.model() =~= Seq::<(Seq<Seq<char>>, Seq<Option<Seq<char>>>)>::empty());
    }
    let mut k: usize = 1;
    while k < lines.len()
        invariant
            1 <= k <= lines@.len(),
            c.depth == depth,
            model_wf(c.model(), dep),
            dec_lines(lv, k as nat, dep, c.model()) == target,
        decreases lines@.len() - k,
    {
        let ghost m_pre = c.model();
        proof {
            lemma_tokenize_good(lv[k as int]);
            assert(lines@[k as int]@ == lv[k as int]);
        }
        let items: Vec<String> = tokenize_line(lines[k].as_str());
        let ghost iv = items.deep_view();
        proof {
            assert(iv == tokenize(lv[k as int]));
            assert(forall|x: int| 0 <= x < iv.len() ==> good_token(#[trigger] iv[x]));
            assert(iv.len() == items@.len());
        }
        if items.len() <= depth {
            proof {
                assert(dec_lines(lv, k as nat, dep, m_pre) is None);
            }
            return None;
        }
        let ghost ctx_target = dec_ctx_items(iv, 0, dep, Seq::empty());
        let mut ctxv: Vec<String> = Vec::new();
        let mut j: usize = 0;
        proof {
            assert(ctxv.deep_view() =~= Seq::<Seq<char>>::empty());
        }
        while j < depth
            invariant
                j <= depth,
                ctxv.deep_view().len() == j,
                forall|x: int| 0 <= x < j ==> ctx_item_ok(#[trigger] ctxv.deep_view()[x]),
                dec_ctx_items(iv, j as nat, dep, ctxv.deep_view()) == ctx_target,
            decreases depth - j,
        {
            let it: &String = &items[j];
            proof {
                assert(it@ == iv[j as int]);
                assert(good_token(iv[j as int]));
            }
            let l: usize = it.as_str().unicode_len();
            let c0: char = it.as_str().get_char(0);
            let ghost pre = ctxv.deep_view();
            if l == 1 && c0 == '^' {
                ctxv.push(String::new());
                proof {
                    assert(dec_ctx_item(iv[j as int]) == Some(Seq::<char>::empty()));
                    assert(ctxv.deep_view() =~= pre.push(Seq::<char>::empty()));
                }
            } else if l >= 2 && c0 == '.' {
                let sub: &str = it.as_str().substring_char(1, l);
                let tok: String = sub.to_owned();
                proof {
                    assert(tok@ == iv[j as int].subrange(1, iv[j as int].len() as int));
                    assert(dec_ctx_item(iv[j as int]) == Some(tok@));
                    crate::text::lemma_subrange_good(iv[j as int]);
                    assert(ctx_item_ok(tok@));
                }
                let ghost tv = tok@;
                ctxv.push(tok);
                proof {
                    assert(ctxv.deep_view() =~= pre.push(tv));
                }
            } else {
                proof {
                    assert(dec_ctx_item(iv[j as int]) is None);
                    assert(ctx_target is None);
                    assert(dec_lines(lv, k as nat, dep, m_pre) is None);
                }
                return None;
            }
            j = j + 1;
        }
        let ghost cv = ctxv.deep_view();
        proof {
            assert(ctx_target == Some(cv));
            assert(ctx_ok(cv, dep));
        }
        let ghost nx_target = dec_next_items(iv, dep, Seq::empty());
        let mut nxv: Vec<Option<String>> = Vec::new();
        let mut x: usize = depth;
        proof {
            assert(nxv.deep_view() =~= Seq::<Option<Seq<char>>>::empty());
        }
        while x < items.len()
            invariant
                depth <= x <= items@.len(),
                nxv.deep_view().len() == x - depth,
                forall|y: int| 0 <= y < nxv.deep_view().len() ==> good_next(
                    #[trigger] nxv.deep_view()[y],
                ),
                dec_next_items(iv, x as nat, nxv.deep_view()) == nx_target,
            decreases items@.len() - x,
        {
            let it: &String = &items[x];
            proof {
                assert(it@ == iv[x as int]);
                assert(good_token(iv[x as int]));
            }
            let l: usize = it.as_str().unicode_len();
            let c0: char = it.as_str().get_char(0);
            let ghost pre = nxv.deep_view();
            if l == 1 && c0 == '$' {
                nxv.push(None);
                proof {
                    assert(dec_next_item(iv[x as int]) == Some(None::<Seq<char>>));
                    assert(nxv.deep_view() =~= pre.push(None::<Seq<char>>));
                }
            } else if l >= 2 && c0 == '.' {
                let sub: &str = it.as_str().substring_char(1, l);
                let tok: String = sub.to_owned();
                proof {
                    assert(tok@ == iv[x as int].subrange(1, iv[x as int].len() as int));
                    assert(dec_next_item(iv[x as int]) == Some(Some(tok@)));
                    crate::text::lemma_subrange_good(iv[x as int]);
                }
                let ghost tv = tok@;
                nxv.push(Some(tok));
                proof {
                    assert(nxv.deep_view() =~= pre.push(Some(tv)));
                }
            } else {
                proof {
                    assert(dec_next_item(iv[x as int]) is None);
                    assert(nx_target is None);
                    assert(dec_lines(lv, k as nat, dep, m_pre) is None);
                }
                return None;
            }
            x = x + 1;
        }
        let ghost nv = nxv.deep_view();
        proof {
            assert(nx_target == Some(nv));
            assert(nv.len() >= 1);
        }
        match find_entry(&c.entries, &ctxv) {
            Some(_) => {
                proof {
                    assert(entries_model(c.entries@) =~= m_pre);
                    assert(model_find(m_pre, cv) is Some);
                    assert(dec_lines(lv, k as nat, dep, m_pre) is None);
                }
                return None;
            },
            None => {
                proof {
                    assert(entries_model(c.entries@) =~= m_pre);
                    lemma_find_from_props(m_pre, cv, 0);
                }
                let e = Entry { ctx: ctxv, nexts: nxv };
                c.entries.push(e);
                proof {
                    assert(c.model() =~= m_pre.push((cv, nv)));
                    assert(entry_m_wf((cv, nv), dep));
                    assert forall|k1: int, k2: int|
                        0 <= k1 < k2 < c.model().len() implies c.model()[k1].0
                        != c.model()[k2].0 by {
                        if k2 < m_pre.len() as int {
                            assert(c.model()[k1] == m_pre[k1]);
                            assert(c.model()[k2] == m_pre[k2]);
                        } else {
                            assert(c.model()[k2].0 == cv);
                            assert(c.model()[k1] == m_pre[k1]);
                        }
                    }
                    assert forall|k1: int| 0 <= k1 < c.model().len() implies entry_m_wf(
                        #[trigger] c.model()[k1],
                        dep,
                    ) by {
                        if k1 < m_pre.len() as int {
                            assert(c.model()[k1] == m_pre[k1]);
                        } else {
                            assert(c.model()[k1] == (cv, nv));
                        }
                    }
                }
            },
        }
        k = k + 1;
    }
    proof {
        assert(target == Some(c.model()));
    }
    let pads_vec: Vec<String> = make_pads(depth);
    match find_entry(&c.entries, &pads_vec) {
        None => {
            proof {
                assert(entries_model(c.entries@) =~= c.model());
                assert(model_find(c.model(), pads(dep)) is None);
                assert(!model_productive(c.model(), dep));
            }
            return None;
        },
        Some(pi) => {
            proof {
                assert(entries_model(c.entries@) =~= c.model());
                assert(model_find(c.model(), pads(dep)) == Some(pi as nat));
            }
            let e: &Entry = &c.entries[pi];
            proof {
                assert(c.model()[pi as int].1 == e.nexts.deep_view());
            }
            let mut y: usize = 0;
            while y < e.nexts.len()
                invariant
                    y <= e.nexts@.len(),
                    forall|z: int| 0 <= z < y ==> c.model()[pi as int].1[z] is Some,
                decreases e.nexts@.len() - y,
            {
                match &e.nexts[y] {
                    None => {
                        proof {
                            assert(c.model()[pi as int].1[y as int] is None);
                            assert(!model_productive(c.model(), dep));
                        }
                        return None;
                    },
                    Some(_) => {},
                }
                y = y + 1;
            }
            proof {
                assert(model_productive(c.model(), dep));
            }
            Some(c)
        },
    }
}

} // verus!
