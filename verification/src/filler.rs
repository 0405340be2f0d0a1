//! White space and comments between lexemes do not change the tokens.
//!
//! `lemma_filler_insertion` states it: a text made of white space and
//! complete comments, put into a source at a place where a lexeme ends, leaves
//! the kinds of the tokens as they were.

use crate::lexer::{
    closes_at, head_lexeme, ident_len, is_ident_part, is_ident_start, is_lexeme_of, is_space,
    kinds_of, lemma_ident_len, lemma_len_until, lemma_len_until_close, lemma_lexeme_bounds,
    lemma_scan_spans, len_until, len_until_close, punctuation, scan, Lexeme, ScanError, Token,
    TokenKind, LINE_FEED, QUOTE, SLASH, STAR,
};
use vstd::prelude::*;

verus! {

/// The kinds of the tokens that a scan found, or `None` where it stopped at
/// an error.
pub open spec fn scanned_kinds(r: Result<Seq<Token>, ScanError>) -> Option<Seq<TokenKind>> {
    match r {
        Ok(tokens) => Some(kinds_of(tokens)),
        Err(_) => None,
    }
}

/// A text that holds white space and complete comments only.
pub open spec fn is_filler(text: Seq<u8>) -> bool
    decreases text.len(),
{
    if text.len() == 0 {
        true
    } else {
        proof {
            lemma_lexeme_bounds(text);
        }
        match head_lexeme(text) {
            Lexeme::Filler { len } => is_filler(text.skip(len as int)),
            _ => false,
        }
    }
}

/// Whether the lexemes that start at `from` lead to `to`: `to` is where one
/// of them ends (or `from` itself), and each of them before it is a token,
/// white space or a complete comment.
pub open spec fn lexeme_boundary(text: Seq<u8>, from: int, to: int) -> bool
    decreases to - from,
{
    if from >= to || from < 0 || from >= text.len() {
        from == to
    } else {
        proof {
            lemma_lexeme_bounds(text.skip(from));
        }
        match head_lexeme(text.skip(from)) {
            Lexeme::Token { len, .. } => from + len <= to && lexeme_boundary(text, from + len, to),
            Lexeme::Filler { len } => from + len <= to && lexeme_boundary(text, from + len, to),
            _ => false,
        }
    }
}

/// The bytes of an identifier run are identifier bytes, and the byte behind
/// it is none.
pub proof fn lemma_ident_run(rest: Seq<u8>)
    ensures
        ident_len(rest) <= rest.len(),
        forall|k: int| 0 <= k < ident_len(rest) ==> is_ident_part(#[trigger] rest[k]),
        ident_len(rest) < rest.len() ==> !is_ident_part(rest[ident_len(rest) as int]),
    decreases rest.len(),
{
    if rest.len() > 0 && is_ident_part(rest[0]) {
        let tail = rest.drop_first();
        lemma_ident_run(tail);
        assert forall|k: int| 0 <= k < ident_len(rest) implies is_ident_part(
            #[trigger] rest[k],
        ) by {
            if k > 0 {
                assert(rest[k] == tail[k - 1]);
            }
        }
        if ident_len(rest) < rest.len() {
            assert(rest[ident_len(rest) as int] == tail[ident_len(tail) as int]);
        }
    }
}

/// No byte before the end of a run to `stop` is `stop`, and the byte behind
/// it is.
pub proof fn lemma_until_run(rest: Seq<u8>, stop: u8)
    ensures
        len_until(rest, stop) <= rest.len(),
        forall|k: int| 0 <= k < len_until(rest, stop) ==> #[trigger] rest[k] != stop,
        len_until(rest, stop) < rest.len() ==> rest[len_until(rest, stop) as int] == stop,
    decreases rest.len(),
{
    if rest.len() > 0 && rest[0] != stop {
        let tail = rest.drop_first();
        lemma_until_run(tail, stop);
        assert forall|k: int| 0 <= k < len_until(rest, stop) implies #[trigger] rest[k] != stop by {
            if k > 0 {
                assert(rest[k] == tail[k - 1]);
            }
        }
        if len_until(rest, stop) < rest.len() {
            assert(rest[len_until(rest, stop) as int] == tail[len_until(tail, stop) as int]);
        }
    }
}

/// No `*/` stands before the end of a run to the first `*/`, and one stands
/// behind it.
pub proof fn lemma_close_run(rest: Seq<u8>)
    ensures
        len_until_close(rest) <= rest.len(),
        forall|k: int| 0 <= k < len_until_close(rest) ==> !#[trigger] closes_at(rest, k),
        len_until_close(rest) < rest.len() ==> closes_at(rest, len_until_close(rest) as int),
    decreases rest.len(),
{
    if !(rest.len() == 0 || closes_at(rest, 0)) {
        let tail = rest.drop_first();
        lemma_close_run(tail);
        assert forall|k: int| 0 <= k < len_until_close(rest) implies !#[trigger] closes_at(
            rest,
            k,
        ) by {
            if k > 0 {
                assert(!closes_at(tail, k - 1));
            }
        }
        if len_until_close(rest) < rest.len() {
            assert(closes_at(tail, len_until_close(tail) as int));
        }
    }
}

/// Whether a byte may follow the lexeme at the head of `text` without
/// becoming part of it: any byte may, but for an identifier or a keyword,
/// which an identifier byte would extend.
pub open spec fn may_follow(text: Seq<u8>, next: u8) -> bool {
    is_ident_start(text[0]) ==> !is_ident_part(next)
}

/// A token or a filler at the head of a text is the same at the head of
/// every text that starts with the same bytes and goes on with a byte that
/// may follow it.
pub proof fn lemma_same_lexeme(x: Seq<u8>, y: Seq<u8>, n: int)
    requires
        x.len() > 0,
        head_lexeme(x) matches Lexeme::Token { len, .. } ==> len == n,
        head_lexeme(x) matches Lexeme::Filler { len } ==> len == n,
        head_lexeme(x) is Token || head_lexeme(x) is Filler,
        n <= y.len(),
        y.take(n) == x.take(n),
        n < y.len() ==> may_follow(x, y[n]),
    ensures
        head_lexeme(y) == head_lexeme(x),
{
    lemma_lexeme_bounds(x);
    assert(0 < n <= x.len());
    assert forall|k: int| 0 <= k < n implies y[k] == x[k] by {
        assert(y.take(n)[k] == y[k]);
        assert(x.take(n)[k] == x[k]);
    }
    let b = x[0];
    if punctuation(b) is Some || is_space(b) {
    } else if is_ident_start(b) {
        lemma_ident_run(x);
        lemma_ident_len(y, n);
    } else if b == QUOTE {
        let body = x.drop_first();
        let other = y.drop_first();
        lemma_until_run(body, QUOTE);
        assert forall|k: int| 0 <= k < n - 2 implies other[k] != QUOTE by {
            assert(other[k] == y[k + 1]);
            assert(body[k] == x[k + 1]);
        }
        assert(other[n - 2] == y[n - 1]);
        assert(body[n - 2] == x[n - 1]);
        lemma_len_until(other, QUOTE, n - 2);
        assert(y.subrange(1, n - 1) =~= x.subrange(1, n - 1));
    } else if b == SLASH && x[1] == SLASH {
        let body = x.skip(2);
        let other = y.skip(2);
        lemma_until_run(body, LINE_FEED);
        assert forall|k: int| 0 <= k < n - 3 implies other[k] != LINE_FEED by {
            assert(other[k] == y[k + 2]);
            assert(body[k] == x[k + 2]);
        }
        assert(other[n - 3] == y[n - 1]);
        assert(body[n - 3] == x[n - 1]);
        lemma_len_until(other, LINE_FEED, n - 3);
    } else {
        let body = x.skip(2);
        let other = y.skip(2);
        lemma_close_run(body);
        assert forall|k: int| 0 <= k < n - 4 implies !closes_at(other, k) by {
            assert(!closes_at(body, k));
            assert(other[k] == y[k + 2]);
            assert(body[k] == x[k + 2]);
            assert(other[k + 1] == y[k + 3]);
            assert(body[k + 1] == x[k + 3]);
        }
        assert(closes_at(body, n - 4));
        assert(other[n - 4] == y[n - 2]);
        assert(body[n - 4] == x[n - 2]);
        assert(other[n - 3] == y[n - 1]);
        assert(body[n - 3] == x[n - 1]);
        lemma_len_until_close(other, n - 4);
    }
}

/// The kinds of a token in front of a scan: its kind in front of the kinds
/// of the scan.
pub open spec fn kind_before(kind: TokenKind, rest: Option<Seq<TokenKind>>) -> Option<
    Seq<TokenKind>,
> {
    match rest {
        Some(kinds) => Some(seq![kind] + kinds),
        None => None,
    }
}

/// The number of bytes of a token or a filler.
pub open spec fn lexeme_len(lexeme: Lexeme) -> int {
    match lexeme {
        Lexeme::Token { len, .. } => len as int,
        Lexeme::Filler { len } => len as int,
        _ => 0,
    }
}

/// The kinds of a scan that starts with `lexeme` and goes on with `rest`.
pub open spec fn kinds_with(lexeme: Lexeme, rest: Option<Seq<TokenKind>>) -> Option<
    Seq<TokenKind>,
> {
    match lexeme {
        Lexeme::Token { kind, .. } => kind_before(kind, rest),
        Lexeme::Filler { .. } => rest,
        Lexeme::OpenComment => Some(Seq::empty()),
        _ => None,
    }
}

/// The kinds of a scan are those of its first lexeme and of the scan behind
/// it.
pub proof fn lemma_scan_step(rest: Seq<u8>, base: int)
    requires
        rest.len() > 0,
    ensures
        0 <= lexeme_len(head_lexeme(rest)) <= rest.len(),
        scanned_kinds(scan(rest, base)) == kinds_with(
            head_lexeme(rest),
            scanned_kinds(
                scan(
                    rest.skip(lexeme_len(head_lexeme(rest))),
                    base + lexeme_len(head_lexeme(rest)),
                ),
            ),
        ),
{
    lemma_lexeme_bounds(rest);
    match head_lexeme(rest) {
        Lexeme::Token { kind, len } => {
            let token = Token { kind, start: base, end: base + len };
            if let Ok(more) = scan(rest.skip(len as int), base + len) {
                assert(kinds_of(seq![token] + more) =~= seq![kind] + kinds_of(more));
            }
        },
        Lexeme::OpenComment => {
            assert(kinds_of(Seq::<Token>::empty()) =~= Seq::<TokenKind>::empty());
        },
        _ => {},
    }
}

/// The kinds that a scan finds do not depend on the offset of the text.
pub proof fn lemma_kinds_without_base(rest: Seq<u8>, base: int, other: int)
    ensures
        scanned_kinds(scan(rest, base)) == scanned_kinds(scan(rest, other)),
    decreases rest.len(),
{
    if rest.len() > 0 {
        let n = lexeme_len(head_lexeme(rest));
        lemma_scan_step(rest, base);
        lemma_scan_step(rest, other);
        if n > 0 {
            lemma_kinds_without_base(rest.skip(n), base + n, other + n);
        }
    } else {
        assert(kinds_of(Seq::<Token>::empty()) =~= Seq::<TokenKind>::empty());
    }
}

/// A filler in front of a text does not change the kinds of its tokens.
pub proof fn lemma_filler_prefix(filler: Seq<u8>, rest: Seq<u8>, base: int, other: int)
    requires
        is_filler(filler),
    ensures
        scanned_kinds(scan(filler + rest, base)) == scanned_kinds(scan(rest, other)),
    decreases filler.len(),
{
    if filler.len() == 0 {
        assert(filler + rest =~= rest);
        lemma_kinds_without_base(rest, base, other);
    } else {
        let n = lexeme_len(head_lexeme(filler));
        let whole = filler + rest;
        lemma_lexeme_bounds(filler);
        assert(whole.take(n) =~= filler.take(n));
        lemma_same_lexeme(filler, whole, n);
        lemma_scan_step(whole, base);
        assert(whole.skip(n) =~= filler.skip(n) + rest);
        lemma_filler_prefix(filler.skip(n), rest, base + n, other);
    }
}

/// The byte behind a token or a filler may follow it; so may the first byte
/// of a filler.
pub proof fn lemma_next_may_follow(x: Seq<u8>, filler: Seq<u8>)
    requires
        x.len() > 0,
        head_lexeme(x) is Token || head_lexeme(x) is Filler,
    ensures
        lexeme_len(head_lexeme(x)) < x.len() ==> may_follow(x, x[lexeme_len(head_lexeme(x))]),
        is_filler(filler) && filler.len() > 0 ==> may_follow(x, filler[0]),
{
    if is_ident_start(x[0]) {
        lemma_ident_run(x);
    }
}

/// The source with a filler put in at `at`.
pub open spec fn widened(source: Seq<u8>, at: int, filler: Seq<u8>) -> Seq<u8> {
    source.take(at) + filler + source.skip(at)
}

/// Before the place of insertion the source with the filler has the lexemes
/// of the source without it.
pub proof fn lemma_lexeme_before_filler(source: Seq<u8>, at: int, filler: Seq<u8>, from: int)
    requires
        0 <= from < at <= source.len(),
        lexeme_boundary(source, from, at),
        is_filler(filler),
        filler.len() > 0,
    ensures
        head_lexeme(widened(source, at, filler).skip(from)) == head_lexeme(source.skip(from)),
        0 < lexeme_len(head_lexeme(source.skip(from))) <= at - from,
        lexeme_boundary(source, from + lexeme_len(head_lexeme(source.skip(from))), at),
{
    let x = source.skip(from);
    let y = widened(source, at, filler).skip(from);
    let n = lexeme_len(head_lexeme(x));
    lemma_lexeme_bounds(x);
    assert(y.take(n) =~= x.take(n));
    lemma_next_may_follow(x, filler);
    if from + n == at {
        assert(y[n] == filler[0]);
    } else {
        assert(y[n] == x[n]);
    }
    lemma_same_lexeme(x, y, n);
}

/// From a place that the lexemes lead to the place of insertion, the source
/// with the filler has the tokens of the source without it.
pub proof fn lemma_filler_insertion_from(
    source: Seq<u8>,
    at: int,
    filler: Seq<u8>,
    from: int,
    base: int,
    other: int,
)
    requires
        0 <= from <= at <= source.len(),
        lexeme_boundary(source, from, at),
        is_filler(filler),
        filler.len() > 0,
    ensures
        scanned_kinds(scan(widened(source, at, filler).skip(from), base)) == scanned_kinds(
            scan(source.skip(from), other),
        ),
    decreases at - from,
{
    let wide = widened(source, at, filler);
    if from == at {
        assert(wide.skip(from) =~= filler + source.skip(at));
        lemma_filler_prefix(filler, source.skip(at), base, other);
    } else {
        let x = source.skip(from);
        let y = wide.skip(from);
        let n = lexeme_len(head_lexeme(x));
        lemma_lexeme_before_filler(source, at, filler, from);
        lemma_scan_step(x, other);
        lemma_scan_step(y, base);
        assert(x.skip(n) =~= source.skip(from + n));
        assert(y.skip(n) =~= wide.skip(from + n));
        lemma_filler_insertion_from(source, at, filler, from + n, base + n, other + n);
    }
}

/// White space and comments between lexemes do not change the tokens: where
/// the lexemes of `source` lead to the offset `at`, the source with a filler
/// put in at `at` has tokens of the same kinds, in the same order, as the
/// source itself; and the one is in error exactly if the other is.
pub proof fn lemma_filler_insertion(source: Seq<u8>, at: int, filler: Seq<u8>)
    requires
        0 <= at <= source.len(),
        lexeme_boundary(source, 0, at),
        is_filler(filler),
    ensures
        scanned_kinds(scan(widened(source, at, filler), 0)) == scanned_kinds(scan(source, 0)),
{
    let wide = widened(source, at, filler);
    if filler.len() == 0 {
        assert(wide =~= source);
    } else {
        assert(wide.skip(0) =~= wide);
        assert(source.skip(0) =~= source);
        lemma_filler_insertion_from(source, at, filler, 0, 0, 0);
    }
}

/// A byte of white space is a filler.
pub proof fn lemma_space_is_filler(b: u8)
    requires
        is_space(b),
    ensures
        is_filler(seq![b]),
{
    reveal_with_fuel(is_filler, 2);
    assert(seq![b].skip(1) =~= Seq::<u8>::empty());
}

/// `//`, the body, and a line feed.
pub open spec fn line_comment(body: Seq<u8>) -> Seq<u8> {
    seq![SLASH, SLASH] + body + seq![LINE_FEED]
}

/// `/*`, the body, and `*/`.
pub open spec fn block_comment(body: Seq<u8>) -> Seq<u8> {
    seq![SLASH, STAR] + body + seq![STAR, SLASH]
}

/// A line comment with its line feed is a filler.
pub proof fn lemma_line_comment_is_filler(body: Seq<u8>)
    requires
        forall|k: int| 0 <= k < body.len() ==> #[trigger] body[k] != LINE_FEED,
    ensures
        is_filler(line_comment(body)),
{
    let text = line_comment(body);
    let rest = text.skip(2);
    assert forall|k: int| 0 <= k < body.len() implies rest[k] != LINE_FEED by {
        assert(rest[k] == body[k]);
    }
    assert(rest[body.len() as int] == LINE_FEED);
    lemma_len_until(rest, LINE_FEED, body.len() as int);
    reveal_with_fuel(is_filler, 2);
    assert(text.skip(text.len() as int) =~= Seq::<u8>::empty());
}

/// A block comment whose first `*/` is the one at its end is a filler.
pub proof fn lemma_block_comment_is_filler(body: Seq<u8>)
    requires
        forall|k: int|
            0 <= k < body.len() ==> !#[trigger] closes_at(body.push(STAR).push(SLASH), k),
    ensures
        is_filler(block_comment(body)),
{
    let text = block_comment(body);
    let rest = text.skip(2);
    assert(rest =~= body.push(STAR).push(SLASH));
    assert(closes_at(rest, body.len() as int));
    lemma_len_until_close(rest, body.len() as int);
    reveal_with_fuel(is_filler, 2);
    assert(text.skip(text.len() as int) =~= Seq::<u8>::empty());
}

/// A filler after a filler is a filler.
pub proof fn lemma_filler_concat(first: Seq<u8>, second: Seq<u8>)
    requires
        is_filler(first),
        is_filler(second),
    ensures
        is_filler(first + second),
    decreases first.len(),
{
    if first.len() == 0 {
        assert(first + second =~= second);
    } else {
        let n = lexeme_len(head_lexeme(first));
        let whole = first + second;
        lemma_lexeme_bounds(first);
        assert(whole.take(n) =~= first.take(n));
        lemma_same_lexeme(first, whole, n);
        assert(whole.skip(n) =~= first.skip(n) + second);
        lemma_filler_concat(first.skip(n), second);
    }
}

/// The lexemes lead on from a place behind a token or a filler to every
/// place that they lead to from the place before it.
pub proof fn lemma_boundary_step(source: Seq<u8>, from: int, to: int)
    requires
        0 <= from < source.len(),
        head_lexeme(source.skip(from)) is Token || head_lexeme(source.skip(from)) is Filler,
        from + lexeme_len(head_lexeme(source.skip(from))) <= to,
        lexeme_boundary(source, from + lexeme_len(head_lexeme(source.skip(from))), to),
    ensures
        lexeme_boundary(source, from, to),
{
    lemma_lexeme_bounds(source.skip(from));
}

/// The lexemes of a source lead to the start and to the end of each of its
/// tokens: a filler may be put in before and behind every token.
pub proof fn lemma_token_boundaries(source: Seq<u8>, from: int)
    requires
        0 <= from <= source.len(),
    ensures
        scan(source.skip(from), from) matches Ok(tokens) ==> forall|i: int|
            0 <= i < tokens.len() ==> lexeme_boundary(source, from, (#[trigger] tokens[i]).start)
                && lexeme_boundary(source, from, tokens[i].end),
    decreases source.len() - from,
{
    let rest = source.skip(from);
    if rest.len() > 0 {
        let n = lexeme_len(head_lexeme(rest));
        lemma_lexeme_bounds(rest);
        if n > 0 {
            let tail = rest.skip(n);
            assert(tail =~= source.skip(from + n));
            lemma_token_boundaries(source, from + n);
            lemma_scan_spans(tail, from + n);
            if let (Ok(tokens), Ok(more)) = (scan(rest, from), scan(tail, from + n)) {
                let lead = tokens.len() - more.len();
                assert forall|i: int| 0 <= i < tokens.len() implies lexeme_boundary(
                    source,
                    from,
                    (#[trigger] tokens[i]).start,
                ) && lexeme_boundary(source, from, tokens[i].end) by {
                    if i >= lead {
                        let token = more[i - lead];
                        assert(tokens[i] == token);
                        assert(is_lexeme_of(tail, from + n, token));
                        lemma_boundary_step(source, from, token.start);
                        lemma_boundary_step(source, from, token.end);
                    } else {
                        lemma_boundary_step(source, from, from + n);
                    }
                }
            }
        }
    }
}

} // verus!
