//! Related chunks: the chunk that holds a known line is the seed; every
//! other chunk is scored by how many of its tokens the seed also holds,
//! over the number of distinct tokens of the two together.

use vstd::prelude::*;

use crate::index::{chunk_views, copy_opt_string, opt_view, Chunk, ChunkView};
use crate::ranking::SearchIndex;
use crate::term_table::TermTable;
use crate::text::{chars_of, string_of_range, views};
use crate::tokenize::{first_occurrences, lemma_first_occurrences};

verus! {

/// A related chunk: where it is, its overlap and union counts (its score is
/// `overlap / union`), the first shared tokens, and the start of its text.
#[derive(Debug, Clone)]
pub struct RelatedHit {
    pub chunk_index: usize,
    pub path: String,
    pub overlap: usize,
    pub union: usize,
    pub matched_terms: Vec<String>,
    pub start_line: u32,
    pub end_line: u32,
    pub snippet: String,
    pub symbol_name: Option<String>,
    pub chunk_type: String,
}

pub struct RelatedView {
    pub chunk_index: usize,
    pub path: Seq<char>,
    pub overlap: nat,
    pub union: nat,
    pub matched_terms: Seq<Seq<char>>,
    pub start_line: u32,
    pub end_line: u32,
    pub snippet: Seq<char>,
    pub symbol_name: Option<Seq<char>>,
    pub chunk_type: Seq<char>,
}

impl View for RelatedHit {
    type V = RelatedView;

    open spec fn view(&self) -> RelatedView {
        RelatedView {
            chunk_index: self.chunk_index,
            path: self.path@,
            overlap: self.overlap as nat,
            union: self.union as nat,
            matched_terms: views(self.matched_terms@),
            start_line: self.start_line,
            end_line: self.end_line,
            snippet: self.snippet@,
            symbol_name: opt_view(self.symbol_name),
            chunk_type: self.chunk_type@,
        }
    }
}

pub open spec fn related_views(v: Seq<RelatedHit>) -> Seq<RelatedView> {
    v.map_values(|h: RelatedHit| h@)
}

/// The chunk holds the location: same path, and the line within its range.
pub open spec fn holds_location(c: ChunkView, path: Seq<char>, line: u32) -> bool {
    c.path == path && c.start_line <= line && line <= c.end_line
}

/// The first chunk that holds the location.
pub open spec fn seed_of(chunks: Seq<ChunkView>, path: Seq<char>, line: u32) -> Option<int>
    decreases chunks.len(),
{
    if chunks.len() == 0 {
        None
    } else {
        match seed_of(chunks.drop_last(), path, line) {
            Some(k) => Some(k),
            None => if holds_location(chunks.last(), path, line) {
                Some(chunks.len() - 1)
            } else {
                None
            },
        }
    }
}

/// How many of `tokens` (repeats counted) occur in `seed`.
pub open spec fn shared_count(tokens: Seq<Seq<char>>, seed: Seq<Seq<char>>) -> nat
    decreases tokens.len(),
{
    if tokens.len() == 0 {
        0
    } else {
        shared_count(tokens.drop_last(), seed) + if seed.contains(tokens.last()) {
            1nat
        } else {
            0nat
        }
    }
}

/// The tokens of `tokens` (repeats kept) that occur in `seed`.
pub open spec fn shared_tokens(tokens: Seq<Seq<char>>, seed: Seq<Seq<char>>) -> Seq<Seq<char>>
    decreases tokens.len(),
{
    if tokens.len() == 0 {
        seq![]
    } else {
        let rest = shared_tokens(tokens.drop_last(), seed);
        if seed.contains(tokens.last()) {
            rest.push(tokens.last())
        } else {
            rest
        }
    }
}

/// The number of distinct tokens of the seed and the candidate together.
pub open spec fn union_count(seed: Seq<Seq<char>>, tokens: Seq<Seq<char>>) -> nat {
    first_occurrences(seed + tokens).len()
}

/// At most the first `n` characters of `s`.
pub open spec fn prefix_chars(s: Seq<char>, n: nat) -> Seq<char> {
    if s.len() <= n {
        s
    } else {
        s.take(n as int)
    }
}

/// The related hit of chunk `j`.
pub open spec fn related_of(c: ChunkView, j: int, seed: Seq<Seq<char>>) -> RelatedView {
    RelatedView {
        chunk_index: j as usize,
        path: c.path,
        overlap: shared_count(c.tokens, seed),
        union: union_count(seed, c.tokens),
        matched_terms: prefix_tokens(shared_tokens(c.tokens, seed), 12),
        start_line: c.start_line,
        end_line: c.end_line,
        snippet: prefix_chars(c.text, 360),
        symbol_name: c.symbol_name,
        chunk_type: c.chunk_type,
    }
}

/// At most the first `n` tokens.
pub open spec fn prefix_tokens(s: Seq<Seq<char>>, n: nat) -> Seq<Seq<char>> {
    if s.len() <= n {
        s
    } else {
        s.take(n as int)
    }
}

/// The scored chunks other than the seed, in chunk order: those with a
/// token that the seed holds.
pub open spec fn related_candidates(chunks: Seq<ChunkView>, seed_index: int, seed: Seq<Seq<char>>) -> Seq<
    RelatedView,
>
    decreases chunks.len(),
{
    if chunks.len() == 0 {
        seq![]
    } else {
        let rest = related_candidates(chunks.drop_last(), seed_index, seed);
        let j = chunks.len() - 1;
        if j != seed_index && shared_count(chunks.last().tokens, seed) > 0 {
            rest.push(related_of(chunks.last(), j, seed))
        } else {
            rest
        }
    }
}

/// `a` is before `b` when its character sequence is lexicographically smaller
/// (the order of `String`, whose UTF-8 bytes order as the code points do).
pub open spec fn chars_less(a: Seq<char>, b: Seq<char>) -> bool
    decreases a.len(),
{
    if a.len() == 0 {
        b.len() > 0
    } else if b.len() == 0 {
        false
    } else if a[0] != b[0] {
        a[0] < b[0]
    } else {
        chars_less(a.drop_first(), b.drop_first())
    }
}

/// `a` ranks before `b`: a higher score `overlap / union`, or the same score
/// and a smaller path.
pub open spec fn ranks_before(a: RelatedView, b: RelatedView) -> bool {
    let x = a.overlap * b.union;
    let y = b.overlap * a.union;
    x > y || (x == y && chars_less(a.path, b.path))
}

/// `x` inserted into `sorted` after every hit that `x` does not rank before.
pub open spec fn insert_ranked(sorted: Seq<RelatedView>, x: RelatedView) -> Seq<RelatedView>
    decreases sorted.len(),
{
    if sorted.len() == 0 {
        seq![x]
    } else if !ranks_before(x, sorted.last()) {
        sorted.push(x)
    } else {
        insert_ranked(sorted.drop_last(), x).push(sorted.last())
    }
}

/// `s` stably sorted by rank.
pub open spec fn sort_ranked(s: Seq<RelatedView>) -> Seq<RelatedView>
    decreases s.len(),
{
    if s.len() == 0 {
        seq![]
    } else {
        insert_ranked(sort_ranked(s.drop_last()), s.last())
    }
}

/// The related hits of the chunk that holds `path:line`: none without such a
/// chunk; otherwise the ranked candidates, at most `max(limit, 1)` of them.
pub open spec fn find_related_spec(chunks: Seq<ChunkView>, path: Seq<char>, line: u32, limit: usize) -> Seq<
    RelatedView,
> {
    match seed_of(chunks, path, line) {
        None => seq![],
        Some(s) => {
            let ranked = sort_ranked(related_candidates(chunks, s, chunks[s].tokens));
            let n: int = if limit >= 1 {
                limit as int
            } else {
                1
            };
            if ranked.len() <= n {
                ranked
            } else {
                ranked.take(n)
            }
        },
    }
}

proof fn lemma_seed_of_bound(chunks: Seq<ChunkView>, path: Seq<char>, line: u32)
    ensures
        seed_of(chunks, path, line) matches Some(k) ==> 0 <= k < chunks.len() && holds_location(
            chunks[k],
            path,
            line,
        ),
    decreases chunks.len(),
{
    if chunks.len() > 0 {
        lemma_seed_of_bound(chunks.drop_last(), path, line);
    }
}

// ---------------------------------------------------------------------------
// The order of related hits
// ---------------------------------------------------------------------------

/// No hit of `r` ranks before a hit that comes earlier.
pub open spec fn in_rank_order(r: Seq<RelatedView>) -> bool {
    forall|i: int, j: int| 0 <= i < j < r.len() ==> !ranks_before(#[trigger] r[j], #[trigger] r[i])
}

proof fn lemma_chars_less_irreflexive(a: Seq<char>)
    ensures
        !chars_less(a, a),
    decreases a.len(),
{
    if a.len() > 0 {
        lemma_chars_less_irreflexive(a.drop_first());
    }
}

proof fn lemma_chars_less_transitive(a: Seq<char>, b: Seq<char>, c: Seq<char>)
    requires
        chars_less(a, b),
        chars_less(b, c),
    ensures
        chars_less(a, c),
    decreases a.len(),
{
    if a.len() > 0 && b.len() > 0 && c.len() > 0 && a[0] == b[0] && b[0] == c[0] {
        lemma_chars_less_transitive(a.drop_first(), b.drop_first(), c.drop_first());
    }
}

proof fn lemma_chars_less_total(a: Seq<char>, b: Seq<char>)
    requires
        a != b,
    ensures
        chars_less(a, b) || chars_less(b, a),
    decreases a.len(),
{
    if a.len() == 0 && b.len() == 0 {
        assert(a =~= b);
    }
    if a.len() > 0 && b.len() > 0 && a[0] == b[0] {
        if a.drop_first() == b.drop_first() {
            assert(a =~= seq![a[0]] + a.drop_first());
            assert(b =~= seq![b[0]] + b.drop_first());
        }
        lemma_chars_less_total(a.drop_first(), b.drop_first());
    }
}

/// Neither being smaller is transitive for `chars_less`.
proof fn lemma_chars_not_less_transitive(a: Seq<char>, b: Seq<char>, c: Seq<char>)
    requires
        !chars_less(a, b),
        !chars_less(b, c),
    ensures
        !chars_less(a, c),
{
    if chars_less(a, c) {
        if a == b {
        } else {
            lemma_chars_less_total(a, b);
            lemma_chars_less_transitive(b, a, c);
        }
    }
}

proof fn lemma_chars_less_asymmetric(a: Seq<char>, b: Seq<char>)
    requires
        chars_less(a, b),
    ensures
        !chars_less(b, a),
{
    if chars_less(b, a) {
        lemma_chars_less_transitive(a, b, a);
        lemma_chars_less_irreflexive(a);
    }
}

/// Cross-multiplied scores compare transitively when the denominators are
/// positive, and the outer comparison is an equality only when both inner
/// ones are.
proof fn lemma_cross_products(oa: int, ua: int, ob: int, ub: int, oc: int, uc: int)
    requires
        ua > 0,
        ub > 0,
        uc > 0,
        oa * ub <= ob * ua,
        ob * uc <= oc * ub,
    ensures
        oa * uc <= oc * ua,
        oa * uc == oc * ua ==> oa * ub == ob * ua && ob * uc == oc * ub,
{
    assert(oa * ub * uc <= ob * ua * uc) by (nonlinear_arith)
        requires
            oa * ub <= ob * ua,
            uc > 0,
    ;
    assert(ob * uc * ua <= oc * ub * ua) by (nonlinear_arith)
        requires
            ob * uc <= oc * ub,
            ua > 0,
    ;
    assert(ob * ua * uc == ob * uc * ua) by (nonlinear_arith);
    assert(oa * ub * uc == ub * (oa * uc)) by (nonlinear_arith);
    assert(oc * ub * ua == ub * (oc * ua)) by (nonlinear_arith);
    assert(oa * uc <= oc * ua) by (nonlinear_arith)
        requires
            ub * (oa * uc) <= ub * (oc * ua),
            ub > 0,
    ;
    if oa * uc == oc * ua {
        assert(oa * ub == ob * ua) by (nonlinear_arith)
            requires
                oa * ub * uc <= ob * ua * uc,
                ob * ua * uc <= oc * ub * ua,
                oa * ub * uc == oc * ub * ua,
                oa * ub <= ob * ua,
                uc > 0,
        ;
        assert(ob * uc == oc * ub) by (nonlinear_arith)
            requires
                ob * uc * ua <= oc * ub * ua,
                oa * ub * uc <= ob * uc * ua,
                oa * ub * uc == oc * ub * ua,
                ob * uc <= oc * ub,
                ua > 0,
        ;
    }
}

/// `ranks_before` is asymmetric.
proof fn lemma_ranks_before_asymmetric(a: RelatedView, b: RelatedView)
    requires
        ranks_before(a, b),
    ensures
        !ranks_before(b, a),
{
    if a.overlap * b.union == b.overlap * a.union {
        lemma_chars_less_asymmetric(a.path, b.path);
    }
}

/// Not ranking before is transitive among hits with a positive union.
proof fn lemma_not_ranks_before_transitive(a: RelatedView, b: RelatedView, c: RelatedView)
    requires
        a.union > 0,
        b.union > 0,
        c.union > 0,
        !ranks_before(a, b),
        !ranks_before(b, c),
    ensures
        !ranks_before(a, c),
{
    lemma_cross_products(
        a.overlap as int,
        a.union as int,
        b.overlap as int,
        b.union as int,
        c.overlap as int,
        c.union as int,
    );
    if a.overlap * c.union == c.overlap * a.union {
        lemma_chars_not_less_transitive(a.path, b.path, c.path);
    }
}

/// Every hit of `insert_ranked(sorted, x)` is one of `sorted` or `x`, so a
/// property of all of those holds of all of it.
proof fn lemma_insert_ranked_keeps(sorted: Seq<RelatedView>, x: RelatedView, p: spec_fn(RelatedView) -> bool)
    requires
        forall|i: int| 0 <= i < sorted.len() ==> p(#[trigger] sorted[i]),
        p(x),
    ensures
        insert_ranked(sorted, x).len() == sorted.len() + 1,
        forall|i: int| 0 <= i < insert_ranked(sorted, x).len() ==> p(#[trigger] insert_ranked(sorted, x)[i]),
    decreases sorted.len(),
{
    if sorted.len() > 0 && ranks_before(x, sorted.last()) {
        let rest = sorted.drop_last();
        assert forall|i: int| 0 <= i < rest.len() implies p(#[trigger] rest[i]) by {
            assert(rest[i] == sorted[i]);
        }
        lemma_insert_ranked_keeps(rest, x, p);
        let ins = insert_ranked(rest, x);
        assert(p(sorted[sorted.len() - 1]));
        assert forall|i: int| 0 <= i < ins.push(sorted.last()).len() implies p(
            #[trigger] ins.push(sorted.last())[i],
        ) by {
            if i < ins.len() {
                assert(ins.push(sorted.last())[i] == ins[i]);
            }
        }
    }
}

/// A property of every hit of `s` holds of every hit of `sort_ranked(s)`.
proof fn lemma_sort_ranked_keeps(s: Seq<RelatedView>, p: spec_fn(RelatedView) -> bool)
    requires
        forall|i: int| 0 <= i < s.len() ==> p(#[trigger] s[i]),
    ensures
        sort_ranked(s).len() == s.len(),
        forall|i: int| 0 <= i < sort_ranked(s).len() ==> p(#[trigger] sort_ranked(s)[i]),
    decreases s.len(),
{
    if s.len() > 0 {
        let rest = s.drop_last();
        assert forall|i: int| 0 <= i < rest.len() implies p(#[trigger] rest[i]) by {
            assert(rest[i] == s[i]);
        }
        lemma_sort_ranked_keeps(rest, p);
        assert(p(s[s.len() - 1]));
        lemma_insert_ranked_keeps(sort_ranked(rest), s.last(), p);
    }
}

/// Inserting into hits in rank order keeps them in rank order.
proof fn lemma_insert_ranked_in_order(sorted: Seq<RelatedView>, x: RelatedView)
    requires
        in_rank_order(sorted),
        forall|i: int| 0 <= i < sorted.len() ==> (#[trigger] sorted[i]).union > 0,
        x.union > 0,
    ensures
        in_rank_order(insert_ranked(sorted, x)),
    decreases sorted.len(),
{
    if sorted.len() == 0 {
    } else if !ranks_before(x, sorted.last()) {
        let r = sorted.push(x);
        let n = sorted.len();
        assert forall|i: int, j: int| 0 <= i < j < r.len() implies !ranks_before(#[trigger] r[j], #[trigger] r[i]) by {
            if j < n {
                assert(r[j] == sorted[j] && r[i] == sorted[i]);
            } else {
                assert(r[j] == x && r[i] == sorted[i]);
                if i < n - 1 {
                    assert(!ranks_before(sorted[n - 1], sorted[i]));
                    lemma_not_ranks_before_transitive(x, sorted[n - 1], sorted[i]);
                }
            }
        }
    } else {
        let rest = sorted.drop_last();
        let last = sorted.last();
        let n = sorted.len();
        assert forall|i: int, j: int| 0 <= i < j < rest.len() implies !ranks_before(
            #[trigger] rest[j],
            #[trigger] rest[i],
        ) by {
            assert(rest[j] == sorted[j] && rest[i] == sorted[i]);
        }
        assert forall|i: int| 0 <= i < rest.len() implies (#[trigger] rest[i]).union > 0 by {
            assert(rest[i] == sorted[i]);
        }
        lemma_insert_ranked_in_order(rest, x);
        let ins = insert_ranked(rest, x);
        let p = |y: RelatedView| !ranks_before(last, y);
        assert forall|i: int| 0 <= i < rest.len() implies p(#[trigger] rest[i]) by {
            assert(rest[i] == sorted[i]);
            assert(!ranks_before(sorted[n - 1], sorted[i]));
        }
        lemma_ranks_before_asymmetric(x, last);
        lemma_insert_ranked_keeps(rest, x, p);
        let r = ins.push(last);
        assert forall|i: int, j: int| 0 <= i < j < r.len() implies !ranks_before(#[trigger] r[j], #[trigger] r[i]) by {
            if j < ins.len() {
                assert(r[j] == ins[j] && r[i] == ins[i]);
            } else {
                assert(r[j] == last && r[i] == ins[i]);
                assert(p(ins[i]));
            }
        }
    }
}

/// `sort_ranked` puts hits with a positive union in rank order.
proof fn lemma_sort_ranked_in_order(s: Seq<RelatedView>)
    requires
        forall|i: int| 0 <= i < s.len() ==> (#[trigger] s[i]).union > 0,
    ensures
        in_rank_order(sort_ranked(s)),
    decreases s.len(),
{
    if s.len() > 0 {
        let rest = s.drop_last();
        assert forall|i: int| 0 <= i < rest.len() implies (#[trigger] rest[i]).union > 0 by {
            assert(rest[i] == s[i]);
        }
        lemma_sort_ranked_in_order(rest);
        let p = |y: RelatedView| y.union > 0;
        assert forall|i: int| 0 <= i < rest.len() implies p(#[trigger] rest[i]) by {
            assert(rest[i] == s[i]);
        }
        lemma_sort_ranked_keeps(rest, p);
        let sr = sort_ranked(rest);
        assert forall|i: int| 0 <= i < sr.len() implies (#[trigger] sr[i]).union > 0 by {
            assert(p(sr[i]));
        }
        assert(s[s.len() - 1].union > 0);
        lemma_insert_ranked_in_order(sr, s.last());
    }
}

/// A non-empty sequence has a first occurrence of something.
proof fn lemma_first_occurrences_nonempty(s: Seq<Seq<char>>)
    requires
        s.len() > 0,
    ensures
        first_occurrences(s).len() > 0,
{
}

proof fn lemma_shared_count_positive(tokens: Seq<Seq<char>>, seed: Seq<Seq<char>>)
    requires
        shared_count(tokens, seed) > 0,
    ensures
        tokens.len() > 0,
{
}

/// Every candidate is another chunk than the seed, shares a token with it,
/// and has a positive union.
proof fn lemma_candidates_props(chunks: Seq<ChunkView>, seed_index: int, seed: Seq<Seq<char>>)
    requires
        chunks.len() <= usize::MAX,
    ensures
        forall|i: int|
            0 <= i < related_candidates(chunks, seed_index, seed).len() ==> {
                let r = #[trigger] related_candidates(chunks, seed_index, seed)[i];
                &&& r.overlap > 0
                &&& r.union > 0
                &&& r.chunk_index < chunks.len()
                &&& r.chunk_index != seed_index
                &&& r.overlap == shared_count(chunks[r.chunk_index as int].tokens, seed)
                &&& r.union == union_count(seed, chunks[r.chunk_index as int].tokens)
                &&& r.path == chunks[r.chunk_index as int].path
            },
    decreases chunks.len(),
{
    if chunks.len() > 0 {
        let rest = chunks.drop_last();
        lemma_candidates_props(rest, seed_index, seed);
        let j = chunks.len() - 1;
        let c = chunks.last();
        if j != seed_index && shared_count(c.tokens, seed) > 0 {
            lemma_shared_count_positive(c.tokens, seed);
            lemma_first_occurrences_nonempty(seed + c.tokens);
            let prev = related_candidates(rest, seed_index, seed);
            let r = prev.push(related_of(c, j, seed));
            assert forall|i: int| 0 <= i < r.len() implies {
                let h = #[trigger] r[i];
                &&& h.overlap > 0
                &&& h.union > 0
                &&& h.chunk_index < chunks.len()
                &&& h.chunk_index != seed_index
                &&& h.overlap == shared_count(chunks[h.chunk_index as int].tokens, seed)
                &&& h.union == union_count(seed, chunks[h.chunk_index as int].tokens)
                &&& h.path == chunks[h.chunk_index as int].path
            } by {
                if i < prev.len() {
                    assert(r[i] == prev[i]);
                    assert(rest[prev[i].chunk_index as int] == chunks[prev[i].chunk_index as int]);
                } else {
                    assert(chunks[j] == c);
                }
            }
        }
    }
}

/// The hits related to a location: at most `max(limit, 1)` of them, none
/// without a chunk that holds the location; each is another chunk than that
/// seed and shares a token with it; they come in rank order (higher score
/// first, then smaller path).
pub proof fn lemma_related_hits(chunks: Seq<ChunkView>, path: Seq<char>, line: u32, limit: usize)
    requires
        chunks.len() <= usize::MAX,
    ensures
        find_related_spec(chunks, path, line, limit).len() <= if limit >= 1 {
            limit as int
        } else {
            1
        },
        seed_of(chunks, path, line) is None ==> find_related_spec(chunks, path, line, limit).len() == 0,
        forall|i: int|
            0 <= i < find_related_spec(chunks, path, line, limit).len() ==> {
                let r = #[trigger] find_related_spec(chunks, path, line, limit)[i];
                &&& seed_of(chunks, path, line) is Some
                &&& r.overlap > 0
                &&& r.chunk_index < chunks.len()
                &&& r.chunk_index != seed_of(chunks, path, line)->0
            },
        in_rank_order(find_related_spec(chunks, path, line, limit)),
{
    match seed_of(chunks, path, line) {
        None => {},
        Some(s) => {
            lemma_seed_of_bound(chunks, path, line);
            let seed = chunks[s].tokens;
            let cands = related_candidates(chunks, s, seed);
            lemma_candidates_props(chunks, s, seed);
            let p = |y: RelatedView| y.overlap > 0 && y.union > 0 && y.chunk_index < chunks.len()
                && y.chunk_index != s;
            assert forall|i: int| 0 <= i < cands.len() implies p(#[trigger] cands[i]) by {}
            lemma_sort_ranked_keeps(cands, p);
            let ranked = sort_ranked(cands);
            assert forall|i: int| 0 <= i < ranked.len() implies (#[trigger] ranked[i]).union > 0 by {
                assert(p(ranked[i]));
            }
            lemma_sort_ranked_in_order(cands);
            let n: int = if limit >= 1 {
                limit as int
            } else {
                1
            };
            let r = find_related_spec(chunks, path, line, limit);
            if ranked.len() > n {
                assert(r == ranked.take(n));
                assert forall|i: int, j: int| 0 <= i < j < r.len() implies !ranks_before(
                    #[trigger] r[j],
                    #[trigger] r[i],
                ) by {
                    assert(r[j] == ranked[j] && r[i] == ranked[i]);
                }
            }
            assert forall|i: int| 0 <= i < r.len() implies {
                let h = #[trigger] r[i];
                &&& seed_of(chunks, path, line) is Some
                &&& h.overlap > 0
                &&& h.chunk_index < chunks.len()
                &&& h.chunk_index != seed_of(chunks, path, line)->0
            } by {
                assert(r[i] == ranked[i]);
                assert(p(ranked[i]));
            }
        },
    }
}

/// `shared_count` counts the tokens (repeats included) that the seed holds.
proof fn lemma_shared_count_filter(tokens: Seq<Seq<char>>, seed: Seq<Seq<char>>)
    ensures
        shared_count(tokens, seed) == tokens.filter(|t: Seq<char>| seed.contains(t)).len(),
    decreases tokens.len(),
{
    reveal(Seq::filter);
    if tokens.len() > 0 {
        lemma_shared_count_filter(tokens.drop_last(), seed);
    }
}

/// `union_count` is the number of distinct tokens of both.
proof fn lemma_union_count_set(seed: Seq<Seq<char>>, tokens: Seq<Seq<char>>)
    ensures
        union_count(seed, tokens) == (seed + tokens).to_set().len(),
{
    let all = seed + tokens;
    lemma_first_occurrences(all);
    first_occurrences(all).unique_seq_to_set();
    assert(first_occurrences(all).to_set() =~= all.to_set());
}

/// The related hits, by their fields: each is a chunk other than the seed
/// (the first chunk that holds the location); its overlap is the number of
/// its tokens, repeats included, that the seed holds; its union is the
/// number of distinct tokens of the seed and the chunk together; and the
/// hits come by `overlap / union` descending (compared by cross
/// multiplication), equal ratios by path ascending.
pub proof fn lemma_related_hits_by_ratio(chunks: Seq<ChunkView>, path: Seq<char>, line: u32, limit: usize)
    requires
        chunks.len() <= usize::MAX,
    ensures
        ({
            let r = find_related_spec(chunks, path, line, limit);
            let s = seed_of(chunks, path, line)->0;
            &&& forall|i: int|
                0 <= i < r.len() ==> {
                    let h = #[trigger] r[i];
                    let t = chunks[h.chunk_index as int].tokens;
                    &&& seed_of(chunks, path, line) is Some
                    &&& 0 <= s < chunks.len()
                    &&& h.chunk_index < chunks.len()
                    &&& h.chunk_index != s
                    &&& h.path == chunks[h.chunk_index as int].path
                    &&& h.overlap == t.filter(|x: Seq<char>| chunks[s].tokens.contains(x)).len()
                    &&& h.union == (chunks[s].tokens + t).to_set().len()
                    &&& h.overlap > 0
                }
            &&& forall|i: int, j: int|
                0 <= i < j < r.len() ==> (#[trigger] r[i]).overlap * (#[trigger] r[j]).union >= r[j].overlap
                    * r[i].union
            &&& forall|i: int, j: int|
                0 <= i < j < r.len() && (#[trigger] r[i]).overlap * (#[trigger] r[j]).union == r[j].overlap
                    * r[i].union ==> !chars_less(r[j].path, r[i].path)
        }),
{
    lemma_related_hits(chunks, path, line, limit);
    let r = find_related_spec(chunks, path, line, limit);
    match seed_of(chunks, path, line) {
        None => {},
        Some(s) => {
            lemma_seed_of_bound(chunks, path, line);
            let seed = chunks[s].tokens;
            let cands = related_candidates(chunks, s, seed);
            lemma_candidates_props(chunks, s, seed);
            let p = |y: RelatedView|
                y.chunk_index < chunks.len() && y.overlap == shared_count(chunks[y.chunk_index as int].tokens, seed)
                    && y.union == union_count(seed, chunks[y.chunk_index as int].tokens) && y.path
                    == chunks[y.chunk_index as int].path;
            assert forall|i: int| 0 <= i < cands.len() implies p(#[trigger] cands[i]) by {}
            lemma_sort_ranked_keeps(cands, p);
            let ranked = sort_ranked(cands);
            assert forall|i: int| 0 <= i < r.len() implies {
                let h = #[trigger] r[i];
                let t = chunks[h.chunk_index as int].tokens;
                &&& seed_of(chunks, path, line) is Some
                &&& 0 <= s < chunks.len()
                &&& h.chunk_index < chunks.len()
                &&& h.chunk_index != s
                &&& h.path == chunks[h.chunk_index as int].path
                &&& h.overlap == t.filter(|x: Seq<char>| chunks[s].tokens.contains(x)).len()
                &&& h.union == (chunks[s].tokens + t).to_set().len()
                &&& h.overlap > 0
            } by {
                assert(r[i] == ranked[i]);
                assert(p(ranked[i]));
                let t = chunks[r[i].chunk_index as int].tokens;
                lemma_shared_count_filter(t, seed);
                lemma_union_count_set(seed, t);
            }
            assert forall|i: int, j: int|
                0 <= i < j < r.len() implies #[trigger] r[i].overlap * #[trigger] r[j].union
                    >= (r[j].overlap * r[i].union) by {
                assert(!ranks_before(r[j], r[i]));
            }
            assert forall|i: int, j: int|
                0 <= i < j < r.len() && (#[trigger] r[i]).overlap * (#[trigger] r[j]).union == r[j].overlap
                    * r[i].union implies !chars_less(r[j].path, r[i].path) by {
                assert(!ranks_before(r[j], r[i]));
            }
        },
    }
}

proof fn lemma_insert_ranked_holds(sorted: Seq<RelatedView>, x: RelatedView)
    ensures
        insert_ranked(sorted, x).contains(x),
        forall|k: int| 0 <= k < sorted.len() ==> insert_ranked(sorted, x).contains(#[trigger] sorted[k]),
    decreases sorted.len(),
{
    let r = insert_ranked(sorted, x);
    if sorted.len() == 0 {
        assert(r[0] == x);
    } else if !ranks_before(x, sorted.last()) {
        assert(r[sorted.len() as int] == x);
        assert forall|k: int| 0 <= k < sorted.len() implies r.contains(#[trigger] sorted[k]) by {
            assert(r[k] == sorted[k]);
        }
    } else {
        let rest = sorted.drop_last();
        lemma_insert_ranked_holds(rest, x);
        let ins = insert_ranked(rest, x);
        let w = choose|w: int| 0 <= w < ins.len() && ins[w] == x;
        assert(r[w] == x);
        assert forall|k: int| 0 <= k < sorted.len() implies r.contains(#[trigger] sorted[k]) by {
            if k == sorted.len() - 1 {
                assert(r[ins.len() as int] == sorted[k]);
            } else {
                assert(rest[k] == sorted[k]);
                assert(ins.contains(rest[k]));
                let v = choose|v: int| 0 <= v < ins.len() && ins[v] == rest[k];
                assert(r[v] == sorted[k]);
            }
        }
    }
}

proof fn lemma_sort_ranked_holds(s: Seq<RelatedView>)
    ensures
        forall|k: int| 0 <= k < s.len() ==> sort_ranked(s).contains(#[trigger] s[k]),
    decreases s.len(),
{
    if s.len() > 0 {
        let rest = s.drop_last();
        lemma_sort_ranked_holds(rest);
        let sr = sort_ranked(rest);
        lemma_insert_ranked_holds(sr, s.last());
        let r = sort_ranked(s);
        assert forall|k: int| 0 <= k < s.len() implies r.contains(#[trigger] s[k]) by {
            if k < rest.len() {
                assert(rest[k] == s[k]);
                assert(sr.contains(rest[k]));
                let v = choose|v: int| 0 <= v < sr.len() && sr[v] == rest[k];
                assert(insert_ranked(sr, s.last()).contains(sr[v]));
            }
        }
    }
}

proof fn lemma_shared_count_at(tokens: Seq<Seq<char>>, seed: Seq<Seq<char>>, k: int)
    requires
        0 <= k < tokens.len(),
        seed.contains(tokens[k]),
    ensures
        shared_count(tokens, seed) > 0,
    decreases tokens.len(),
{
    if k < tokens.len() - 1 {
        assert(tokens.drop_last()[k] == tokens[k]);
        lemma_shared_count_at(tokens.drop_last(), seed, k);
    }
}

/// Every other chunk that shares a token with the seed is a candidate.
proof fn lemma_candidates_complete(chunks: Seq<ChunkView>, seed_index: int, seed: Seq<Seq<char>>)
    requires
        chunks.len() <= usize::MAX,
    ensures
        forall|j: int|
            0 <= j < chunks.len() && j != seed_index && shared_count((#[trigger] chunks[j]).tokens, seed) > 0
                ==> exists|k: int|
                0 <= k < related_candidates(chunks, seed_index, seed).len() && (#[trigger] related_candidates(
                    chunks,
                    seed_index,
                    seed,
                )[k]).chunk_index == j,
    decreases chunks.len(),
{
    if chunks.len() > 0 {
        let prev = chunks.drop_last();
        lemma_candidates_complete(prev, seed_index, seed);
        let rest = related_candidates(prev, seed_index, seed);
        let all = related_candidates(chunks, seed_index, seed);
        let n = chunks.len() - 1;
        assert forall|j: int|
            0 <= j < chunks.len() && j != seed_index && shared_count((#[trigger] chunks[j]).tokens, seed) > 0
                implies exists|k: int| 0 <= k < all.len() && (#[trigger] all[k]).chunk_index == j by {
            if j < n {
                assert(prev[j] == chunks[j]);
                let k = choose|k: int| 0 <= k < rest.len() && (#[trigger] rest[k]).chunk_index == j;
                assert(all[k] == rest[k]);
            } else {
                assert(chunks[j] == chunks.last());
                assert(all[rest.len() as int].chunk_index == j);
            }
        }
    }
}

/// No related chunk is left out unless the limit cut the list: when fewer
/// hits than `max(limit, 1)` come back, every chunk other than the seed that
/// holds one of the seed's tokens is among them.
pub proof fn lemma_related_hits_complete(
    chunks: Seq<ChunkView>,
    path: Seq<char>,
    line: u32,
    limit: usize,
    j: int,
    t: int,
)
    requires
        chunks.len() <= usize::MAX,
        seed_of(chunks, path, line) is Some,
        0 <= j < chunks.len(),
        j != seed_of(chunks, path, line)->0,
        0 <= t < chunks[j].tokens.len(),
        chunks[seed_of(chunks, path, line)->0].tokens.contains(chunks[j].tokens[t]),
        find_related_spec(chunks, path, line, limit).len() < if limit >= 1 {
            limit as int
        } else {
            1
        },
    ensures
        exists|i: int|
            0 <= i < find_related_spec(chunks, path, line, limit).len() && (#[trigger] find_related_spec(
                chunks,
                path,
                line,
                limit,
            )[i]).chunk_index == j,
{
    let s = seed_of(chunks, path, line)->0;
    lemma_seed_of_bound(chunks, path, line);
    let seed = chunks[s].tokens;
    let cands = related_candidates(chunks, s, seed);
    lemma_shared_count_at(chunks[j].tokens, seed, t);
    lemma_candidates_complete(chunks, s, seed);
    let k = choose|k: int| 0 <= k < cands.len() && (#[trigger] cands[k]).chunk_index == j;
    let p = |y: RelatedView| true;
    lemma_sort_ranked_keeps(cands, p);
    lemma_sort_ranked_holds(cands);
    let ranked = sort_ranked(cands);
    let r = find_related_spec(chunks, path, line, limit);
    assert(r == ranked);
    assert(ranked.contains(cands[k]));
    let i = choose|i: int| 0 <= i < ranked.len() && ranked[i] == cands[k];
    assert(r[i].chunk_index == j);
}

/// Lexicographic order of two strings.
pub fn chars_less_exec(a: &str, b: &str) -> (res: bool)
    ensures
        res == chars_less(a@, b@),
{
    let x = chars_of(a);
    let y = chars_of(b);
    let mut i: usize = 0;
    assert(x@.skip(0) =~= x@);
    assert(y@.skip(0) =~= y@);
    while i < x.len() && i < y.len() && x[i] == y[i]
        invariant
            0 <= i <= x@.len(),
            i <= y@.len(),
            chars_less(a@, b@) == chars_less(x@.skip(i as int), y@.skip(i as int)),
            x@ == a@,
            y@ == b@,
        decreases x@.len() - i,
    {
        assert(x@.skip(i as int).drop_first() =~= x@.skip(i + 1));
        assert(y@.skip(i as int).drop_first() =~= y@.skip(i + 1));
        i += 1;
    }
    if i == x.len() {
        i < y.len()
    } else if i == y.len() {
        false
    } else {
        assert(x@.skip(i as int)[0] == x@[i as int]);
        assert(y@.skip(i as int)[0] == y@[i as int]);
        x[i] < y[i]
    }
}

proof fn lemma_product_fits(x: usize, y: usize)
    ensures
        (x as int) * (y as int) <= u128::MAX,
{
    assert(usize::MAX <= u64::MAX);
    assert((x as int) * (y as int) <= (u64::MAX as int) * (u64::MAX as int)) by (nonlinear_arith)
        requires
            0 <= x <= u64::MAX,
            0 <= y <= u64::MAX,
    ;
}

/// Whether hit `a` ranks before hit `b` (see [`ranks_before`]).
pub fn ranks_before_exec(a: &RelatedHit, b: &RelatedHit) -> (res: bool)
    ensures
        res == ranks_before(a@, b@),
{
    proof {
        lemma_product_fits(a.overlap, b.union);
        lemma_product_fits(b.overlap, a.union);
    }
    let x: u128 = (a.overlap as u128) * (b.union as u128);
    let y: u128 = (b.overlap as u128) * (a.union as u128);
    x > y || (x == y && chars_less_exec(a.path.as_str(), b.path.as_str()))
}

/// Inserts `x` after every hit that `x` does not rank before.
fn insert_hit(sorted: &mut Vec<RelatedHit>, x: RelatedHit)
    ensures
        related_views(final(sorted)@) == insert_ranked(related_views(old(sorted)@), x@),
{
    let ghost s = related_views(sorted@);
    let mut j: usize = sorted.len();
    assert(s.take(j as int) =~= s);
    assert(s.skip(j as int).len() == 0);
    assert(insert_ranked(s, x@) =~= insert_ranked(s.take(j as int), x@) + s.skip(j as int));
    while j > 0 && ranks_before_exec(&x, &sorted[j - 1])
        invariant
            0 <= j <= sorted@.len(),
            s == related_views(sorted@),
            insert_ranked(s, x@) == insert_ranked(s.take(j as int), x@) + s.skip(j as int),
        decreases j,
    {
        let ghost t = s.take(j as int);
        assert(t.last() == s[j - 1]);
        assert(t.drop_last() =~= s.take(j - 1));
        assert(s.skip(j - 1) =~= seq![s[j - 1]] + s.skip(j as int));
        assert(insert_ranked(t, x@) == insert_ranked(s.take(j - 1), x@).push(s[j - 1]));
        assert(insert_ranked(s.take(j - 1), x@).push(s[j - 1]) + s.skip(j as int)
            =~= insert_ranked(s.take(j - 1), x@) + s.skip(j - 1));
        j -= 1;
    }
    proof {
        if j == 0 {
            assert(s.take(0).len() == 0);
            assert(insert_ranked(s.take(0), x@) == seq![x@]);
        } else {
            assert(s.take(j as int).last() == s[j - 1]);
            assert(insert_ranked(s.take(j as int), x@) == s.take(j as int).push(x@));
        }
    }
    let ghost xv = x@;
    sorted.insert(j, x);
    assert(related_views(sorted@) =~= s.take(j as int).push(xv) + s.skip(j as int));
}

/// A table of the distinct tokens of `tokens`.
fn token_table(tokens: &Vec<String>) -> (res: TermTable)
    ensures
        res.wf(),
        res.keys() == first_occurrences(views(tokens@)),
{
    let mut t = TermTable::new();
    let ghost e = Seq::<Seq<char>>::empty();
    assert(t.keys() =~= first_occurrences(e));
    add_tokens(&mut t, tokens);
    assert(e + views(tokens@) =~= views(tokens@));
    t
}

proof fn lemma_first_occurrences_push(s: Seq<Seq<char>>, x: Seq<char>)
    ensures
        first_occurrences(s.push(x)) == if first_occurrences(s).contains(x) {
            first_occurrences(s)
        } else {
            first_occurrences(s).push(x)
        },
{
    assert(s.push(x).drop_last() =~= s);
}

/// Adds the tokens to the table, in order.
fn add_tokens(t: &mut TermTable, tokens: &Vec<String>)
    requires
        old(t).wf(),
        exists|s: Seq<Seq<char>>| old(t).keys() == first_occurrences(s),
    ensures
        final(t).wf(),
        forall|s: Seq<Seq<char>>|
            old(t).keys() == #[trigger] first_occurrences(s) ==> final(t).keys() == first_occurrences(s + views(tokens@)),
{
    let ghost tv = views(tokens@);
    let ghost start = t.keys();
    let mut i: usize = 0;
    while i < tokens.len()
        invariant
            0 <= i <= tokens@.len(),
            tv == views(tokens@),
            t.wf(),
            forall|s: Seq<Seq<char>>|
                start == #[trigger] first_occurrences(s) ==> t.keys() == first_occurrences(s + tv.take(i as int)),
        decreases tokens@.len() - i,
    {
        let ghost before = t.keys();
        let _ = t.insert_if_absent(&tokens[i]);
        proof {
            assert forall|s: Seq<Seq<char>>| start == #[trigger] first_occurrences(s) implies t.keys() == first_occurrences(
                s + tv.take(i + 1),
            ) by {
                assert(s + tv.take(i + 1) =~= (s + tv.take(i as int)).push(tv[i as int]));
                lemma_first_occurrences_push(s + tv.take(i as int), tv[i as int]);
                assert(tv[i as int] == tokens@[i as int]@);
            }
        }
        i += 1;
    }
    proof {
        assert(tv.take(i as int) =~= tv);
    }
}

/// The chunks related to the one that holds `path:line` (see [`find_related_spec`]).
pub fn find_related_index(index: &SearchIndex, path: &str, line: u32, limit: usize) -> (res: Vec<RelatedHit>)
    ensures
        related_views(res@) == find_related_spec(chunk_views(index.chunks@), path@, line, limit),
{
    related_in_chunks(&index.chunks, path, line, limit)
}

fn related_in_chunks(chunks: &Vec<Chunk>, path: &str, line: u32, limit: usize) -> (res: Vec<RelatedHit>)
    ensures
        related_views(res@) == find_related_spec(chunk_views(chunks@), path@, line, limit),
{
    let ghost cv = chunk_views(chunks@);
    // The seed.
    let mut s: usize = 0;
    assert(cv.take(0) =~= Seq::<ChunkView>::empty());
    while s < chunks.len() && !(crate::text::str_eq(chunks[s].path.as_str(), path) && chunks[s].start_line <= line
        && line <= chunks[s].end_line)
        invariant
            0 <= s <= chunks@.len(),
            cv == chunk_views(chunks@),
            seed_of(cv.take(s as int), path@, line) is None,
        decreases chunks@.len() - s,
    {
        assert(cv.take(s + 1).drop_last() =~= cv.take(s as int));
        assert(cv.take(s + 1).last() == cv[s as int]);
        s += 1;
    }
    if s == chunks.len() {
        assert(cv.take(s as int) =~= cv);
        return Vec::new();
    }
    proof {
        assert(cv.take(s + 1).drop_last() =~= cv.take(s as int));
        assert(cv.take(s + 1).last() == cv[s as int]);
        assert(seed_of(cv.take(s + 1), path@, line) == Some(s as int));
        lemma_seed_of_prefix(cv, path@, line, s as int + 1);
    }
    let seed = &chunks[s];
    let ghost sv = views(seed.tokens@);
    assert(sv == cv[s as int].tokens);
    let seed_table = token_table(&seed.tokens);
    proof {
        lemma_first_occurrences(sv);
    }
    // Score every other chunk.
    let mut sorted: Vec<RelatedHit> = Vec::new();
    let mut j: usize = 0;
    assert(related_views(sorted@) =~= Seq::<RelatedView>::empty());
    while j < chunks.len()
        invariant
            0 <= j <= chunks@.len(),
            s < chunks@.len(),
            cv == chunk_views(chunks@),
            sv == cv[s as int].tokens,
            sv == views(seed.tokens@),
            seed_table.wf(),
            seed_table.keys() == first_occurrences(sv),
            forall|x: Seq<char>| seed_table.keys().contains(x) <==> sv.contains(x),
            related_views(sorted@) == sort_ranked(related_candidates(cv.take(j as int), s as int, sv)),
        decreases chunks@.len() - j,
    {
        assert(cv.take(j + 1).drop_last() =~= cv.take(j as int));
        assert(cv.take(j + 1).last() == cv[j as int]);
        let ghost prev = related_candidates(cv.take(j as int), s as int, sv);
        let ghost next = related_candidates(cv.take(j + 1), s as int, sv);
        if j != s {
            let hit = related_hit(&chunks[j], j, &seed.tokens, &seed_table);
            if hit.overlap > 0 {
                proof {
                    assert(next == prev.push(hit@));
                    assert(next.drop_last() =~= prev);
                    assert(next.last() == hit@);
                }
                insert_hit(&mut sorted, hit);
            } else {
                assert(next == prev);
            }
        } else {
            assert(next == prev);
        }
        j += 1;
    }
    assert(cv.take(j as int) =~= cv);
    let n: usize = if limit >= 1 {
        limit
    } else {
        1
    };
    if sorted.len() > n {
        sorted.truncate(n);
    }
    sorted
}

proof fn lemma_seed_of_prefix(chunks: Seq<ChunkView>, path: Seq<char>, line: u32, k: int)
    requires
        0 <= k <= chunks.len(),
        seed_of(chunks.take(k), path, line) is Some,
    ensures
        seed_of(chunks, path, line) == seed_of(chunks.take(k), path, line),
    decreases chunks.len() - k,
{
    if k < chunks.len() {
        assert(chunks.take(k + 1).drop_last() =~= chunks.take(k));
        lemma_seed_of_prefix(chunks, path, line, k + 1);
    } else {
        assert(chunks.take(k) =~= chunks);
    }
}

/// The related hit of one chunk against the seed's tokens.
fn related_hit(c: &Chunk, j: usize, seed_tokens: &Vec<String>, seed_table: &TermTable) -> (res: RelatedHit)
    requires
        seed_table.wf(),
        seed_table.keys() == first_occurrences(views(seed_tokens@)),
        forall|x: Seq<char>| seed_table.keys().contains(x) <==> views(seed_tokens@).contains(x),
    ensures
        res@ == related_of(c@, j as int, views(seed_tokens@)),
{
    let ghost sv = views(seed_tokens@);
    let ghost tv = views(c.tokens@);
    let mut overlap: usize = 0;
    let mut matched: Vec<String> = Vec::new();
    let mut i: usize = 0;
    assert(views(matched@) =~= Seq::<Seq<char>>::empty());
    assert(tv.take(0) =~= Seq::<Seq<char>>::empty());
    while i < c.tokens.len()
        invariant
            0 <= i <= c.tokens@.len(),
            tv == views(c.tokens@),
            sv == views(seed_tokens@),
            seed_table.wf(),
            forall|x: Seq<char>| seed_table.keys().contains(x) <==> sv.contains(x),
            overlap == shared_count(tv.take(i as int), sv),
            overlap <= i,
            views(matched@) == prefix_tokens(shared_tokens(tv.take(i as int), sv), 12),
        decreases c.tokens@.len() - i,
    {
        assert(tv.take(i + 1).drop_last() =~= tv.take(i as int));
        assert(tv.take(i + 1).last() == c.tokens@[i as int]@);
        let ghost before = shared_tokens(tv.take(i as int), sv);
        let ghost mv = views(matched@);
        if seed_table.find(c.tokens[i].as_str()).is_some() {
            overlap += 1;
            if matched.len() < 12 {
                matched.push(c.tokens[i].clone());
                assert(views(matched@) =~= mv.push(c.tokens@[i as int]@));
                assert(before.len() <= 12 ==> prefix_tokens(before, 12) == before);
            } else {
                assert(before.len() >= 12);
                assert(prefix_tokens(before.push(c.tokens@[i as int]@), 12) =~= prefix_tokens(before, 12));
            }
        }
        i += 1;
    }
    assert(tv.take(i as int) =~= tv);
    // Distinct tokens of the seed and the chunk together.
    let mut both = token_table(seed_tokens);
    add_tokens(&mut both, &c.tokens);
    assert(both.keys() == first_occurrences(sv + tv));
    let union = both.len();
    let text = chars_of(c.text.as_str());
    let cut: usize = if text.len() <= 360 {
        text.len()
    } else {
        360
    };
    let snippet = string_of_range(&text, 0, cut);
    assert(snippet@ =~= prefix_chars(c.text@, 360));
    RelatedHit {
        chunk_index: j,
        path: c.path.clone(),
        overlap,
        union,
        matched_terms: matched,
        start_line: c.start_line,
        end_line: c.end_line,
        snippet,
        symbol_name: copy_opt_string(&c.symbol_name),
        chunk_type: c.chunk_type.clone(),
    }
}

} // verus!
