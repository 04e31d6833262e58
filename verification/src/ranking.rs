//! The index, document frequencies, and the integer inputs of BM25 ranking:
//! which chunks a query can hit, and each query term's term frequency and
//! document frequency in them.

use vstd::prelude::*;

use crate::index::{
    chunk_matches_filters, chunk_views, copy_opt_string, copy_strings, matches_filters_spec, opt_view,
    Chunk, ChunkView, SearchOptions,
};
use crate::term_table::{lemma_index_of_unique, TermTable};
use crate::text::views;
use crate::tokenize::{tokenize, tokens_of, first_occurrences, lemma_first_occurrences};

verus! {

/// A searchable index: its root, its chunks, and the document frequency of
/// every term.
#[derive(Debug, Clone)]
pub struct SearchIndex {
    pub root: String,
    pub chunks: Vec<Chunk>,
    pub doc_freq: Vec<(String, usize)>,
}

/// The views of term counts.
pub open spec fn pair_views(v: Seq<(String, usize)>) -> Seq<(Seq<char>, usize)> {
    v.map_values(|p: (String, usize)| (p.0@, p.1))
}

// ---------------------------------------------------------------------------
// Document frequency
// ---------------------------------------------------------------------------

/// How many chunks hold `term` at least once.
pub open spec fn doc_count(chunks: Seq<ChunkView>, term: Seq<char>) -> nat
    decreases chunks.len(),
{
    if chunks.len() == 0 {
        0
    } else {
        doc_count(chunks.drop_last(), term) + if chunks.last().tokens.contains(term) {
            1nat
        } else {
            0nat
        }
    }
}

proof fn lemma_doc_count_bound(chunks: Seq<ChunkView>, term: Seq<char>)
    ensures
        doc_count(chunks, term) <= chunks.len(),
    decreases chunks.len(),
{
    if chunks.len() > 0 {
        lemma_doc_count_bound(chunks.drop_last(), term);
    }
}

/// `doc_freq` lists, without repeats, exactly the terms of `chunks`, each
/// with the number of chunks that hold it.
pub open spec fn is_doc_freq_of(doc_freq: Seq<(Seq<char>, usize)>, chunks: Seq<ChunkView>) -> bool {
    &&& doc_freq.map_values(|p: (Seq<char>, usize)| p.0).no_duplicates()
    &&& forall|i: int|
        0 <= i < doc_freq.len() ==> #[trigger] doc_freq[i].1 == doc_count(chunks, doc_freq[i].0)
    &&& forall|t: Seq<char>|
        doc_count(chunks, t) > 0 <==> exists|i: int| 0 <= i < doc_freq.len() && #[trigger] doc_freq[i].0 == t
}

/// The document frequency of every term of `chunks`, counted over all chunks.
pub fn rebuild_doc_freq(chunks: &Vec<Chunk>) -> (res: Vec<(String, usize)>)
    ensures
        is_doc_freq_of(pair_views(res@), chunk_views(chunks@)),
{
    let ghost cv = chunk_views(chunks@);
    let mut table = TermTable::new();
    let mut i: usize = 0;
    let n_chunks: usize = chunks.len();
    while i < chunks.len()
        invariant
            0 <= i <= chunks@.len(),
            n_chunks == chunks@.len(),
            cv == chunk_views(chunks@),
            table.wf(),
            forall|t: Seq<char>| table.keys().contains(t) <==> doc_count(cv.take(i as int), t) > 0,
            forall|t: Seq<char>| table.count_of(t) == doc_count(cv.take(i as int), t),
        decreases chunks@.len() - i,
    {
        let ghost before = cv.take(i as int);
        let tokens = &chunks[i].tokens;
        let ghost tv = views(tokens@);
        assert(cv[i as int].tokens == tv);
        let mut seen = TermTable::new();
        let mut j: usize = 0;
        proof {
            lemma_doc_count_bound(before, seq![]);
            assert(tv.take(0) =~= Seq::<Seq<char>>::empty());
            assert(first_occurrences(tv.take(0)) =~= Seq::<Seq<char>>::empty());
        }
        while j < tokens.len()
            invariant
                0 <= j <= tokens@.len(),
                i < chunks@.len(),
                n_chunks == chunks@.len(),
                cv == chunk_views(chunks@),
                tv == views(tokens@),
                before == cv.take(i as int),
                table.wf(),
                seen.wf(),
                seen.keys() == first_occurrences(tv.take(j as int)),
                forall|t: Seq<char>|
                    table.keys().contains(t) <==> (doc_count(before, t) > 0 || seen.keys().contains(t)),
                forall|t: Seq<char>|
                    table.count_of(t) == doc_count(before, t) + if seen.keys().contains(t) {
                        1nat
                    } else {
                        0nat
                    },
            decreases tokens@.len() - j,
        {
            let token = &tokens[j];
            assert(tv[j as int] == token@);
            assert(tv.take(j + 1).drop_last() =~= tv.take(j as int));
            assert(tv.take(j + 1).last() == token@);
            let ghost old_table = table;
            let ghost old_seen = seen;
            let added = seen.insert_if_absent(token);
            if added {
                proof {
                    lemma_doc_count_bound(before, token@);
                    assert(before.len() == i);
                    assert(!old_seen.keys().contains(token@));
                    assert(old_table.count_of(token@) == doc_count(before, token@));
                    assert(old_table.count_of(token@) < usize::MAX);
                }
                table.increment(token);
                proof {
                    assert forall|t: Seq<char>| table.count_of(t) == doc_count(before, t) + if seen.keys().contains(t) {
                        1nat
                    } else {
                        0nat
                    } by {
                        lemma_count_after_increment(old_table, table, token@, t);
                        assert(seen.keys() == old_seen.keys().push(token@));
                        if t != token@ {
                            if seen.keys().contains(t) {
                                let k = choose|k: int| 0 <= k < seen.keys().len() && seen.keys()[k] == t;
                                assert(old_seen.keys()[k] == t);
                            }
                            if old_seen.keys().contains(t) {
                                let k = choose|k: int| 0 <= k < old_seen.keys().len() && old_seen.keys()[k] == t;
                                assert(seen.keys()[k] == t);
                            }
                            assert(seen.keys().contains(t) == old_seen.keys().contains(t));
                        } else {
                            assert(seen.keys()[old_seen.keys().len() as int] == t);
                        }
                    }
                    assert forall|t: Seq<char>| table.keys().contains(t) <==> (doc_count(before, t) > 0
                        || seen.keys().contains(t)) by {
                        lemma_count_after_increment(old_table, table, token@, t);
                        if t != token@ {
                            if seen.keys().contains(t) {
                                let k = choose|k: int| 0 <= k < seen.keys().len() && seen.keys()[k] == t;
                                assert(old_seen.keys()[k] == t);
                            }
                            if old_seen.keys().contains(t) {
                                let k = choose|k: int| 0 <= k < old_seen.keys().len() && old_seen.keys()[k] == t;
                                assert(seen.keys()[k] == t);
                            }
                        } else {
                            assert(seen.keys()[old_seen.keys().len() as int] == t);
                        }
                    }
                }
            }
            j += 1;
        }
        proof {
            assert(tv.take(j as int) =~= tv);
            lemma_first_occurrences(tv);
            assert(cv.take(i + 1).drop_last() =~= before);
            assert(cv.take(i + 1).last() == cv[i as int]);
        }
        i += 1;
    }
    assert(cv.take(i as int) =~= cv);
    // Lay the table out as pairs.
    let mut res: Vec<(String, usize)> = Vec::new();
    let n = table.len();
    let mut k: usize = 0;
    while k < n
        invariant
            0 <= k <= n,
            n == table.keys().len(),
            table.wf(),
            pair_views(res@) == Seq::new(k as nat, |m: int| (table.keys()[m], table.counts()[m])),
        decreases n - k,
    {
        let ghost before = pair_views(res@);
        let term = table.term_at(k).clone();
        let count = table.count_at(k);
        res.push((term, count));
        assert(pair_views(res@) =~= before.push((table.keys()[k as int], table.counts()[k as int])));
        assert(pair_views(res@) =~= Seq::new((k + 1) as nat, |m: int| (table.keys()[m], table.counts()[m])));
        k += 1;
    }
    proof {
        let pv = pair_views(res@);
        let keys_of = pv.map_values(|p: (Seq<char>, usize)| p.0);
        assert(keys_of =~= table.keys());
        table_wf_keys_unique(&table);
        assert forall|m: int| 0 <= m < pv.len() implies #[trigger] pv[m].1 == doc_count(cv, pv[m].0) by {
            lemma_index_of_unique(table.keys(), table.keys()[m], m);
            assert(table.keys().contains(table.keys()[m]));
            assert(table.count_of(table.keys()[m]) == table.counts()[m]);
        }
        assert forall|t: Seq<char>| doc_count(cv, t) > 0 <==> exists|m: int| 0 <= m < pv.len() && #[trigger] pv[m].0 == t by {
            if doc_count(cv, t) > 0 {
                assert(table.keys().contains(t));
                let m = choose|m: int| 0 <= m < table.keys().len() && table.keys()[m] == t;
                assert(pv[m] == (table.keys()[m], table.counts()[m]));
                assert(pv[m].0 == t);
            }
            if exists|m: int| 0 <= m < pv.len() && #[trigger] pv[m].0 == t {
                let m = choose|m: int| 0 <= m < pv.len() && #[trigger] pv[m].0 == t;
                assert(pv[m] == (table.keys()[m], table.counts()[m]));
                assert(table.keys()[m] == t);
                assert(table.keys().contains(t));
            }
        }
    }
    res
}

proof fn table_wf_keys_unique(t: &TermTable)
    requires
        t.wf(),
    ensures
        t.keys().no_duplicates(),
        t.keys().len() == t.counts().len(),
{
    t.lemma_wf();
}

proof fn lemma_count_after_increment(old_t: TermTable, new_t: TermTable, term: Seq<char>, t: Seq<char>)
    requires
        old_t.wf(),
        new_t.wf(),
        old_t.keys().contains(term) ==> {
            let i = old_t.keys().index_of(term);
            &&& new_t.keys() == old_t.keys()
            &&& new_t.counts() == old_t.counts().update(i, (old_t.counts()[i] + 1) as usize)
        },
        !old_t.keys().contains(term) ==> {
            &&& new_t.keys() == old_t.keys().push(term)
            &&& new_t.counts() == old_t.counts().push(1)
        },
        old_t.count_of(term) < usize::MAX,
    ensures
        new_t.count_of(t) == old_t.count_of(t) + if t == term {
            1nat
        } else {
            0nat
        },
        new_t.keys().contains(t) <==> (old_t.keys().contains(t) || t == term),
{
    old_t.lemma_wf();
    new_t.lemma_wf();
    if old_t.keys().contains(term) {
        let i = old_t.keys().index_of(term);
        old_t.keys().index_of_first_ensures(term);
        if new_t.keys().contains(t) {
            new_t.keys().index_of_first_ensures(t);
            old_t.keys().index_of_first_ensures(t);
            lemma_index_of_unique(old_t.keys(), t, new_t.keys().index_of(t));
            if t == term {
            } else {
                assert(new_t.keys().index_of(t) != i);
            }
        }
    } else {
        let n = old_t.keys().len();
        assert(new_t.keys()[n as int] == term);
        if t == term {
            lemma_index_of_unique(new_t.keys(), t, n as int);
        } else {
            if old_t.keys().contains(t) {
                let k = old_t.keys().index_of(t);
                old_t.keys().index_of_first_ensures(t);
                assert(new_t.keys()[k] == t);
                lemma_index_of_unique(new_t.keys(), t, k);
            }
            if new_t.keys().contains(t) {
                let k = choose|k: int| 0 <= k < new_t.keys().len() && new_t.keys()[k] == t;
                assert(k < n);
                assert(old_t.keys()[k] == t);
            }
        }
    }
}

// ---------------------------------------------------------------------------
// BM25 inputs
// ---------------------------------------------------------------------------

/// How many times `t` occurs in `tokens`.
pub open spec fn occurrences(tokens: Seq<Seq<char>>, t: Seq<char>) -> nat
    decreases tokens.len(),
{
    if tokens.len() == 0 {
        0
    } else {
        occurrences(tokens.drop_last(), t) + if tokens.last() == t {
            1nat
        } else {
            0nat
        }
    }
}

/// The document frequency that search uses for `t`: the first entry of
/// `doc_freq` for `t`, or 1 when there is none.
pub open spec fn df_of(doc_freq: Seq<(Seq<char>, usize)>, t: Seq<char>) -> usize
    decreases doc_freq.len(),
{
    if doc_freq.len() == 0 {
        1
    } else if doc_freq[0].0 == t {
        doc_freq[0].1
    } else {
        df_of(doc_freq.drop_first(), t)
    }
}

/// One query term that occurs in a chunk: the term, its term frequency in
/// the chunk, and its document frequency in the whole index.
#[derive(Debug, Clone)]
pub struct TermStat {
    pub term: String,
    pub term_frequency: usize,
    pub document_frequency: usize,
}

pub struct TermStatView {
    pub term: Seq<char>,
    pub term_frequency: nat,
    pub document_frequency: usize,
}

impl View for TermStat {
    type V = TermStatView;

    open spec fn view(&self) -> TermStatView {
        TermStatView {
            term: self.term@,
            term_frequency: self.term_frequency as nat,
            document_frequency: self.document_frequency,
        }
    }
}

pub open spec fn stat_views(v: Seq<TermStat>) -> Seq<TermStatView> {
    v.map_values(|s: TermStat| s@)
}

/// The statistics of the query terms (in query order, repeats kept) that
/// occur in `tokens`.
pub open spec fn term_stats(tokens: Seq<Seq<char>>, query: Seq<Seq<char>>, doc_freq: Seq<(Seq<char>, usize)>) -> Seq<
    TermStatView,
>
    decreases query.len(),
{
    if query.len() == 0 {
        seq![]
    } else {
        let rest = term_stats(tokens, query.drop_last(), doc_freq);
        let q = query.last();
        if occurrences(tokens, q) > 0 {
            rest.push(
                TermStatView {
                    term: q,
                    term_frequency: occurrences(tokens, q),
                    document_frequency: df_of(doc_freq, q),
                },
            )
        } else {
            rest
        }
    }
}

/// A chunk that a query hits, with what BM25 needs to score it.
#[derive(Debug, Clone)]
pub struct SearchCandidate {
    /// Position of the chunk in the index.
    pub chunk_index: usize,
    pub path: String,
    pub start_line: u32,
    pub end_line: u32,
    /// Number of tokens of the chunk.
    pub doc_len: usize,
    /// The query terms found in the chunk, in query order.
    pub matched_terms: Vec<String>,
    pub stats: Vec<TermStat>,
    /// The chunk text, when content is included.
    pub snippet: Option<String>,
    pub symbol_name: Option<String>,
    pub chunk_type: String,
}

pub struct CandidateView {
    pub chunk_index: usize,
    pub path: Seq<char>,
    pub start_line: u32,
    pub end_line: u32,
    pub doc_len: nat,
    pub matched_terms: Seq<Seq<char>>,
    pub stats: Seq<TermStatView>,
    pub snippet: Option<Seq<char>>,
    pub symbol_name: Option<Seq<char>>,
    pub chunk_type: Seq<char>,
}

impl View for SearchCandidate {
    type V = CandidateView;

    open spec fn view(&self) -> CandidateView {
        CandidateView {
            chunk_index: self.chunk_index,
            path: self.path@,
            start_line: self.start_line,
            end_line: self.end_line,
            doc_len: self.doc_len as nat,
            matched_terms: views(self.matched_terms@),
            stats: stat_views(self.stats@),
            snippet: opt_view(self.snippet),
            symbol_name: opt_view(self.symbol_name),
            chunk_type: self.chunk_type@,
        }
    }
}

pub open spec fn candidate_views(v: Seq<SearchCandidate>) -> Seq<CandidateView> {
    v.map_values(|c: SearchCandidate| c@)
}

/// The filters of a search, as values.
pub struct FilterView {
    pub include_content: bool,
    pub file_extensions: Seq<Seq<char>>,
    pub path_filter: Option<Seq<char>>,
    pub exclude_paths: Seq<Seq<char>>,
}

pub open spec fn filter_view(o: SearchOptions) -> FilterView {
    FilterView {
        include_content: o.include_content,
        file_extensions: views(o.file_extensions@),
        path_filter: opt_view(o.path_filter),
        exclude_paths: views(o.exclude_paths@),
    }
}

/// The candidate for chunk `i`, when the chunk passes the filters and holds
/// a query term.
pub open spec fn candidate_of(
    c: ChunkView,
    i: int,
    query: Seq<Seq<char>>,
    doc_freq: Seq<(Seq<char>, usize)>,
    f: FilterView,
) -> Option<CandidateView> {
    let stats = term_stats(c.tokens, query, doc_freq);
    if matches_filters_spec(c.path, f.file_extensions, f.path_filter, f.exclude_paths) && stats.len() > 0 {
        Some(
            CandidateView {
                chunk_index: i as usize,
                path: c.path,
                start_line: c.start_line,
                end_line: c.end_line,
                doc_len: c.tokens.len(),
                matched_terms: stats.map_values(|s: TermStatView| s.term),
                stats,
                snippet: if f.include_content {
                    Some(c.text)
                } else {
                    None
                },
                symbol_name: c.symbol_name,
                chunk_type: c.chunk_type,
            },
        )
    } else {
        None
    }
}

/// The candidates among `chunks`, in chunk order.
pub open spec fn candidates(
    chunks: Seq<ChunkView>,
    query: Seq<Seq<char>>,
    doc_freq: Seq<(Seq<char>, usize)>,
    f: FilterView,
) -> Seq<CandidateView>
    decreases chunks.len(),
{
    if chunks.len() == 0 {
        seq![]
    } else {
        let rest = candidates(chunks.drop_last(), query, doc_freq, f);
        match candidate_of(chunks.last(), chunks.len() - 1, query, doc_freq, f) {
            Some(c) => rest.push(c),
            None => rest,
        }
    }
}

/// The candidates of a search for `query`: none when the query has no token
/// or the index has no chunk.
pub open spec fn search_candidates_spec(
    chunks: Seq<ChunkView>,
    doc_freq: Seq<(Seq<char>, usize)>,
    query: Seq<char>,
    f: FilterView,
) -> Seq<CandidateView> {
    let q = tokens_of(query);
    if q.len() == 0 || chunks.len() == 0 {
        seq![]
    } else {
        candidates(chunks, q, doc_freq, f)
    }
}

/// How many times `t` occurs in `tokens`.
pub fn count_occurrences(tokens: &Vec<String>, t: &String) -> (res: usize)
    ensures
        res == occurrences(views(tokens@), t@),
{
    let ghost tv = views(tokens@);
    let mut n: usize = 0;
    let mut i: usize = 0;
    while i < tokens.len()
        invariant
            0 <= i <= tokens@.len(),
            tv == views(tokens@),
            n == occurrences(tv.take(i as int), t@),
            n <= i,
        decreases tokens@.len() - i,
    {
        assert(tv.take(i + 1).drop_last() =~= tv.take(i as int));
        assert(tv.take(i + 1).last() == tokens@[i as int]@);
        if tokens[i] == *t {
            n += 1;
        }
        i += 1;
    }
    assert(tv.take(i as int) =~= tv);
    n
}

/// The document frequency that search uses for `t` (see [`df_of`]).
pub fn doc_freq_lookup(doc_freq: &Vec<(String, usize)>, t: &String) -> (res: usize)
    ensures
        res == df_of(pair_views(doc_freq@), t@),
{
    let ghost pv = pair_views(doc_freq@);
    let mut i: usize = 0;
    assert(pv.skip(0) =~= pv);
    while i < doc_freq.len()
        invariant
            0 <= i <= doc_freq@.len(),
            pv == pair_views(doc_freq@),
            df_of(pv, t@) == df_of(pv.skip(i as int), t@),
        decreases doc_freq@.len() - i,
    {
        assert(pv.skip(i as int)[0] == (doc_freq@[i as int].0@, doc_freq@[i as int].1));
        assert(pv.skip(i as int).drop_first() =~= pv.skip(i + 1));
        if doc_freq[i].0 == *t {
            return doc_freq[i].1;
        }
        i += 1;
    }
    1
}

/// The statistics of the query terms that occur in `tokens` (see [`term_stats`]),
/// given the document frequency of each query term.
pub fn term_stats_exec(
    tokens: &Vec<String>,
    query: &Vec<String>,
    query_df: &Vec<usize>,
    doc_freq: &Vec<(String, usize)>,
) -> (res: Vec<TermStat>)
    requires
        query_df@.len() == query@.len(),
        forall|k: int| 0 <= k < query@.len() ==> #[trigger] query_df@[k] == df_of(pair_views(doc_freq@), query@[k]@),
    ensures
        stat_views(res@) == term_stats(views(tokens@), views(query@), pair_views(doc_freq@)),
{
    let ghost tv = views(tokens@);
    let ghost qv = views(query@);
    let ghost dv = pair_views(doc_freq@);
    let mut res: Vec<TermStat> = Vec::new();
    let mut i: usize = 0;
    assert(stat_views(res@) =~= Seq::<TermStatView>::empty());
    assert(qv.take(0) =~= Seq::<Seq<char>>::empty());
    while i < query.len()
        invariant
            0 <= i <= query@.len(),
            tv == views(tokens@),
            qv == views(query@),
            dv == pair_views(doc_freq@),
            query_df@.len() == query@.len(),
            forall|k: int| 0 <= k < query@.len() ==> #[trigger] query_df@[k] == df_of(dv, query@[k]@),
            stat_views(res@) == term_stats(tv, qv.take(i as int), dv),
        decreases query@.len() - i,
    {
        assert(qv.take(i + 1).drop_last() =~= qv.take(i as int));
        assert(qv.take(i + 1).last() == query@[i as int]@);
        let tf = count_occurrences(tokens, &query[i]);
        let ghost before = stat_views(res@);
        if tf > 0 {
            let d = query_df[i];
            assert(d == df_of(dv, query@[i as int]@));
            res.push(TermStat { term: query[i].clone(), term_frequency: tf, document_frequency: d });
            assert(stat_views(res@) =~= before.push(res@.last()@));
        }
        i += 1;
    }
    assert(qv.take(i as int) =~= qv);
    res
}

/// The query terms of the statistics, in order.
fn stat_terms(stats: &Vec<TermStat>) -> (res: Vec<String>)
    ensures
        views(res@) == stat_views(stats@).map_values(|s: TermStatView| s.term),
{
    let mut res: Vec<String> = Vec::new();
    let mut i: usize = 0;
    while i < stats.len()
        invariant
            0 <= i <= stats@.len(),
            views(res@) == stat_views(stats@).take(i as int).map_values(|s: TermStatView| s.term),
        decreases stats@.len() - i,
    {
        let ghost before = views(res@);
        res.push(stats[i].term.clone());
        assert(views(res@) =~= before.push(stats@[i as int].term@));
        assert(views(res@) =~= stat_views(stats@).take(i + 1).map_values(|s: TermStatView| s.term));
        i += 1;
    }
    assert(stat_views(stats@).take(i as int) =~= stat_views(stats@));
    res
}

/// The chunks that a search can return, in chunk order, each with the term
/// and document frequencies of the query terms it holds. Document
/// frequencies come from the whole index, never from the filtered set; the
/// filters only decide which chunks are candidates. Scoring, ordering and
/// the limit are applied to these candidates by the caller.
pub fn search_candidates(index: &SearchIndex, query: &str, options: &SearchOptions) -> (res: Vec<SearchCandidate>)
    ensures
        candidate_views(res@) == search_candidates_spec(
            chunk_views(index.chunks@),
            pair_views(index.doc_freq@),
            query@,
            filter_view(*options),
        ),
{
    let query_terms = tokenize(query);
    let ghost cv = chunk_views(index.chunks@);
    let ghost dv = pair_views(index.doc_freq@);
    let ghost f = filter_view(*options);
    let ghost qv = views(query_terms@);
    let mut res: Vec<SearchCandidate> = Vec::new();
    if query_terms.len() == 0 || index.chunks.len() == 0 {
        assert(candidate_views(res@) =~= Seq::<CandidateView>::empty());
        return res;
    }
    let mut query_df: Vec<usize> = Vec::new();
    let mut k: usize = 0;
    while k < query_terms.len()
        invariant
            0 <= k <= query_terms@.len(),
            dv == pair_views(index.doc_freq@),
            query_df@.len() == k,
            forall|m: int| 0 <= m < k ==> #[trigger] query_df@[m] == df_of(dv, query_terms@[m]@),
        decreases query_terms@.len() - k,
    {
        query_df.push(doc_freq_lookup(&index.doc_freq, &query_terms[k]));
        k += 1;
    }
    let mut i: usize = 0;
    assert(candidate_views(res@) =~= Seq::<CandidateView>::empty());
    assert(cv.take(0) =~= Seq::<ChunkView>::empty());
    while i < index.chunks.len()
        invariant
            0 <= i <= index.chunks@.len(),
            cv == chunk_views(index.chunks@),
            dv == pair_views(index.doc_freq@),
            f == filter_view(*options),
            qv == views(query_terms@),
            query_df@.len() == query_terms@.len(),
            forall|m: int| 0 <= m < query_terms@.len() ==> #[trigger] query_df@[m] == df_of(dv, query_terms@[m]@),
            candidate_views(res@) == candidates(cv.take(i as int), qv, dv, f),
        decreases index.chunks@.len() - i,
    {
        let chunk = &index.chunks[i];
        assert(cv.take(i + 1).drop_last() =~= cv.take(i as int));
        assert(cv.take(i + 1).last() == chunk@);
        let ghost cand = candidate_of(chunk@, i as int, qv, dv, f);
        if chunk_matches_filters(chunk, options) {
            let stats = term_stats_exec(&chunk.tokens, &query_terms, &query_df, &index.doc_freq);
            assert(stat_views(stats@) == term_stats(chunk@.tokens, qv, dv));
            if stats.len() > 0 {
                let matched_terms = stat_terms(&stats);
                let snippet = if options.include_content {
                    Some(chunk.text.clone())
                } else {
                    None
                };
                let c = SearchCandidate {
                    chunk_index: i,
                    path: chunk.path.clone(),
                    start_line: chunk.start_line,
                    end_line: chunk.end_line,
                    doc_len: chunk.tokens.len(),
                    matched_terms,
                    stats,
                    snippet,
                    symbol_name: copy_opt_string(&chunk.symbol_name),
                    chunk_type: chunk.chunk_type.clone(),
                };
                let ghost before = candidate_views(res@);
                assert(c@ == cand.unwrap());
                res.push(c);
                assert(candidate_views(res@) =~= before.push(cand.unwrap()));
            } else {
                assert(cand is None);
            }
        } else {
            assert(cand is None);
        }
        i += 1;
    }
    assert(cv.take(i as int) =~= cv);
    res
}

// ---------------------------------------------------------------------------
// Laws
// ---------------------------------------------------------------------------

/// Filters decide which chunks are candidates; they never change a
/// candidate's term or document frequencies: a chunk that is a candidate
/// under two sets of filters has the same statistics under both.
pub proof fn lemma_filters_keep_statistics(
    chunks: Seq<ChunkView>,
    doc_freq: Seq<(Seq<char>, usize)>,
    query: Seq<Seq<char>>,
    f1: FilterView,
    f2: FilterView,
    i: int,
)
    requires
        0 <= i < chunks.len(),
        candidate_of(chunks[i], i, query, doc_freq, f1) is Some,
        candidate_of(chunks[i], i, query, doc_freq, f2) is Some,
    ensures
        candidate_of(chunks[i], i, query, doc_freq, f1).unwrap().stats == candidate_of(
            chunks[i],
            i,
            query,
            doc_freq,
            f2,
        ).unwrap().stats,
        candidate_of(chunks[i], i, query, doc_freq, f1).unwrap().stats == term_stats(
            chunks[i].tokens,
            query,
            doc_freq,
        ),
{
}

/// `include_content: false` keeps the same candidates with the same
/// statistics; only the snippet is left out.
pub proof fn lemma_content_flag_only_drops_snippets(
    chunks: Seq<ChunkView>,
    doc_freq: Seq<(Seq<char>, usize)>,
    query: Seq<Seq<char>>,
    f: FilterView,
)
    ensures
        ({
            let with = candidates(chunks, query, doc_freq, FilterView { include_content: true, ..f });
            let without = candidates(chunks, query, doc_freq, FilterView { include_content: false, ..f });
            &&& with.len() == without.len()
            &&& forall|k: int|
                0 <= k < with.len() ==> #[trigger] without[k] == CandidateView { snippet: None, ..with[k] }
            &&& forall|k: int| 0 <= k < with.len() ==> (#[trigger] with[k]).snippet is Some
        }),
    decreases chunks.len(),
{
    if chunks.len() > 0 {
        lemma_content_flag_only_drops_snippets(chunks.drop_last(), doc_freq, query, f);
        let fw = FilterView { include_content: true, ..f };
        let fo = FilterView { include_content: false, ..f };
        let with = candidates(chunks, query, doc_freq, fw);
        let without = candidates(chunks, query, doc_freq, fo);
        let rw = candidates(chunks.drop_last(), query, doc_freq, fw);
        let ro = candidates(chunks.drop_last(), query, doc_freq, fo);
        let cw = candidate_of(chunks.last(), chunks.len() - 1, query, doc_freq, fw);
        let co = candidate_of(chunks.last(), chunks.len() - 1, query, doc_freq, fo);
        assert(cw is Some <==> co is Some);
        if cw is Some {
            assert forall|k: int| 0 <= k < with.len() implies #[trigger] without[k] == CandidateView {
                snippet: None,
                ..with[k]
            } by {
                if k < rw.len() {
                    assert(with[k] == rw[k]);
                    assert(without[k] == ro[k]);
                }
            }
            assert forall|k: int| 0 <= k < with.len() implies (#[trigger] with[k]).snippet is Some by {
                if k < rw.len() {
                    assert(with[k] == rw[k]);
                }
            }
        }
    }
}

/// `doc_count` counts the chunks that hold the term.
proof fn lemma_doc_count_filter(chunks: Seq<ChunkView>, t: Seq<char>)
    ensures
        doc_count(chunks, t) == chunks.filter(|c: ChunkView| c.tokens.contains(t)).len(),
    decreases chunks.len(),
{
    reveal(Seq::filter);
    if chunks.len() > 0 {
        lemma_doc_count_filter(chunks.drop_last(), t);
    }
}

/// `df_of` finds the value that every entry for `t` holds, when there is one.
proof fn lemma_df_of_entry(doc_freq: Seq<(Seq<char>, usize)>, t: Seq<char>, v: usize)
    requires
        exists|i: int| 0 <= i < doc_freq.len() && #[trigger] doc_freq[i].0 == t,
        forall|i: int| 0 <= i < doc_freq.len() && #[trigger] doc_freq[i].0 == t ==> doc_freq[i].1 == v,
    ensures
        df_of(doc_freq, t) == v,
    decreases doc_freq.len(),
{
    if doc_freq[0].0 != t {
        let rest = doc_freq.drop_first();
        let w = choose|i: int| 0 <= i < doc_freq.len() && #[trigger] doc_freq[i].0 == t;
        assert(rest[w - 1].0 == t);
        assert forall|i: int| 0 <= i < rest.len() && #[trigger] rest[i].0 == t implies rest[i].1 == v by {
            assert(rest[i] == doc_freq[i + 1]);
        }
        lemma_df_of_entry(rest, t, v);
    }
}

proof fn lemma_occurrences_contains(tokens: Seq<Seq<char>>, t: Seq<char>)
    requires
        occurrences(tokens, t) > 0,
    ensures
        tokens.contains(t),
    decreases tokens.len(),
{
    if tokens.last() != t {
        lemma_occurrences_contains(tokens.drop_last(), t);
        let k = choose|k: int| 0 <= k < tokens.drop_last().len() && tokens.drop_last()[k] == t;
        assert(tokens[k] == t);
    } else {
        assert(tokens[tokens.len() - 1] == t);
    }
}

proof fn lemma_doc_count_positive(chunks: Seq<ChunkView>, i: int, t: Seq<char>)
    requires
        0 <= i < chunks.len(),
        chunks[i].tokens.contains(t),
    ensures
        doc_count(chunks, t) > 0,
    decreases chunks.len(),
{
    if i < chunks.len() - 1 {
        assert(chunks.drop_last()[i] == chunks[i]);
        lemma_doc_count_positive(chunks.drop_last(), i, t);
    }
}

/// Every statistic is of a term that occurs in the chunk, with the document
/// frequency that `df_of` gives.
proof fn lemma_term_stats_entries(tokens: Seq<Seq<char>>, query: Seq<Seq<char>>, doc_freq: Seq<(Seq<char>, usize)>)
    ensures
        forall|j: int|
            0 <= j < term_stats(tokens, query, doc_freq).len() ==> {
                let s = #[trigger] term_stats(tokens, query, doc_freq)[j];
                occurrences(tokens, s.term) > 0 && s.document_frequency == df_of(doc_freq, s.term)
                    && s.term_frequency == occurrences(tokens, s.term)
            },
    decreases query.len(),
{
    if query.len() > 0 {
        lemma_term_stats_entries(tokens, query.drop_last(), doc_freq);
        let rest = term_stats(tokens, query.drop_last(), doc_freq);
        let all = term_stats(tokens, query, doc_freq);
        assert forall|j: int| 0 <= j < all.len() implies {
            let s = #[trigger] all[j];
            occurrences(tokens, s.term) > 0 && s.document_frequency == df_of(doc_freq, s.term)
                && s.term_frequency == occurrences(tokens, s.term)
        } by {
            if j < rest.len() {
                assert(all[j] == rest[j]);
            }
        }
    }
}

/// Every candidate carries the statistics of one of the chunks.
proof fn lemma_candidates_from_chunks(
    chunks: Seq<ChunkView>,
    query: Seq<Seq<char>>,
    doc_freq: Seq<(Seq<char>, usize)>,
    f: FilterView,
)
    ensures
        forall|k: int|
            0 <= k < candidates(chunks, query, doc_freq, f).len() ==> exists|i: int|
                #![trigger chunks[i]]
                0 <= i < chunks.len() && (#[trigger] candidates(chunks, query, doc_freq, f)[k]).stats == term_stats(
                    chunks[i].tokens,
                    query,
                    doc_freq,
                ),
    decreases chunks.len(),
{
    if chunks.len() > 0 {
        let prev = chunks.drop_last();
        lemma_candidates_from_chunks(prev, query, doc_freq, f);
        let rest = candidates(prev, query, doc_freq, f);
        let all = candidates(chunks, query, doc_freq, f);
        assert forall|k: int| 0 <= k < all.len() implies exists|i: int|
            #![trigger chunks[i]]
            0 <= i < chunks.len() && (#[trigger] all[k]).stats == term_stats(chunks[i].tokens, query, doc_freq) by {
            if k < rest.len() {
                assert(all[k] == rest[k]);
                let i = choose|i: int|
                    #![trigger prev[i]]
                    0 <= i < prev.len() && rest[k].stats == term_stats(prev[i].tokens, query, doc_freq);
                assert(prev[i] == chunks[i]);
            } else {
                let i = chunks.len() - 1;
                assert(chunks[i] == chunks.last());
            }
        }
    }
}

/// Document frequency is that of the whole index: in every candidate of a
/// search, whatever its filters, each matched term's document frequency is
/// the number of chunks of the index that hold the term.
pub proof fn lemma_document_frequency_is_whole_index(
    chunks: Seq<ChunkView>,
    doc_freq: Seq<(Seq<char>, usize)>,
    query: Seq<char>,
    f: FilterView,
)
    requires
        is_doc_freq_of(doc_freq, chunks),
    ensures
        forall|k: int, j: int|
            0 <= k < search_candidates_spec(chunks, doc_freq, query, f).len() && 0 <= j
                < search_candidates_spec(chunks, doc_freq, query, f)[k].stats.len() ==> {
                let s = #[trigger] search_candidates_spec(chunks, doc_freq, query, f)[k].stats[j];
                &&& s.document_frequency == doc_count(chunks, s.term)
                &&& s.document_frequency == chunks.filter(|c: ChunkView| c.tokens.contains(s.term)).len()
            },
{
    let q = tokens_of(query);
    let cands = search_candidates_spec(chunks, doc_freq, query, f);
    if q.len() > 0 && chunks.len() > 0 {
        lemma_candidates_from_chunks(chunks, q, doc_freq, f);
        assert forall|k: int, j: int| 0 <= k < cands.len() && 0 <= j < cands[k].stats.len() implies {
            let s = #[trigger] cands[k].stats[j];
            &&& s.document_frequency == doc_count(chunks, s.term)
            &&& s.document_frequency == chunks.filter(|c: ChunkView| c.tokens.contains(s.term)).len()
        } by {
            let i = choose|i: int|
                #![trigger chunks[i]]
                0 <= i < chunks.len() && cands[k].stats == term_stats(chunks[i].tokens, q, doc_freq);
            lemma_term_stats_entries(chunks[i].tokens, q, doc_freq);
            let s = cands[k].stats[j];
            assert(s == term_stats(chunks[i].tokens, q, doc_freq)[j]);
            lemma_occurrences_contains(chunks[i].tokens, s.term);
            lemma_doc_count_positive(chunks, i, s.term);
            assert(exists|w: int| 0 <= w < doc_freq.len() && #[trigger] doc_freq[w].0 == s.term);
            let w = choose|w: int| 0 <= w < doc_freq.len() && #[trigger] doc_freq[w].0 == s.term;
            assert(doc_freq[w].1 == doc_count(chunks, s.term));
            let v: usize = doc_freq[w].1;
            lemma_df_of_entry(doc_freq, s.term, v);
            lemma_doc_count_filter(chunks, s.term);
        }
    }
}

/// `occurrences` counts the positions that hold the term.
proof fn lemma_occurrences_filter(tokens: Seq<Seq<char>>, t: Seq<char>)
    ensures
        occurrences(tokens, t) == tokens.filter(|x: Seq<char>| x == t).len(),
    decreases tokens.len(),
{
    reveal(Seq::filter);
    if tokens.len() > 0 {
        lemma_occurrences_filter(tokens.drop_last(), t);
    }
}

/// Every candidate names its chunk, and carries that chunk's length and the
/// statistics of the query terms in it.
proof fn lemma_candidate_sources(
    chunks: Seq<ChunkView>,
    query: Seq<Seq<char>>,
    doc_freq: Seq<(Seq<char>, usize)>,
    f: FilterView,
)
    requires
        chunks.len() <= usize::MAX,
    ensures
        forall|k: int|
            0 <= k < candidates(chunks, query, doc_freq, f).len() ==> {
                let c = #[trigger] candidates(chunks, query, doc_freq, f)[k];
                &&& c.chunk_index < chunks.len()
                &&& c.doc_len == chunks[c.chunk_index as int].tokens.len()
                &&& c.stats == term_stats(chunks[c.chunk_index as int].tokens, query, doc_freq)
            },
    decreases chunks.len(),
{
    if chunks.len() > 0 {
        let prev = chunks.drop_last();
        lemma_candidate_sources(prev, query, doc_freq, f);
        let rest = candidates(prev, query, doc_freq, f);
        let all = candidates(chunks, query, doc_freq, f);
        assert forall|k: int| 0 <= k < all.len() implies {
            let c = #[trigger] all[k];
            &&& c.chunk_index < chunks.len()
            &&& c.doc_len == chunks[c.chunk_index as int].tokens.len()
            &&& c.stats == term_stats(chunks[c.chunk_index as int].tokens, query, doc_freq)
        } by {
            if k < rest.len() {
                assert(all[k] == rest[k]);
                assert(prev[rest[k].chunk_index as int] == chunks[rest[k].chunk_index as int]);
            } else {
                assert(chunks[chunks.len() - 1] == chunks.last());
            }
        }
    }
}

/// Each candidate of a search reports, for every matched term, how many
/// tokens of its chunk are that term (every repeat counts), and its length
/// is the number of tokens of that chunk.
pub proof fn lemma_term_frequency_counts_every_occurrence(
    chunks: Seq<ChunkView>,
    doc_freq: Seq<(Seq<char>, usize)>,
    query: Seq<char>,
    f: FilterView,
)
    requires
        chunks.len() <= usize::MAX,
    ensures
        forall|k: int|
            0 <= k < search_candidates_spec(chunks, doc_freq, query, f).len() ==> {
                let c = #[trigger] search_candidates_spec(chunks, doc_freq, query, f)[k];
                &&& c.chunk_index < chunks.len()
                &&& c.doc_len == chunks[c.chunk_index as int].tokens.len()
                &&& forall|j: int|
                    0 <= j < c.stats.len() ==> {
                        let s = #[trigger] c.stats[j];
                        &&& s.term_frequency > 0
                        &&& s.term_frequency == chunks[c.chunk_index as int].tokens.filter(
                            |x: Seq<char>| x == s.term,
                        ).len()
                    }
            },
{
    let q = tokens_of(query);
    let cands = search_candidates_spec(chunks, doc_freq, query, f);
    if q.len() > 0 && chunks.len() > 0 {
        lemma_candidate_sources(chunks, q, doc_freq, f);
        assert forall|k: int| 0 <= k < cands.len() implies {
            let c = #[trigger] cands[k];
            &&& c.chunk_index < chunks.len()
            &&& c.doc_len == chunks[c.chunk_index as int].tokens.len()
            &&& forall|j: int|
                0 <= j < c.stats.len() ==> {
                    let s = #[trigger] c.stats[j];
                    &&& s.term_frequency > 0
                    &&& s.term_frequency == chunks[c.chunk_index as int].tokens.filter(
                        |x: Seq<char>| x == s.term,
                    ).len()
                }
        } by {
            let c = cands[k];
            let tokens = chunks[c.chunk_index as int].tokens;
            lemma_term_stats_entries(tokens, q, doc_freq);
            assert forall|j: int| 0 <= j < c.stats.len() implies {
                let s = #[trigger] c.stats[j];
                &&& s.term_frequency > 0
                &&& s.term_frequency == tokens.filter(|x: Seq<char>| x == s.term).len()
            } by {
                let s = c.stats[j];
                assert(s == term_stats(tokens, q, doc_freq)[j]);
                lemma_occurrences_filter(tokens, s.term);
            }
        }
    }
}

/// Some query term occurs among `tokens` exactly when a statistic is made.
proof fn lemma_term_stats_nonempty(tokens: Seq<Seq<char>>, query: Seq<Seq<char>>, doc_freq: Seq<(Seq<char>, usize)>)
    ensures
        term_stats(tokens, query, doc_freq).len() > 0 <==> exists|j: int|
            0 <= j < query.len() && tokens.contains(#[trigger] query[j]),
    decreases query.len(),
{
    if query.len() > 0 {
        let q = query.last();
        lemma_term_stats_nonempty(tokens, query.drop_last(), doc_freq);
        lemma_occurrences_filter(tokens, q);
        if tokens.contains(q) {
            let k = choose|k: int| 0 <= k < tokens.len() && tokens[k] == q;
            lemma_occurrences_positive(tokens, q, k);
            assert(query[query.len() - 1] == q);
        } else if occurrences(tokens, q) > 0 {
            lemma_occurrences_contains(tokens, q);
        }
        if exists|j: int| 0 <= j < query.len() && tokens.contains(#[trigger] query[j]) {
            let j = choose|j: int| 0 <= j < query.len() && tokens.contains(#[trigger] query[j]);
            if j < query.len() - 1 {
                assert(query.drop_last()[j] == query[j]);
            }
        }
        if exists|j: int| 0 <= j < query.drop_last().len() && tokens.contains(#[trigger] query.drop_last()[j]) {
            let j = choose|j: int| 0 <= j < query.drop_last().len() && tokens.contains(
                #[trigger] query.drop_last()[j],
            );
            assert(query[j] == query.drop_last()[j]);
        }
    }
}

proof fn lemma_occurrences_positive(tokens: Seq<Seq<char>>, t: Seq<char>, k: int)
    requires
        0 <= k < tokens.len(),
        tokens[k] == t,
    ensures
        occurrences(tokens, t) > 0,
    decreases tokens.len(),
{
    if k < tokens.len() - 1 {
        assert(tokens.drop_last()[k] == tokens[k]);
        lemma_occurrences_positive(tokens.drop_last(), t, k);
    }
}

/// Candidates come in chunk order, and a chunk is a candidate exactly when
/// it passes the filters and holds one of the query terms.
proof fn lemma_candidates_exact(
    chunks: Seq<ChunkView>,
    query: Seq<Seq<char>>,
    doc_freq: Seq<(Seq<char>, usize)>,
    f: FilterView,
)
    requires
        chunks.len() <= usize::MAX,
    ensures
        forall|a: int, b: int|
            0 <= a < b < candidates(chunks, query, doc_freq, f).len() ==> (#[trigger] candidates(
                chunks,
                query,
                doc_freq,
                f,
            )[a]).chunk_index < (#[trigger] candidates(chunks, query, doc_freq, f)[b]).chunk_index,
        forall|i: int|
            0 <= i < chunks.len() ==> ((matches_filters_spec(
                (#[trigger] chunks[i]).path,
                f.file_extensions,
                f.path_filter,
                f.exclude_paths,
            ) && exists|j: int| 0 <= j < query.len() && chunks[i].tokens.contains(#[trigger] query[j]))
                <==> exists|k: int|
                0 <= k < candidates(chunks, query, doc_freq, f).len() && (#[trigger] candidates(
                    chunks,
                    query,
                    doc_freq,
                    f,
                )[k]).chunk_index == i),
    decreases chunks.len(),
{
    if chunks.len() > 0 {
        let prev = chunks.drop_last();
        let n = chunks.len() - 1;
        lemma_candidates_exact(prev, query, doc_freq, f);
        lemma_candidate_sources(prev, query, doc_freq, f);
        let rest = candidates(prev, query, doc_freq, f);
        let all = candidates(chunks, query, doc_freq, f);
        let last = chunk_last_candidate(chunks, query, doc_freq, f);
        lemma_term_stats_nonempty(chunks.last().tokens, query, doc_freq);
        assert(chunks[n] == chunks.last());
        assert forall|a: int, b: int| 0 <= a < b < all.len() implies (#[trigger] all[a]).chunk_index < (
        #[trigger] all[b]).chunk_index by {
            assert(all[a] == rest[a]);
            if b < rest.len() {
                assert(all[b] == rest[b]);
            } else {
                assert(rest[a].chunk_index < prev.len());
            }
        }
        assert forall|i: int| 0 <= i < chunks.len() implies ((matches_filters_spec(
            (#[trigger] chunks[i]).path,
            f.file_extensions,
            f.path_filter,
            f.exclude_paths,
        ) && exists|j: int| 0 <= j < query.len() && chunks[i].tokens.contains(#[trigger] query[j])) <==> exists|
            k: int,
        | 0 <= k < all.len() && (#[trigger] all[k]).chunk_index == i) by {
            if i < n {
                assert(prev[i] == chunks[i]);
                if exists|k: int| 0 <= k < rest.len() && (#[trigger] rest[k]).chunk_index == i {
                    let k = choose|k: int| 0 <= k < rest.len() && (#[trigger] rest[k]).chunk_index == i;
                    assert(all[k] == rest[k]);
                }
                if exists|k: int| 0 <= k < all.len() && (#[trigger] all[k]).chunk_index == i {
                    let k = choose|k: int| 0 <= k < all.len() && (#[trigger] all[k]).chunk_index == i;
                    if k < rest.len() {
                        assert(all[k] == rest[k]);
                    }
                }
            } else {
                if exists|k: int| 0 <= k < all.len() && (#[trigger] all[k]).chunk_index == i {
                    let k = choose|k: int| 0 <= k < all.len() && (#[trigger] all[k]).chunk_index == i;
                    if k < rest.len() {
                        assert(all[k] == rest[k]);
                        assert(rest[k].chunk_index < prev.len());
                    }
                }
                if last {
                    assert(all[rest.len() as int].chunk_index == n);
                }
            }
        }
    }
}

/// Whether the last chunk is a candidate.
spec fn chunk_last_candidate(
    chunks: Seq<ChunkView>,
    query: Seq<Seq<char>>,
    doc_freq: Seq<(Seq<char>, usize)>,
    f: FilterView,
) -> bool {
    candidate_of(chunks.last(), chunks.len() - 1, query, doc_freq, f) is Some
}

/// The candidates of a search come in chunk order, and a chunk is one of
/// them exactly when it passes the filters and holds a token of the query.
pub proof fn lemma_candidates_are_matching_chunks(
    chunks: Seq<ChunkView>,
    doc_freq: Seq<(Seq<char>, usize)>,
    query: Seq<char>,
    f: FilterView,
)
    requires
        chunks.len() <= usize::MAX,
    ensures
        forall|a: int, b: int|
            0 <= a < b < search_candidates_spec(chunks, doc_freq, query, f).len() ==> (
            #[trigger] search_candidates_spec(chunks, doc_freq, query, f)[a]).chunk_index < (
            #[trigger] search_candidates_spec(chunks, doc_freq, query, f)[b]).chunk_index,
        forall|i: int|
            0 <= i < chunks.len() ==> ((matches_filters_spec(
                (#[trigger] chunks[i]).path,
                f.file_extensions,
                f.path_filter,
                f.exclude_paths,
            ) && exists|j: int|
                0 <= j < tokens_of(query).len() && chunks[i].tokens.contains(#[trigger] tokens_of(query)[j]))
                <==> exists|k: int|
                0 <= k < search_candidates_spec(chunks, doc_freq, query, f).len() && (
                #[trigger] search_candidates_spec(chunks, doc_freq, query, f)[k]).chunk_index == i),
{
    let q = tokens_of(query);
    if q.len() > 0 && chunks.len() > 0 {
        lemma_candidates_exact(chunks, q, doc_freq, f);
    }
}

} // verus!
