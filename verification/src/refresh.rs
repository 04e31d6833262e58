//! Index refresh: which files an index holds, whether a snapshot can be
//! reused as it is, which files changed or disappeared, and the index after
//! an incremental or full build.

use vstd::prelude::*;

use crate::chunking::{chunk_file, chunks_spec, symbol_spans_spec};
use crate::index::{chunk_views, IndexMode, final_extension_spec, indexable_extension, is_indexable_extension,
    should_skip, should_skip_spec, Chunk, ChunkView};
use crate::ranking::{is_doc_freq_of, pair_views, rebuild_doc_freq, SearchIndex};
use crate::term_table::TermTable;
use crate::text::{push_char, views};

verus! {

// ---------------------------------------------------------------------------
// Which files are indexed
// ---------------------------------------------------------------------------

/// A file is indexed when no path segment is a skipped directory, its final
/// extension is indexed, and its size (when known) is within the limit.
pub open spec fn admits_file_spec(rel: Seq<char>, len: Option<u64>, max_file_bytes: u64) -> bool {
    &&& !should_skip_spec(rel)
    &&& (final_extension_spec(rel) matches Some(e) && indexable_extension(e))
    &&& !(len matches Some(n) && n > max_file_bytes)
}

/// Whether a file with this relative path (forward slashes) and size is indexed.
pub fn admit_file(rel: &str, len: Option<u64>, max_file_bytes: u64) -> (res: bool)
    ensures
        res == admits_file_spec(rel@, len, max_file_bytes),
{
    if should_skip(rel) || !is_indexable_extension(rel) {
        return false;
    }
    match len {
        Some(n) => n <= max_file_bytes,
        None => true,
    }
}

// ---------------------------------------------------------------------------
// File hashes
// ---------------------------------------------------------------------------

/// The views of path/hash entries.
pub open spec fn hash_views(v: Seq<(String, String)>) -> Seq<(Seq<char>, Seq<char>)> {
    v.map_values(|e: (String, String)| (e.0@, e.1@))
}

/// The hash recorded for `path`: its first entry, if any.
pub open spec fn lookup_hash(entries: Seq<(Seq<char>, Seq<char>)>, path: Seq<char>) -> Option<Seq<char>>
    decreases entries.len(),
{
    if entries.len() == 0 {
        None
    } else {
        match lookup_hash(entries.drop_last(), path) {
            Some(h) => Some(h),
            None => if entries.last().0 == path {
                Some(entries.last().1)
            } else {
                None
            },
        }
    }
}

/// Two hash listings record the same hash for every path.
pub open spec fn same_hashes(a: Seq<(Seq<char>, Seq<char>)>, b: Seq<(Seq<char>, Seq<char>)>) -> bool {
    forall|p: Seq<char>| #[trigger] lookup_hash(a, p) == lookup_hash(b, p)
}

/// A file of the inventory whose hash differs from the stored one, or that
/// has no stored hash.
pub open spec fn is_changed(inventory: Seq<(Seq<char>, Seq<char>)>, stored: Seq<(Seq<char>, Seq<char>)>, p: Seq<char>) -> bool {
    lookup_hash(inventory, p) is Some && lookup_hash(stored, p) != lookup_hash(inventory, p)
}

/// A file with a stored hash that is no longer in the inventory.
pub open spec fn is_removed(inventory: Seq<(Seq<char>, Seq<char>)>, stored: Seq<(Seq<char>, Seq<char>)>, p: Seq<char>) -> bool {
    lookup_hash(stored, p) is Some && lookup_hash(inventory, p) is None
}

/// What a refresh in `auto` mode does with a stored snapshot.
#[derive(Debug)]
pub struct RefreshPlan {
    /// The stored hashes are exactly the inventory: reuse the snapshot.
    pub cache_hit: bool,
    /// Files to chunk again, each once.
    pub changed: Vec<String>,
    /// Files to drop, each once.
    pub removed: Vec<String>,
}

/// A table of the distinct paths of `entries`, each with the position of
/// its first entry.
fn path_table(entries: &Vec<(String, String)>) -> (res: TermTable)
    ensures
        res.wf(),
        forall|p: Seq<char>| res.keys().contains(p) <==> lookup_hash(hash_views(entries@), p) is Some,
        forall|k: int|
            0 <= k < res.keys().len() ==> {
                &&& #[trigger] res.counts()[k] < entries@.len()
                &&& hash_views(entries@)[res.counts()[k] as int].0 == res.keys()[k]
                &&& lookup_hash(hash_views(entries@), res.keys()[k]) == Some(
                    hash_views(entries@)[res.counts()[k] as int].1,
                )
            },
{
    let ghost ev = hash_views(entries@);
    let mut t = TermTable::new();
    let mut i: usize = 0;
    assert(ev.take(0) =~= Seq::<(Seq<char>, Seq<char>)>::empty());
    while i < entries.len()
        invariant
            0 <= i <= entries@.len(),
            ev == hash_views(entries@),
            t.wf(),
            forall|p: Seq<char>| t.keys().contains(p) <==> lookup_hash(ev.take(i as int), p) is Some,
            forall|k: int|
                0 <= k < t.keys().len() ==> {
                    &&& #[trigger] t.counts()[k] < i
                    &&& ev[t.counts()[k] as int].0 == t.keys()[k]
                    &&& lookup_hash(ev.take(i as int), t.keys()[k]) == Some(ev[t.counts()[k] as int].1)
                },
        decreases entries@.len() - i,
    {
        let ghost prev = ev.take(i as int);
        let ghost next = ev.take(i + 1);
        assert(next.drop_last() =~= prev);
        assert(next.last() == ev[i as int]);
        assert(ev[i as int] == (entries@[i as int].0@, entries@[i as int].1@));
        let ghost old_t = t;
        let added = t.insert_value_if_absent(&entries[i].0, i);
        proof {
            old_t.lemma_wf();
            t.lemma_wf();
            assert forall|p: Seq<char>| t.keys().contains(p) <==> lookup_hash(next, p) is Some by {
                if added {
                    if t.keys().contains(p) && p != ev[i as int].0 {
                        let k = choose|k: int| 0 <= k < t.keys().len() && t.keys()[k] == p;
                        assert(old_t.keys()[k] == p);
                    }
                    if old_t.keys().contains(p) {
                        let k = choose|k: int| 0 <= k < old_t.keys().len() && old_t.keys()[k] == p;
                        assert(t.keys()[k] == p);
                    }
                    assert(t.keys()[old_t.keys().len() as int] == ev[i as int].0);
                }
            }
            assert forall|k: int| 0 <= k < t.keys().len() implies {
                &&& #[trigger] t.counts()[k] < i + 1
                &&& ev[t.counts()[k] as int].0 == t.keys()[k]
                &&& lookup_hash(next, t.keys()[k]) == Some(ev[t.counts()[k] as int].1)
            } by {
                if k < old_t.keys().len() {
                    assert(t.keys()[k] == old_t.keys()[k]);
                    assert(t.counts()[k] == old_t.counts()[k]);
                } else {
                    assert(added);
                    assert(t.keys()[k] == ev[i as int].0);
                    assert(t.counts()[k] == i);
                    assert(!old_t.keys().contains(ev[i as int].0));
                }
            }
        }
        i += 1;
    }
    assert(ev.take(i as int) =~= ev);
    t
}

/// The plan of an `auto` refresh, from the current inventory and the stored
/// hashes: a cache hit exactly when both record the same hash for every
/// path; otherwise the changed and the removed files, each listed once.
pub fn plan_refresh(inventory: &Vec<(String, String)>, stored: &Vec<(String, String)>) -> (res: RefreshPlan)
    ensures
        res.cache_hit == same_hashes(hash_views(inventory@), hash_views(stored@)),
        views(res.changed@).no_duplicates(),
        views(res.removed@).no_duplicates(),
        forall|p: Seq<char>|
            views(res.changed@).contains(p) <==> is_changed(hash_views(inventory@), hash_views(stored@), p),
        forall|p: Seq<char>|
            views(res.removed@).contains(p) <==> is_removed(hash_views(inventory@), hash_views(stored@), p),
{
    let ghost iv = hash_views(inventory@);
    let ghost sv = hash_views(stored@);
    let inv_table = path_table(inventory);
    let stored_table = path_table(stored);
    let mut changed: Vec<String> = Vec::new();
    let mut removed: Vec<String> = Vec::new();
    // Changed: each distinct inventory path, at its first entry.
    let mut k: usize = 0;
    let n_inv = inv_table.len();
    proof {
        inv_table.lemma_wf();
        stored_table.lemma_wf();
    }
    assert(views(changed@) =~= Seq::<Seq<char>>::empty());
    while k < n_inv
        invariant
            0 <= k <= n_inv,
            n_inv == inv_table.keys().len(),
            iv == hash_views(inventory@),
            sv == hash_views(stored@),
            inv_table.wf(),
            stored_table.wf(),
            inv_table.keys().no_duplicates(),
            forall|p: Seq<char>| inv_table.keys().contains(p) <==> lookup_hash(iv, p) is Some,
            forall|m: int|
                0 <= m < inv_table.keys().len() ==> {
                    &&& #[trigger] inv_table.counts()[m] < inventory@.len()
                    &&& iv[inv_table.counts()[m] as int].0 == inv_table.keys()[m]
                    &&& lookup_hash(iv, inv_table.keys()[m]) == Some(iv[inv_table.counts()[m] as int].1)
                },
            forall|p: Seq<char>| stored_table.keys().contains(p) <==> lookup_hash(sv, p) is Some,
            forall|m: int|
                0 <= m < stored_table.keys().len() ==> {
                    &&& #[trigger] stored_table.counts()[m] < stored@.len()
                    &&& sv[stored_table.counts()[m] as int].0 == stored_table.keys()[m]
                    &&& lookup_hash(sv, stored_table.keys()[m]) == Some(sv[stored_table.counts()[m] as int].1)
                },
            views(changed@).no_duplicates(),
            forall|p: Seq<char>|
                #![trigger views(changed@).contains(p)]
                #![trigger inv_table.keys().take(k as int).contains(p)]
                views(changed@).contains(p) <==> (is_changed(iv, sv, p) && inv_table.keys().take(k as int).contains(p)),
        decreases n_inv - k,
    {
        let path = inv_table.term_at(k);
        let first = inv_table.count_at(k);
        let hash = &inventory[first].1;
        assert(iv[first as int] == (inventory@[first as int].0@, inventory@[first as int].1@));
        let differs = match stored_table.find(path.as_str()) {
            None => true,
            Some(m) => {
                let sfirst = stored_table.count_at(m);
                assert(sv[sfirst as int] == (stored@[sfirst as int].0@, stored@[sfirst as int].1@));
                assert(stored_table.keys()[m as int] == inv_table.keys()[k as int]);
                assert(lookup_hash(sv, inv_table.keys()[k as int]) == Some(sv[sfirst as int].1));
                !(stored[sfirst].1 == *hash)
            },
        };
        assert(lookup_hash(iv, inv_table.keys()[k as int]) == Some(hash@));
        assert(differs == is_changed(iv, sv, inv_table.keys()[k as int]));
        let ghost before = views(changed@);
        let ghost kp = inv_table.keys()[k as int];
        assert(inv_table.keys().take(k + 1) =~= inv_table.keys().take(k as int).push(kp));
        assert(!inv_table.keys().take(k as int).contains(kp)) by {
            if inv_table.keys().take(k as int).contains(kp) {
                let m = choose|m: int| 0 <= m < k && inv_table.keys().take(k as int)[m] == kp;
                assert(inv_table.keys()[m] == kp);
            }
        }
        if differs {
            changed.push(path.clone());
            proof {
                assert(!before.contains(kp));
                assert(views(changed@) =~= before.push(kp));
                assert(is_changed(iv, sv, kp));
                assert forall|p: Seq<char>| views(changed@).contains(p) <==> (is_changed(iv, sv, p)
                    && inv_table.keys().take(k + 1).contains(p)) by {
                    lemma_contains_push_seq(before, kp, p);
                    lemma_contains_push_seq(inv_table.keys().take(k as int), kp, p);
                }
            }
        } else {
            proof {
                assert(!is_changed(iv, sv, kp));
                assert forall|p: Seq<char>| views(changed@).contains(p) <==> (is_changed(iv, sv, p)
                    && inv_table.keys().take(k + 1).contains(p)) by {
                    lemma_contains_push_seq(inv_table.keys().take(k as int), kp, p);
                }
            }
        }
        let ghost knext = k + 1;
        assert(forall|p: Seq<char>| views(changed@).contains(p) <==> (is_changed(iv, sv, p)
            && inv_table.keys().take(knext).contains(p)));
        k += 1;
        assert(k as int == knext);
        assert forall|p: Seq<char>| views(changed@).contains(p) <==> (is_changed(iv, sv, p)
            && inv_table.keys().take(k as int).contains(p)) by {
            assert(inv_table.keys().take(knext) == inv_table.keys().take(k as int));
            assert(views(changed@).contains(p) <==> (is_changed(iv, sv, p)
                && inv_table.keys().take(knext).contains(p)));
        }
    }
    assert(inv_table.keys().take(k as int) =~= inv_table.keys());
    assert forall|p: Seq<char>| views(changed@).contains(p) <==> is_changed(iv, sv, p) by {
        if is_changed(iv, sv, p) {
            assert(inv_table.keys().contains(p));
        }
    }
    // Removed: each distinct stored path that the inventory lacks.
    let mut r: usize = 0;
    let n_stored = stored_table.len();
    assert(views(removed@) =~= Seq::<Seq<char>>::empty());
    while r < n_stored
        invariant
            0 <= r <= n_stored,
            n_stored == stored_table.keys().len(),
            iv == hash_views(inventory@),
            sv == hash_views(stored@),
            inv_table.wf(),
            stored_table.wf(),
            stored_table.keys().no_duplicates(),
            forall|p: Seq<char>| inv_table.keys().contains(p) <==> lookup_hash(iv, p) is Some,
            forall|p: Seq<char>| stored_table.keys().contains(p) <==> lookup_hash(sv, p) is Some,
            views(removed@).no_duplicates(),
            views(changed@).no_duplicates(),
            forall|p: Seq<char>| views(changed@).contains(p) <==> is_changed(iv, sv, p),
            forall|p: Seq<char>|
                #![trigger views(removed@).contains(p)]
                #![trigger stored_table.keys().take(r as int).contains(p)]
                views(removed@).contains(p) <==> (is_removed(iv, sv, p) && stored_table.keys().take(r as int).contains(p)),
        decreases n_stored - r,
    {
        let path = stored_table.term_at(r);
        let ghost before = views(removed@);
        let ghost kp = stored_table.keys()[r as int];
        assert(stored_table.keys().take(r + 1) =~= stored_table.keys().take(r as int).push(kp));
        assert(!stored_table.keys().take(r as int).contains(kp)) by {
            if stored_table.keys().take(r as int).contains(kp) {
                let m = choose|m: int| 0 <= m < r && stored_table.keys().take(r as int)[m] == kp;
                assert(stored_table.keys()[m] == kp);
            }
        }
        assert(stored_table.keys().contains(kp));
        let absent = inv_table.find(path.as_str()).is_none();
        assert(path@ == kp);
        assert(absent == !inv_table.keys().contains(kp));
        assert(lookup_hash(sv, kp) is Some);
        assert(absent == (lookup_hash(iv, kp) is None));
        assert(absent == is_removed(iv, sv, kp));
        if absent {
            removed.push(path.clone());
            proof {
                assert(!before.contains(kp));
                assert(views(removed@) =~= before.push(kp));
                assert forall|p: Seq<char>| views(removed@).contains(p) <==> (is_removed(iv, sv, p)
                    && stored_table.keys().take(r + 1).contains(p)) by {
                    lemma_contains_push_seq(before, kp, p);
                    lemma_contains_push_seq(stored_table.keys().take(r as int), kp, p);
                }
            }
        } else {
            proof {
                assert forall|p: Seq<char>| views(removed@).contains(p) <==> (is_removed(iv, sv, p)
                    && stored_table.keys().take(r + 1).contains(p)) by {
                    lemma_contains_push_seq(stored_table.keys().take(r as int), kp, p);
                }
            }
        }
        let ghost rnext = r + 1;
        assert(forall|p: Seq<char>| views(removed@).contains(p) <==> (is_removed(iv, sv, p)
            && stored_table.keys().take(rnext).contains(p)));
        r += 1;
        assert forall|p: Seq<char>| views(removed@).contains(p) <==> (is_removed(iv, sv, p)
            && stored_table.keys().take(r as int).contains(p)) by {
            assert(stored_table.keys().take(rnext) == stored_table.keys().take(r as int));
            assert(views(removed@).contains(p) <==> (is_removed(iv, sv, p)
                && stored_table.keys().take(rnext).contains(p)));
        }
    }
    assert(stored_table.keys().take(r as int) =~= stored_table.keys());
    assert forall|p: Seq<char>| views(removed@).contains(p) <==> is_removed(iv, sv, p) by {
        if is_removed(iv, sv, p) {
            assert(stored_table.keys().contains(p));
        }
    }
    let cache_hit = changed.len() == 0 && removed.len() == 0;
    proof {
        if cache_hit {
            assert forall|p: Seq<char>| #[trigger] lookup_hash(iv, p) == lookup_hash(sv, p) by {
                if lookup_hash(iv, p) is Some {
                    assert(!views(changed@).contains(p));
                } else if lookup_hash(sv, p) is Some {
                    assert(!views(removed@).contains(p));
                }
            }
        } else {
            if changed.len() > 0 {
                assert(views(changed@).contains(views(changed@)[0]));
                assert(lookup_hash(iv, views(changed@)[0]) != lookup_hash(sv, views(changed@)[0]));
            } else {
                assert(views(removed@).contains(views(removed@)[0]));
                assert(lookup_hash(iv, views(removed@)[0]) != lookup_hash(sv, views(removed@)[0]));
            }
        }
    }
    RefreshPlan { cache_hit, changed, removed }
}

/// A listing records the same hash as itself for every path: an `auto`
/// refresh over an unchanged inventory is a cache hit.
pub proof fn lemma_unchanged_inventory_is_cache_hit(inventory: Seq<(Seq<char>, Seq<char>)>)
    ensures
        same_hashes(inventory, inventory),
        forall|p: Seq<char>| !is_changed(inventory, inventory, p) && !is_removed(inventory, inventory, p),
{
}

// ---------------------------------------------------------------------------
// Building the index
// ---------------------------------------------------------------------------

/// The chunks of one file, from its path and content.
pub open spec fn file_chunks(path: Seq<char>, content: Seq<char>) -> Seq<ChunkView> {
    chunks_spec(path, content, symbol_spans_spec(path, content, vstd::utf8::encode_utf8(content)))
}

/// The chunks of the files, file by file, in order.
pub open spec fn files_chunks(files: Seq<(Seq<char>, Seq<char>)>) -> Seq<ChunkView>
    decreases files.len(),
{
    if files.len() == 0 {
        seq![]
    } else {
        files_chunks(files.drop_last()) + file_chunks(files.last().0, files.last().1)
    }
}

/// A file content small enough for 32-bit line numbers.
pub open spec fn content_fits(content: Seq<char>) -> bool {
    content.len() < u32::MAX && vstd::utf8::encode_utf8(content).len() < u32::MAX
}

/// Appends the chunks of the files to `out`.
fn push_files_chunks(out: &mut Vec<Chunk>, paths: &Vec<String>, contents: &Vec<String>)
    requires
        paths@.len() == contents@.len(),
        forall|i: int| 0 <= i < contents@.len() ==> content_fits(#[trigger] contents@[i]@),
    ensures
        chunk_views(final(out)@) == chunk_views(old(out)@) + files_chunks(pairs_of(views(paths@), views(contents@))),
{
    let ghost fv = pairs_of(views(paths@), views(contents@));
    let mut i: usize = 0;
    assert(fv.take(0) =~= Seq::<(Seq<char>, Seq<char>)>::empty());
    assert(chunk_views(out@) =~= chunk_views(old(out)@) + files_chunks(fv.take(0)));
    while i < paths.len()
        invariant
            0 <= i <= paths@.len(),
            paths@.len() == contents@.len(),
            fv == pairs_of(views(paths@), views(contents@)),
            forall|i: int| 0 <= i < contents@.len() ==> content_fits(#[trigger] contents@[i]@),
            chunk_views(out@) == chunk_views(old(out)@) + files_chunks(fv.take(i as int)),
        decreases paths@.len() - i,
    {
        assert(fv.take(i + 1).drop_last() =~= fv.take(i as int));
        assert(fv.take(i + 1).last() == (paths@[i as int]@, contents@[i as int]@));
        assert(content_fits(contents@[i as int]@));
        let chunks = chunk_file(paths[i].as_str(), contents[i].as_str());
        let ghost before = chunk_views(out@);
        let mut k: usize = 0;
        while k < chunks.len()
            invariant
                0 <= k <= chunks@.len(),
                chunk_views(out@) == before + chunk_views(chunks@).take(k as int),
            decreases chunks@.len() - k,
        {
            let c = chunks[k].duplicate();
            let ghost b2 = chunk_views(out@);
            out.push(c);
            assert(chunk_views(out@) =~= b2.push(chunks@[k as int]@));
            assert(chunk_views(chunks@).take(k + 1) =~= chunk_views(chunks@).take(k as int).push(chunks@[k as int]@));
            k += 1;
        }
        assert(chunk_views(chunks@).take(k as int) =~= chunk_views(chunks@));
        assert(chunk_views(out@) =~= chunk_views(old(out)@) + files_chunks(fv.take(i + 1)));
        i += 1;
    }
    assert(fv.take(i as int) =~= fv);
}

/// Paths zipped with contents.
pub open spec fn pairs_of(paths: Seq<Seq<char>>, contents: Seq<Seq<char>>) -> Seq<(Seq<char>, Seq<char>)> {
    Seq::new(paths.len(), |i: int| (paths[i], contents[i]))
}

/// A full index of `root` from its indexed files (relative paths and
/// contents, in walk order): every file's chunks, in order, and the document
/// frequencies over all of them.
pub fn index_from_files(root: String, paths: &Vec<String>, contents: &Vec<String>) -> (res: SearchIndex)
    requires
        paths@.len() == contents@.len(),
        forall|i: int| 0 <= i < contents@.len() ==> content_fits(#[trigger] contents@[i]@),
    ensures
        res.root@ == root@,
        chunk_views(res.chunks@) == files_chunks(pairs_of(views(paths@), views(contents@))),
        is_doc_freq_of(pair_views(res.doc_freq@), chunk_views(res.chunks@)),
{
    let mut chunks: Vec<Chunk> = Vec::new();
    assert(chunk_views(chunks@) =~= Seq::<ChunkView>::empty());
    push_files_chunks(&mut chunks, paths, contents);
    assert(Seq::<ChunkView>::empty() + files_chunks(pairs_of(views(paths@), views(contents@)))
        =~= files_chunks(pairs_of(views(paths@), views(contents@))));
    let doc_freq = rebuild_doc_freq(&chunks);
    SearchIndex { root, chunks, doc_freq }
}

/// The chunks whose path is not in `affected`, in order.
pub open spec fn retained(chunks: Seq<ChunkView>, affected: Seq<Seq<char>>) -> Seq<ChunkView>
    decreases chunks.len(),
{
    if chunks.len() == 0 {
        seq![]
    } else {
        let rest = retained(chunks.drop_last(), affected);
        if affected.contains(chunks.last().path) {
            rest
        } else {
            rest.push(chunks.last())
        }
    }
}

/// The index after an incremental refresh: the chunks of files that neither
/// changed nor disappeared are kept, in order; the changed files are chunked
/// again from their current content and appended; document frequencies are
/// counted again over the result.
pub fn apply_refresh(index: &SearchIndex, changed: &Vec<String>, removed: &Vec<String>, contents: &Vec<String>) -> (res: SearchIndex)
    requires
        contents@.len() == changed@.len(),
        forall|i: int| 0 <= i < contents@.len() ==> content_fits(#[trigger] contents@[i]@),
    ensures
        res.root@ == index.root@,
        chunk_views(res.chunks@) == retained(chunk_views(index.chunks@), views(changed@) + views(removed@))
            + files_chunks(pairs_of(views(changed@), views(contents@))),
        is_doc_freq_of(pair_views(res.doc_freq@), chunk_views(res.chunks@)),
{
    let ghost affected = views(changed@) + views(removed@);
    let mut table = TermTable::new();
    let mut a: usize = 0;
    while a < changed.len()
        invariant
            0 <= a <= changed@.len(),
            table.wf(),
            forall|p: Seq<char>| table.keys().contains(p) <==> views(changed@).take(a as int).contains(p),
        decreases changed@.len() - a,
    {
        let ghost old_t = table;
        let _ = table.insert_if_absent(&changed[a]);
        proof {
            assert forall|p: Seq<char>| table.keys().contains(p) <==> views(changed@).take(a + 1).contains(p) by {
                lemma_contains_push(old_t.keys(), changed@[a as int]@, p, table.keys());
                assert(views(changed@).take(a + 1) =~= views(changed@).take(a as int).push(changed@[a as int]@));
                lemma_contains_push_seq(views(changed@).take(a as int), changed@[a as int]@, p);
            }
        }
        a += 1;
    }
    assert(views(changed@).take(a as int) =~= views(changed@));
    let mut b: usize = 0;
    while b < removed.len()
        invariant
            0 <= b <= removed@.len(),
            table.wf(),
            forall|p: Seq<char>| table.keys().contains(p) <==> (views(changed@).contains(p) || views(removed@).take(b as int).contains(p)),
        decreases removed@.len() - b,
    {
        let ghost old_t = table;
        let _ = table.insert_if_absent(&removed[b]);
        proof {
            assert forall|p: Seq<char>| table.keys().contains(p) <==> (views(changed@).contains(p) || views(removed@).take(b + 1).contains(p)) by {
                lemma_contains_push(old_t.keys(), removed@[b as int]@, p, table.keys());
                assert(views(removed@).take(b + 1) =~= views(removed@).take(b as int).push(removed@[b as int]@));
                lemma_contains_push_seq(views(removed@).take(b as int), removed@[b as int]@, p);
            }
        }
        b += 1;
    }
    assert(views(removed@).take(b as int) =~= views(removed@));
    proof {
        assert forall|p: Seq<char>| table.keys().contains(p) <==> affected.contains(p) by {
            lemma_contains_concat(views(changed@), views(removed@), p);
        }
    }
    let ghost cv = chunk_views(index.chunks@);
    let mut chunks: Vec<Chunk> = Vec::new();
    let mut i: usize = 0;
    assert(cv.take(0) =~= Seq::<ChunkView>::empty());
    assert(chunk_views(chunks@) =~= Seq::<ChunkView>::empty());
    while i < index.chunks.len()
        invariant
            0 <= i <= index.chunks@.len(),
            cv == chunk_views(index.chunks@),
            table.wf(),
            forall|p: Seq<char>| table.keys().contains(p) <==> affected.contains(p),
            chunk_views(chunks@) == retained(cv.take(i as int), affected),
        decreases index.chunks@.len() - i,
    {
        assert(cv.take(i + 1).drop_last() =~= cv.take(i as int));
        assert(cv.take(i + 1).last() == index.chunks@[i as int]@);
        if table.find(index.chunks[i].path.as_str()).is_none() {
            let ghost before = chunk_views(chunks@);
            chunks.push(index.chunks[i].duplicate());
            assert(chunk_views(chunks@) =~= before.push(index.chunks@[i as int]@));
        }
        i += 1;
    }
    assert(cv.take(i as int) =~= cv);
    let ghost kept = chunk_views(chunks@);
    push_files_chunks(&mut chunks, changed, contents);
    let doc_freq = rebuild_doc_freq(&chunks);
    SearchIndex { root: index.root.clone(), chunks, doc_freq }
}

proof fn lemma_contains_push(old_keys: Seq<Seq<char>>, x: Seq<char>, p: Seq<char>, new_keys: Seq<Seq<char>>)
    requires
        new_keys == old_keys || new_keys == old_keys.push(x),
        old_keys.contains(x) || new_keys == old_keys.push(x),
    ensures
        new_keys.contains(p) <==> (old_keys.contains(p) || p == x),
{
    if new_keys == old_keys.push(x) {
        if new_keys.contains(p) && p != x {
            let k = choose|k: int| 0 <= k < new_keys.len() && new_keys[k] == p;
            assert(old_keys[k] == p);
        }
        if old_keys.contains(p) {
            let k = choose|k: int| 0 <= k < old_keys.len() && old_keys[k] == p;
            assert(new_keys[k] == p);
        }
        assert(new_keys[old_keys.len() as int] == x);
    }
}

proof fn lemma_contains_push_seq(s: Seq<Seq<char>>, x: Seq<char>, p: Seq<char>)
    ensures
        s.push(x).contains(p) <==> (s.contains(p) || p == x),
{
    lemma_contains_push(s, x, p, s.push(x));
}

proof fn lemma_contains_concat(a: Seq<Seq<char>>, b: Seq<Seq<char>>, p: Seq<char>)
    ensures
        (a + b).contains(p) <==> (a.contains(p) || b.contains(p)),
{
    if (a + b).contains(p) {
        let k = choose|k: int| 0 <= k < (a + b).len() && (a + b)[k] == p;
        if k < a.len() {
            assert(a[k] == p);
        } else {
            assert(b[k - a.len()] == p);
        }
    }
    if a.contains(p) {
        let k = choose|k: int| 0 <= k < a.len() && a[k] == p;
        assert((a + b)[k] == p);
    }
    if b.contains(p) {
        let k = choose|k: int| 0 <= k < b.len() && b[k] == p;
        assert((a + b)[k + a.len()] == p);
    }
}

// ---------------------------------------------------------------------------
// Statistics of an index run
// ---------------------------------------------------------------------------

/// What an index request reports.
#[derive(Debug, Clone, PartialEq, Eq)]
pub struct IndexStats {
    pub files_scanned: usize,
    pub chunks_indexed: usize,
    pub elapsed_ms: u64,
    /// `full`, `cache_hit` or `incremental`.
    pub refresh_mode: String,
    pub files_changed: usize,
    pub files_removed: usize,
}

/// What a search reports besides its hits.
#[derive(Debug, Clone, PartialEq, Eq)]
pub struct SearchStats {
    pub elapsed_ms: u64,
    pub route: String,
}

impl IndexStats {
    /// The statistics of a full build: every scanned file counts as changed.
    pub fn full(files_scanned: usize, chunks_indexed: usize, elapsed_ms: u64) -> (res: IndexStats)
        ensures
            res.files_scanned == files_scanned,
            res.chunks_indexed == chunks_indexed,
            res.elapsed_ms == elapsed_ms,
            res.refresh_mode@ == "full"@,
            res.files_changed == files_scanned,
            res.files_removed == 0,
    {
        IndexStats {
            files_scanned,
            chunks_indexed,
            elapsed_ms,
            refresh_mode: "full".to_owned(),
            files_changed: files_scanned,
            files_removed: 0,
        }
    }

    /// The statistics of a snapshot reused as it is.
    pub fn cache_hit(files_scanned: usize, chunks_indexed: usize, elapsed_ms: u64) -> (res: IndexStats)
        ensures
            res.files_scanned == files_scanned,
            res.chunks_indexed == chunks_indexed,
            res.elapsed_ms == elapsed_ms,
            res.refresh_mode@ == "cache_hit"@,
            res.files_changed == 0,
            res.files_removed == 0,
    {
        IndexStats {
            files_scanned,
            chunks_indexed,
            elapsed_ms,
            refresh_mode: "cache_hit".to_owned(),
            files_changed: 0,
            files_removed: 0,
        }
    }

    /// The statistics of an incremental refresh.
    pub fn incremental(
        files_scanned: usize,
        chunks_indexed: usize,
        elapsed_ms: u64,
        files_changed: usize,
        files_removed: usize,
    ) -> (res: IndexStats)
        ensures
            res.files_scanned == files_scanned,
            res.chunks_indexed == chunks_indexed,
            res.elapsed_ms == elapsed_ms,
            res.refresh_mode@ == "incremental"@,
            res.files_changed == files_changed,
            res.files_removed == files_removed,
    {
        IndexStats {
            files_scanned,
            chunks_indexed,
            elapsed_ms,
            refresh_mode: "incremental".to_owned(),
            files_changed,
            files_removed,
        }
    }
}

impl SearchStats {
    /// The statistics of a search on the ranked route (`rust-tfidf`).
    pub fn ranked(elapsed_ms: u64) -> (res: SearchStats)
        ensures
            res.elapsed_ms == elapsed_ms,
            res.route@ == "rust-tfidf"@,
    {
        SearchStats { elapsed_ms, route: "rust-tfidf".to_owned() }
    }
}

// ---------------------------------------------------------------------------
// What a refresh does
// ---------------------------------------------------------------------------

/// The course of an index request.
#[derive(Debug, Clone, Copy, PartialEq, Eq, Structural)]
pub enum RefreshAction {
    /// Build the index from scratch.
    Build,
    /// Reuse the loaded snapshot; when it was read from the older location,
    /// also write it to the current one.
    Reuse { copy_forward: bool },
    /// Re-chunk the changed files and drop the removed ones.
    Incremental,
}

/// `Full` always builds; `Auto` builds when no snapshot and hash manifest
/// could be loaded, reuses the snapshot on a cache hit (copying it forward
/// when the current location has no snapshot), and otherwise refreshes
/// incrementally.
pub open spec fn refresh_action_spec(
    mode: IndexMode,
    cache_hit: Option<bool>,
    current_snapshot_exists: bool,
) -> RefreshAction {
    match mode {
        IndexMode::Full => RefreshAction::Build,
        IndexMode::Auto => match cache_hit {
            None => RefreshAction::Build,
            Some(true) => RefreshAction::Reuse { copy_forward: !current_snapshot_exists },
            Some(false) => RefreshAction::Incremental,
        },
    }
}

/// Decides the course of an index request from its mode, the refresh plan
/// (`None` when no snapshot and hash manifest could be loaded), and whether
/// the current location holds both snapshot files.
pub fn refresh_action(
    mode: IndexMode,
    plan: Option<&RefreshPlan>,
    current_snapshot_exists: bool,
) -> (res: RefreshAction)
    ensures
        res == refresh_action_spec(
            mode,
            match plan {
                Some(p) => Some(p.cache_hit),
                None => None,
            },
            current_snapshot_exists,
        ),
{
    match mode {
        IndexMode::Full => RefreshAction::Build,
        IndexMode::Auto => match plan {
            None => RefreshAction::Build,
            Some(p) => if p.cache_hit {
                RefreshAction::Reuse { copy_forward: !current_snapshot_exists }
            } else {
                RefreshAction::Incremental
            },
        },
    }
}

} // verus!
