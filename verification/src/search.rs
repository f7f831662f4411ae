//! The search engine: filters, the relevance score, the semantic search over
//! ranked vector candidates, and the keyword search that stands in when no
//! embedding can be had.

use crate::errors::Result;
use crate::ranking::{before, bytes_before, ranked, sort_ranked, Ranked};
use crate::records::decode_memory;
use crate::region::{entries_view, lemma_readable_step, lists, readable, region_entries};
use crate::seqs::{keep_marked, lemma_filter_step, lemma_masked_is_filter, prefix};
use crate::storage::{get_memory, memory_reader, opt_principal, passes_owner, Store};
use crate::text::{
    char_is_whitespace, char_seqs, chars_contains, chars_trim, contains, from_chars, is_whitespace,
    lowercase, split_words, str_contains, to_chars, to_lowercase, trim, words,
};
use crate::types::{pairs, strs, Memory, MemoryView, Principal, Score, SearchResult, SCORE_ONE};
use crate::vector_store::{
    admitted, is_ranking, keep_first, key_of, wrong_dimension, AdvancedVectorStore, ScoredId,
};
use vstd::prelude::*;
use vstd::utf8::encode_utf8;

verus! {

impl Ranked for SearchResult {
    open spec fn weight(&self) -> int {
        self.similarity_score as int
    }

    open spec fn tie(&self) -> Seq<u8> {
        encode_utf8(self.memory.id@)
    }

    fn outranks(&self, other: &Self) -> (b: bool) {
        if self.similarity_score != other.similarity_score {
            self.similarity_score > other.similarity_score
        } else {
            bytes_before(
                self.memory.id.as_str().as_bytes(),
                other.memory.id.as_str().as_bytes(),
            )
        }
    }
}

/// Thirty days in seconds.
pub const THIRTY_DAYS: u64 = 2_592_000;

/// The score added for each metadata entry that holds the query.
pub const METADATA_BOOST: i64 = 100_000;

/// The score added for each tag that holds the query.
pub const TAG_BOOST: i64 = 200_000;

/// Whether a text holds the query, whatever the case: `low_query` is the
/// query in lower case.
pub open spec fn holds(text: Seq<char>, low_query: Seq<char>) -> bool {
    contains(lowercase(text), low_query)
}

pub open spec fn tag_holds(low_query: Seq<char>) -> spec_fn(Seq<char>) -> bool {
    |t: Seq<char>| holds(t, low_query)
}

pub open spec fn entry_holds(low_query: Seq<char>) -> spec_fn((Seq<char>, Seq<char>)) -> bool {
    |e: (Seq<char>, Seq<char>)| holds(e.0, low_query) || holds(e.1, low_query)
}

/// The age of what was made at `created_at`, in whole seconds at `now`.
pub open spec fn age_seconds(created_at: u64, now: u64) -> int {
    if now >= created_at {
        (now - created_at) / 1_000_000_000
    } else {
        0
    }
}

/// The recency factor in millionths: `1 + 0.1 * max(0, 1 - age / 30 days)`.
pub open spec fn recency_factor(created_at: u64, now: u64) -> int {
    let age = age_seconds(created_at, now);
    if age <= THIRTY_DAYS {
        1_000_000 + (100_000 * (THIRTY_DAYS - age)) / (THIRTY_DAYS as int)
    } else {
        1_000_000
    }
}

/// A score times a factor in millionths, rounded toward zero.
pub open spec fn scaled(score: int, factor: int) -> int {
    if score >= 0 {
        (score * factor) / 1_000_000
    } else {
        -(((-score) * factor) / 1_000_000)
    }
}

/// A number as a score: the nearest that a score can hold.
pub open spec fn as_score(x: int) -> Score {
    if x > i64::MAX {
        i64::MAX
    } else if x < i64::MIN {
        i64::MIN
    } else {
        x as i64
    }
}

/// The relevance of a memory for a query: the similarity, plus 0.1 for each
/// metadata entry whose key or value holds the query, plus 0.2 for each tag
/// that holds it, times the recency factor, and at most 1.
pub open spec fn relevance(m: MemoryView, query: Seq<char>, similarity: Score, now: u64) -> Score {
    let q = lowercase(query);
    let boosted = similarity + METADATA_BOOST * m.metadata.filter(entry_holds(q)).len() + TAG_BOOST
        * m.tags.filter(tag_holds(q)).len();
    let r = scaled(boosted, recency_factor(m.created_at, now));
    if r > SCORE_ONE {
        SCORE_ONE
    } else {
        as_score(r)
    }
}

/// The recency factor of what was made at `created_at`, in millionths.
pub fn calculate_recency_factor(created_at: u64, now: u64) -> (f: Score)
    ensures
        f == recency_factor(created_at, now),
        1_000_000 <= f <= 1_100_000,
{
    let age: u64 = if now >= created_at {
        (now - created_at) / 1_000_000_000
    } else {
        0
    };
    if age <= THIRTY_DAYS {
        let bonus: u64 = (100_000 * (THIRTY_DAYS - age)) / THIRTY_DAYS;
        (1_000_000 + bonus) as i64
    } else {
        1_000_000
    }
}

fn count_tag_hits(tags: &Vec<String>, low_query: &str) -> (n: usize)
    ensures
        n == strs(tags@).filter(tag_holds(low_query@)).len(),
{
    let ghost all = strs(tags@);
    let ghost pred = tag_holds(low_query@);
    let mut n: usize = 0;
    let mut i: usize = 0;
    proof {
        reveal(Seq::filter);
        assert(all.take(0).filter(pred).len() == 0);
    }
    while i < tags.len()
        invariant
            i <= tags@.len(),
            all == strs(tags@),
            pred == tag_holds(low_query@),
            n <= i,
            n == all.take(i as int).filter(pred).len(),
        decreases tags@.len() - i,
    {
        proof {
            lemma_filter_step(all, i as int, pred);
            assert(all[i as int] == tags@[i as int]@);
        }
        let low: String = to_lowercase(tags[i].as_str());
        if str_contains(low.as_str(), low_query) {
            n += 1;
        }
        i += 1;
    }
    assert(all.take(tags@.len() as int) == all);
    n
}

fn count_entry_hits(entries: &Vec<(String, String)>, low_query: &str) -> (n: usize)
    ensures
        n == pairs(entries@).filter(entry_holds(low_query@)).len(),
{
    let ghost all = pairs(entries@);
    let ghost pred = entry_holds(low_query@);
    let mut n: usize = 0;
    let mut i: usize = 0;
    proof {
        reveal(Seq::filter);
        assert(all.take(0).filter(pred).len() == 0);
    }
    while i < entries.len()
        invariant
            i <= entries@.len(),
            all == pairs(entries@),
            pred == entry_holds(low_query@),
            n <= i,
            n == all.take(i as int).filter(pred).len(),
        decreases entries@.len() - i,
    {
        proof {
            lemma_filter_step(all, i as int, pred);
            assert(all[i as int] == (entries@[i as int].0@, entries@[i as int].1@));
        }
        let low_key: String = to_lowercase(entries[i].0.as_str());
        let low_value: String = to_lowercase(entries[i].1.as_str());
        if str_contains(low_key.as_str(), low_query) || str_contains(low_value.as_str(), low_query) {
            n += 1;
        }
        i += 1;
    }
    assert(all.take(entries@.len() as int) == all);
    n
}

/// The relevance of a memory for a query, from the similarity that the
/// vector search gave it.
pub fn calculate_relevance_score(memory: &Memory, query: &str, similarity_score: Score, now: u64) -> (r:
    Score)
    ensures
        r == relevance(memory@, query@, similarity_score, now),
        r <= SCORE_ONE,
{
    let low: String = to_lowercase(query);
    let entry_hits: usize = count_entry_hits(&memory.metadata, low.as_str());
    let tag_hits: usize = count_tag_hits(&memory.tags, low.as_str());
    let factor: i64 = calculate_recency_factor(memory.created_at, now);
    let boost: i128 = 100_000i128 * (entry_hits as i128) + 200_000i128 * (tag_hits as i128);
    let boosted: i128 = (similarity_score as i128) + boost;
    let f: i128 = factor as i128;
    assert(-100_000_000_000_000_000_000_000_000 <= boosted <= 100_000_000_000_000_000_000_000_000);
    assert(boosted >= 0 ==> 0 <= boosted * f <= 100_000_000_000_000_000_000_000_000
        * 1_100_000) by (nonlinear_arith)
        requires
            boosted <= 100_000_000_000_000_000_000_000_000,
            1_000_000 <= f <= 1_100_000,
    ;
    assert(boosted < 0 ==> 0 <= (-boosted) * f <= 100_000_000_000_000_000_000_000_000
        * 1_100_000) by (nonlinear_arith)
        requires
            -100_000_000_000_000_000_000_000_000 <= boosted,
            1_000_000 <= f <= 1_100_000,
    ;
    let scaled_up: i128 = if boosted >= 0 {
        (boosted * f) / 1_000_000
    } else {
        -(((-boosted) * f) / 1_000_000)
    };
    if scaled_up > SCORE_ONE as i128 {
        SCORE_ONE
    } else if scaled_up < i64::MIN as i128 {
        i64::MIN
    } else {
        scaled_up as i64
    }
}

/// Whether one of the tags of a memory holds one of the wanted tags,
/// whatever the case.
pub open spec fn tag_hit(tags: Seq<Seq<char>>, wanted: Seq<Seq<char>>) -> bool {
    exists|i: int, j: int|
        0 <= i < wanted.len() && 0 <= j < tags.len() && contains(
            lowercase(#[trigger] tags[j]),
            lowercase(#[trigger] wanted[i]),
        )
}

/// A memory passes a tag filter when there is none, when it asks for no
/// tag, or when a tag of the memory holds a wanted tag.
pub open spec fn passes_tags(tags: Seq<Seq<char>>, wanted: Option<Seq<Seq<char>>>) -> bool {
    match wanted {
        Some(w) => w.len() == 0 || tag_hit(tags, w),
        None => true,
    }
}

/// The view of an optional list of strings.
pub open spec fn opt_strs(o: Option<Vec<String>>) -> Option<Seq<Seq<char>>> {
    match o {
        Some(v) => Some(strs(v@)),
        None => None,
    }
}

fn lowered(v: &Vec<String>) -> (r: Vec<String>)
    ensures
        r@.len() == v@.len(),
        forall|i: int| 0 <= i < v@.len() ==> (#[trigger] r@[i])@ == lowercase(v@[i]@),
{
    let mut r: Vec<String> = Vec::new();
    let mut i: usize = 0;
    while i < v.len()
        invariant
            i <= v@.len(),
            r@.len() == i,
            forall|k: int| 0 <= k < i ==> (#[trigger] r@[k])@ == lowercase(v@[k]@),
        decreases v@.len() - i,
    {
        r.push(to_lowercase(v[i].as_str()));
        i += 1;
    }
    r
}

/// Whether a memory with the given tags passes the tag filter.
#[verifier::loop_isolation(false)]
pub fn tags_pass(tags: &Vec<String>, wanted: &Option<Vec<String>>) -> (r: bool)
    ensures
        r == passes_tags(strs(tags@), opt_strs(*wanted)),
{
    let w: &Vec<String> = match wanted {
        Some(w) => w,
        None => {
            return true;
        },
    };
    if w.len() == 0 {
        return true;
    }
    let low_tags: Vec<String> = lowered(tags);
    let low_wanted: Vec<String> = lowered(w);
    let ghost ts = strs(tags@);
    let ghost ws = strs(w@);
    let mut i: usize = 0;
    while i < low_wanted.len()
        invariant
            i <= low_wanted@.len(),
            low_wanted@.len() == w@.len(),
            low_tags@.len() == tags@.len(),
            ts == strs(tags@),
            ws == strs(w@),
            forall|k: int| 0 <= k < tags@.len() ==> (#[trigger] low_tags@[k])@ == lowercase(ts[k]),
            forall|k: int| 0 <= k < w@.len() ==> (#[trigger] low_wanted@[k])@ == lowercase(ws[k]),
            forall|a: int, b: int|
                0 <= a < i && 0 <= b < ts.len() ==> !contains(
                    lowercase(#[trigger] ts[b]),
                    lowercase(#[trigger] ws[a]),
                ),
        decreases low_wanted@.len() - i,
    {
        let mut j: usize = 0;
        while j < low_tags.len()
            invariant
                j <= low_tags@.len(),
                i < low_wanted@.len(),
                low_wanted@.len() == w@.len(),
                low_tags@.len() == tags@.len(),
                ts == strs(tags@),
                ws == strs(w@),
                forall|k: int|
                    0 <= k < tags@.len() ==> (#[trigger] low_tags@[k])@ == lowercase(ts[k]),
                forall|k: int|
                    0 <= k < w@.len() ==> (#[trigger] low_wanted@[k])@ == lowercase(ws[k]),
                forall|b: int|
                    0 <= b < j ==> !contains(lowercase(#[trigger] ts[b]), lowercase(ws[i as int])),
            decreases low_tags@.len() - j,
        {
            assert(ts[j as int] == tags@[j as int]@);
            assert(ws[i as int] == w@[i as int]@);
            if str_contains(low_tags[j].as_str(), low_wanted[i].as_str()) {
                assert(contains(lowercase(ts[j as int]), lowercase(ws[i as int])));
                return true;
            }
            j += 1;
        }
        i += 1;
    }
    false
}

// ---------------------------------------------------------------------------
// Filters on results
// ---------------------------------------------------------------------------

/// What a caller may ask of search results.
pub struct SearchFilters {
    pub user_filter: Option<Principal>,
    pub tags: Option<Vec<String>>,
    pub metadata_filters: Option<Vec<(String, String)>>,
    /// The first and the last creation time that pass.
    pub date_range: Option<(u64, u64)>,
    pub min_similarity: Option<Score>,
}

/// The value of the first entry with the given key.
pub open spec fn metadata_value(entries: Seq<(Seq<char>, Seq<char>)>, key: Seq<char>) -> Option<
    Seq<char>,
> {
    crate::assoc::lookup(entries, key)
}

/// A memory passes a metadata filter when it has the key and its value
/// holds the wanted value, whatever the case.
pub open spec fn passes_entry(entries: Seq<(Seq<char>, Seq<char>)>, want: (Seq<char>, Seq<char>)) -> bool {
    match metadata_value(entries, want.0) {
        Some(v) => contains(lowercase(v), lowercase(want.1)),
        None => false,
    }
}

/// A memory passes the metadata filters when it passes each.
pub open spec fn passes_metadata(
    entries: Seq<(Seq<char>, Seq<char>)>,
    wanted: Option<Seq<(Seq<char>, Seq<char>)>>,
) -> bool {
    match wanted {
        Some(w) => passes_each(entries, w),
        None => true,
    }
}

/// A memory passes each of the wanted entries.
pub open spec fn passes_each(
    entries: Seq<(Seq<char>, Seq<char>)>,
    wanted: Seq<(Seq<char>, Seq<char>)>,
) -> bool {
    forall|i: int| 0 <= i < wanted.len() ==> passes_entry(entries, #[trigger] wanted[i])
}

/// Whether a result passes the filters.
pub open spec fn passes(filters: SearchFilters, r: SearchResult) -> bool {
    &&& match filters.user_filter {
        Some(u) => r.memory.user_id@ == u@,
        None => true,
    }
    &&& match filters.tags {
        Some(w) => tag_hit(strs(r.memory.tags@), strs(w@)),
        None => true,
    }
    &&& passes_metadata(
        pairs(r.memory.metadata@),
        match filters.metadata_filters {
            Some(w) => Some(pairs(w@)),
            None => None,
        },
    )
    &&& match filters.date_range {
        Some((start, end)) => start <= r.memory.created_at <= end,
        None => true,
    }
    &&& match filters.min_similarity {
        Some(min) => r.similarity_score >= min,
        None => true,
    }
}

pub open spec fn passing(filters: SearchFilters) -> spec_fn(SearchResult) -> bool {
    |r: SearchResult| passes(filters, r)
}

fn find_value(entries: &Vec<(String, String)>, key: &str) -> (r: Option<usize>)
    ensures
        match r {
            Some(i) => i < entries@.len() && metadata_value(pairs(entries@), key@) == Some(
                entries@[i as int].1@,
            ),
            None => metadata_value(pairs(entries@), key@) is None,
        },
{
    let ghost model = pairs(entries@);
    let mut i: usize = 0;
    while i < entries.len()
        invariant
            i <= entries@.len(),
            model == pairs(entries@),
            forall|j: int| 0 <= j < i ==> (#[trigger] model[j]).0 != key@,
        decreases entries@.len() - i,
    {
        assert(model[i as int] == (entries@[i as int].0@, entries@[i as int].1@));
        if crate::text::str_eq(entries[i].0.as_str(), key) {
            proof {
                crate::assoc::lemma_lookup_first(model, key@, i as int);
            }
            return Some(i);
        }
        i += 1;
    }
    proof {
        crate::assoc::lemma_lookup_absent(model, key@);
    }
    None
}

#[verifier::loop_isolation(false)]
fn metadata_pass(entries: &Vec<(String, String)>, wanted: &Option<Vec<(String, String)>>) -> (r:
    bool)
    ensures
        r == passes_metadata(
            pairs(entries@),
            match *wanted {
                Some(w) => Some(pairs(w@)),
                None => None,
            },
        ),
{
    let w: &Vec<(String, String)> = match wanted {
        Some(w) => w,
        None => {
            return true;
        },
    };
    let ghost ws = pairs(w@);
    let mut i: usize = 0;
    while i < w.len()
        invariant
            i <= w@.len(),
            ws == pairs(w@),
            ws.len() == w@.len(),
            forall|k: int| 0 <= k < i ==> passes_entry(pairs(entries@), #[trigger] ws[k]),
        decreases w@.len() - i,
    {
        assert(ws[i as int] == (w@[i as int].0@, w@[i as int].1@));
        match find_value(entries, w[i].0.as_str()) {
            Some(at) => {
                let low_value: String = to_lowercase(entries[at].1.as_str());
                let low_want: String = to_lowercase(w[i].1.as_str());
                if !str_contains(low_value.as_str(), low_want.as_str()) {
                    assert(!passes_entry(pairs(entries@), ws[i as int]));
                    assert(passes_each(pairs(entries@), ws) ==> passes_entry(
                        pairs(entries@),
                        ws[i as int],
                    ));
                    return false;
                }
            },
            None => {
                assert(!passes_entry(pairs(entries@), ws[i as int]));
                assert(passes_each(pairs(entries@), ws) ==> passes_entry(
                    pairs(entries@),
                    ws[i as int],
                ));
                return false;
            },
        }
        i += 1;
    }
    true
}

fn result_passes(r: &SearchResult, filters: &SearchFilters) -> (b: bool)
    ensures
        b == passes(*filters, *r),
{
    match &filters.user_filter {
        Some(u) => {
            if !r.memory.user_id.same(u) {
                return false;
            }
        },
        None => {},
    }
    match &filters.tags {
        Some(w) => {
            if w.len() == 0 {
                assert(!tag_hit(strs(r.memory.tags@), strs(w@)));
                return false;
            }
            if !tags_pass(&r.memory.tags, &filters.tags) {
                return false;
            }
        },
        None => {},
    }
    if !metadata_pass(&r.memory.metadata, &filters.metadata_filters) {
        return false;
    }
    match filters.date_range {
        Some((start, end)) => {
            if r.memory.created_at < start || r.memory.created_at > end {
                return false;
            }
        },
        None => {},
    }
    match filters.min_similarity {
        Some(min) => {
            if r.similarity_score < min {
                return false;
            }
        },
        None => {},
    }
    true
}

/// The results that pass the filters, in their order.
pub fn apply_search_filters(memories: Vec<SearchResult>, filters: &SearchFilters) -> (r: Vec<
    SearchResult,
>)
    ensures
        r@ == memories@.filter(passing(*filters)),
{
    let mut keep: Vec<bool> = Vec::new();
    let mut i: usize = 0;
    while i < memories.len()
        invariant
            i <= memories@.len(),
            keep@.len() == i,
            forall|k: int| 0 <= k < i ==> keep@[k] == passes(*filters, #[trigger] memories@[k]),
        decreases memories@.len() - i,
    {
        keep.push(result_passes(&memories[i], filters));
        i += 1;
    }
    proof {
        lemma_masked_is_filter(memories@, keep@, passing(*filters));
    }
    keep_marked(memories, &keep)
}

// ---------------------------------------------------------------------------
// Semantic search
// ---------------------------------------------------------------------------

/// Whether the memory of a candidate survives the filters of a semantic
/// search: its row reads, its owner is the wanted one, and its tags pass.
pub open spec fn survives(
    store: Store,
    id: Seq<char>,
    owner: Option<Seq<u8>>,
    wanted: Option<Seq<Seq<char>>>,
) -> bool {
    match store.memory(id) {
        Some(m) => (passes_owner(owner))(m) && passes_tags(m.tags, wanted),
        None => false,
    }
}

/// The survivors of a ranking of candidates, in its order, each with its
/// memory and its relevance.
pub open spec fn answers(
    store: Store,
    ranking: Seq<ScoredId>,
    owner: Option<Seq<u8>>,
    wanted: Option<Seq<Seq<char>>>,
    query: Seq<char>,
    now: u64,
) -> Seq<(MemoryView, Score)>
    decreases ranking.len(),
{
    if ranking.len() == 0 {
        Seq::empty()
    } else {
        let rest = answers(store, ranking.drop_last(), owner, wanted, query, now);
        let c = ranking.last();
        if survives(store, c.id@, owner, wanted) {
            rest.push(
                (store.memory(c.id@)->0, relevance(store.memory(c.id@)->0, query, c.score, now)),
            )
        } else {
            rest
        }
    }
}

/// The memories and scores of a list of results.
pub open spec fn result_views(v: Seq<SearchResult>) -> Seq<(MemoryView, Score)> {
    v.map_values(|r: SearchResult| (r.memory@, r.similarity_score))
}

/// Twice a limit, or the largest number.
pub open spec fn doubled(limit: usize) -> nat {
    if 2 * limit > usize::MAX {
        usize::MAX as nat
    } else {
        (2 * limit) as nat
    }
}

/// What a search by meaning answers: a query of the wrong dimension is
/// refused; else there is a ranking of the candidates, twice `limit` long,
/// whose survivors, ordered anew by their relevance, are the results, cut
/// to `limit`.
pub open spec fn semantic_outcome(
    store: Store,
    vectors: AdvancedVectorStore,
    query_vector: Seq<u32>,
    scores: Seq<ScoredId>,
    query: Seq<char>,
    limit: usize,
    owner: Option<Seq<u8>>,
    wanted: Option<Seq<Seq<char>>>,
    now: u64,
    r: Result<Vec<SearchResult>>,
) -> bool {
    match r {
        Ok(found) => query_vector.len() == vectors.config.dimension && found@.len() <= limit
            && ranked(found@) && exists|
            ranking: Seq<ScoredId>,
            picked: Seq<SearchResult>,
            sorted: Seq<SearchResult>,
        |
            #![trigger is_ranking(ranking, admitted(vectors.vectors@, scores), vectors.config.index_threshold, doubled(limit)), result_views(picked), ranked(sorted)]
            is_ranking(
                ranking,
                admitted(vectors.vectors@, scores),
                vectors.config.index_threshold,
                doubled(limit),
            ) && ranked(
                ranking,
            ) && result_views(picked) == answers(store, ranking, owner, wanted, query, now)
                && ranked(sorted) && sorted.to_multiset() == picked.to_multiset() && found@
                == prefix(sorted, limit as nat),
        Err(e) => query_vector.len() != vectors.config.dimension && e@ == wrong_dimension(),
    }
}

/// Searches by meaning with the scores that the caller computed for the
/// stored vectors.
///
/// The candidates that reach the threshold of the vector store are ranked,
/// and twice `limit` of them are looked at. A candidate survives when its
/// memory reads, belongs to `user_filter` if there is one, and passes the
/// tag filter. The survivors are ordered by falling relevance for `query`,
/// and by rising id among equal relevance, and the first `limit` of them
/// are returned.
pub fn semantic_search(
    store: &Store,
    vectors: &AdvancedVectorStore,
    query_vector: &[u32],
    scores: Vec<ScoredId>,
    query: &str,
    limit: usize,
    user_filter: Option<&Principal>,
    tags: &Option<Vec<String>>,
    now: u64,
) -> (r: Result<Vec<SearchResult>>)
    ensures
        semantic_outcome(
            *store,
            *vectors,
            query_vector@,
            scores@,
            query@,
            limit,
            opt_principal(user_filter),
            opt_strs(*tags),
            now,
            r,
        ),
{
    let wide: usize = if limit > usize::MAX / 2 {
        usize::MAX
    } else {
        2 * limit
    };
    let similar: Vec<ScoredId> = match vectors.search_similar(query_vector, scores, wide, None) {
        Ok(s) => s,
        Err(e) => {
            return Err(e);
        },
    };
    let ghost owner = opt_principal(user_filter);
    let ghost wanted = opt_strs(*tags);
    let mut out: Vec<SearchResult> = Vec::new();
    let mut i: usize = 0;
    assert(result_views(out@) =~= answers(*store, similar@.take(0), owner, wanted, query@, now));
    while i < similar.len()
        invariant
            i <= similar@.len(),
            owner == opt_principal(user_filter),
            wanted == opt_strs(*tags),
            result_views(out@) == answers(
                *store,
                similar@.take(i as int),
                owner,
                wanted,
                query@,
                now,
            ),
        decreases similar@.len() - i,
    {
        proof {
            assert(similar@.take(i + 1).drop_last() == similar@.take(i as int));
            assert(similar@.take(i + 1).last() == similar@[i as int]);
        }
        match get_memory(store, similar[i].id.as_str()) {
            Ok(Some(m)) => {
                let owner_ok: bool = match user_filter {
                    Some(u) => m.user_id.same(u),
                    None => true,
                };
                if owner_ok && tags_pass(&m.tags, tags) {
                    let score: Score = calculate_relevance_score(&m, query, similar[i].score, now);
                    let ghost before = out@;
                    let ghost mv = m@;
                    out.push(SearchResult { memory: m, similarity_score: score });
                    assert(result_views(out@) =~= result_views(before).push((mv, score)));
                }
            },
            Ok(None) => {},
            Err(_) => {},
        }
        i += 1;
    }
    assert(similar@.take(similar@.len() as int) == similar@);
    assert(wide as nat == doubled(limit));
    let ghost picked = out@;
    let sorted: Vec<SearchResult> = sort_ranked(out);
    let ghost sv = sorted@;
    let r = keep_first(sorted, limit);
    proof {
        assert(is_ranking(
            similar@,
            admitted(vectors.vectors@, scores@),
            vectors.config.index_threshold,
            doubled(limit),
        )
            && result_views(picked) == answers(*store, similar@, owner, wanted, query@, now)
            && ranked(sv) && sv.to_multiset() == picked.to_multiset());
        assert forall|x: int, y: int| 0 <= x < y < r@.len() implies before(
            #[trigger] r@[x],
            #[trigger] r@[y],
        ) by {
            assert(r@[x] == sv[x] && r@[y] == sv[y]);
        }
    }
    Ok(r)
}

/// A search is determined by what it is given: any two rankings of the
/// candidates that the store admits have the same survivors, with the same
/// relevance.
pub proof fn lemma_search_determined(
    store: Store,
    entries: Map<Seq<u8>, Seq<u8>>,
    first: Seq<ScoredId>,
    second: Seq<ScoredId>,
    candidates: Seq<ScoredId>,
    threshold: Score,
    limit: usize,
    owner: Option<Seq<u8>>,
    wanted: Option<Seq<Seq<char>>>,
    query: Seq<char>,
    now: u64,
)
    requires
        is_ranking(first, admitted(entries, candidates), threshold, doubled(limit)),
        is_ranking(second, admitted(entries, candidates), threshold, doubled(limit)),
    ensures
        first == second,
        answers(store, first, owner, wanted, query, now) == answers(
            store,
            second,
            owner,
            wanted,
            query,
            now,
        ),
{
    crate::vector_store::lemma_search_similar_determined(
        entries,
        candidates,
        first,
        second,
        threshold,
        doubled(limit),
    );
}

/// The id of the memory of a result.
pub open spec fn result_id() -> spec_fn((MemoryView, Score)) -> Seq<char> {
    |v: (MemoryView, Score)| v.0.id
}

/// The score of a result, as the weight by which results are ordered.
pub open spec fn result_weight() -> spec_fn((MemoryView, Score)) -> int {
    |v: (MemoryView, Score)| v.1 as int
}

/// The id of the memory of a result in bytes, as the key by which results
/// of equal score are ordered.
pub open spec fn result_tie() -> spec_fn((MemoryView, Score)) -> Seq<u8> {
    |v: (MemoryView, Score)| encode_utf8(v.0.id)
}

/// The view of a result.
pub open spec fn result_view() -> spec_fn(SearchResult) -> (MemoryView, Score) {
    |r: SearchResult| (r.memory@, r.similarity_score)
}

/// In a store whose rows stand under their ids, every survivor has the id
/// of its candidate.
proof fn lemma_answers_from(
    store: Store,
    ranking: Seq<ScoredId>,
    owner: Option<Seq<u8>>,
    wanted: Option<Seq<Seq<char>>>,
    query: Seq<char>,
    now: u64,
    i: int,
) -> (j: int)
    requires
        store.memories_indexed(),
        0 <= i < answers(store, ranking, owner, wanted, query, now).len(),
    ensures
        0 <= j < ranking.len(),
        ranking[j].id@ == answers(store, ranking, owner, wanted, query, now)[i].0.id,
    decreases ranking.len(),
{
    let rest = answers(store, ranking.drop_last(), owner, wanted, query, now);
    let c = ranking.last();
    if i < rest.len() {
        let j = lemma_answers_from(store, ranking.drop_last(), owner, wanted, query, now, i);
        assert(ranking.drop_last()[j] == ranking[j]);
        j
    } else {
        let m = store.memory(c.id@)->0;
        assert(store.memories@.contains_key(key_of(c.id@)));
        assert(key_of(m.id) == key_of(c.id@));
        crate::metadata::lemma_key_bytes(m.id, c.id@);
        ranking.len() - 1
    }
}

/// In a store whose rows stand under their ids, the survivors of
/// candidates of distinct ids are memories of distinct ids.
pub proof fn lemma_answers_distinct(
    store: Store,
    ranking: Seq<ScoredId>,
    owner: Option<Seq<u8>>,
    wanted: Option<Seq<Seq<char>>>,
    query: Seq<char>,
    now: u64,
)
    requires
        store.memories_indexed(),
        crate::seqs::distinct_by(ranking, crate::vector_store::id_of()),
    ensures
        crate::seqs::distinct_by(answers(store, ranking, owner, wanted, query, now), result_id()),
    decreases ranking.len(),
{
    let a = answers(store, ranking, owner, wanted, query, now);
    if ranking.len() > 0 {
        let front = ranking.drop_last();
        let rest = answers(store, front, owner, wanted, query, now);
        assert(crate::seqs::distinct_by(front, crate::vector_store::id_of())) by {
            assert forall|x: int, y: int| 0 <= x < y < front.len() implies (
            crate::vector_store::id_of())(#[trigger] front[x]) != (crate::vector_store::id_of())(
                #[trigger] front[y],
            ) by {
                assert(front[x] == ranking[x] && front[y] == ranking[y]);
            }
        }
        lemma_answers_distinct(store, front, owner, wanted, query, now);
        assert forall|x: int, y: int| 0 <= x < y < a.len() implies (result_id())(#[trigger] a[x])
            != (result_id())(#[trigger] a[y]) by {
            if y < rest.len() {
                assert(a[x] == rest[x] && a[y] == rest[y]);
            } else {
                assert(a[x] == rest[x]);
                let j = lemma_answers_from(store, front, owner, wanted, query, now, x);
                let k = lemma_answers_from(store, ranking, owner, wanted, query, now, y);
                assert(front[j] == ranking[j]);
                assert(a[y].0.id == ranking.last().id@) by {
                    let m = store.memory(ranking.last().id@)->0;
                    assert(store.memories@.contains_key(key_of(ranking.last().id@)));
                    crate::metadata::lemma_key_bytes(m.id, ranking.last().id@);
                }
                assert((crate::vector_store::id_of())(ranking[j]) != (crate::vector_store::id_of())(
                    ranking[ranking.len() - 1],
                ));
            }
        }
    }
}

/// A search by meaning is determined by what it is given: in a store whose
/// rows stand under their ids, any two answers to the same search hold the
/// same memories with the same scores in the same order.
pub proof fn lemma_semantic_search_determined(
    store: Store,
    vectors: AdvancedVectorStore,
    query_vector: Seq<u32>,
    scores: Seq<ScoredId>,
    query: Seq<char>,
    limit: usize,
    owner: Option<Seq<u8>>,
    wanted: Option<Seq<Seq<char>>>,
    now: u64,
    first: Result<Vec<SearchResult>>,
    second: Result<Vec<SearchResult>>,
)
    requires
        store.memories_indexed(),
        semantic_outcome(store, vectors, query_vector, scores, query, limit, owner, wanted, now, first),
        semantic_outcome(
            store,
            vectors,
            query_vector,
            scores,
            query,
            limit,
            owner,
            wanted,
            now,
            second,
        ),
    ensures
        first is Ok == second is Ok,
        first is Ok ==> result_views(first->Ok_0@) == result_views(second->Ok_0@),
        first is Err ==> first->Err_0@ == second->Err_0@,
{
    if first is Ok {
        let threshold = vectors.config.index_threshold;
        let cands = admitted(vectors.vectors@, scores);
        let (rank_a, picked_a, sorted_a) = choose|
            ranking: Seq<ScoredId>,
            picked: Seq<SearchResult>,
            sorted: Seq<SearchResult>,
        |
            #![trigger is_ranking(ranking, admitted(vectors.vectors@, scores), vectors.config.index_threshold, doubled(limit)), result_views(picked), ranked(sorted)]
            is_ranking(ranking, cands, threshold, doubled(limit)) && ranked(ranking)
                && result_views(picked) == answers(store, ranking, owner, wanted, query, now)
                && ranked(sorted) && sorted.to_multiset() == picked.to_multiset() && first->Ok_0@
                == prefix(sorted, limit as nat);
        let (rank_b, picked_b, sorted_b) = choose|
            ranking: Seq<ScoredId>,
            picked: Seq<SearchResult>,
            sorted: Seq<SearchResult>,
        |
            #![trigger is_ranking(ranking, admitted(vectors.vectors@, scores), vectors.config.index_threshold, doubled(limit)), result_views(picked), ranked(sorted)]
            is_ranking(ranking, cands, threshold, doubled(limit)) && ranked(ranking)
                && result_views(picked) == answers(store, ranking, owner, wanted, query, now)
                && ranked(sorted) && sorted.to_multiset() == picked.to_multiset() && second->Ok_0@
                == prefix(sorted, limit as nat);
        crate::vector_store::lemma_search_similar_determined(
            vectors.vectors@,
            scores,
            rank_a,
            rank_b,
            threshold,
            doubled(limit),
        );
        let a = answers(store, rank_a, owner, wanted, query, now);
        crate::vector_store::lemma_admitted_ids(vectors.vectors@, scores);
        crate::vector_store::lemma_ranking_distinct_ids(rank_a, cands, threshold, doubled(limit));
        lemma_answers_distinct(store, rank_a, owner, wanted, query, now);
        let views_a = result_views(sorted_a);
        let views_b = result_views(sorted_b);
        assert(result_views(sorted_a) == sorted_a.map_values(result_view()));
        assert(result_views(sorted_b) == sorted_b.map_values(result_view()));
        assert(result_views(picked_a) == picked_a.map_values(result_view()));
        assert(result_views(picked_b) == picked_b.map_values(result_view()));
        crate::seqs::lemma_map_permuted(sorted_a, picked_a, result_view());
        crate::seqs::lemma_map_permuted(sorted_b, picked_b, result_view());
        assert(views_a.to_multiset() == a.to_multiset());
        assert(views_b.to_multiset() == a.to_multiset());
        crate::seqs::lemma_distinct_permuted(a, views_a, result_id());
        assert(crate::ranking::distinct_by_rank(views_a, result_weight(), result_tie())) by {
            assert forall|i: int, j: int| 0 <= i < j < views_a.len() implies !((result_weight())(
                #[trigger] views_a[i],
            ) == (result_weight())(#[trigger] views_a[j]) && (result_tie())(views_a[i]) == (result_tie())(
                views_a[j],
            )) by {
                assert((result_id())(views_a[i]) != (result_id())(views_a[j]));
                if (result_tie())(views_a[i]) == (result_tie())(views_a[j]) {
                    crate::metadata::lemma_key_bytes(views_a[i].0.id, views_a[j].0.id);
                }
            }
        }
        assert(crate::ranking::ranked_by(views_a, result_weight(), result_tie())) by {
            assert forall|i: int, j: int| 0 <= i < j < views_a.len() implies crate::ranking::before_by(
                #[trigger] views_a[i],
                #[trigger] views_a[j],
                result_weight(),
                result_tie(),
            ) by {
                assert(before(sorted_a[i], sorted_a[j]));
            }
        }
        assert(crate::ranking::ranked_by(views_b, result_weight(), result_tie())) by {
            assert forall|i: int, j: int| 0 <= i < j < views_b.len() implies crate::ranking::before_by(
                #[trigger] views_b[i],
                #[trigger] views_b[j],
                result_weight(),
                result_tie(),
            ) by {
                assert(before(sorted_b[i], sorted_b[j]));
            }
        }
        crate::ranking::lemma_ranked_by_unique(views_a, views_b, result_weight(), result_tie());
        assert(result_views(prefix(sorted_a, limit as nat)) =~= prefix(views_a, limit as nat));
        assert(result_views(prefix(sorted_b, limit as nat)) =~= prefix(views_b, limit as nat));
    }
}

// ---------------------------------------------------------------------------
// Keyword search
// ---------------------------------------------------------------------------

/// Whether a word of the content holds the query word.
pub open spec fn word_found(content_words: Seq<Seq<char>>, w: Seq<char>) -> bool {
    exists|j: int| 0 <= j < content_words.len() && contains(#[trigger] content_words[j], w)
}

pub open spec fn found_in(content_words: Seq<Seq<char>>) -> spec_fn(Seq<char>) -> bool {
    |w: Seq<char>| word_found(content_words, w)
}

/// The share of the words of the query that a word of the content holds,
/// in millionths; nothing for a query without words.
pub open spec fn simple_similarity(query: Seq<char>, content: Seq<char>) -> Score {
    let qw = words(query);
    if qw.len() == 0 {
        0
    } else {
        ((qw.filter(found_in(words(content))).len() * 1_000_000) as int / (qw.len() as int)) as i64
    }
}

/// The share of the words of the query that occur in a word of the
/// content, in millionths.
pub fn calculate_simple_similarity(query: &str, content: &str) -> (r: Score)
    ensures
        r == simple_similarity(query@, content@),
        0 <= r <= SCORE_ONE,
{
    let qw: Vec<Vec<char>> = split_words(&to_chars(query));
    let cw: Vec<Vec<char>> = split_words(&to_chars(content));
    let ghost qs = words(query@);
    let ghost cs = words(content@);
    let ghost pred = found_in(cs);
    let mut hits: usize = 0;
    let mut i: usize = 0;
    proof {
        reveal(Seq::filter);
        assert(qs.take(0).filter(pred).len() == 0);
    }
    while i < qw.len()
        invariant
            i <= qw@.len(),
            qs == char_seqs(qw@),
            cs == char_seqs(cw@),
            pred == found_in(cs),
            hits <= i,
            hits == qs.take(i as int).filter(pred).len(),
        decreases qw@.len() - i,
    {
        proof {
            lemma_filter_step(qs, i as int, pred);
            assert(qs[i as int] == qw@[i as int]@);
        }
        let mut j: usize = 0;
        let mut found: bool = false;
        while j < cw.len() && !found
            invariant
                j <= cw@.len(),
                i < qw@.len(),
                cs == char_seqs(cw@),
                found ==> word_found(cs, qw@[i as int]@),
                !found ==> forall|k: int|
                    0 <= k < j ==> !contains(#[trigger] cs[k], qw@[i as int]@),
            decreases cw@.len() - j + (if found {
                0int
            } else {
                1int
            }),
        {
            assert(cs[j as int] == cw@[j as int]@);
            if chars_contains(&cw[j], &qw[i]) {
                found = true;
            } else {
                j += 1;
            }
        }
        if found {
            hits += 1;
        }
        i += 1;
    }
    assert(qs.take(qw@.len() as int) == qs);
    if qw.len() == 0 {
        0
    } else {
        let n: u128 = qw.len() as u128;
        let h: u128 = hits as u128;
        assert(h * 1_000_000 <= n * 1_000_000) by (nonlinear_arith)
            requires
                h <= n,
        ;
        assert((h as int * 1_000_000) / (n as int) <= 1_000_000) by (nonlinear_arith)
            requires
                h as int * 1_000_000 <= n as int * 1_000_000,
                n > 0,
        ;
        ((h * 1_000_000) / n) as i64
    }
}

/// A memory answers a keyword search when it passes the owner and tag
/// filters and its content holds the query, whatever the case.
pub open spec fn answers_keywords(
    query: Seq<char>,
    owner: Option<Seq<u8>>,
    wanted: Option<Seq<Seq<char>>>,
) -> spec_fn(MemoryView) -> bool {
    |m: MemoryView|
        (passes_owner(owner))(m) && passes_tags(m.tags, wanted) && contains(
            lowercase(m.content),
            lowercase(query),
        )
}

/// The memory of a keyword answer with its score.
pub open spec fn keyword_scored(query: Seq<char>) -> spec_fn(MemoryView) -> (MemoryView, Score) {
    |m: MemoryView| (m, simple_similarity(lowercase(query), lowercase(m.content)))
}

/// What a search by keyword answers: the rows that read and answer the
/// search, each with its score, in rank order and cut to `limit`.
pub open spec fn keyword_outcome(
    store: Store,
    query: Seq<char>,
    limit: usize,
    owner: Option<Seq<u8>>,
    wanted: Option<Seq<Seq<char>>>,
    r: Result<Vec<SearchResult>>,
) -> bool {
    r is Ok && ranked(r->Ok_0@) && r->Ok_0@.len() <= limit && exists|
        listing: Seq<(Seq<u8>, Seq<u8>)>,
        picked: Seq<SearchResult>,
        sorted: Seq<SearchResult>,
    |
        #![trigger lists(listing, store.memories@), result_views(picked), ranked(sorted)]
        lists(listing, store.memories@) && result_views(picked) == readable(
            listing,
            memory_reader(),
        ).filter(answers_keywords(query, owner, wanted)).map_values(keyword_scored(query))
            && ranked(sorted) && sorted.to_multiset() == picked.to_multiset() && r->Ok_0@
            == prefix(sorted, limit as nat)
}

/// Searches by keyword: the memories that pass the filters and whose
/// content holds the query, whatever the case, each with the share of the
/// query words that its content holds. The results are ordered by falling
/// score, and by rising id among equal scores, and cut to `limit`.
pub fn search_memories_simple(
    store: &Store,
    query: &str,
    limit: usize,
    tags: &Option<Vec<String>>,
    user_filter: Option<&Principal>,
) -> (r: Result<Vec<SearchResult>>)
    ensures
        r is Ok,
        ranked(r->Ok_0@),
        r->Ok_0@.len() <= limit,
        exists|listing: Seq<(Seq<u8>, Seq<u8>)>, picked: Seq<SearchResult>, sorted: Seq<SearchResult>|
            #![trigger lists(listing, store.memories@), result_views(picked), ranked(sorted)]
            lists(listing, store.memories@) && result_views(picked) == readable(
                listing,
                memory_reader(),
            ).filter(
                answers_keywords(query@, opt_principal(user_filter), opt_strs(*tags)),
            ).map_values(keyword_scored(query@)) && ranked(sorted) && sorted.to_multiset()
                == picked.to_multiset() && r->Ok_0@ == prefix(sorted, limit as nat),
        keyword_outcome(
            *store,
            query@,
            limit,
            opt_principal(user_filter),
            opt_strs(*tags),
            r,
        ),
{
    let low_query: String = to_lowercase(query);
    let entries: Vec<(Vec<u8>, Vec<u8>)> = region_entries(&store.memories);
    let ghost ev = entries_view(entries@);
    let ghost pred = answers_keywords(query@, opt_principal(user_filter), opt_strs(*tags));
    let ghost score = keyword_scored(query@);
    let mut out: Vec<SearchResult> = Vec::new();
    let mut i: usize = 0;
    proof {
        reveal(Seq::filter);
        assert(readable(ev.take(0), memory_reader()) =~= Seq::<MemoryView>::empty());
        assert(result_views(out@) =~= readable(ev.take(0), memory_reader()).filter(
            pred,
        ).map_values(score));
    }
    while i < entries.len()
        invariant
            i <= entries@.len(),
            ev == entries_view(entries@),
            pred == answers_keywords(query@, opt_principal(user_filter), opt_strs(*tags)),
            score == keyword_scored(query@),
            low_query@ == lowercase(query@),
            result_views(out@) == readable(ev.take(i as int), memory_reader()).filter(
                pred,
            ).map_values(score),
        decreases entries@.len() - i,
    {
        assert(ev[i as int] == (entries@[i as int].0@, entries@[i as int].1@));
        let ghost a = readable(ev.take(i as int), memory_reader());
        proof {
            lemma_readable_step(ev, i as int, memory_reader());
        }
        match decode_memory(entries[i].1.as_slice()) {
            Some(m) => {
                proof {
                    a.lemma_filter_push(m@, pred);
                }
                let owner_ok: bool = match user_filter {
                    Some(u) => m.user_id.same(u),
                    None => true,
                };
                if owner_ok && tags_pass(&m.tags, tags) {
                    let low_content: String = to_lowercase(m.content.as_str());
                    if str_contains(low_content.as_str(), low_query.as_str()) {
                        let s: Score = calculate_simple_similarity(
                            low_query.as_str(),
                            low_content.as_str(),
                        );
                        let ghost before = out@;
                        let ghost mv = m@;
                        out.push(SearchResult { memory: m, similarity_score: s });
                        proof {
                            assert(result_views(out@) =~= result_views(before).push((mv, s)));
                            assert(a.filter(pred).push(mv).map_values(score) =~= a.filter(
                                pred,
                            ).map_values(score).push(score(mv)));
                        }
                    }
                }
            },
            None => {},
        }
        i += 1;
    }
    assert(ev.take(entries@.len() as int) == ev);
    let ghost picked = out@;
    let sorted: Vec<SearchResult> = sort_ranked(out);
    let ghost sv = sorted@;
    let r = keep_first(sorted, limit);
    proof {
        assert(lists(ev, store.memories@) && ranked(sv) && sv.to_multiset()
            == picked.to_multiset());
        assert forall|x: int, y: int| 0 <= x < y < r@.len() implies before(
            #[trigger] r@[x],
            #[trigger] r@[y],
        ) by {
            assert(r@[x] == sv[x] && r@[y] == sv[y]);
        }
    }
    Ok(r)
}

/// The embedding of a query with the score that it gives every stored
/// vector.
pub struct EmbeddedQuery {
    pub vector: Vec<u32>,
    pub scores: Vec<ScoredId>,
}

/// Searches by meaning where the query was embedded, and by keyword where
/// its embedding failed.
pub fn generate_embedding_and_search(
    store: &Store,
    vectors: &AdvancedVectorStore,
    query: &str,
    embedded: Option<EmbeddedQuery>,
    limit: usize,
    user_filter: Option<&Principal>,
    tags: &Option<Vec<String>>,
    now: u64,
) -> (r: Result<Vec<SearchResult>>)
    ensures
        match embedded {
            Some(e) => semantic_outcome(
                *store,
                *vectors,
                e.vector@,
                e.scores@,
                query@,
                limit,
                opt_principal(user_filter),
                opt_strs(*tags),
                now,
                r,
            ),
            None => keyword_outcome(
                *store,
                query@,
                limit,
                opt_principal(user_filter),
                opt_strs(*tags),
                r,
            ),
        },
{
    match embedded {
        Some(e) => semantic_search(
            store,
            vectors,
            e.vector.as_slice(),
            e.scores,
            query,
            limit,
            user_filter,
            tags,
            now,
        ),
        None => search_memories_simple(store, query, limit, tags, user_filter),
    }
}

// ---------------------------------------------------------------------------
// Queries
// ---------------------------------------------------------------------------

/// Whether a character is a letter or a digit of any script, as
/// `char::is_alphanumeric` decides it.
pub uninterp spec fn alphanumeric(c: char) -> bool;

/// Whether the character is a letter or a digit of any script. Wraps
/// `char::is_alphanumeric`; the answer depends on the character alone, and
/// the contract only gives it a name.
#[verifier::external_body]
pub(crate) fn char_is_alphanumeric(c: char) -> (r: bool)
    ensures
        r == alphanumeric(c),
{
    c.is_alphanumeric()
}

/// The characters that a query keeps: letters, digits and white space.
pub open spec fn query_char() -> spec_fn(char) -> bool {
    |c: char| alphanumeric(c) || is_whitespace(c)
}

/// The words joined by single spaces.
pub open spec fn joined(ws: Seq<Seq<char>>) -> Seq<char>
    decreases ws.len(),
{
    if ws.len() == 0 {
        Seq::empty()
    } else if ws.len() == 1 {
        ws[0]
    } else {
        joined(ws.drop_last()) + seq![' '] + ws.last()
    }
}

/// A query made ready for search: trimmed, in lower case, without what is
/// neither letter, digit nor white space, its words joined by single
/// spaces.
pub open spec fn preprocessed(query: Seq<char>) -> Seq<char> {
    joined(words(lowercase(trim(query)).filter(query_char())))
}

/// The characters of a text in lower case that a query keeps.
fn keep_query_chars(chars: &Vec<char>) -> (kept: Vec<char>)
    ensures
        kept@ == chars@.filter(query_char()),
{
    let mut kept: Vec<char> = Vec::new();
    let mut i: usize = 0;
    proof {
        reveal(Seq::filter);
        assert(chars@.take(0).filter(query_char()) == Seq::<char>::empty());
    }
    while i < chars.len()
        invariant
            i <= chars@.len(),
            kept@ == chars@.take(i as int).filter(query_char()),
        decreases chars@.len() - i,
    {
        proof {
            lemma_filter_step(chars@, i as int, query_char());
        }
        let c: char = chars[i];
        if char_is_alphanumeric(c) || char_is_whitespace(c) {
            kept.push(c);
        }
        i += 1;
    }
    assert(chars@.take(chars@.len() as int) == chars@);
    kept
}

/// The words joined by single spaces.
pub fn join_words(ws: &Vec<Vec<char>>) -> (r: String)
    ensures
        r@ == joined(char_seqs(ws@)),
{
    let ghost all = char_seqs(ws@);
    let mut out: Vec<char> = Vec::new();
    let mut k: usize = 0;
    assert(joined(all.take(0)) == Seq::<char>::empty());
    while k < ws.len()
        invariant
            k <= ws@.len(),
            all == char_seqs(ws@),
            out@ == joined(all.take(k as int)),
        decreases ws@.len() - k,
    {
        proof {
            assert(all.take(k + 1).drop_last() == all.take(k as int));
            assert(all.take(k + 1).last() == ws@[k as int]@);
            if k == 0 {
                assert(all.take(1)[0] == ws@[0]@);
                assert(out@ + ws@[0]@ == ws@[0]@);
            }
        }
        if k > 0 {
            out.push(' ');
        }
        let mut j: usize = 0;
        let ghost start = out@;
        while j < ws[k].len()
            invariant
                j <= ws@[k as int]@.len(),
                k < ws@.len(),
                out@ == start + ws@[k as int]@.take(j as int),
            decreases ws@[k as int]@.len() - j,
        {
            out.push(ws[k][j]);
            assert(ws@[k as int]@.take(j + 1) == ws@[k as int]@.take(j as int).push(
                ws@[k as int]@[j as int],
            ));
            j += 1;
        }
        assert(ws@[k as int]@.take(ws@[k as int]@.len() as int) == ws@[k as int]@);
        proof {
            if k > 0 {
                assert(joined(all.take(k as int)).push(' ') == joined(all.take(k as int)) + seq![
                    ' ',
                ]);
            }
        }
        k += 1;
    }
    assert(all.take(ws@.len() as int) == all);
    from_chars(&out)
}

/// Makes a query ready for search.
pub fn preprocess_query(query: &str) -> (r: String)
    ensures
        r@ == preprocessed(query@),
{
    let trimmed: Vec<char> = chars_trim(&to_chars(query));
    let low: String = to_lowercase(from_chars(&trimmed).as_str());
    let kept: Vec<char> = keep_query_chars(&to_chars(low.as_str()));
    join_words(&split_words(&kept))
}

} // verus!
