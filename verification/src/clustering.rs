//! The clustering engine: grouping memories by category, by tag and by
//! time, and turning the assignments of a k-means run into clusters.
//!
//! Distances and centroids are floating-point work and belong to the
//! caller; the engine decides which memories take part, where the run
//! starts, which centroid is nearest, and what the clusters are.

use crate::assoc::{
    absent, distinct_keys, first_at, lemma_distinct_push, lemma_distinct_update,
    lemma_lookup_absent, lemma_lookup_first, lemma_lookup_push, lemma_lookup_update, lookup,
};
use crate::errors::{ErrorView, OpenMemoryError, Result};
use crate::seqs::lemma_filter_step;
use crate::storage::{get_memory, Store};
use crate::text::{
    contains, decimal, decimal_string, lowercase, push_str, str_contains, str_eq, str_to_string,
    to_lowercase,
};
use crate::types::{
    clone_strings, principal_text, strs, Memory, MemoryView, Principal, Score, SCORE_ONE,
};
use crate::vector_store::ids_contain;
use vstd::prelude::*;

verus! {

/// How a cluster came about.
#[derive(Debug, Clone, Copy, PartialEq, Eq, Structural)]
pub enum ClusterType {
    Automatic,
    Manual,
    Category,
    Temporal,
    Semantic,
}

/// How memories were clustered.
#[derive(Debug, Clone, Copy, PartialEq, Eq, Structural)]
pub enum ClusteringMethod {
    KMeans,
    DBSCAN,
    Hierarchical,
    ContentBased,
    TagBased,
    Temporal,
}

/// The length of a time bucket.
#[derive(Debug, Clone, Copy, PartialEq, Eq, Structural)]
pub enum TimePeriod {
    Day,
    Week,
    Month,
    Year,
}

/// A group of memories.
#[derive(Debug)]
pub struct MemoryCluster {
    pub id: String,
    pub name: String,
    pub description: String,
    pub memory_ids: Vec<String>,
    /// The mean of the embeddings of the members, as float bit patterns;
    /// empty when no member has one.
    pub centroid: Vec<u32>,
    pub tags: Vec<String>,
    pub created_at: u64,
    pub updated_at: u64,
    pub user_id: Principal,
    pub cluster_type: ClusterType,
}

/// A category of content with the keywords that mark it.
#[derive(Debug)]
pub struct MemoryCategory {
    pub id: String,
    pub name: String,
    pub description: String,
    pub keywords: Vec<String>,
    /// The least score, in millionths, at which a memory is of this
    /// category.
    pub confidence_threshold: Score,
    pub memory_count: usize,
    pub parent_category: Option<String>,
    pub subcategories: Vec<String>,
}

/// What a clustering gives.
#[derive(Debug)]
pub struct ClusteringResult {
    pub clusters: Vec<MemoryCluster>,
    pub unclustered_memories: Vec<String>,
    pub clustering_score: Score,
    pub method_used: ClusteringMethod,
}

/// The clusters that users stored, by id, and the ids of each user.
#[derive(Debug)]
pub struct ClusteringEngine {
    pub categories: Vec<MemoryCategory>,
    pub clusters: Vec<MemoryCluster>,
    pub user_clusters: Vec<(Principal, Vec<String>)>,
}

/// The refusal of a clustering into more clusters than there are memories.
pub open spec fn too_few() -> ErrorView {
    ErrorView::Validation {
        message: "Not enough memories for clustering"@,
        field: Some("memory_ids"@),
    }
}

/// The refusal of a clustering into no clusters.
pub open spec fn no_clusters() -> ErrorView {
    ErrorView::Validation { message: "Invalid input for k-means"@, field: Some("k"@) }
}

/// The refusal of a clustering without any embedding.
pub open spec fn no_embeddings() -> ErrorView {
    ErrorView::Validation {
        message: "No memories with embeddings found"@,
        field: Some("memory_ids"@),
    }
}

// ---------------------------------------------------------------------------
// Time buckets
// ---------------------------------------------------------------------------

/// The seconds of a period.
pub open spec fn period_seconds(p: TimePeriod) -> int {
    match p {
        TimePeriod::Day => 86_400,
        TimePeriod::Week => 604_800,
        TimePeriod::Month => 2_592_000,
        TimePeriod::Year => 31_536_000,
    }
}

/// The word of a period.
pub open spec fn period_word(p: TimePeriod) -> Seq<char> {
    match p {
        TimePeriod::Day => "day"@,
        TimePeriod::Week => "week"@,
        TimePeriod::Month => "month"@,
        TimePeriod::Year => "year"@,
    }
}

/// The time bucket of a moment: the number of whole periods before it.
pub open spec fn time_bucket(timestamp: u64, p: TimePeriod) -> nat {
    (((timestamp / 1_000_000_000) as int) / period_seconds(p)) as nat
}

/// The key of the time bucket of a moment: the word of the period, `_`,
/// and the number of the bucket.
pub open spec fn time_key(timestamp: u64, p: TimePeriod) -> Seq<char> {
    period_word(p) + "_"@ + decimal(time_bucket(timestamp, p))
}

/// The name of a time cluster.
pub open spec fn time_name(key: Seq<char>, p: TimePeriod) -> Seq<char> {
    (match p {
        TimePeriod::Day => "Daily memories: "@,
        TimePeriod::Week => "Weekly memories: "@,
        TimePeriod::Month => "Monthly memories: "@,
        TimePeriod::Year => "Yearly memories: "@,
    }) + key
}

/// The description of a cluster that k-means made.
pub open spec fn automatic_description(n: nat) -> Seq<char> {
    "Automatically generated cluster with "@ + decimal(n) + " memories"@
}

impl ClusteringEngine {
    /// The key of the time bucket of a moment.
    pub fn get_time_cluster_key(timestamp: u64, period: &TimePeriod) -> (r: String)
        ensures
            r@ == time_key(timestamp, *period),
    {
        let seconds: u64 = timestamp / 1_000_000_000;
        let (word, bucket): (&str, u64) = match period {
            TimePeriod::Day => ("day", seconds / 86_400),
            TimePeriod::Week => ("week", seconds / 604_800),
            TimePeriod::Month => ("month", seconds / 2_592_000),
            TimePeriod::Year => ("year", seconds / 31_536_000),
        };
        let mut r: String = str_to_string(word);
        push_str(&mut r, "_");
        let d: String = decimal_string(bucket);
        push_str(&mut r, d.as_str());
        r
    }

    /// The name of the cluster of a time bucket.
    pub fn format_time_cluster_name(time_key: &str, period: &TimePeriod) -> (r: String)
        ensures
            r@ == time_name(time_key@, *period),
    {
        let mut r: String = match period {
            TimePeriod::Day => str_to_string("Daily memories: "),
            TimePeriod::Week => str_to_string("Weekly memories: "),
            TimePeriod::Month => str_to_string("Monthly memories: "),
            TimePeriod::Year => str_to_string("Yearly memories: "),
        };
        push_str(&mut r, time_key);
        r
    }

    /// The description of a cluster that k-means made.
    pub fn generate_cluster_description(memory_ids: &Vec<String>) -> (r: String)
        ensures
            r@ == automatic_description(memory_ids@.len()),
    {
        let mut r: String = str_to_string("Automatically generated cluster with ");
        let d: String = decimal_string(memory_ids.len() as u64);
        push_str(&mut r, d.as_str());
        push_str(&mut r, " memories");
        r
    }
}

// ---------------------------------------------------------------------------
// Categories
// ---------------------------------------------------------------------------

/// The keywords of a category that occur in the content, whatever the
/// case.
pub open spec fn keyword_in(low_content: Seq<char>) -> spec_fn(Seq<char>) -> bool {
    |kw: Seq<char>| contains(low_content, lowercase(kw))
}

/// The tags that are, in lower case, a keyword of the category.
pub open spec fn tag_is_keyword(keywords: Seq<Seq<char>>) -> spec_fn(Seq<char>) -> bool {
    |tag: Seq<char>| keywords.contains(lowercase(tag))
}

/// Twice the score of a memory for a category, times the number of
/// keywords: two for each keyword in the content, one for each tag that is
/// a keyword.
pub open spec fn category_points(keywords: Seq<Seq<char>>, m: MemoryView) -> nat {
    2 * keywords.filter(keyword_in(lowercase(m.content))).len() + m.tags.filter(
        tag_is_keyword(keywords),
    ).len()
}

/// A memory is of a category when its score reaches the threshold: the
/// score is one part in as many as there are keywords for each keyword in
/// the content, and half of that for each tag that is a keyword.
pub open spec fn of_category(keywords: Seq<Seq<char>>, threshold: Score, m: MemoryView) -> bool {
    keywords.len() > 0 && category_points(keywords, m) * 1_000_000 >= threshold * 2
        * keywords.len()
}

/// The first category that a memory is of.
pub open spec fn first_category(cats: Seq<MemoryCategory>, m: MemoryView) -> Option<Seq<char>>
    decreases cats.len(),
{
    if cats.len() == 0 {
        None
    } else if of_category(strs(cats[0].keywords@), cats[0].confidence_threshold, m) {
        Some(cats[0].id@)
    } else {
        first_category(cats.drop_first(), m)
    }
}

/// The ids of the categories that come with the engine, in their order.
pub open spec fn predefined_ids() -> Seq<Seq<char>> {
    seq!["tech"@, "business"@, "personal"@, "reference"@]
}

fn keywords_of(a: &str, b: &str, c: &str, d: &str, e: &str, f: &str, g: &str, h: &str, i: &str) -> (r:
    Vec<String>)
    ensures
        strs(r@) == seq![a@, b@, c@, d@, e@, f@, g@, h@, i@],
{
    let mut r: Vec<String> = Vec::new();
    r.push(str_to_string(a));
    r.push(str_to_string(b));
    r.push(str_to_string(c));
    r.push(str_to_string(d));
    r.push(str_to_string(e));
    r.push(str_to_string(f));
    r.push(str_to_string(g));
    r.push(str_to_string(h));
    r.push(str_to_string(i));
    assert(strs(r@) =~= seq![a@, b@, c@, d@, e@, f@, g@, h@, i@]);
    r
}

fn category(
    id: &str,
    name: &str,
    description: &str,
    keywords: Vec<String>,
    threshold: Score,
    sub_a: &str,
    sub_b: &str,
) -> (c: MemoryCategory)
    ensures
        c.id@ == id@,
        c.name@ == name@,
        c.description@ == description@,
        c.keywords == keywords,
        c.confidence_threshold == threshold,
        c.memory_count == 0,
        c.parent_category is None,
        strs(c.subcategories@) == seq![sub_a@, sub_b@],
{
    let mut subs: Vec<String> = Vec::new();
    subs.push(str_to_string(sub_a));
    subs.push(str_to_string(sub_b));
    assert(strs(subs@) =~= seq![sub_a@, sub_b@]);
    MemoryCategory {
        id: str_to_string(id),
        name: str_to_string(name),
        description: str_to_string(description),
        keywords,
        confidence_threshold: threshold,
        memory_count: 0,
        parent_category: None,
        subcategories: subs,
    }
}

/// The ids of a list of categories.
pub open spec fn category_ids(cats: Seq<MemoryCategory>) -> Seq<Seq<char>> {
    cats.map_values(|c: MemoryCategory| c.id@)
}

impl ClusteringEngine {
    /// The registry of clusters is a map: no two clusters have the same id,
    /// and no user has two lists of clusters.
    pub open spec fn wf(&self) -> bool {
        &&& distinct_keys(cluster_model(self.clusters@))
        &&& distinct_keys(user_cluster_model(self.user_clusters@))
    }

    /// An engine without categories and without clusters.
    pub fn new() -> (e: Self)
        ensures
            e.categories@.len() == 0,
            e.clusters@.len() == 0,
            e.user_clusters@.len() == 0,
            e.wf(),
    {
        ClusteringEngine {
            categories: Vec::new(),
            clusters: Vec::new(),
            user_clusters: Vec::new(),
        }
    }

    /// Sets the categories that come with the engine: technology, business,
    /// personal and reference, each with nine keywords; a memory is personal
    /// from a score of 0.6 and of the others from 0.7.
    pub fn init_categories(&mut self)
        ensures
            final(self).clusters == old(self).clusters,
            final(self).user_clusters == old(self).user_clusters,
            old(self).wf() ==> final(self).wf(),
            category_ids(final(self).categories@) == predefined_ids(),
            strs(final(self).categories@[0].keywords@) == seq![
                "programming"@,
                "software"@,
                "technology"@,
                "code"@,
                "algorithm"@,
                "database"@,
                "API"@,
                "framework"@,
                "library"@,
            ],
            strs(final(self).categories@[1].keywords@) == seq![
                "business"@,
                "strategy"@,
                "management"@,
                "marketing"@,
                "finance"@,
                "company"@,
                "revenue"@,
                "investment"@,
                "market"@,
            ],
            strs(final(self).categories@[2].keywords@) == seq![
                "personal"@,
                "private"@,
                "diary"@,
                "thought"@,
                "idea"@,
                "reflection"@,
                "experience"@,
                "memory"@,
                "feeling"@,
            ],
            strs(final(self).categories@[3].keywords@) == seq![
                "reference"@,
                "documentation"@,
                "guide"@,
                "manual"@,
                "fact"@,
                "definition"@,
                "instruction"@,
                "tutorial"@,
                "how-to"@,
            ],
            final(self).categories@[0].confidence_threshold == 700_000,
            final(self).categories@[1].confidence_threshold == 700_000,
            final(self).categories@[2].confidence_threshold == 600_000,
            final(self).categories@[3].confidence_threshold == 700_000,
            final(self).categories@[0].name@ == "Technology"@,
            final(self).categories@[1].name@ == "Business"@,
            final(self).categories@[2].name@ == "Personal"@,
            final(self).categories@[3].name@ == "Reference"@,
    {
        let mut cats: Vec<MemoryCategory> = Vec::new();
        cats.push(
            category(
                "tech",
                "Technology",
                "Technical information, programming, software, and tech concepts",
                keywords_of(
                    "programming",
                    "software",
                    "technology",
                    "code",
                    "algorithm",
                    "database",
                    "API",
                    "framework",
                    "library",
                ),
                700_000,
                "programming",
                "infrastructure",
            ),
        );
        cats.push(
            category(
                "business",
                "Business",
                "Business concepts, strategy, management, and professional topics",
                keywords_of(
                    "business",
                    "strategy",
                    "management",
                    "marketing",
                    "finance",
                    "company",
                    "revenue",
                    "investment",
                    "market",
                ),
                700_000,
                "strategy",
                "finance",
            ),
        );
        cats.push(
            category(
                "personal",
                "Personal",
                "Personal notes, thoughts, experiences, and private information",
                keywords_of(
                    "personal",
                    "private",
                    "diary",
                    "thought",
                    "idea",
                    "reflection",
                    "experience",
                    "memory",
                    "feeling",
                ),
                600_000,
                "thoughts",
                "experiences",
            ),
        );
        cats.push(
            category(
                "reference",
                "Reference",
                "Reference materials, documentation, and factual information",
                keywords_of(
                    "reference",
                    "documentation",
                    "guide",
                    "manual",
                    "fact",
                    "definition",
                    "instruction",
                    "tutorial",
                    "how-to",
                ),
                700_000,
                "docs",
                "tutorials",
            ),
        );
        assert(category_ids(cats@) =~= predefined_ids());
        self.categories = cats;
    }

    /// The first category, in the order of the registry, that the memory is
    /// of.
    pub fn classify_memory(&self, memory: &Memory) -> (r: Option<String>)
        ensures
            match r {
                Some(id) => first_category(self.categories@, memory@) == Some(id@),
                None => first_category(self.categories@, memory@) is None,
            },
    {
        let low_content: String = to_lowercase(memory.content.as_str());
        let low_tags: Vec<String> = {
            let mut v: Vec<String> = Vec::new();
            let mut t: usize = 0;
            while t < memory.tags.len()
                invariant
                    t <= memory.tags@.len(),
                    v@.len() == t,
                    forall|k: int|
                        0 <= k < t ==> (#[trigger] v@[k])@ == lowercase(memory.tags@[k]@),
                decreases memory.tags@.len() - t,
            {
                v.push(to_lowercase(memory.tags[t].as_str()));
                t += 1;
            }
            v
        };
        let ghost cats = self.categories@;
        let mut c: usize = 0;
        assert(cats.skip(0) == cats);
        while c < self.categories.len()
            invariant
                c <= cats.len(),
                cats == self.categories@,
                low_content@ == lowercase(memory.content@),
                low_tags@.len() == memory.tags@.len(),
                forall|k: int|
                    0 <= k < low_tags@.len() ==> (#[trigger] low_tags@[k])@ == lowercase(
                        memory.tags@[k]@,
                    ),
                first_category(cats, memory@) == first_category(cats.skip(c as int), memory@),
            decreases cats.len() - c,
        {
            let cat: &MemoryCategory = &self.categories[c];
            let ghost kws = strs(cat.keywords@);
            proof {
                assert(cats.skip(c as int)[0] == cats[c as int]);
                assert(cats.skip(c as int).drop_first() == cats.skip(c + 1));
            }
            let mut in_content: usize = 0;
            let mut k: usize = 0;
            proof {
                reveal(Seq::filter);
                assert(kws.take(0).filter(keyword_in(low_content@)).len() == 0);
            }
            while k < cat.keywords.len()
                invariant
                    k <= cat.keywords@.len(),
                    kws == strs(cat.keywords@),
                    in_content <= k,
                    in_content == kws.take(k as int).filter(keyword_in(low_content@)).len(),
                decreases cat.keywords@.len() - k,
            {
                proof {
                    lemma_filter_step(kws, k as int, keyword_in(low_content@));
                    assert(kws[k as int] == cat.keywords@[k as int]@);
                }
                let low_kw: String = to_lowercase(cat.keywords[k].as_str());
                if str_contains(low_content.as_str(), low_kw.as_str()) {
                    in_content += 1;
                }
                k += 1;
            }
            assert(kws.take(cat.keywords@.len() as int) == kws);
            let ghost tags = strs(memory.tags@);
            let mut tag_hits: usize = 0;
            let mut t: usize = 0;
            proof {
                reveal(Seq::filter);
                assert(tags.take(0).filter(tag_is_keyword(kws)).len() == 0);
            }
            while t < low_tags.len()
                invariant
                    t <= low_tags@.len(),
                    low_tags@.len() == memory.tags@.len(),
                    tags == strs(memory.tags@),
                    kws == strs(cat.keywords@),
                    forall|j: int|
                        0 <= j < low_tags@.len() ==> (#[trigger] low_tags@[j])@ == lowercase(
                            memory.tags@[j]@,
                        ),
                    tag_hits <= t,
                    tag_hits == tags.take(t as int).filter(tag_is_keyword(kws)).len(),
                decreases low_tags@.len() - t,
            {
                proof {
                    lemma_filter_step(tags, t as int, tag_is_keyword(kws));
                    assert(tags[t as int] == memory.tags@[t as int]@);
                }
                if ids_contain(&cat.keywords, low_tags[t].as_str()) {
                    tag_hits += 1;
                }
                t += 1;
            }
            assert(tags.take(low_tags@.len() as int) == tags);
            let n: u128 = cat.keywords.len() as u128;
            let points: u128 = 2 * (in_content as u128) + (tag_hits as u128);
            let fits: bool = if n == 0 {
                false
            } else if cat.confidence_threshold <= 0 {
                true
            } else {
                let t: u128 = cat.confidence_threshold as u128;
                assert(t * 2 * n <= 0xffff_ffff_ffff_ffff_ffff_ffff_ffff_ffff) by (nonlinear_arith)
                    requires
                        t <= 0x7fff_ffff_ffff_ffff,
                        n <= 0xffff_ffff_ffff_ffff,
                ;
                let need: u128 = t * 2 * n;
                points * 1_000_000 >= need
            };
            proof {
                assert(points == category_points(kws, memory@));
                if n > 0 && cat.confidence_threshold <= 0 {
                    assert(cat.confidence_threshold * 2 * (n as int) <= 0) by (nonlinear_arith)
                        requires
                            cat.confidence_threshold <= 0,
                            n > 0,
                    ;
                }
            }
            if fits {
                return Some(cat.id.clone());
            }
            c += 1;
        }
        None
    }
}

// ---------------------------------------------------------------------------
// Grouping
// ---------------------------------------------------------------------------

/// An id with the key of its group; without a key it stays unclustered.
pub struct Keyed {
    pub id: String,
    pub key: Option<String>,
}

/// The view of a keyed id.
pub open spec fn keyed_view(k: Keyed) -> (Seq<char>, Option<Seq<char>>) {
    (
        k.id@,
        match k.key {
            Some(s) => Some(s@),
            None => None,
        },
    )
}

pub open spec fn keyed_views(v: Seq<Keyed>) -> Seq<(Seq<char>, Option<Seq<char>>)> {
    v.map_values(|k: Keyed| keyed_view(k))
}

pub open spec fn has_key(key: Seq<char>) -> spec_fn((Seq<char>, Option<Seq<char>>)) -> bool {
    |it: (Seq<char>, Option<Seq<char>>)| it.1 == Some(key)
}

pub open spec fn keyless() -> spec_fn((Seq<char>, Option<Seq<char>>)) -> bool {
    |it: (Seq<char>, Option<Seq<char>>)| it.1 is None
}

pub open spec fn id_of() -> spec_fn((Seq<char>, Option<Seq<char>>)) -> Seq<char> {
    |it: (Seq<char>, Option<Seq<char>>)| it.0
}

/// The ids with the given key, in order.
pub open spec fn members(items: Seq<(Seq<char>, Option<Seq<char>>)>, key: Seq<char>) -> Seq<
    Seq<char>,
> {
    items.filter(has_key(key)).map_values(id_of())
}

/// The ids without a key, in order.
pub open spec fn leftover(items: Seq<(Seq<char>, Option<Seq<char>>)>) -> Seq<Seq<char>> {
    items.filter(keyless()).map_values(id_of())
}

/// The groups as an association list from key to ids.
pub open spec fn group_model(gs: Seq<(String, Vec<String>)>) -> Seq<(Seq<char>, Seq<Seq<char>>)> {
    gs.map_values(|g: (String, Vec<String>)| (g.0@, strs(g.1@)))
}

/// The groups hold, for every key, the ids with that key, and no group is
/// empty or stands twice.
pub open spec fn groups_of(
    gs: Seq<(String, Vec<String>)>,
    items: Seq<(Seq<char>, Option<Seq<char>>)>,
) -> bool {
    &&& forall|key: Seq<char>|
        #[trigger] lookup(group_model(gs), key) == if members(items, key).len() > 0 {
            Some(members(items, key))
        } else {
            None
        }
    &&& forall|i: int, j: int|
        0 <= i < j < gs.len() ==> (#[trigger] gs[i]).0@ != (#[trigger] gs[j]).0@
}

fn find_group(gs: &Vec<(String, Vec<String>)>, key: &str) -> (r: Option<usize>)
    ensures
        match r {
            Some(i) => first_at(group_model(gs@), key@, i as int),
            None => absent(group_model(gs@), key@),
        },
{
    let mut i: usize = 0;
    while i < gs.len()
        invariant
            i <= gs@.len(),
            forall|j: int| 0 <= j < i ==> (#[trigger] group_model(gs@)[j]).0 != key@,
        decreases gs@.len() - i,
    {
        assert(group_model(gs@)[i as int].0 == gs@[i as int].0@);
        if str_eq(gs[i].0.as_str(), key) {
            return Some(i);
        }
        i += 1;
    }
    None
}

/// Groups ids by key, the groups in the order in which their keys first
/// occur, the ids of each group and the ids without a key in their order.
pub fn group_by_key(items: Vec<Keyed>) -> (r: (Vec<(String, Vec<String>)>, Vec<String>))
    ensures
        groups_of(r.0@, keyed_views(items@)),
        strs(r.1@) == leftover(keyed_views(items@)),
{
    let ghost all = keyed_views(items@);
    let mut groups: Vec<(String, Vec<String>)> = Vec::new();
    let mut rest: Vec<String> = Vec::new();
    let mut i: usize = 0;
    proof {
        reveal(Seq::filter);
        assert(strs(rest@) =~= leftover(all.take(0)));
        assert forall|key: Seq<char>|
            #[trigger] lookup(group_model(groups@), key) == if members(all.take(0), key).len()
                > 0 {
                Some(members(all.take(0), key))
            } else {
                None
            } by {
            assert(all.take(0).filter(has_key(key)) == Seq::<
                (Seq<char>, Option<Seq<char>>),
            >::empty());
        }
    }
    while i < items.len()
        invariant
            i <= items@.len(),
            all == keyed_views(items@),
            groups_of(groups@, all.take(i as int)),
            strs(rest@) == leftover(all.take(i as int)),
        decreases items@.len() - i,
    {
        let ghost done = all.take(i as int);
        let ghost model = group_model(groups@);
        let ghost gs = groups@;
        let ghost it = all[i as int];
        assert(it == keyed_view(items@[i as int]));
        assert(all.take(i + 1) == done.push(it));
        match &items[i].key {
            None => {
                let ghost before = rest@;
                rest.push(items[i].id.clone());
                proof {
                    assert(strs(rest@) == strs(before).push(it.0));
                    done.lemma_filter_push(it, keyless());
                    assert(done.filter(keyless()).push(it).map_values(id_of()) =~= done.filter(
                        keyless(),
                    ).map_values(id_of()).push(it.0));
                    assert forall|key: Seq<char>|
                        #[trigger] lookup(group_model(groups@), key) == if members(
                            done.push(it),
                            key,
                        ).len() > 0 {
                            Some(members(done.push(it), key))
                        } else {
                            None
                        } by {
                        done.lemma_filter_push(it, has_key(key));
                        assert(lookup(model, key) == if members(done, key).len() > 0 {
                            Some(members(done, key))
                        } else {
                            None
                        });
                    }
                }
            },
            Some(k) => {
                proof {
                    done.lemma_filter_push(it, keyless());
                }
                match find_group(&groups, k.as_str()) {
                    Some(at) => {
                        let (gk, mut ids): (String, Vec<String>) = groups.remove(at);
                        let ghost old_ids = strs(ids@);
                        let ghost bi = ids@;
                        ids.push(items[i].id.clone());
                        assert(strs(ids@) == strs(bi).push(it.0));
                        let ghost new_ids = strs(ids@);
                        groups.insert(at, (gk, ids));
                        proof {
                            lemma_lookup_first(model, k@, at as int);
                            assert(model[at as int] == (k@, old_ids));
                            assert(group_model(groups@) =~= model.update(at as int, (k@, new_ids)));
                            assert(lookup(model, k@) == if members(done, k@).len() > 0 {
                                Some(members(done, k@))
                            } else {
                                None
                            });
                            assert forall|key: Seq<char>|
                                #[trigger] lookup(group_model(groups@), key) == if members(
                                    done.push(it),
                                    key,
                                ).len() > 0 {
                                    Some(members(done.push(it), key))
                                } else {
                                    None
                                } by {
                                lemma_lookup_update(model, k@, at as int, new_ids, key);
                                done.lemma_filter_push(it, has_key(key));
                                assert(lookup(model, key) == if members(done, key).len() > 0 {
                                    Some(members(done, key))
                                } else {
                                    None
                                });
                                if key == k@ {
                                    assert(done.filter(has_key(key)).push(it).map_values(id_of())
                                        =~= done.filter(has_key(key)).map_values(id_of()).push(
                                        it.0,
                                    ));
                                }
                            }
                            assert forall|x: int, y: int| 0 <= x < y < groups@.len() implies (
                            #[trigger] groups@[x]).0@ != (#[trigger] groups@[y]).0@ by {
                                assert(groups@[x].0@ == gs[x].0@);
                                assert(groups@[y].0@ == gs[y].0@);
                            }
                        }
                    },
                    None => {
                        let mut ids: Vec<String> = Vec::new();
                        ids.push(items[i].id.clone());
                        assert(strs(ids@) =~= seq![it.0]);
                        let ghost new_ids = strs(ids@);
                        groups.push((k.clone(), ids));
                        proof {
                            lemma_lookup_absent(model, k@);
                            assert(group_model(groups@) =~= model.push((k@, new_ids)));
                            assert(lookup(model, k@) == if members(done, k@).len() > 0 {
                                Some(members(done, k@))
                            } else {
                                None
                            });
                            assert forall|key: Seq<char>|
                                #[trigger] lookup(group_model(groups@), key) == if members(
                                    done.push(it),
                                    key,
                                ).len() > 0 {
                                    Some(members(done.push(it), key))
                                } else {
                                    None
                                } by {
                                lemma_lookup_push(model, k@, new_ids, key);
                                done.lemma_filter_push(it, has_key(key));
                                assert(lookup(model, key) == if members(done, key).len() > 0 {
                                    Some(members(done, key))
                                } else {
                                    None
                                });
                                if key == k@ {
                                    assert(done.filter(has_key(key)).len() == 0);
                                    assert(done.filter(has_key(key)).push(it).map_values(id_of())
                                        =~= seq![it.0]);
                                }
                            }
                            assert forall|x: int, y: int| 0 <= x < y < groups@.len() implies (
                            #[trigger] groups@[x]).0@ != (#[trigger] groups@[y]).0@ by {
                                if y == gs.len() {
                                    assert(model[x].0 == gs[x].0@);
                                } else {
                                    assert(groups@[x] == gs[x] && groups@[y] == gs[y]);
                                }
                            }
                        }
                    },
                }
            },
        }
        i += 1;
    }
    assert(all.take(items@.len() as int) == all);
    (groups, rest)
}

// ---------------------------------------------------------------------------
// Clusterings by category, tag and time
// ---------------------------------------------------------------------------

/// The ids of the memories that read, each with the key that `key_of`
/// gives its memory.
pub open spec fn keyed_present(
    store: Store,
    ids: Seq<Seq<char>>,
    key_of: spec_fn(MemoryView) -> Option<Seq<char>>,
) -> Seq<(Seq<char>, Option<Seq<char>>)>
    decreases ids.len(),
{
    if ids.len() == 0 {
        Seq::empty()
    } else {
        let rest = keyed_present(store, ids.drop_last(), key_of);
        match store.memory(ids.last()) {
            Some(m) => rest.push((ids.last(), key_of(m))),
            None => rest,
        }
    }
}

/// The key of a memory in a clustering by tag: its first tag.
pub open spec fn first_tag() -> spec_fn(MemoryView) -> Option<Seq<char>> {
    |m: MemoryView|
        if m.tags.len() > 0 {
            Some(m.tags[0])
        } else {
            None
        }
}

/// The key of a memory in a clustering by time: its time bucket.
pub open spec fn bucket_of(p: TimePeriod) -> spec_fn(MemoryView) -> Option<Seq<char>> {
    |m: MemoryView| Some(time_key(m.created_at, p))
}

/// The key of a memory in a clustering by content: its category.
pub open spec fn category_of(cats: Seq<MemoryCategory>) -> spec_fn(MemoryView) -> Option<Seq<char>> {
    |m: MemoryView| first_category(cats, m)
}

/// The id of a cluster: its kind, the owner and the key of the group.
pub open spec fn cluster_id(kind: Seq<char>, owner: Seq<u8>, key: Seq<char>) -> Seq<char> {
    kind + "_"@ + principal_text(owner) + "_"@ + key
}

/// The cluster `c` of kind `kind` stands for the group of `key` among the
/// items.
pub open spec fn stands_for(
    c: MemoryCluster,
    kind: Seq<char>,
    kind_type: ClusterType,
    owner: Seq<u8>,
    key: Seq<char>,
    items: Seq<(Seq<char>, Option<Seq<char>>)>,
    now: u64,
) -> bool {
    &&& c.id@ == cluster_id(kind, owner, key)
    &&& strs(c.memory_ids@) == members(items, key)
    &&& c.memory_ids@.len() > 0
    &&& c.user_id@ == owner
    &&& c.cluster_type == kind_type
    &&& c.created_at == now
    &&& c.updated_at == now
    &&& c.centroid@.len() == 0
}

/// The clusters stand for the groups of the items: one cluster for every
/// key that an item has, none twice, and the ids without a key left over.
pub open spec fn clustered(
    r: ClusteringResult,
    kind: Seq<char>,
    kind_type: ClusterType,
    owner: Seq<u8>,
    items: Seq<(Seq<char>, Option<Seq<char>>)>,
    now: u64,
    detail: spec_fn(MemoryCluster, Seq<char>) -> bool,
) -> bool {
    &&& strs(r.unclustered_memories@) == leftover(items)
    &&& exists|keys: Seq<Seq<char>>| #[trigger]
        keyed_by(keys, r, kind, kind_type, owner, items, now, detail)
}

/// The clusters stand, one by one, for the groups of the given keys, which
/// are all the keys that an item has, none twice.
pub open spec fn keyed_by(
    keys: Seq<Seq<char>>,
    r: ClusteringResult,
    kind: Seq<char>,
    kind_type: ClusterType,
    owner: Seq<u8>,
    items: Seq<(Seq<char>, Option<Seq<char>>)>,
    now: u64,
    detail: spec_fn(MemoryCluster, Seq<char>) -> bool,
) -> bool {
    &&& keys.len() == r.clusters@.len()
    &&& forall|i: int| 0 <= i < keys.len() ==> detail(r.clusters@[i], #[trigger] keys[i])
    &&& forall|i: int, j: int|
        0 <= i < j < keys.len() ==> (#[trigger] keys[i]) != (#[trigger] keys[j])
    &&& forall|i: int|
        0 <= i < keys.len() ==> stands_for(
            r.clusters@[i],
            kind,
            kind_type,
            owner,
            #[trigger] keys[i],
            items,
            now,
        )
    &&& forall|key: Seq<char>| #[trigger] members(items, key).len() > 0 ==> keys.contains(key)
}

/// What a cluster by tag says of itself: its tag, and name and description
/// made of the tag.
pub open spec fn tag_detail() -> spec_fn(MemoryCluster, Seq<char>) -> bool {
    |c: MemoryCluster, key: Seq<char>|
        strs(c.tags@) == seq![key] && c.name@ == "#"@ + key && c.description@
            == "Memories tagged with '"@ + key + "'"@
}

/// What a cluster by time says of itself: name and description made of the
/// key of its bucket, and no tags.
pub open spec fn time_detail(p: TimePeriod) -> spec_fn(MemoryCluster, Seq<char>) -> bool {
    |c: MemoryCluster, key: Seq<char>|
        c.tags@.len() == 0 && c.name@ == time_name(key, p) && c.description@ == "Memories from "@
            + key
}

/// The position of the first category with the given id, or the number of
/// categories if there is none.
pub open spec fn category_index(cats: Seq<MemoryCategory>, id: Seq<char>) -> int
    decreases cats.len(),
{
    if cats.len() == 0 || cats[0].id@ == id {
        0
    } else {
        1 + category_index(cats.drop_first(), id)
    }
}

/// What a cluster by content says of itself: the name, the description and
/// the keywords of its category.
pub open spec fn content_detail(cats: Seq<MemoryCategory>) -> spec_fn(
    MemoryCluster,
    Seq<char>,
) -> bool {
    |c: MemoryCluster, key: Seq<char>|
        {
            let at = category_index(cats, key);
            if 0 <= at < cats.len() {
                c.name@ == cats[at].name@ && c.description@ == cats[at].description@ && strs(
                    c.tags@,
                ) == strs(cats[at].keywords@)
            } else {
                c.name@ == key && c.description@.len() == 0 && c.tags@.len() == 0
            }
        }
}

fn make_id(kind: &str, owner_text: &str, key: &str) -> (r: String)
    ensures
        r@ == kind@ + "_"@ + owner_text@ + "_"@ + key@,
{
    let mut r: String = str_to_string(kind);
    push_str(&mut r, "_");
    push_str(&mut r, owner_text);
    push_str(&mut r, "_");
    push_str(&mut r, key);
    r
}

/// The keys of the groups.
pub open spec fn group_keys(gs: Seq<(String, Vec<String>)>) -> Seq<Seq<char>> {
    gs.map_values(|g: (String, Vec<String>)| g.0@)
}

proof fn lemma_groups_cover(
    gs: Seq<(String, Vec<String>)>,
    items: Seq<(Seq<char>, Option<Seq<char>>)>,
)
    requires
        groups_of(gs, items),
    ensures
        forall|i: int|
            0 <= i < gs.len() ==> strs((#[trigger] gs[i]).1@) == members(items, gs[i].0@)
                && gs[i].1@.len() > 0,
        forall|key: Seq<char>| #[trigger]
            members(items, key).len() > 0 ==> group_keys(gs).contains(key),
{
    let model = group_model(gs);
    assert forall|i: int| 0 <= i < gs.len() implies strs((#[trigger] gs[i]).1@) == members(
        items,
        gs[i].0@,
    ) && gs[i].1@.len() > 0 by {
        assert forall|j: int| 0 <= j < i implies (#[trigger] model[j]).0 != gs[i].0@ by {
            assert(model[j].0 == gs[j].0@);
        }
        assert(model[i] == (gs[i].0@, strs(gs[i].1@)));
        lemma_lookup_first(model, gs[i].0@, i);
        assert(lookup(model, gs[i].0@) == Some(strs(gs[i].1@)));
    }
    assert forall|key: Seq<char>| #[trigger] members(items, key).len() > 0 implies group_keys(
        gs,
    ).contains(key) by {
        assert(lookup(model, key) is Some);
        crate::assoc::lemma_lookup_some(model, key);
        let i = choose|i: int| first_at(model, key, i);
        assert(model[i].0 == gs[i].0@);
        assert(group_keys(gs)[i] == key);
    }
}

impl ClusteringEngine {
    fn keyed_items(
        &self,
        store: &Store,
        memory_ids: &Vec<String>,
        by_tag: bool,
        period: Option<TimePeriod>,
    ) -> (r: Vec<Keyed>)
        ensures
            keyed_views(r@) == keyed_present(
                *store,
                strs(memory_ids@),
                if by_tag {
                    first_tag()
                } else {
                    match period {
                        Some(p) => bucket_of(p),
                        None => category_of(self.categories@),
                    }
                },
            ),
    {
        let ghost ids = strs(memory_ids@);
        let ghost key_of = if by_tag {
            first_tag()
        } else {
            match period {
                Some(p) => bucket_of(p),
                None => category_of(self.categories@),
            }
        };
        let mut out: Vec<Keyed> = Vec::new();
        let mut i: usize = 0;
        assert(keyed_views(out@) =~= keyed_present(*store, ids.take(0), key_of));
        while i < memory_ids.len()
            invariant
                i <= memory_ids@.len(),
                ids == strs(memory_ids@),
                key_of == (if by_tag {
                    first_tag()
                } else {
                    match period {
                        Some(p) => bucket_of(p),
                        None => category_of(self.categories@),
                    }
                }),
                keyed_views(out@) == keyed_present(*store, ids.take(i as int), key_of),
            decreases memory_ids@.len() - i,
        {
            proof {
                assert(ids.take(i + 1).drop_last() == ids.take(i as int));
                assert(ids.take(i + 1).last() == memory_ids@[i as int]@);
            }
            match get_memory(store, memory_ids[i].as_str()) {
                Ok(Some(m)) => {
                    let key: Option<String> = if by_tag {
                        if m.tags.len() > 0 {
                            assert(strs(m.tags@)[0] == m.tags@[0]@);
                            Some(m.tags[0].clone())
                        } else {
                            None
                        }
                    } else {
                        match period {
                            Some(p) => Some(Self::get_time_cluster_key(m.created_at, &p)),
                            None => self.classify_memory(&m),
                        }
                    };
                    let ghost before = out@;
                    let k = Keyed { id: memory_ids[i].clone(), key };
                    out.push(k);
                    assert(keyed_views(out@) =~= keyed_views(before).push(keyed_view(k)));
                },
                Ok(None) => {},
                Err(_) => {},
            }
            i += 1;
        }
        assert(ids.take(memory_ids@.len() as int) == ids);
        out
    }

    /// The name, the description and the keywords of the category with the
    /// given id; the id itself and nothing else where there is no such
    /// category.
    #[verifier::loop_isolation(false)]
    fn describe_category(&self, id: &str) -> (r: (String, String, Vec<String>))
        ensures
            ({
                let at = category_index(self.categories@, id@);
                if 0 <= at < self.categories@.len() {
                    r.0@ == self.categories@[at].name@ && r.1@ == self.categories@[at].description@
                        && strs(r.2@) == strs(self.categories@[at].keywords@)
                } else {
                    r.0@ == id@ && r.1@.len() == 0 && r.2@.len() == 0
                }
            }),
    {
        let ghost cats = self.categories@;
        let mut c: usize = 0;
        assert(cats.skip(0) == cats);
        while c < self.categories.len()
            invariant
                c <= cats.len(),
                category_index(cats, id@) == c + category_index(cats.skip(c as int), id@),
            decreases cats.len() - c,
        {
            proof {
                assert(cats.skip(c as int)[0] == cats[c as int]);
                assert(cats.skip(c as int).drop_first() == cats.skip(c + 1));
            }
            if str_eq(self.categories[c].id.as_str(), id) {
                return (
                    self.categories[c].name.clone(),
                    self.categories[c].description.clone(),
                    clone_strings(&self.categories[c].keywords),
                );
            }
            c += 1;
        }
        (str_to_string(id), String::new(), Vec::new())
    }

    /// Clusters memories by their first tag. Memories without a tag stay
    /// unclustered; ids without a row that reads are passed over.
    pub fn cluster_by_tags(&self, store: &Store, user_id: &Principal, memory_ids: &Vec<String>, now: u64) -> (r:
        Result<ClusteringResult>)
        requires
            user_id.wf(),
        ensures
            r is Ok,
            r->Ok_0.clustering_score == 900_000,
            r->Ok_0.method_used == ClusteringMethod::TagBased,
            clustered(
                r->Ok_0,
                "tag"@,
                ClusterType::Semantic,
                user_id@,
                keyed_present(*store, strs(memory_ids@), first_tag()),
                now,
                tag_detail(),
            ),
    {
        let items: Vec<Keyed> = self.keyed_items(store, memory_ids, true, None);
        let ghost iv = keyed_views(items@);
        let (groups, rest) = group_by_key(items);
        let owner_text: String = user_id.to_text();
        let mut clusters: Vec<MemoryCluster> = Vec::new();
        let mut i: usize = 0;
        proof {
            lemma_groups_cover(groups@, iv);
        }
        while i < groups.len()
            invariant
                i <= groups@.len(),
                clusters@.len() == i,
                owner_text@ == principal_text(user_id@),
                forall|g: int|
                    0 <= g < groups@.len() ==> strs((#[trigger] groups@[g]).1@) == members(
                        iv,
                        groups@[g].0@,
                    ) && groups@[g].1@.len() > 0,
                forall|c: int|
                    0 <= c < i ==> stands_for(
                        #[trigger] clusters@[c],
                        "tag"@,
                        ClusterType::Semantic,
                        user_id@,
                        groups@[c].0@,
                        iv,
                        now,
                    ) && (tag_detail())(clusters@[c], groups@[c].0@),
            decreases groups@.len() - i,
        {
            let tag: &String = &groups[i].0;
            let mut name: String = str_to_string("#");
            push_str(&mut name, tag.as_str());
            let mut description: String = str_to_string("Memories tagged with '");
            push_str(&mut description, tag.as_str());
            push_str(&mut description, "'");
            let mut tags: Vec<String> = Vec::new();
            tags.push(tag.clone());
            assert(strs(tags@) =~= seq![tag@]);
            let cluster = MemoryCluster {
                id: make_id("tag", owner_text.as_str(), tag.as_str()),
                name,
                description,
                memory_ids: clone_strings(&groups[i].1),
                centroid: Vec::new(),
                tags,
                created_at: now,
                updated_at: now,
                user_id: user_id.duplicate(),
                cluster_type: ClusterType::Semantic,
            };
            clusters.push(cluster);
            i += 1;
        }
        let result = ClusteringResult {
            clusters,
            unclustered_memories: rest,
            clustering_score: 900_000,
            method_used: ClusteringMethod::TagBased,
        };
        proof {
            let keys = group_keys(groups@);
            assert forall|a: int, b: int| 0 <= a < b < keys.len() implies keys[a] != keys[b] by {
                assert(keys[a] == groups@[a].0@ && keys[b] == groups@[b].0@);
            }
            assert forall|c: int| 0 <= c < keys.len() implies stands_for(
                result.clusters@[c],
                "tag"@,
                ClusterType::Semantic,
                user_id@,
                #[trigger] keys[c],
                iv,
                now,
            ) by {
                assert(keys[c] == groups@[c].0@);
            }
            assert forall|c: int| 0 <= c < keys.len() implies (tag_detail())(
                result.clusters@[c],
                #[trigger] keys[c],
            ) by {
                assert(keys[c] == groups@[c].0@);
            }
            assert(keyed_by(
                keys,
                result,
                "tag"@,
                ClusterType::Semantic,
                user_id@,
                iv,
                now,
                tag_detail(),
            ));
        }
        Ok(result)
    }

    /// Clusters memories by the time bucket of their creation.
    pub fn cluster_by_time(
        &self,
        store: &Store,
        user_id: &Principal,
        memory_ids: &Vec<String>,
        time_period: TimePeriod,
        now: u64,
    ) -> (r: Result<ClusteringResult>)
        requires
            user_id.wf(),
        ensures
            r is Ok,
            r->Ok_0.clustering_score == SCORE_ONE,
            r->Ok_0.method_used == ClusteringMethod::Temporal,
            r->Ok_0.unclustered_memories@.len() == 0,
            clustered(
                r->Ok_0,
                "time"@,
                ClusterType::Temporal,
                user_id@,
                keyed_present(*store, strs(memory_ids@), bucket_of(time_period)),
                now,
                time_detail(time_period),
            ),
    {
        let items: Vec<Keyed> = self.keyed_items(store, memory_ids, false, Some(time_period));
        let ghost iv = keyed_views(items@);
        let (groups, rest) = group_by_key(items);
        let owner_text: String = user_id.to_text();
        let mut clusters: Vec<MemoryCluster> = Vec::new();
        let mut i: usize = 0;
        proof {
            lemma_groups_cover(groups@, iv);
        }
        while i < groups.len()
            invariant
                i <= groups@.len(),
                clusters@.len() == i,
                owner_text@ == principal_text(user_id@),
                forall|g: int|
                    0 <= g < groups@.len() ==> strs((#[trigger] groups@[g]).1@) == members(
                        iv,
                        groups@[g].0@,
                    ) && groups@[g].1@.len() > 0,
                forall|c: int|
                    0 <= c < i ==> stands_for(
                        #[trigger] clusters@[c],
                        "time"@,
                        ClusterType::Temporal,
                        user_id@,
                        groups@[c].0@,
                        iv,
                        now,
                    ) && (time_detail(time_period))(clusters@[c], groups@[c].0@),
            decreases groups@.len() - i,
        {
            let key: &String = &groups[i].0;
            let mut description: String = str_to_string("Memories from ");
            push_str(&mut description, key.as_str());
            let cluster = MemoryCluster {
                id: make_id("time", owner_text.as_str(), key.as_str()),
                name: Self::format_time_cluster_name(key.as_str(), &time_period),
                description,
                memory_ids: clone_strings(&groups[i].1),
                centroid: Vec::new(),
                tags: Vec::new(),
                created_at: now,
                updated_at: now,
                user_id: user_id.duplicate(),
                cluster_type: ClusterType::Temporal,
            };
            clusters.push(cluster);
            i += 1;
        }
        proof {
            lemma_no_leftover(*store, strs(memory_ids@), time_period);
        }
        let result = ClusteringResult {
            clusters,
            unclustered_memories: rest,
            clustering_score: SCORE_ONE,
            method_used: ClusteringMethod::Temporal,
        };
        proof {
            let keys = group_keys(groups@);
            assert forall|a: int, b: int| 0 <= a < b < keys.len() implies keys[a] != keys[b] by {
                assert(keys[a] == groups@[a].0@ && keys[b] == groups@[b].0@);
            }
            assert forall|c: int| 0 <= c < keys.len() implies stands_for(
                result.clusters@[c],
                "time"@,
                ClusterType::Temporal,
                user_id@,
                #[trigger] keys[c],
                iv,
                now,
            ) by {
                assert(keys[c] == groups@[c].0@);
            }
            assert forall|c: int| 0 <= c < keys.len() implies (time_detail(time_period))(
                result.clusters@[c],
                #[trigger] keys[c],
            ) by {
                assert(keys[c] == groups@[c].0@);
            }
            assert(keyed_by(
                keys,
                result,
                "time"@,
                ClusterType::Temporal,
                user_id@,
                iv,
                now,
                time_detail(time_period),
            ));
        }
        Ok(result)
    }

    /// Clusters memories by category: each memory joins the first category
    /// of the registry that it is of, and stays unclustered if it is of
    /// none.
    pub fn cluster_by_content(
        &self,
        store: &Store,
        user_id: &Principal,
        memory_ids: &Vec<String>,
        now: u64,
    ) -> (r: Result<ClusteringResult>)
        requires
            user_id.wf(),
        ensures
            r is Ok,
            r->Ok_0.clustering_score == 800_000,
            r->Ok_0.method_used == ClusteringMethod::ContentBased,
            clustered(
                r->Ok_0,
                "content"@,
                ClusterType::Category,
                user_id@,
                keyed_present(*store, strs(memory_ids@), category_of(self.categories@)),
                now,
                content_detail(self.categories@),
            ),
    {
        let items: Vec<Keyed> = self.keyed_items(store, memory_ids, false, None);
        let ghost iv = keyed_views(items@);
        let (groups, rest) = group_by_key(items);
        let owner_text: String = user_id.to_text();
        let mut clusters: Vec<MemoryCluster> = Vec::new();
        let mut i: usize = 0;
        proof {
            lemma_groups_cover(groups@, iv);
        }
        while i < groups.len()
            invariant
                i <= groups@.len(),
                clusters@.len() == i,
                owner_text@ == principal_text(user_id@),
                forall|g: int|
                    0 <= g < groups@.len() ==> strs((#[trigger] groups@[g]).1@) == members(
                        iv,
                        groups@[g].0@,
                    ) && groups@[g].1@.len() > 0,
                forall|c: int|
                    0 <= c < i ==> stands_for(
                        #[trigger] clusters@[c],
                        "content"@,
                        ClusterType::Category,
                        user_id@,
                        groups@[c].0@,
                        iv,
                        now,
                    ) && (content_detail(self.categories@))(clusters@[c], groups@[c].0@),
            decreases groups@.len() - i,
        {
            let key: &String = &groups[i].0;
            let (name, description, tags) = self.describe_category(key.as_str());
            let cluster = MemoryCluster {
                id: make_id("content", owner_text.as_str(), key.as_str()),
                name,
                description,
                memory_ids: clone_strings(&groups[i].1),
                centroid: Vec::new(),
                tags,
                created_at: now,
                updated_at: now,
                user_id: user_id.duplicate(),
                cluster_type: ClusterType::Category,
            };
            clusters.push(cluster);
            i += 1;
        }
        let result = ClusteringResult {
            clusters,
            unclustered_memories: rest,
            clustering_score: 800_000,
            method_used: ClusteringMethod::ContentBased,
        };
        proof {
            let keys = group_keys(groups@);
            assert forall|a: int, b: int| 0 <= a < b < keys.len() implies keys[a] != keys[b] by {
                assert(keys[a] == groups@[a].0@ && keys[b] == groups@[b].0@);
            }
            assert forall|c: int| 0 <= c < keys.len() implies stands_for(
                result.clusters@[c],
                "content"@,
                ClusterType::Category,
                user_id@,
                #[trigger] keys[c],
                iv,
                now,
            ) by {
                assert(keys[c] == groups@[c].0@);
            }
            assert forall|c: int| 0 <= c < keys.len() implies (content_detail(self.categories@))(
                result.clusters@[c],
                #[trigger] keys[c],
            ) by {
                assert(keys[c] == groups@[c].0@);
            }
            assert(keyed_by(
                keys,
                result,
                "content"@,
                ClusterType::Category,
                user_id@,
                iv,
                now,
                content_detail(self.categories@),
            ));
        }
        Ok(result)
    }
}

/// In a clustering by time every memory has a key, so none is left over.
pub proof fn lemma_no_leftover(store: Store, ids: Seq<Seq<char>>, p: TimePeriod)
    ensures
        leftover(keyed_present(store, ids, bucket_of(p))).len() == 0,
    decreases ids.len(),
{
    reveal(Seq::filter);
    let items = keyed_present(store, ids, bucket_of(p));
    if ids.len() > 0 {
        lemma_no_leftover(store, ids.drop_last(), p);
        let rest = keyed_present(store, ids.drop_last(), bucket_of(p));
        match store.memory(ids.last()) {
            Some(m) => {
                rest.lemma_filter_push((ids.last(), (bucket_of(p))(m)), keyless());
            },
            None => {},
        }
    }
}

// ---------------------------------------------------------------------------
// K-means
// ---------------------------------------------------------------------------

/// The memories that take part in a k-means run: those that read and have
/// an embedding.
pub open spec fn embedded(store: Store) -> spec_fn(Seq<char>) -> bool {
    |id: Seq<char>|
        match store.memory(id) {
            Some(m) => m.embedding.len() > 0,
            None => false,
        }
}

/// How many items of `a` are `c`.
pub open spec fn count_of(a: Seq<usize>, c: usize) -> nat
    decreases a.len(),
{
    if a.len() == 0 {
        0
    } else {
        count_of(a.drop_last(), c) + if a.last() == c {
            1nat
        } else {
            0nat
        }
    }
}

/// How many items of `a` are below `c`.
pub open spec fn count_below(a: Seq<usize>, c: nat) -> nat
    decreases a.len(),
{
    if a.len() == 0 {
        0
    } else {
        count_below(a.drop_last(), c) + if a.last() < c {
            1nat
        } else {
            0nat
        }
    }
}

/// The ids whose assignment is `c`, in order.
pub open spec fn assigned(ids: Seq<Seq<char>>, a: Seq<usize>, c: usize) -> Seq<Seq<char>>
    decreases ids.len(),
{
    if ids.len() == 0 || a.len() != ids.len() {
        Seq::empty()
    } else {
        let rest = assigned(ids.drop_last(), a.drop_last(), c);
        if a.last() == c {
            rest.push(ids.last())
        } else {
            rest
        }
    }
}

pub proof fn lemma_assigned_len(ids: Seq<Seq<char>>, a: Seq<usize>, c: usize)
    requires
        a.len() == ids.len(),
    ensures
        assigned(ids, a, c).len() == count_of(a, c),
    decreases ids.len(),
{
    if ids.len() > 0 {
        lemma_assigned_len(ids.drop_last(), a.drop_last(), c);
    }
}

pub proof fn lemma_count_below_step(a: Seq<usize>, c: usize)
    requires
        c < usize::MAX,
    ensures
        count_below(a, (c + 1) as nat) == count_below(a, c as nat) + count_of(a, c),
    decreases a.len(),
{
    if a.len() > 0 {
        lemma_count_below_step(a.drop_last(), c);
    }
}

pub proof fn lemma_count_below_all(a: Seq<usize>, k: nat)
    requires
        forall|j: int| 0 <= j < a.len() ==> (#[trigger] a[j]) < k,
    ensures
        count_below(a, k) == a.len(),
    decreases a.len(),
{
    if a.len() > 0 {
        let t = a.drop_last();
        assert forall|j: int| 0 <= j < t.len() implies (#[trigger] t[j]) < k by {
            assert(t[j] == a[j]);
        }
        lemma_count_below_all(t, k);
    }
}

pub proof fn lemma_count_below_zero(a: Seq<usize>)
    ensures
        count_below(a, 0) == 0,
    decreases a.len(),
{
    if a.len() > 0 {
        lemma_count_below_zero(a.drop_last());
    }
}

/// The number of members of all the clusters.
pub open spec fn total_members(cs: Seq<MemoryCluster>) -> nat
    decreases cs.len(),
{
    if cs.len() == 0 {
        0
    } else {
        total_members(cs.drop_last()) + cs.last().memory_ids@.len()
    }
}

/// Where a k-means run over `n` points starts its `i`-th centroid: at
/// every `n / k`-th point.
pub open spec fn start_of(n: nat, k: nat, i: nat) -> nat {
    let at = i * (n / k);
    if at < n - 1 {
        at
    } else {
        (n - 1) as nat
    }
}

/// The position of the least of the distances, the first of them among
/// equals.
pub open spec fn is_nearest(distances: Seq<Score>, at: int) -> bool {
    &&& 0 <= at < distances.len()
    &&& forall|j: int| 0 <= j < distances.len() ==> distances[at] <= #[trigger] distances[j]
    &&& forall|j: int| 0 <= j < at ==> distances[at] < #[trigger] distances[j]
}

/// The tags are those of the memories of one cluster: each tag of a member
/// that reads, once.
pub open spec fn tags_of_cluster(
    store: Store,
    ids: Seq<Seq<char>>,
    a: Seq<usize>,
    cluster: usize,
    tags: Seq<Seq<char>>,
) -> bool {
    &&& forall|i: int, j: int| 0 <= i < j < tags.len() ==> tags[i] != tags[j]
    &&& forall|t: Seq<char>| #[trigger]
        tags.contains(t) <==> exists|m: int|
            0 <= m < ids.len() && a[m] == cluster && (#[trigger] store.memory(ids[m])) is Some
                && store.memory(ids[m])->0.tags.contains(t)
}

/// The cluster `c` is the cluster of number `i` of a k-means run.
pub open spec fn automatic_cluster(
    store: Store,
    c: MemoryCluster,
    i: usize,
    owner: Seq<u8>,
    ids: Seq<Seq<char>>,
    a: Seq<usize>,
    centroid: Seq<u32>,
    now: u64,
) -> bool {
    &&& c.id@ == "cluster_"@ + principal_text(owner) + "_"@ + decimal(i as nat)
    &&& c.name@ == "Cluster "@ + decimal((i + 1) as nat)
    &&& strs(c.memory_ids@) == assigned(ids, a, i)
    &&& c.memory_ids@.len() > 0
    &&& c.description@ == automatic_description(c.memory_ids@.len())
    &&& c.centroid@ == centroid
    &&& tags_of_cluster(store, ids, a, i, strs(c.tags@))
    &&& c.user_id@ == owner
    &&& c.cluster_type == ClusterType::Automatic
    &&& c.created_at == now
    &&& c.updated_at == now
}

/// The numbers of the clusters that have members, in rising order.
pub open spec fn manned(ids: Seq<Seq<char>>, a: Seq<usize>, k: nat) -> Seq<usize>
    decreases k,
{
    if k == 0 {
        Seq::empty()
    } else {
        let rest = manned(ids, a, (k - 1) as nat);
        if assigned(ids, a, (k - 1) as usize).len() > 0 {
            rest.push((k - 1) as usize)
        } else {
            rest
        }
    }
}

impl ClusteringEngine {
    /// The memories that take part in a k-means run with `k` clusters.
    ///
    /// They are the given ids whose memory reads and has an embedding.
    /// Fewer ids than clusters are refused, then a run without any
    /// embedding, then fewer embedded memories than clusters, then a run
    /// with no cluster at all.
    pub fn kmeans_members(store: &Store, memory_ids: &Vec<String>, k: usize) -> (r: Result<
        Vec<String>,
    >)
        ensures
            match r {
                Ok(ids) => ids@.len() >= k && k > 0 && strs(ids@) == strs(memory_ids@).filter(
                    embedded(*store),
                ),
                Err(e) => if memory_ids@.len() < k {
                    e@ == too_few()
                } else if strs(memory_ids@).filter(embedded(*store)).len() == 0 {
                    e@ == no_embeddings()
                } else if strs(memory_ids@).filter(embedded(*store)).len() < k {
                    e@ == too_few()
                } else {
                    k == 0 && e@ == no_clusters()
                },
            },
    {
        if memory_ids.len() < k {
            return Err(
                OpenMemoryError::validation(
                    "Not enough memories for clustering",
                    Some("memory_ids"),
                ),
            );
        }
        let ghost all = strs(memory_ids@);
        let ghost pred = embedded(*store);
        let mut out: Vec<String> = Vec::new();
        let mut i: usize = 0;
        proof {
            reveal(Seq::filter);
            assert(strs(out@) =~= all.take(0).filter(pred));
        }
        while i < memory_ids.len()
            invariant
                i <= memory_ids@.len(),
                all == strs(memory_ids@),
                pred == embedded(*store),
                strs(out@) == all.take(i as int).filter(pred),
            decreases memory_ids@.len() - i,
        {
            proof {
                lemma_filter_step(all, i as int, pred);
                assert(all[i as int] == memory_ids@[i as int]@);
            }
            match get_memory(store, memory_ids[i].as_str()) {
                Ok(Some(m)) => {
                    if m.embedding.len() > 0 {
                        let ghost before = out@;
                        let s: String = memory_ids[i].clone();
                        out.push(s);
                        assert(strs(out@) == strs(before).push(s@));
                    }
                },
                Ok(None) => {},
                Err(_) => {},
            }
            i += 1;
        }
        assert(all.take(memory_ids@.len() as int) == all);
        if out.len() == 0 {
            return Err(
                OpenMemoryError::validation(
                    "No memories with embeddings found",
                    Some("memory_ids"),
                ),
            );
        }
        assert(strs(out@).len() == out@.len());
        if out.len() < k {
            return Err(
                OpenMemoryError::validation(
                    "Not enough memories for clustering",
                    Some("memory_ids"),
                ),
            );
        }
        if k == 0 {
            return Err(OpenMemoryError::validation("Invalid input for k-means", Some("k")));
        }
        Ok(out)
    }

    /// Where a k-means run over `n` points with `k` clusters starts: the
    /// positions of the points that are its first centroids.
    pub fn initialize_centroids(n: usize, k: usize) -> (r: Vec<usize>)
        requires
            n > 0,
            k > 0,
        ensures
            r@.len() == k,
            forall|i: int| 0 <= i < k ==> (#[trigger] r@[i]) == start_of(n as nat, k as nat, i as nat),
            forall|i: int| 0 <= i < k ==> (#[trigger] r@[i]) < n,
    {
        let step: usize = n / k;
        let mut r: Vec<usize> = Vec::new();
        let mut i: usize = 0;
        while i < k
            invariant
                i <= k,
                k > 0,
                n > 0,
                step == n / k,
                r@.len() == i,
                forall|j: int|
                    0 <= j < i ==> (#[trigger] r@[j]) == start_of(n as nat, k as nat, j as nat),
                forall|j: int| 0 <= j < i ==> (#[trigger] r@[j]) < n,
            decreases k - i,
        {
            assert(i * step <= n) by (nonlinear_arith)
                requires
                    i < k,
                    step == n / k,
                    k > 0,
            ;
            let at: usize = i * step;
            let idx: usize = if at < n - 1 {
                at
            } else {
                n - 1
            };
            r.push(idx);
            i += 1;
        }
        r
    }

    /// One round of assignment: every point goes to its nearest centroid.
    /// `distances` holds, for every point, its distances to the `k`
    /// centroids. The assignments are all below `k`, so the clusters made
    /// of them hold every point.
    pub fn assign_nearest(distances: &Vec<Vec<Score>>, k: usize) -> (r: Vec<usize>)
        requires
            k > 0,
            forall|i: int| 0 <= i < distances@.len() ==> (#[trigger] distances@[i])@.len() == k,
        ensures
            r@.len() == distances@.len(),
            forall|i: int|
                0 <= i < r@.len() ==> (#[trigger] r@[i]) < k && is_nearest(
                    distances@[i]@,
                    r@[i] as int,
                ),
            count_below(r@, k as nat) == r@.len(),
    {
        let mut r: Vec<usize> = Vec::new();
        let mut i: usize = 0;
        while i < distances.len()
            invariant
                i <= distances@.len(),
                k > 0,
                forall|x: int| 0 <= x < distances@.len() ==> (#[trigger] distances@[x])@.len() == k,
                r@.len() == i,
                forall|x: int|
                    0 <= x < i ==> (#[trigger] r@[x]) < k && is_nearest(
                        distances@[x]@,
                        r@[x] as int,
                    ),
            decreases distances@.len() - i,
        {
            assert(distances@[i as int]@.len() == k);
            let at: usize = Self::nearest_centroid(&distances[i]);
            r.push(at);
            i += 1;
        }
        proof {
            lemma_count_below_all(r@, k as nat);
        }
        r
    }

    /// The position of the nearest centroid among the distances to all of
    /// them: the least distance, and of equal distances the first.
    pub fn nearest_centroid(distances: &Vec<Score>) -> (at: usize)
        requires
            distances@.len() > 0,
        ensures
            is_nearest(distances@, at as int),
    {
        let mut best: usize = 0;
        let mut j: usize = 1;
        while j < distances.len()
            invariant
                1 <= j <= distances@.len(),
                best < j,
                forall|x: int| 0 <= x < j ==> distances@[best as int] <= #[trigger] distances@[x],
                forall|x: int| 0 <= x < best ==> distances@[best as int] < #[trigger] distances@[x],
            decreases distances@.len() - j,
        {
            if distances[j] < distances[best] {
                best = j;
            }
            j += 1;
        }
        best
    }

    /// The tags of the memories of one cluster, each once, in the order in
    /// which they first occur.
    pub fn extract_cluster_tags(
        store: &Store,
        memory_ids: &Vec<String>,
        assignments: &Vec<usize>,
        cluster_id: usize,
    ) -> (r: Vec<String>)
        requires
            assignments@.len() == memory_ids@.len(),
        ensures
            tags_of_cluster(*store, strs(memory_ids@), assignments@, cluster_id, strs(r@)),
    {
        let ghost ids = strs(memory_ids@);
        let mut out: Vec<String> = Vec::new();
        let mut i: usize = 0;
        while i < memory_ids.len()
            invariant
                i <= memory_ids@.len(),
                assignments@.len() == memory_ids@.len(),
                ids == strs(memory_ids@),
                forall|x: int, y: int| 0 <= x < y < out@.len() ==> strs(out@)[x] != strs(out@)[y],
                forall|t: Seq<char>| #[trigger]
                    strs(out@).contains(t) <==> exists|m: int|
                        0 <= m < i && assignments@[m] == cluster_id && (#[trigger] store.memory(
                            ids[m],
                        )) is Some && store.memory(ids[m])->0.tags.contains(t),
            decreases memory_ids@.len() - i,
        {
            assert(ids[i as int] == memory_ids@[i as int]@);
            let ghost before_all = strs(out@);
            if assignments[i] == cluster_id {
                match get_memory(store, memory_ids[i].as_str()) {
                    Ok(Some(m)) => {
                        let ghost mt = strs(m.tags@);
                        assert(store.memory(ids[i as int]) == Some(m@));
                        let mut t: usize = 0;
                        while t < m.tags.len()
                            invariant
                                t <= m.tags@.len(),
                                mt == strs(m.tags@),
                                forall|x: int, y: int|
                                    0 <= x < y < out@.len() ==> strs(out@)[x] != strs(out@)[y],
                                forall|tag: Seq<char>| #[trigger]
                                    strs(out@).contains(tag) <==> before_all.contains(tag) || exists|
                                        n: int,
                                    | 0 <= n < t && #[trigger] mt[n] == tag,
                            decreases m.tags@.len() - t,
                        {
                            assert(mt[t as int] == m.tags@[t as int]@);
                            let ghost prev = strs(out@);
                            if !ids_contain(&out, m.tags[t].as_str()) {
                                let ghost bo = out@;
                                let s: String = m.tags[t].clone();
                                out.push(s);
                                assert(strs(out@) == strs(bo).push(s@));
                            }
                            proof {
                                let cur = strs(out@);
                                assert forall|tag: Seq<char>| #[trigger]
                                    cur.contains(tag) <==> before_all.contains(tag) || exists|
                                        n: int,
                                    | 0 <= n < t + 1 && #[trigger] mt[n] == tag by {
                                    if cur.contains(tag) {
                                        let j = choose|j: int| 0 <= j < cur.len() && cur[j] == tag;
                                        if j < prev.len() {
                                            assert(prev[j] == tag);
                                            assert(prev.contains(tag));
                                        } else {
                                            assert(mt[t as int] == tag);
                                        }
                                    }
                                    if prev.contains(tag) {
                                        let j = choose|j: int|
                                            0 <= j < prev.len() && prev[j] == tag;
                                        assert(cur[j] == tag);
                                    }
                                    if mt[t as int] == tag {
                                        if prev.contains(tag) {
                                        } else {
                                            assert(cur[cur.len() - 1] == tag);
                                        }
                                    }
                                }
                                assert forall|x: int, y: int|
                                    0 <= x < y < cur.len() implies cur[x] != cur[y] by {
                                    if y < prev.len() {
                                        assert(cur[x] == prev[x] && cur[y] == prev[y]);
                                    } else {
                                        assert(cur[x] == prev[x]);
                                        assert(!prev.contains(cur[y]));
                                    }
                                }
                            }
                            t += 1;
                        }
                        proof {
                            let cur = strs(out@);
                            assert forall|tag: Seq<char>| #[trigger]
                                cur.contains(tag) <==> exists|mm: int|
                                    0 <= mm < i + 1 && assignments@[mm] == cluster_id && (
                                    #[trigger] store.memory(ids[mm])) is Some && store.memory(
                                        ids[mm],
                                    )->0.tags.contains(tag) by {
                                if cur.contains(tag) {
                                    if before_all.contains(tag) {
                                    } else {
                                        let n = choose|n: int|
                                            0 <= n < mt.len() && #[trigger] mt[n] == tag;
                                        assert(m@.tags[n] == tag);
                                        assert(store.memory(ids[i as int])->0.tags.contains(tag));
                                    }
                                }
                                if exists|mm: int|
                                    0 <= mm < i + 1 && assignments@[mm] == cluster_id && (
                                    #[trigger] store.memory(ids[mm])) is Some && store.memory(
                                        ids[mm],
                                    )->0.tags.contains(tag) {
                                    let mm = choose|mm: int|
                                        0 <= mm < i + 1 && assignments@[mm] == cluster_id && (
                                        #[trigger] store.memory(ids[mm])) is Some && store.memory(
                                            ids[mm],
                                        )->0.tags.contains(tag);
                                    if mm == i {
                                        let n = choose|n: int| 0 <= n < mt.len() && mt[n] == tag;
                                        assert(mt[n] == tag);
                                    }
                                }
                            }
                        }
                    },
                    Ok(None) => {},
                    Err(_) => {},
                }
            }
            i += 1;
        }
        out
    }

    /// The clusters of a k-means run: for every centroid that has members,
    /// in the order of the centroids, the cluster of the ids assigned to
    /// it. Where every id is assigned to a centroid, the sizes of the
    /// clusters sum to the number of ids.
    pub fn cluster_memories_kmeans(
        store: &Store,
        user_id: &Principal,
        memory_ids: &Vec<String>,
        assignments: &Vec<usize>,
        centroids: &Vec<Vec<u32>>,
        clustering_score: Score,
        now: u64,
    ) -> (r: ClusteringResult)
        requires
            user_id.wf(),
            assignments@.len() == memory_ids@.len(),
        ensures
            r.clustering_score == clustering_score,
            r.method_used == ClusteringMethod::KMeans,
            r.unclustered_memories@.len() == 0,
            r.clusters@.len() == manned(strs(memory_ids@), assignments@, centroids@.len()).len(),
            forall|c: int|
                0 <= c < r.clusters@.len() ==> fits_slot(
                    *store,
                    #[trigger] r.clusters@[c],
                    manned(strs(memory_ids@), assignments@, centroids@.len())[c],
                    centroids@.len(),
                    user_id@,
                    strs(memory_ids@),
                    assignments@,
                    centroids@,
                    now,
                ),
            total_members(r.clusters@) == count_below(assignments@, centroids@.len()),
            (forall|j: int| 0 <= j < assignments@.len() ==> (#[trigger] assignments@[j])
                < centroids@.len()) ==> total_members(r.clusters@) == memory_ids@.len(),
    {
        let ghost ids = strs(memory_ids@);
        let owner_text: String = user_id.to_text();
        let mut clusters: Vec<MemoryCluster> = Vec::new();
        let mut i: usize = 0;
        proof {
            lemma_count_below_zero(assignments@);
        }
        while i < centroids.len()
            invariant
                i <= centroids@.len(),
                assignments@.len() == memory_ids@.len(),
                ids == strs(memory_ids@),
                owner_text@ == principal_text(user_id@),
                clusters@.len() == manned(ids, assignments@, i as nat).len(),
                forall|c: int|
                    0 <= c < clusters@.len() ==> fits_slot(
                        *store,
                        #[trigger] clusters@[c],
                        manned(ids, assignments@, i as nat)[c],
                        i as nat,
                        user_id@,
                        ids,
                        assignments@,
                        centroids@,
                        now,
                    ),
                total_members(clusters@) == count_below(assignments@, i as nat),
            decreases centroids@.len() - i,
        {
            let ghost before = clusters@;
            let ghost prev = manned(ids, assignments@, i as nat);
            let members: Vec<String> = Self::members_of(memory_ids, assignments, i);
            proof {
                lemma_assigned_len(ids, assignments@, i);
                lemma_count_below_step(assignments@, i);
                assert(strs(members@).len() == members@.len());
            }
            if members.len() > 0 {
                let number: String = decimal_string(i as u64);
                let mut id: String = str_to_string("cluster_");
                push_str(&mut id, owner_text.as_str());
                push_str(&mut id, "_");
                push_str(&mut id, number.as_str());
                let mut name: String = str_to_string("Cluster ");
                let next: String = decimal_string(i as u64 + 1);
                push_str(&mut name, next.as_str());
                let description: String = Self::generate_cluster_description(&members);
                let tags: Vec<String> = Self::extract_cluster_tags(
                    store,
                    memory_ids,
                    assignments,
                    i,
                );
                let cluster = MemoryCluster {
                    id,
                    name,
                    description,
                    memory_ids: members,
                    centroid: centroids[i].clone(),
                    tags,
                    created_at: now,
                    updated_at: now,
                    user_id: user_id.duplicate(),
                    cluster_type: ClusterType::Automatic,
                };
                assert(automatic_cluster(
                    *store,
                    cluster,
                    i,
                    user_id@,
                    ids,
                    assignments@,
                    centroids@[i as int]@,
                    now,
                ));
                clusters.push(cluster);
                proof {
                    assert(clusters@.drop_last() == before);
                    assert(clusters@.last() == cluster);
                    let cur = manned(ids, assignments@, (i + 1) as nat);
                    assert(cur == prev.push(i));
                    assert forall|c: int| 0 <= c < clusters@.len() implies fits_slot(
                        *store,
                        #[trigger] clusters@[c],
                        cur[c],
                        (i + 1) as nat,
                        user_id@,
                        ids,
                        assignments@,
                        centroids@,
                        now,
                    ) by {
                        if c < before.len() {
                            assert(clusters@[c] == before[c]);
                            assert(cur[c] == prev[c]);
                            assert(fits_slot(
                                *store,
                                before[c],
                                prev[c],
                                i as nat,
                                user_id@,
                                ids,
                                assignments@,
                                centroids@,
                                now,
                            ));
                        } else {
                            assert(cur[c] == i);
                        }
                    }
                }
            } else {
                proof {
                    let cur = manned(ids, assignments@, (i + 1) as nat);
                    assert(cur == prev);
                    assert forall|c: int| 0 <= c < clusters@.len() implies fits_slot(
                        *store,
                        #[trigger] clusters@[c],
                        cur[c],
                        (i + 1) as nat,
                        user_id@,
                        ids,
                        assignments@,
                        centroids@,
                        now,
                    ) by {
                        assert(fits_slot(
                            *store,
                            clusters@[c],
                            prev[c],
                            i as nat,
                            user_id@,
                            ids,
                            assignments@,
                            centroids@,
                            now,
                        ));
                    }
                }
            }
            i += 1;
        }
        proof {
            if forall|j: int| 0 <= j < assignments@.len() ==> (#[trigger] assignments@[j])
                < centroids@.len() {
                lemma_count_below_all(assignments@, centroids@.len() as nat);
            }
        }
        ClusteringResult {
            clusters,
            unclustered_memories: Vec::new(),
            clustering_score,
            method_used: ClusteringMethod::KMeans,
        }
    }

    /// The ids that are assigned to the cluster of number `cluster`.
    pub fn members_of(memory_ids: &Vec<String>, assignments: &Vec<usize>, cluster: usize) -> (r:
        Vec<String>)
        requires
            assignments@.len() == memory_ids@.len(),
        ensures
            strs(r@) == assigned(strs(memory_ids@), assignments@, cluster),
    {
        let ghost ids = strs(memory_ids@);
        let mut members: Vec<String> = Vec::new();
        let mut j: usize = 0;
        assert(strs(members@) =~= assigned(ids.take(0), assignments@.take(0), cluster));
        while j < memory_ids.len()
            invariant
                j <= memory_ids@.len(),
                assignments@.len() == memory_ids@.len(),
                ids == strs(memory_ids@),
                strs(members@) == assigned(ids.take(j as int), assignments@.take(j as int), cluster),
            decreases memory_ids@.len() - j,
        {
            proof {
                assert(ids.take(j + 1).drop_last() == ids.take(j as int));
                assert(assignments@.take(j + 1).drop_last() == assignments@.take(j as int));
                assert(ids.take(j + 1).last() == memory_ids@[j as int]@);
                assert(assignments@.take(j + 1).last() == assignments@[j as int]);
            }
            if assignments[j] == cluster {
                let ghost bm = members@;
                let s: String = memory_ids[j].clone();
                members.push(s);
                assert(strs(members@) == strs(bm).push(s@));
            }
            j += 1;
        }
        assert(ids.take(memory_ids@.len() as int) == ids);
        assert(assignments@.take(memory_ids@.len() as int) == assignments@);
        members
    }
}

/// The cluster `c` is the cluster of the centroid of number `slot`, which
/// is below `bound`.
pub open spec fn fits_slot(
    store: Store,
    c: MemoryCluster,
    slot: usize,
    bound: nat,
    owner: Seq<u8>,
    ids: Seq<Seq<char>>,
    a: Seq<usize>,
    centroids: Seq<Vec<u32>>,
    now: u64,
) -> bool {
    slot < bound && slot < centroids.len() && automatic_cluster(
        store,
        c,
        slot,
        owner,
        ids,
        a,
        centroids[slot as int]@,
        now,
    )
}

// ---------------------------------------------------------------------------
// The registry of stored clusters
// ---------------------------------------------------------------------------

/// The ids of a list of clusters.
pub open spec fn cluster_ids(cs: Seq<MemoryCluster>) -> Seq<Seq<char>> {
    cs.map_values(|c: MemoryCluster| c.id@)
}

/// The stored clusters as an association list from id to cluster.
pub open spec fn cluster_model(cs: Seq<MemoryCluster>) -> Seq<(Seq<char>, MemoryCluster)> {
    cs.map_values(|c: MemoryCluster| (c.id@, c))
}

/// The ids of the clusters of each user as an association list.
pub open spec fn user_cluster_model(us: Seq<(Principal, Vec<String>)>) -> Seq<
    (Seq<u8>, Seq<Seq<char>>),
> {
    us.map_values(|u: (Principal, Vec<String>)| (u.0@, strs(u.1@)))
}

/// Two clusters hold the same.
pub open spec fn same_cluster(a: MemoryCluster, b: MemoryCluster) -> bool {
    &&& a.id@ == b.id@
    &&& a.name@ == b.name@
    &&& a.description@ == b.description@
    &&& strs(a.memory_ids@) == strs(b.memory_ids@)
    &&& a.centroid@ == b.centroid@
    &&& strs(a.tags@) == strs(b.tags@)
    &&& a.created_at == b.created_at
    &&& a.updated_at == b.updated_at
    &&& a.user_id@ == b.user_id@
    &&& a.cluster_type == b.cluster_type
}

impl MemoryCluster {
    pub fn duplicate(&self) -> (c: Self)
        ensures
            same_cluster(c, *self),
    {
        MemoryCluster {
            id: self.id.clone(),
            name: self.name.clone(),
            description: self.description.clone(),
            memory_ids: clone_strings(&self.memory_ids),
            centroid: self.centroid.clone(),
            tags: clone_strings(&self.tags),
            created_at: self.created_at,
            updated_at: self.updated_at,
            user_id: self.user_id.duplicate(),
            cluster_type: self.cluster_type,
        }
    }
}

impl ClusteringEngine {
    /// The cluster stored under `id`.
    pub open spec fn cluster(&self, id: Seq<char>) -> Option<MemoryCluster> {
        lookup(cluster_model(self.clusters@), id)
    }

    /// The ids of the clusters of `user`, in the order in which they were
    /// stored.
    pub open spec fn cluster_ids_of(&self, user: Seq<u8>) -> Seq<Seq<char>> {
        match lookup(user_cluster_model(self.user_clusters@), user) {
            Some(ids) => ids,
            None => Seq::empty(),
        }
    }

    fn find_cluster(&self, id: &str) -> (r: Option<usize>)
        ensures
            match r {
                Some(i) => first_at(cluster_model(self.clusters@), id@, i as int),
                None => absent(cluster_model(self.clusters@), id@),
            },
    {
        let mut i: usize = 0;
        while i < self.clusters.len()
            invariant
                i <= self.clusters@.len(),
                forall|j: int|
                    0 <= j < i ==> (#[trigger] cluster_model(self.clusters@)[j]).0 != id@,
            decreases self.clusters@.len() - i,
        {
            assert(cluster_model(self.clusters@)[i as int].0 == self.clusters@[i as int].id@);
            if str_eq(self.clusters[i].id.as_str(), id) {
                return Some(i);
            }
            i += 1;
        }
        None
    }

    fn find_owner(&self, user: &Principal) -> (r: Option<usize>)
        ensures
            match r {
                Some(i) => first_at(user_cluster_model(self.user_clusters@), user@, i as int),
                None => absent(user_cluster_model(self.user_clusters@), user@),
            },
    {
        let mut i: usize = 0;
        while i < self.user_clusters.len()
            invariant
                i <= self.user_clusters@.len(),
                forall|j: int|
                    0 <= j < i ==> (#[trigger] user_cluster_model(self.user_clusters@)[j]).0
                        != user@,
            decreases self.user_clusters@.len() - i,
        {
            assert(user_cluster_model(self.user_clusters@)[i as int].0
                == self.user_clusters@[i as int].0@);
            if self.user_clusters[i].0.same(user) {
                return Some(i);
            }
            i += 1;
        }
        None
    }

    /// Stores a cluster under its id, in place of any cluster of that id,
    /// and enters the id in the clusters of its owner unless it is there.
    pub fn store_cluster(&mut self, cluster: MemoryCluster) -> (r: Result<()>)
        ensures
            r is Ok,
            final(self).categories == old(self).categories,
            old(self).wf() ==> final(self).wf(),
            forall|id: Seq<char>|
                #[trigger] final(self).cluster(id) == if id == cluster.id@ {
                    Some(cluster)
                } else {
                    old(self).cluster(id)
                },
            forall|u: Seq<u8>|
                #[trigger] final(self).cluster_ids_of(u) == if u == cluster.user_id@ {
                    if old(self).cluster_ids_of(u).contains(cluster.id@) {
                        old(self).cluster_ids_of(u)
                    } else {
                        old(self).cluster_ids_of(u).push(cluster.id@)
                    }
                } else {
                    old(self).cluster_ids_of(u)
                },
    {
        let ghost cm = cluster_model(self.clusters@);
        let ghost um = user_cluster_model(self.user_clusters@);
        let owner: Principal = cluster.user_id.duplicate();
        let id: String = cluster.id.clone();
        match self.find_cluster(cluster.id.as_str()) {
            Some(i) => {
                self.clusters.set(i, cluster);
                proof {
                    assert(cluster_model(self.clusters@) =~= cm.update(i as int, (id@, cluster)));
                    if distinct_keys(cm) {
                        lemma_distinct_update(cm, i as int, cluster);
                    }
                    assert forall|x: Seq<char>|
                        #[trigger] self.cluster(x) == if x == cluster.id@ {
                            Some(cluster)
                        } else {
                            old(self).cluster(x)
                        } by {
                        lemma_lookup_update(cm, id@, i as int, cluster, x);
                    }
                }
            },
            None => {
                self.clusters.push(cluster);
                proof {
                    assert(cluster_model(self.clusters@) =~= cm.push((id@, cluster)));
                    if distinct_keys(cm) {
                        lemma_distinct_push(cm, id@, cluster);
                    }
                    assert forall|x: Seq<char>|
                        #[trigger] self.cluster(x) == if x == cluster.id@ {
                            Some(cluster)
                        } else {
                            old(self).cluster(x)
                        } by {
                        lemma_lookup_push(cm, id@, cluster, x);
                    }
                }
            },
        }
        let ghost mid = *self;
        match self.find_owner(&owner) {
            Some(i) => {
                proof {
                    lemma_lookup_first(um, owner@, i as int);
                    assert(um[i as int].1 == strs(self.user_clusters@[i as int].1@));
                }
                if !ids_contain(&self.user_clusters[i].1, id.as_str()) {
                    let (p, mut ids): (Principal, Vec<String>) = self.user_clusters.remove(i);
                    let ghost bi = ids@;
                    ids.push(id);
                    assert(strs(ids@) == strs(bi).push(id@));
                    let ghost kept = strs(ids@);
                    self.user_clusters.insert(i, (p, ids));
                    proof {
                        assert(user_cluster_model(self.user_clusters@) =~= um.update(
                            i as int,
                            (owner@, kept),
                        ));
                        if distinct_keys(um) {
                            lemma_distinct_update(um, i as int, kept);
                        }
                        assert forall|u: Seq<u8>|
                            lookup(um.update(i as int, (owner@, kept)), u) == if u == owner@ {
                                Some(kept)
                            } else {
                                lookup(um, u)
                            } by {
                            lemma_lookup_update(um, owner@, i as int, kept, u);
                        }
                    }
                }
            },
            None => {
                let mut ids: Vec<String> = Vec::new();
                ids.push(id);
                assert(strs(ids@) =~= seq![id@]);
                let ghost kept = strs(ids@);
                self.user_clusters.push((owner, ids));
                proof {
                    lemma_lookup_absent(um, owner@);
                    assert(user_cluster_model(self.user_clusters@) =~= um.push((owner@, kept)));
                    if distinct_keys(um) {
                        lemma_distinct_push(um, owner@, kept);
                    }
                    assert(kept == Seq::<Seq<char>>::empty().push(id@));
                    assert forall|u: Seq<u8>|
                        lookup(um.push((owner@, kept)), u) == if u == owner@ {
                            Some(kept)
                        } else {
                            lookup(um, u)
                        } by {
                        lemma_lookup_push(um, owner@, kept, u);
                    }
                }
            },
        }
        proof {
            assert forall|x: Seq<char>|
                #[trigger] self.cluster(x) == if x == cluster.id@ {
                    Some(cluster)
                } else {
                    old(self).cluster(x)
                } by {
                assert(self.cluster(x) == mid.cluster(x));
            }
        }
        Ok(())
    }

    /// The stored clusters of a user, in the order in which their ids were
    /// entered; ids without a stored cluster are passed over.
    pub fn get_user_clusters(&self, user_id: &Principal) -> (r: Vec<MemoryCluster>)
        ensures
            cluster_ids(r@) == self.cluster_ids_of(user_id@).filter(
                |id: Seq<char>| self.cluster(id) is Some,
            ),
            forall|i: int|
                0 <= i < r@.len() ==> self.cluster((#[trigger] r@[i]).id@) is Some && same_cluster(
                    r@[i],
                    self.cluster(r@[i].id@)->0,
                ),
    {
        let ghost pred = |id: Seq<char>| self.cluster(id) is Some;
        let mut out: Vec<MemoryCluster> = Vec::new();
        let at: usize = match self.find_owner(user_id) {
            Some(i) => i,
            None => {
                proof {
                    lemma_lookup_absent(user_cluster_model(self.user_clusters@), user_id@);
                    reveal(Seq::filter);
                    assert(cluster_ids(out@) =~= self.cluster_ids_of(user_id@).filter(pred));
                }
                return out;
            },
        };
        proof {
            lemma_lookup_first(user_cluster_model(self.user_clusters@), user_id@, at as int);
        }
        let ids: &Vec<String> = &self.user_clusters[at].1;
        let ghost all = strs(ids@);
        assert(all == self.cluster_ids_of(user_id@));
        let mut i: usize = 0;
        proof {
            reveal(Seq::filter);
            assert(cluster_ids(out@) =~= all.take(0).filter(pred));
        }
        while i < ids.len()
            invariant
                i <= ids@.len(),
                all == strs(ids@),
                pred == (|id: Seq<char>| self.cluster(id) is Some),
                cluster_ids(out@) == all.take(i as int).filter(pred),
                forall|j: int|
                    0 <= j < out@.len() ==> self.cluster((#[trigger] out@[j]).id@) is Some
                        && same_cluster(out@[j], self.cluster(out@[j].id@)->0),
            decreases ids@.len() - i,
        {
            proof {
                lemma_filter_step(all, i as int, pred);
                assert(all[i as int] == ids@[i as int]@);
            }
            match self.find_cluster(ids[i].as_str()) {
                Some(c) => {
                    proof {
                        lemma_lookup_first(cluster_model(self.clusters@), ids@[i as int]@, c as int);
                        assert(cluster_model(self.clusters@)[c as int] == (
                            self.clusters@[c as int].id@,
                            self.clusters@[c as int],
                        ));
                    }
                    let copy: MemoryCluster = self.clusters[c].duplicate();
                    let ghost before = out@;
                    out.push(copy);
                    assert(cluster_ids(out@) =~= cluster_ids(before).push(copy.id@));
                },
                None => {
                    proof {
                        lemma_lookup_absent(cluster_model(self.clusters@), ids@[i as int]@);
                    }
                },
            }
            i += 1;
        }
        assert(all.take(ids@.len() as int) == all);
        out
    }
}

} // verus!
