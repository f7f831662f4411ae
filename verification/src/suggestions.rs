//! Search suggestions: what each user searched, which queries are popular,
//! which tags and keywords the stored memories hold.
//!
//! The engine gathers candidates and ranks scored suggestions. The scores
//! themselves involve logarithms and are computed by the caller.

use crate::assoc::{
    absent, distinct_keys, first_at, lemma_distinct_push, lemma_distinct_update,
    lemma_lookup_absent, lemma_lookup_first, lemma_lookup_push, lemma_lookup_update, lookup,
};
use crate::ranking::{bytes_before, ranked, sort_ranked, Ranked};
use crate::seqs::{keep_marked, lemma_filter_step, lemma_masked_is_filter, prefix};
use crate::text::{
    ascii_lower_seq, char_seqs, chars_ascii_lower, contains, from_chars, lowercase, split_words,
    starts_with, str_contains, str_eq, str_starts_with, str_to_string, to_chars, to_lowercase, words,
};
use crate::types::{strs, Memory, Principal, Score};
use crate::validation::{byte_len, str_byte_len};
use vstd::prelude::*;
use vstd::utf8::encode_utf8;

verus! {

/// The most queries kept per user.
pub const MAX_HISTORY: usize = 100;

/// The most popular queries kept.
pub const MAX_POPULAR: usize = 100;

/// How many suggestions each source may give.
pub const PER_SOURCE: usize = 3;

/// One search of one user.
#[derive(Debug)]
pub struct SearchQuery {
    pub query: String,
    pub timestamp: u64,
    pub result_count: usize,
    /// The ids of the results that the user opened.
    pub clicked_results: Vec<String>,
}

/// A query with how often it was searched.
#[derive(Debug)]
pub struct PopularQuery {
    pub query: String,
    pub search_count: u32,
    /// The sum of the result counts of all searches; the mean is this by
    /// `search_count`.
    pub total_results: u64,
    pub last_searched: u64,
}

impl Ranked for PopularQuery {
    open spec fn weight(&self) -> int {
        self.search_count as int
    }

    open spec fn tie(&self) -> Seq<u8> {
        encode_utf8(self.query@)
    }

    fn outranks(&self, other: &Self) -> (b: bool) {
        if self.search_count != other.search_count {
            self.search_count > other.search_count
        } else {
            bytes_before(self.query.as_str().as_bytes(), other.query.as_str().as_bytes())
        }
    }
}

/// Where a suggestion comes from.
#[derive(Debug, Clone, Copy, PartialEq, Eq, Structural)]
pub enum SuggestionType {
    RecentSearch,
    PopularQuery,
    TagSuggestion,
    ContentKeyword,
    AutoComplete,
    Similar,
}

/// A suggestion with its score.
#[derive(Debug)]
pub struct SearchSuggestion {
    pub text: String,
    pub suggestion_type: SuggestionType,
    pub score: Score,
    pub metadata: Vec<(String, String)>,
}

impl Ranked for SearchSuggestion {
    open spec fn weight(&self) -> int {
        self.score as int
    }

    open spec fn tie(&self) -> Seq<u8> {
        encode_utf8(self.text@)
    }

    fn outranks(&self, other: &Self) -> (b: bool) {
        if self.score != other.score {
            self.score > other.score
        } else {
            bytes_before(self.text.as_str().as_bytes(), other.text.as_str().as_bytes())
        }
    }
}

/// A suggestion before it is scored, with the numbers that its score is
/// made of.
#[derive(Debug)]
pub struct SuggestionCandidate {
    pub text: String,
    pub suggestion_type: SuggestionType,
    /// Recent search: when it was made.
    pub timestamp: u64,
    /// Recent search: how many results it had.
    pub result_count: usize,
    /// Recent search: how many of them were opened.
    pub clicks: usize,
    /// Popular query: how often it was searched.
    pub search_count: u32,
    /// Popular query: the sum of its result counts.
    pub total_results: u64,
    /// Keyword: how often it occurs.
    pub frequency: u32,
    /// Auto-complete: the kind of question. Tag: the tag itself.
    pub detail: String,
}

/// The searches of one user, oldest first.
#[derive(Debug)]
pub struct UserHistory {
    pub user: Principal,
    pub queries: Vec<SearchQuery>,
}

/// The suggestion engine.
#[derive(Debug)]
pub struct SuggestionsEngine {
    pub histories: Vec<UserHistory>,
    pub popular: Vec<PopularQuery>,
    /// The tags of the stored memories, in lower case, each once.
    pub tags: Vec<String>,
    /// The keywords of contents and queries with their counts, each once.
    pub keywords: Vec<(String, u32)>,
}

/// The histories as an association list from user to queries.
pub open spec fn history_model(hs: Seq<UserHistory>) -> Seq<(Seq<u8>, Seq<SearchQuery>)> {
    hs.map_values(|h: UserHistory| (h.user@, h.queries@))
}

/// The text of a popular query.
pub open spec fn query_of() -> spec_fn(PopularQuery) -> Seq<char> {
    |p: PopularQuery| p.query@
}

/// The keywords as an association list from word to count.
pub open spec fn keyword_model(ks: Seq<(String, u32)>) -> Seq<(Seq<char>, u32)> {
    ks.map_values(|k: (String, u32)| (k.0@, k.1))
}

/// The last `n` items of `s`, or all of `s` if it has fewer.
pub open spec fn last_n<T>(s: Seq<T>, n: nat) -> Seq<T> {
    if s.len() > n {
        s.skip(s.len() - n)
    } else {
        s
    }
}

/// The words of `text` that are longer than `min` bytes, in lower case.
pub open spec fn keywords_of(text: Seq<char>, min: nat) -> Seq<Seq<char>> {
    words(text).filter(longer_than(min)).map_values(lower())
}

pub open spec fn longer_than(min: nat) -> spec_fn(Seq<char>) -> bool {
    |w: Seq<char>| byte_len(w) > min
}

pub open spec fn lower() -> spec_fn(Seq<char>) -> Seq<char> {
    |w: Seq<char>| lowercase(w)
}

/// How often `w` occurs in `ws`.
pub open spec fn occurrences(ws: Seq<Seq<char>>, w: Seq<char>) -> nat {
    ws.filter(|x: Seq<char>| x == w).len()
}

/// A count after `n` more occurrences: it stops at the largest number.
pub open spec fn bumped(count: nat, n: nat) -> nat {
    if count + n > u32::MAX {
        u32::MAX as nat
    } else {
        count + n
    }
}

/// A text matches what the user typed when its lower-case form holds the
/// typed text and it is longer in bytes.
pub open spec fn suggests(text: Seq<char>, typed: Seq<char>) -> bool {
    contains(lowercase(text), typed) && byte_len(text) > byte_len(typed)
}

impl SuggestionsEngine {
    /// The searches of `user`, oldest first.
    pub open spec fn history(&self, user: Seq<u8>) -> Seq<SearchQuery> {
        match lookup(history_model(self.histories@), user) {
            Some(q) => q,
            None => Seq::empty(),
        }
    }

    /// How often the keyword `w` was seen.
    pub open spec fn keyword_count(&self, w: Seq<char>) -> nat {
        match lookup(keyword_model(self.keywords@), w) {
            Some(n) => n as nat,
            None => 0,
        }
    }

    /// Whether `tag` is known, whatever its case.
    pub open spec fn has_tag(&self, tag: Seq<char>) -> bool {
        strs(self.tags@).contains(ascii_lower_seq(tag))
    }

    /// Whether the tag is known, whatever its case.
    pub fn knows_tag(&self, tag: &str) -> (r: bool)
        ensures
            r == self.has_tag(tag@),
    {
        let low: Vec<char> = chars_ascii_lower(&to_chars(tag));
        let s: String = from_chars(&low);
        crate::vector_store::ids_contain(&self.tags, s.as_str())
    }

    /// How often the keyword was seen.
    pub fn times_seen(&self, word: &str) -> (n: u32)
        ensures
            n == self.keyword_count(word@),
    {
        match self.find_keyword(word) {
            Some(i) => {
                proof {
                    lemma_lookup_first(keyword_model(self.keywords@), word@, i as int);
                    assert(keyword_model(self.keywords@)[i as int].1 == self.keywords@[i as int].1);
                }
                self.keywords[i].1
            },
            None => {
                proof {
                    lemma_lookup_absent(keyword_model(self.keywords@), word@);
                }
                0
            },
        }
    }

    /// The engine holds maps and sets: no tag is known twice, no keyword is
    /// counted twice, no user has two histories, and no query is popular
    /// twice.
    pub open spec fn wf(&self) -> bool {
        &&& strs(self.tags@).no_duplicates()
        &&& distinct_keys(keyword_model(self.keywords@))
        &&& distinct_keys(history_model(self.histories@))
        &&& crate::seqs::distinct_by(self.popular@, query_of())
    }

    /// An engine that has seen nothing.
    pub fn new() -> (e: Self)
        ensures
            e.histories@.len() == 0,
            e.popular@.len() == 0,
            e.tags@.len() == 0,
            e.keywords@.len() == 0,
            e.wf(),
    {
        SuggestionsEngine {
            histories: Vec::new(),
            popular: Vec::new(),
            tags: Vec::new(),
            keywords: Vec::new(),
        }
    }

    fn find_user(&self, user: &Principal) -> (r: Option<usize>)
        ensures
            match r {
                Some(i) => first_at(history_model(self.histories@), user@, i as int),
                None => absent(history_model(self.histories@), user@),
            },
    {
        let mut i: usize = 0;
        while i < self.histories.len()
            invariant
                i <= self.histories@.len(),
                forall|j: int|
                    0 <= j < i ==> (#[trigger] history_model(self.histories@)[j]).0 != user@,
            decreases self.histories@.len() - i,
        {
            assert(history_model(self.histories@)[i as int].0 == self.histories@[i as int].user@);
            if self.histories[i].user.same(user) {
                return Some(i);
            }
            i += 1;
        }
        None
    }

    fn find_keyword(&self, w: &str) -> (r: Option<usize>)
        ensures
            match r {
                Some(i) => first_at(keyword_model(self.keywords@), w@, i as int),
                None => absent(keyword_model(self.keywords@), w@),
            },
    {
        let mut i: usize = 0;
        while i < self.keywords.len()
            invariant
                i <= self.keywords@.len(),
                forall|j: int|
                    0 <= j < i ==> (#[trigger] keyword_model(self.keywords@)[j]).0 != w@,
            decreases self.keywords@.len() - i,
        {
            assert(keyword_model(self.keywords@)[i as int].0 == self.keywords@[i as int].0@);
            if str_eq(self.keywords[i].0.as_str(), w) {
                return Some(i);
            }
            i += 1;
        }
        None
    }

    /// Counts one more occurrence of the keyword `w`.
    pub fn count_keyword(&mut self, w: String)
        ensures
            final(self).histories == old(self).histories,
            final(self).popular == old(self).popular,
            final(self).tags == old(self).tags,
            old(self).wf() ==> final(self).wf(),
            forall|x: Seq<char>|
                #[trigger] final(self).keyword_count(x) == if x == w@ {
                    bumped(old(self).keyword_count(x), 1)
                } else {
                    old(self).keyword_count(x)
                },
    {
        let ghost before = keyword_model(self.keywords@);
        match self.find_keyword(w.as_str()) {
            Some(i) => {
                let n: u32 = self.keywords[i].1;
                let m: u32 = if n == u32::MAX {
                    n
                } else {
                    n + 1
                };
                self.keywords.set(i, (w, m));
                proof {
                    assert(keyword_model(self.keywords@) =~= before.update(i as int, (w@, m)));
                    if distinct_keys(before) {
                        lemma_distinct_update(before, i as int, m);
                    }
                    lemma_lookup_first(before, w@, i as int);
                    assert forall|x: Seq<char>|
                        #[trigger] self.keyword_count(x) == if x == w@ {
                            bumped(old(self).keyword_count(x), 1)
                        } else {
                            old(self).keyword_count(x)
                        } by {
                        lemma_lookup_update(before, w@, i as int, m, x);
                    }
                }
            },
            None => {
                let ghost wv = w@;
                self.keywords.push((w, 1));
                proof {
                    assert(keyword_model(self.keywords@) =~= before.push((wv, 1u32)));
                    if distinct_keys(before) {
                        lemma_distinct_push(before, wv, 1u32);
                    }
                    lemma_lookup_absent(before, wv);
                    assert forall|x: Seq<char>|
                        #[trigger] self.keyword_count(x) == if x == wv {
                            bumped(old(self).keyword_count(x), 1)
                        } else {
                            old(self).keyword_count(x)
                        } by {
                        lemma_lookup_push(before, wv, 1u32, x);
                    }
                }
            },
        }
    }

    /// Counts the keywords of `text`: its words of more than `min` bytes, in
    /// lower case.
    pub fn count_keywords(&mut self, text: &str, min: usize)
        ensures
            old(self).wf() ==> final(self).wf(),
            final(self).histories == old(self).histories,
            final(self).popular == old(self).popular,
            final(self).tags == old(self).tags,
            forall|x: Seq<char>|
                #[trigger] final(self).keyword_count(x) == bumped(
                    old(self).keyword_count(x),
                    occurrences(keywords_of(text@, min as nat), x),
                ),
    {
        let chars: Vec<char> = to_chars(text);
        let ws: Vec<Vec<char>> = split_words(&chars);
        let ghost all = words(text@);
        let ghost kw = keywords_of(text@, min as nat);
        let mut i: usize = 0;
        proof {
            reveal(Seq::filter);
            assert(all.take(0).filter(longer_than(min as nat)).map_values(lower()) =~= Seq::<
                Seq<char>,
            >::empty());
            assert forall|x: Seq<char>|
                occurrences(
                    all.take(0).filter(longer_than(min as nat)).map_values(lower()),
                    x,
                ) == 0 by {}
        }
        while i < ws.len()
            invariant
                i <= ws@.len(),
                all == char_seqs(ws@),
                old(self).wf() ==> self.wf(),
                self.histories == old(self).histories,
                self.popular == old(self).popular,
                self.tags == old(self).tags,
                forall|x: Seq<char>|
                    #[trigger] self.keyword_count(x) == bumped(
                        old(self).keyword_count(x),
                        occurrences(
                            all.take(i as int).filter(longer_than(min as nat)).map_values(lower()),
                            x,
                        ),
                    ),
            decreases ws@.len() - i,
        {
            let ghost done = all.take(i as int).filter(longer_than(min as nat)).map_values(lower());
            let ghost counted = *self;
            assert(all[i as int] == ws@[i as int]@);
            let word: String = from_chars(&ws[i]);
            proof {
                lemma_filter_step(all, i as int, longer_than(min as nat));
            }
            if str_byte_len(word.as_str()) > min {
                let low: String = to_lowercase(word.as_str());
                let ghost lv = low@;
                self.count_keyword(low);
                proof {
                    let next = all.take(i + 1).filter(longer_than(min as nat)).map_values(lower());
                    assert(next =~= done.push(lv));
                    assert forall|x: Seq<char>|
                        #[trigger] self.keyword_count(x) == bumped(
                            old(self).keyword_count(x),
                            occurrences(next, x),
                        ) by {
                        let p = |y: Seq<char>| y == x;
                        done.lemma_filter_push(lv, p);
                        assert(counted.keyword_count(x) == bumped(
                            old(self).keyword_count(x),
                            occurrences(done, x),
                        ));
                    }
                }
            }
            i += 1;
        }
        assert(all.take(ws@.len() as int) == all);
    }

    /// Counts the keywords of a query: its words of more than two bytes.
    pub fn extract_and_index_keywords(&mut self, query: &str)
        ensures
            old(self).wf() ==> final(self).wf(),
            final(self).histories == old(self).histories,
            final(self).popular == old(self).popular,
            final(self).tags == old(self).tags,
            forall|x: Seq<char>|
                #[trigger] final(self).keyword_count(x) == bumped(
                    old(self).keyword_count(x),
                    occurrences(keywords_of(query@, 2), x),
                ),
    {
        self.count_keywords(query, 2);
    }

    /// Enters a tag, in lower case, unless it is known. A tag that differs
    /// from a known one only in the case of its letters leaves the tags as
    /// they are.
    pub fn index_tag(&mut self, tag: &str)
        ensures
            final(self).histories == old(self).histories,
            final(self).popular == old(self).popular,
            final(self).keywords == old(self).keywords,
            old(self).has_tag(tag@) ==> final(self).tags == old(self).tags,
            !old(self).has_tag(tag@) ==> strs(final(self).tags@) == strs(old(self).tags@).push(
                ascii_lower_seq(tag@),
            ),
            old(self).wf() ==> final(self).wf(),
            forall|t: Seq<char>|
                #[trigger] final(self).has_tag(t) == (old(self).has_tag(t) || ascii_lower_seq(t)
                    == ascii_lower_seq(tag@)),
    {
        let low: Vec<char> = chars_ascii_lower(&to_chars(tag));
        let s: String = from_chars(&low);
        let ghost before = strs(self.tags@);
        if !crate::vector_store::ids_contain(&self.tags, s.as_str()) {
            let ghost bt = self.tags@;
            self.tags.push(s);
            proof {
                assert(strs(self.tags@) == before.push(s@));
                if before.no_duplicates() {
                    assert forall|x: int, y: int|
                        0 <= x < before.push(s@).len() && 0 <= y < before.push(s@).len() && x
                            != y implies before.push(s@)[x] != before.push(s@)[y] by {
                        if x < before.len() && y < before.len() {
                            assert(before[x] != before[y]);
                        } else if x < before.len() {
                            assert(before.contains(before[x]));
                        } else {
                            assert(before.contains(before[y]));
                        }
                    }
                }
                assert forall|t: Seq<char>|
                    #[trigger] self.has_tag(t) == (old(self).has_tag(t) || ascii_lower_seq(t)
                        == ascii_lower_seq(tag@)) by {
                    let x = ascii_lower_seq(t);
                    if before.push(s@).contains(x) {
                        let j = choose|j: int|
                            0 <= j < before.push(s@).len() && before.push(s@)[j] == x;
                        if j < before.len() {
                            assert(before[j] == x);
                        }
                    }
                    if before.contains(x) {
                        let j = choose|j: int| 0 <= j < before.len() && before[j] == x;
                        assert(before.push(s@)[j] == x);
                    }
                    if x == s@ {
                        assert(before.push(s@)[before.len() as int] == x);
                    }
                }
            }
        }
    }

    /// What taking in a memory makes of the engine `before`: the tags of
    /// the memory are known, whatever their case, and the words of its
    /// content that are longer than three bytes are counted.
    pub open spec fn took_in(&self, before: SuggestionsEngine, tags: Seq<Seq<char>>, content: Seq<char>) -> bool {
        &&& self.histories == before.histories
        &&& self.popular == before.popular
        &&& forall|t: Seq<char>|
            #[trigger] self.has_tag(t) == (before.has_tag(t) || exists|k: int|
                0 <= k < tags.len() && ascii_lower_seq(t) == ascii_lower_seq(#[trigger] tags[k]))
        &&& forall|x: Seq<char>|
            #[trigger] self.keyword_count(x) == bumped(
                before.keyword_count(x),
                occurrences(keywords_of(content, 3), x),
            )
    }

    /// Takes in a stored memory: its tags become known, and the words of its
    /// content that are longer than three bytes are counted as keywords.
    /// Tags that are known already, whatever their case, leave the tags as
    /// they are.
    pub fn index_memory_content(&mut self, memory: &Memory)
        ensures
            old(self).wf() ==> final(self).wf(),
            (forall|k: int|
                0 <= k < memory.tags@.len() ==> old(self).has_tag(
                    #[trigger] strs(memory.tags@)[k],
                )) ==> final(self).tags == old(self).tags,
            final(self).histories == old(self).histories,
            final(self).popular == old(self).popular,
            forall|t: Seq<char>|
                #[trigger] final(self).has_tag(t) == (old(self).has_tag(t) || exists|k: int|
                    0 <= k < memory.tags@.len() && ascii_lower_seq(t) == ascii_lower_seq(
                        #[trigger] strs(memory.tags@)[k],
                    )),
            forall|x: Seq<char>|
                #[trigger] final(self).keyword_count(x) == bumped(
                    old(self).keyword_count(x),
                    occurrences(keywords_of(memory.content@, 3), x),
                ),
            final(self).took_in(*old(self), strs(memory.tags@), memory.content@),
    {
        let mut i: usize = 0;
        while i < memory.tags.len()
            invariant
                i <= memory.tags@.len(),
                old(self).wf() ==> self.wf(),
                (forall|k: int|
                    0 <= k < i ==> old(self).has_tag(#[trigger] strs(memory.tags@)[k]))
                    ==> self.tags == old(self).tags,
                self.histories == old(self).histories,
                self.popular == old(self).popular,
                self.keywords == old(self).keywords,
                forall|t: Seq<char>|
                    #[trigger] self.has_tag(t) == (old(self).has_tag(t) || exists|k: int|
                        0 <= k < i && ascii_lower_seq(t) == ascii_lower_seq(
                            #[trigger] strs(memory.tags@)[k],
                        )),
            decreases memory.tags@.len() - i,
        {
            let ghost prev = *self;
            assert(strs(memory.tags@)[i as int] == memory.tags@[i as int]@);
            self.index_tag(memory.tags[i].as_str());
            proof {
                assert forall|t: Seq<char>|
                    #[trigger] self.has_tag(t) == (old(self).has_tag(t) || exists|k: int|
                        0 <= k < i + 1 && ascii_lower_seq(t) == ascii_lower_seq(
                            #[trigger] strs(memory.tags@)[k],
                        )) by {
                    assert(self.has_tag(t) == (prev.has_tag(t) || ascii_lower_seq(t)
                        == ascii_lower_seq(strs(memory.tags@)[i as int])));
                }
            }
            i += 1;
        }
        let ghost mid = *self;
        self.count_keywords(memory.content.as_str(), 3);
        proof {
            assert forall|t: Seq<char>|
                #[trigger] self.has_tag(t) == (old(self).has_tag(t) || exists|k: int|
                    0 <= k < memory.tags@.len() && ascii_lower_seq(t) == ascii_lower_seq(
                        #[trigger] strs(memory.tags@)[k],
                    )) by {
                assert(self.has_tag(t) == mid.has_tag(t));
            }
        }
    }
}

/// Two tags that differ only in the case of their letters are the same tag
/// to the engine: one is known exactly when the other is.
pub proof fn lemma_tags_ignore_case(e: SuggestionsEngine, a: Seq<char>, b: Seq<char>)
    requires
        ascii_lower_seq(a) == ascii_lower_seq(b),
    ensures
        e.has_tag(a) == e.has_tag(b),
{
}

/// The positions of the texts that are eligible and match what was typed.
pub open spec fn matching_positions(
    texts: Seq<Seq<char>>,
    eligible: Seq<bool>,
    typed: Seq<char>,
) -> Seq<int> {
    Seq::new(texts.len(), |i: int| i).filter(
        |i: int| 0 <= i < texts.len() && eligible[i] && suggests(texts[i], typed),
    )
}

/// The first `limit` positions of the texts that are eligible and match.
pub open spec fn picks(texts: Seq<Seq<char>>, eligible: Seq<bool>, typed: Seq<char>, limit: nat) -> Seq<
    int,
> {
    prefix(matching_positions(texts, eligible, typed), limit)
}

/// The numbers of a list as integers.
pub open spec fn positions(v: Seq<usize>) -> Seq<int> {
    v.map_values(|i: usize| i as int)
}

/// The first `limit` positions of the texts that are eligible and match
/// what was typed.
pub fn pick(texts: &Vec<String>, eligible: &Vec<bool>, typed: &str, limit: usize) -> (r: Vec<usize>)
    requires
        texts@.len() == eligible@.len(),
    ensures
        positions(r@) == picks(strs(texts@), eligible@, typed@, limit as nat),
        forall|k: int| 0 <= k < r@.len() ==> (#[trigger] r@[k]) < texts@.len(),
        r@.len() <= limit,
{
    let ghost ts = strs(texts@);
    let ghost pred = |i: int| 0 <= i < ts.len() && eligible@[i] && suggests(ts[i], typed@);
    let ghost all = Seq::new(ts.len(), |i: int| i);
    let mut out: Vec<usize> = Vec::new();
    let mut i: usize = 0;
    proof {
        reveal(Seq::filter);
        assert(all.take(0).filter(pred) == Seq::<int>::empty());
        assert(positions(out@) =~= Seq::<int>::empty());
    }
    while i < texts.len() && out.len() < limit
        invariant
            i <= texts@.len(),
            texts@.len() == eligible@.len(),
            ts == strs(texts@),
            all == Seq::new(ts.len(), |i: int| i),
            pred == (|i: int| 0 <= i < ts.len() && eligible@[i] && suggests(ts[i], typed@)),
            positions(out@) == all.take(i as int).filter(pred),
            forall|k: int| 0 <= k < out@.len() ==> (#[trigger] out@[k]) < texts@.len(),
            out@.len() <= limit,
        decreases texts@.len() - i,
    {
        proof {
            lemma_filter_step(all, i as int, pred);
            assert(all[i as int] == i as int);
            assert(ts[i as int] == texts@[i as int]@);
        }
        if eligible[i] {
            let low: String = to_lowercase(texts[i].as_str());
            if str_contains(low.as_str(), typed) && str_byte_len(texts[i].as_str()) > str_byte_len(
                typed,
            ) {
                let ghost before = out@;
                out.push(i);
                assert(positions(out@) =~= positions(before).push(i as int));
            }
        }
        i += 1;
    }
    proof {
        let full = all.filter(pred);
        if i == texts@.len() {
            assert(all.take(i as int) == all);
        } else {
            crate::validation::lemma_filter_prefix(all, i as int, pred);
            assert(out@.len() == limit);
            assert(full.take(limit as int) == positions(out@));
        }
        assert(positions(out@) == prefix(full, limit as nat));
    }
    out
}

/// The questions that auto-completion knows: what is typed, how it is
/// completed, and the kind of question.
pub open spec fn completions() -> Seq<(Seq<char>, Seq<char>, Seq<char>)> {
    seq![
        ("how to"@, "how to use"@, "tutorial"@),
        ("what is"@, "what is the purpose of"@, "definition"@),
        ("when"@, "when should I"@, "timing"@),
        ("why"@, "why does"@, "explanation"@),
        ("where"@, "where can I find"@, "location"@),
    ]
}

/// A question completes what was typed when it starts with it and is
/// longer.
pub open spec fn completes(typed: Seq<char>) -> spec_fn((Seq<char>, Seq<char>, Seq<char>)) -> bool {
    |c: (Seq<char>, Seq<char>, Seq<char>)| starts_with(c.0, typed) && byte_len(c.0) > byte_len(typed)
}

/// The completions offered for what was typed: none for less than two
/// bytes, else the first three questions that complete it.
pub open spec fn offered_completions(typed: Seq<char>) -> Seq<(Seq<char>, Seq<char>, Seq<char>)> {
    if byte_len(typed) < 2 {
        Seq::empty()
    } else {
        prefix(completions().filter(completes(typed)), PER_SOURCE as nat)
    }
}

/// The parts of auto-complete candidates that say which completion each
/// one is.
pub open spec fn completion_views(v: Seq<SuggestionCandidate>) -> Seq<(Seq<char>, Seq<char>)> {
    v.map_values(|c: SuggestionCandidate| (c.text@, c.detail@))
}

fn blank_candidate(text: String, suggestion_type: SuggestionType) -> (c: SuggestionCandidate)
    ensures
        c.text == text,
        c.suggestion_type == suggestion_type,
        c.timestamp == 0,
        c.result_count == 0,
        c.clicks == 0,
        c.search_count == 0,
        c.total_results == 0,
        c.frequency == 0,
        c.detail@.len() == 0,
{
    SuggestionCandidate {
        text,
        suggestion_type,
        timestamp: 0,
        result_count: 0,
        clicks: 0,
        search_count: 0,
        total_results: 0,
        frequency: 0,
        detail: String::new(),
    }
}

impl SuggestionsEngine {
    /// The auto-complete candidates for what was typed, in lower case.
    pub fn get_autocomplete_suggestions(partial_query: &str) -> (r: Vec<SuggestionCandidate>)
        ensures
            completion_views(r@) == offered_completions(partial_query@).map_values(
                |c: (Seq<char>, Seq<char>, Seq<char>)| (c.1, c.2),
            ),
            forall|k: int|
                0 <= k < r@.len() ==> (#[trigger] r@[k]).suggestion_type
                    == SuggestionType::AutoComplete,
    {
        let mut out: Vec<SuggestionCandidate> = Vec::new();
        if str_byte_len(partial_query) < 2 {
            assert(completion_views(out@) =~= offered_completions(partial_query@).map_values(
                |c: (Seq<char>, Seq<char>, Seq<char>)| (c.1, c.2),
            ));
            return out;
        }
        let mut table: Vec<(&str, &str, &str)> = Vec::new();
        table.push(("how to", "how to use", "tutorial"));
        table.push(("what is", "what is the purpose of", "definition"));
        table.push(("when", "when should I", "timing"));
        table.push(("why", "why does", "explanation"));
        table.push(("where", "where can I find", "location"));
        let ghost all = completions();
        let ghost pred = completes(partial_query@);
        let ghost proj = |c: (Seq<char>, Seq<char>, Seq<char>)| (c.1, c.2);
        assert(table@.len() == 5 && all.len() == 5);
        assert(forall|k: int|
            0 <= k < 5 ==> all[k] == ((#[trigger] table@[k]).0@, table@[k].1@, table@[k].2@));
        let mut i: usize = 0;
        proof {
            reveal(Seq::filter);
            assert(all.take(0).filter(pred) == Seq::<(Seq<char>, Seq<char>, Seq<char>)>::empty());
            assert(completion_views(out@) =~= all.take(0).filter(pred).map_values(proj));
        }
        while i < table.len() && out.len() < PER_SOURCE
            invariant
                i <= 5,
                table@.len() == 5,
                all == completions(),
                pred == completes(partial_query@),
                proj == (|c: (Seq<char>, Seq<char>, Seq<char>)| (c.1, c.2)),
                forall|k: int|
                    0 <= k < 5 ==> all[k] == ((#[trigger] table@[k]).0@, table@[k].1@, table@[k].2@),
                completion_views(out@) == all.take(i as int).filter(pred).map_values(proj),
                out@.len() == all.take(i as int).filter(pred).len(),
                out@.len() <= PER_SOURCE,
                forall|k: int|
                    0 <= k < out@.len() ==> (#[trigger] out@[k]).suggestion_type
                        == SuggestionType::AutoComplete,
            decreases 5 - i,
        {
            proof {
                lemma_filter_step(all, i as int, pred);
            }
            let (prefix_text, completion, category) = table[i];
            if str_starts_with(prefix_text, partial_query) && str_byte_len(prefix_text)
                > str_byte_len(partial_query) {
                let mut c = blank_candidate(str_to_string(completion), SuggestionType::AutoComplete);
                c.detail = str_to_string(category);
                let ghost before = out@;
                out.push(c);
                proof {
                    let f = all.take(i as int).filter(pred);
                    assert(completion_views(out@) =~= completion_views(before).push(
                        (completion@, category@),
                    ));
                    assert(f.push(all[i as int]).map_values(proj) =~= f.map_values(proj).push(
                        proj(all[i as int]),
                    ));
                }
            }
            i += 1;
        }
        proof {
            let full = all.filter(pred);
            if i == 5 {
                assert(all.take(5) == all);
                assert(full.len() <= PER_SOURCE);
            } else {
                crate::validation::lemma_filter_prefix(all, i as int, pred);
                assert(full.take(PER_SOURCE as int) == all.take(i as int).filter(pred));
            }
            assert(all.take(i as int).filter(pred) == prefix(full, PER_SOURCE as nat));
        }
        out
    }

    /// The candidates among the known tags: the first three that match what
    /// was typed, as `tag:` and the tag.
    pub fn get_tag_suggestions(&self, partial_query: &str) -> (r: Vec<SuggestionCandidate>)
        ensures
            r@.len() == picks(
                strs(self.tags@),
                Seq::new(self.tags@.len(), |i: int| true),
                partial_query@,
                PER_SOURCE as nat,
            ).len(),
            forall|k: int|
                0 <= k < r@.len() ==> {
                    let at = picks(
                        strs(self.tags@),
                        Seq::new(self.tags@.len(), |i: int| true),
                        partial_query@,
                        PER_SOURCE as nat,
                    )[k];
                    &&& 0 <= at < self.tags@.len()
                    &&& (#[trigger] r@[k]).text@ == "tag:"@ + self.tags@[at]@
                    &&& r@[k].detail@ == self.tags@[at]@
                    &&& r@[k].suggestion_type == SuggestionType::TagSuggestion
                },
    {
        let mut eligible: Vec<bool> = Vec::new();
        let mut i: usize = 0;
        while i < self.tags.len()
            invariant
                i <= self.tags@.len(),
                eligible@.len() == i,
                forall|k: int| 0 <= k < i ==> eligible@[k],
            decreases self.tags@.len() - i,
        {
            eligible.push(true);
            i += 1;
        }
        assert(eligible@ =~= Seq::new(self.tags@.len(), |i: int| true));
        let at: Vec<usize> = pick(&self.tags, &eligible, partial_query, PER_SOURCE);
        let mut out: Vec<SuggestionCandidate> = Vec::new();
        let mut k: usize = 0;
        while k < at.len()
            invariant
                k <= at@.len(),
                out@.len() == k,
                forall|j: int| 0 <= j < at@.len() ==> (#[trigger] at@[j]) < self.tags@.len(),
                forall|j: int|
                    0 <= j < k ==> (#[trigger] out@[j]).text@ == "tag:"@ + self.tags@[at@[j] as int]@
                        && out@[j].detail@ == self.tags@[at@[j] as int]@ && out@[j].suggestion_type
                        == SuggestionType::TagSuggestion,
            decreases at@.len() - k,
        {
            let tag: &String = &self.tags[at[k]];
            let mut text: String = str_to_string("tag:");
            crate::text::push_str(&mut text, tag.as_str());
            let mut c = blank_candidate(text, SuggestionType::TagSuggestion);
            c.detail = tag.clone();
            out.push(c);
            k += 1;
        }
        proof {
            let p = picks(strs(self.tags@), eligible@, partial_query@, PER_SOURCE as nat);
            assert(positions(at@) == p);
            assert forall|j: int| 0 <= j < out@.len() implies {
                let a = p[j];
                &&& 0 <= a < self.tags@.len()
                &&& (#[trigger] out@[j]).text@ == "tag:"@ + self.tags@[a]@
                &&& out@[j].detail@ == self.tags@[a]@
                &&& out@[j].suggestion_type == SuggestionType::TagSuggestion
            } by {
                assert(positions(at@)[j] == at@[j] as int);
            }
        }
        out
    }

    /// The candidates among the keywords: the first three that match what
    /// was typed and were seen more than twice.
    pub fn get_keyword_suggestions(&self, partial_query: &str) -> (r: Vec<SuggestionCandidate>)
        ensures
            r@.len() == picks(
                strs_of_keywords(self.keywords@),
                Seq::new(self.keywords@.len(), |i: int| self.keywords@[i].1 > 2),
                partial_query@,
                PER_SOURCE as nat,
            ).len(),
            forall|k: int|
                0 <= k < r@.len() ==> {
                    let at = picks(
                        strs_of_keywords(self.keywords@),
                        Seq::new(self.keywords@.len(), |i: int| self.keywords@[i].1 > 2),
                        partial_query@,
                        PER_SOURCE as nat,
                    )[k];
                    &&& 0 <= at < self.keywords@.len()
                    &&& (#[trigger] r@[k]).text@ == self.keywords@[at].0@
                    &&& r@[k].frequency == self.keywords@[at].1
                    &&& r@[k].suggestion_type == SuggestionType::ContentKeyword
                },
    {
        let mut texts: Vec<String> = Vec::new();
        let mut eligible: Vec<bool> = Vec::new();
        let mut i: usize = 0;
        while i < self.keywords.len()
            invariant
                i <= self.keywords@.len(),
                eligible@.len() == i,
                texts@.len() == i,
                forall|k: int| 0 <= k < i ==> eligible@[k] == (self.keywords@[k].1 > 2),
                forall|k: int| 0 <= k < i ==> (#[trigger] texts@[k])@ == self.keywords@[k].0@,
            decreases self.keywords@.len() - i,
        {
            eligible.push(self.keywords[i].1 > 2);
            texts.push(self.keywords[i].0.clone());
            i += 1;
        }
        assert(eligible@ =~= Seq::new(self.keywords@.len(), |i: int| self.keywords@[i].1 > 2));
        assert(strs(texts@) =~= strs_of_keywords(self.keywords@));
        let at: Vec<usize> = pick(&texts, &eligible, partial_query, PER_SOURCE);
        let mut out: Vec<SuggestionCandidate> = Vec::new();
        let mut k: usize = 0;
        while k < at.len()
            invariant
                k <= at@.len(),
                out@.len() == k,
                texts@.len() == self.keywords@.len(),
                forall|j: int| 0 <= j < at@.len() ==> (#[trigger] at@[j]) < self.keywords@.len(),
                forall|j: int|
                    0 <= j < k ==> (#[trigger] out@[j]).text@ == self.keywords@[at@[j] as int].0@
                        && out@[j].frequency == self.keywords@[at@[j] as int].1
                        && out@[j].suggestion_type == SuggestionType::ContentKeyword,
            decreases at@.len() - k,
        {
            let entry: &(String, u32) = &self.keywords[at[k]];
            let mut c = blank_candidate(entry.0.clone(), SuggestionType::ContentKeyword);
            c.frequency = entry.1;
            out.push(c);
            k += 1;
        }
        proof {
            let p = picks(strs(texts@), eligible@, partial_query@, PER_SOURCE as nat);
            assert forall|j: int| 0 <= j < out@.len() implies {
                let a = p[j];
                &&& 0 <= a < self.keywords@.len()
                &&& (#[trigger] out@[j]).text@ == self.keywords@[a].0@
                &&& out@[j].frequency == self.keywords@[a].1
                &&& out@[j].suggestion_type == SuggestionType::ContentKeyword
            } by {
                assert(positions(at@)[j] == at@[j] as int);
            }
        }
        out
    }

    /// The candidates among the popular queries: the first three of the
    /// fifty most popular that match what was typed.
    pub fn get_popular_query_suggestions(&self, partial_query: &str) -> (r: Vec<
        SuggestionCandidate,
    >)
        ensures
            r@.len() == picks(
                popular_texts(prefix(self.popular@, 50)),
                Seq::new(prefix(self.popular@, 50).len(), |i: int| true),
                partial_query@,
                PER_SOURCE as nat,
            ).len(),
            forall|k: int|
                0 <= k < r@.len() ==> {
                    let at = picks(
                        popular_texts(prefix(self.popular@, 50)),
                        Seq::new(prefix(self.popular@, 50).len(), |i: int| true),
                        partial_query@,
                        PER_SOURCE as nat,
                    )[k];
                    &&& 0 <= at < self.popular@.len()
                    &&& (#[trigger] r@[k]).text@ == self.popular@[at].query@
                    &&& r@[k].search_count == self.popular@[at].search_count
                    &&& r@[k].total_results == self.popular@[at].total_results
                    &&& r@[k].suggestion_type == SuggestionType::PopularQuery
                },
    {
        let n: usize = if self.popular.len() < 50 {
            self.popular.len()
        } else {
            50
        };
        let ghost head = prefix(self.popular@, 50);
        let mut texts: Vec<String> = Vec::new();
        let mut eligible: Vec<bool> = Vec::new();
        let mut i: usize = 0;
        while i < n
            invariant
                i <= n <= self.popular@.len(),
                n == head.len(),
                head == prefix(self.popular@, 50),
                eligible@.len() == i,
                texts@.len() == i,
                forall|k: int| 0 <= k < i ==> eligible@[k],
                forall|k: int| 0 <= k < i ==> (#[trigger] texts@[k])@ == self.popular@[k].query@,
            decreases n - i,
        {
            eligible.push(true);
            texts.push(self.popular[i].query.clone());
            i += 1;
        }
        assert(eligible@ =~= Seq::new(head.len(), |i: int| true));
        assert(strs(texts@) =~= popular_texts(head));
        let at: Vec<usize> = pick(&texts, &eligible, partial_query, PER_SOURCE);
        let mut out: Vec<SuggestionCandidate> = Vec::new();
        let mut k: usize = 0;
        while k < at.len()
            invariant
                k <= at@.len(),
                out@.len() == k,
                texts@.len() == n <= self.popular@.len(),
                forall|j: int| 0 <= j < at@.len() ==> (#[trigger] at@[j]) < n,
                forall|j: int|
                    0 <= j < k ==> (#[trigger] out@[j]).text@ == self.popular@[at@[j] as int].query@
                        && out@[j].search_count == self.popular@[at@[j] as int].search_count
                        && out@[j].total_results == self.popular@[at@[j] as int].total_results
                        && out@[j].suggestion_type == SuggestionType::PopularQuery,
            decreases at@.len() - k,
        {
            let p: &PopularQuery = &self.popular[at[k]];
            let mut c = blank_candidate(p.query.clone(), SuggestionType::PopularQuery);
            c.search_count = p.search_count;
            c.total_results = p.total_results;
            out.push(c);
            k += 1;
        }
        proof {
            let p = picks(strs(texts@), eligible@, partial_query@, PER_SOURCE as nat);
            assert forall|j: int| 0 <= j < out@.len() implies {
                let a = p[j];
                &&& 0 <= a < self.popular@.len()
                &&& (#[trigger] out@[j]).text@ == self.popular@[a].query@
                &&& out@[j].search_count == self.popular@[a].search_count
                &&& out@[j].total_results == self.popular@[a].total_results
                &&& out@[j].suggestion_type == SuggestionType::PopularQuery
            } by {
                assert(positions(at@)[j] == at@[j] as int);
            }
        }
        out
    }

    /// The candidates among the searches of `user`: the first three of the
    /// twenty most recent, newest first, that match what was typed.
    pub fn get_recent_search_suggestions(&self, user: &Principal, partial_query: &str) -> (r: Vec<
        SuggestionCandidate,
    >)
        ensures
            r@.len() == picks(
                query_texts(newest_first(self.history(user@), 20)),
                Seq::new(newest_first(self.history(user@), 20).len(), |i: int| true),
                partial_query@,
                PER_SOURCE as nat,
            ).len(),
            forall|k: int|
                0 <= k < r@.len() ==> {
                    let recent = newest_first(self.history(user@), 20);
                    let at = picks(
                        query_texts(recent),
                        Seq::new(recent.len(), |i: int| true),
                        partial_query@,
                        PER_SOURCE as nat,
                    )[k];
                    &&& 0 <= at < recent.len()
                    &&& (#[trigger] r@[k]).text@ == recent[at].query@
                    &&& r@[k].timestamp == recent[at].timestamp
                    &&& r@[k].result_count == recent[at].result_count
                    &&& r@[k].clicks == recent[at].clicked_results@.len()
                    &&& r@[k].suggestion_type == SuggestionType::RecentSearch
                },
    {
        let hi: usize = match self.find_user(user) {
            Some(i) => i,
            None => {
                proof {
                    lemma_lookup_absent(history_model(self.histories@), user@);
                    reveal(Seq::filter);
                    let recent = newest_first(self.history(user@), 20);
                    assert(recent.len() == 0);
                    assert(matching_positions(
                        query_texts(recent),
                        Seq::new(recent.len(), |i: int| true),
                        partial_query@,
                    ).len() == 0);
                }
                return Vec::new();
            },
        };
        proof {
            lemma_lookup_first(history_model(self.histories@), user@, hi as int);
            assert(history_model(self.histories@)[hi as int].1 == self.histories@[hi as int].queries@);
        }
        let queries: &Vec<SearchQuery> = &self.histories[hi].queries;
        let ghost recent = newest_first(queries@, 20);
        let total: usize = queries.len();
        let n: usize = if total < 20 {
            total
        } else {
            20
        };
        let mut texts: Vec<String> = Vec::new();
        let mut eligible: Vec<bool> = Vec::new();
        let mut i: usize = 0;
        while i < n
            invariant
                i <= n <= total == queries@.len(),
                n == recent.len(),
                recent == newest_first(queries@, 20),
                eligible@.len() == i,
                texts@.len() == i,
                forall|k: int| 0 <= k < i ==> eligible@[k],
                forall|k: int| 0 <= k < i ==> (#[trigger] texts@[k])@ == recent[k].query@,
            decreases n - i,
        {
            assert(recent[i as int] == queries@[total - 1 - i]);
            eligible.push(true);
            texts.push(queries[total - 1 - i].query.clone());
            i += 1;
        }
        assert(eligible@ =~= Seq::new(recent.len(), |i: int| true));
        assert(strs(texts@) =~= query_texts(recent));
        let at: Vec<usize> = pick(&texts, &eligible, partial_query, PER_SOURCE);
        let mut out: Vec<SuggestionCandidate> = Vec::new();
        let mut k: usize = 0;
        while k < at.len()
            invariant
                k <= at@.len(),
                out@.len() == k,
                texts@.len() == n <= total == queries@.len(),
                n == recent.len(),
                recent == newest_first(queries@, 20),
                forall|j: int| 0 <= j < at@.len() ==> (#[trigger] at@[j]) < n,
                forall|j: int|
                    0 <= j < k ==> (#[trigger] out@[j]).text@ == recent[at@[j] as int].query@
                        && out@[j].timestamp == recent[at@[j] as int].timestamp
                        && out@[j].result_count == recent[at@[j] as int].result_count
                        && out@[j].clicks == recent[at@[j] as int].clicked_results@.len()
                        && out@[j].suggestion_type == SuggestionType::RecentSearch,
            decreases at@.len() - k,
        {
            assert(recent[at@[k as int] as int] == queries@[total - 1 - at@[k as int]]);
            let q: &SearchQuery = &queries[total - 1 - at[k]];
            let mut c = blank_candidate(q.query.clone(), SuggestionType::RecentSearch);
            c.timestamp = q.timestamp;
            c.result_count = q.result_count;
            c.clicks = q.clicked_results.len();
            out.push(c);
            k += 1;
        }
        proof {
            let p = picks(strs(texts@), eligible@, partial_query@, PER_SOURCE as nat);
            assert forall|j: int| 0 <= j < out@.len() implies {
                let a = p[j];
                &&& 0 <= a < recent.len()
                &&& (#[trigger] out@[j]).text@ == recent[a].query@
                &&& out@[j].timestamp == recent[a].timestamp
                &&& out@[j].result_count == recent[a].result_count
                &&& out@[j].clicks == recent[a].clicked_results@.len()
                &&& out@[j].suggestion_type == SuggestionType::RecentSearch
            } by {
                assert(positions(at@)[j] == at@[j] as int);
            }
        }
        out
    }

    /// The scored suggestions in rank order, the higher score first and the
    /// smaller text first among equal scores, cut to `limit`.
    pub fn get_suggestions(scored: Vec<SearchSuggestion>, limit: usize) -> (r: Vec<
        SearchSuggestion,
    >)
        ensures
            exists|sorted: Seq<SearchSuggestion>|
                ranked(sorted) && #[trigger] sorted.to_multiset() == scored@.to_multiset() && r@
                    == prefix(sorted, limit as nat),
            ranked(r@),
            r@.len() <= limit,
    {
        let sorted: Vec<SearchSuggestion> = sort_ranked(scored);
        let ghost s = sorted@;
        let r = crate::vector_store::keep_first(sorted, limit);
        proof {
            assert(ranked(s) && s.to_multiset() == scored@.to_multiset() && r@ == prefix(
                s,
                limit as nat,
            ));
            assert forall|i: int, j: int| 0 <= i < j < r@.len() implies crate::ranking::before(
                #[trigger] r@[i],
                #[trigger] r@[j],
            ) by {
                assert(r@[i] == s[i] && r@[j] == s[j]);
            }
        }
        r
    }
}

/// The texts of the keywords.
pub open spec fn strs_of_keywords(ks: Seq<(String, u32)>) -> Seq<Seq<char>> {
    ks.map_values(|k: (String, u32)| k.0@)
}

/// The texts of the popular queries.
pub open spec fn popular_texts(ps: Seq<PopularQuery>) -> Seq<Seq<char>> {
    ps.map_values(|p: PopularQuery| p.query@)
}

/// The texts of the queries.
pub open spec fn query_texts(qs: Seq<SearchQuery>) -> Seq<Seq<char>> {
    qs.map_values(|q: SearchQuery| q.query@)
}

/// The last `n` queries, the newest first.
pub open spec fn newest_first(qs: Seq<SearchQuery>, n: nat) -> Seq<SearchQuery> {
    Seq::new(
        if qs.len() < n {
            qs.len()
        } else {
            n
        },
        |i: int| qs[qs.len() - 1 - i],
    )
}

/// A count after one more occurrence: it stops at the largest number.
pub open spec fn bump32(n: u32) -> u32 {
    if n == u32::MAX {
        n
    } else {
        (n + 1) as u32
    }
}

/// A sum that stops at the largest number.
pub open spec fn sum64(a: u64, b: usize) -> u64 {
    if a + b > u64::MAX {
        u64::MAX
    } else {
        (a + b) as u64
    }
}

/// `after` is `before` with one more search of `query` entered: the first
/// entry of the query counts one more, or a new entry is added at the end.
pub open spec fn is_upsert(
    before: Seq<PopularQuery>,
    after: Seq<PopularQuery>,
    query: Seq<char>,
    result_count: usize,
    now: u64,
) -> bool {
    ||| exists|i: int|
        {
            &&& 0 <= i < before.len()
            &&& (#[trigger] before[i]).query@ == query
            &&& forall|j: int| 0 <= j < i ==> (#[trigger] before[j]).query@ != query
            &&& after.len() == before.len()
            &&& forall|j: int| 0 <= j < before.len() && j != i ==> #[trigger] after[j] == before[j]
            &&& after[i].query@ == query
            &&& after[i].search_count == bump32(before[i].search_count)
            &&& after[i].total_results == sum64(before[i].total_results, result_count)
            &&& after[i].last_searched == now
        }
    ||| {
        &&& forall|j: int| 0 <= j < before.len() ==> (#[trigger] before[j]).query@ != query
        &&& after.len() == before.len() + 1
        &&& after.take(before.len() as int) == before
        &&& after.last().query@ == query
        &&& after.last().search_count == 1
        &&& after.last().total_results == result_count
        &&& after.last().last_searched == now
    }
}

/// `after` is what the popular queries become by one more search of
/// `query`: the search is entered, the queries are put in rank order (the
/// more searched first, the smaller text first among equals), and the first
/// hundred are kept.
pub open spec fn popular_updated(
    before: Seq<PopularQuery>,
    after: Seq<PopularQuery>,
    query: Seq<char>,
    result_count: usize,
    now: u64,
) -> bool {
    exists|entered: Seq<PopularQuery>, sorted: Seq<PopularQuery>|
        #![trigger is_upsert(before, entered, query, result_count, now), ranked(sorted)]
        is_upsert(before, entered, query, result_count, now) && ranked(sorted)
            && sorted.to_multiset() == entered.to_multiset() && after == prefix(
            sorted,
            MAX_POPULAR as nat,
        )
}

/// The position of the last search of `query` in `qs`.
pub open spec fn last_search_at(qs: Seq<SearchQuery>, query: Seq<char>, j: int) -> bool {
    &&& 0 <= j < qs.len()
    &&& qs[j].query@ == query
    &&& forall|i: int| j < i < qs.len() ==> (#[trigger] qs[i]).query@ != query
}

/// `after` is `before` with `id` added to the opened results of the search
/// at `j`.
pub open spec fn click_added(
    before: Seq<SearchQuery>,
    after: Seq<SearchQuery>,
    j: int,
    id: Seq<char>,
) -> bool {
    &&& after.len() == before.len()
    &&& forall|i: int| 0 <= i < before.len() && i != j ==> #[trigger] after[i] == before[i]
    &&& after[j].query@ == before[j].query@
    &&& after[j].timestamp == before[j].timestamp
    &&& after[j].result_count == before[j].result_count
    &&& strs(after[j].clicked_results@) == strs(before[j].clicked_results@).push(id)
}

/// The searches made after `cutoff`.
pub open spec fn searched_after(cutoff: u64) -> spec_fn(SearchQuery) -> bool {
    |q: SearchQuery| q.timestamp > cutoff
}

/// The popular queries last searched after `cutoff`.
pub open spec fn popular_after(cutoff: u64) -> spec_fn(PopularQuery) -> bool {
    |p: PopularQuery| p.last_searched > cutoff
}

/// Thirty days in nanoseconds.
pub const THIRTY_DAYS_NS: u64 = 2_592_000_000_000_000;

/// The time thirty days before `now`, or the beginning of time.
pub open spec fn cutoff_of(now: u64) -> u64 {
    if now >= THIRTY_DAYS_NS {
        (now - THIRTY_DAYS_NS) as u64
    } else {
        0
    }
}

impl SuggestionsEngine {
    /// Enters one more search of `query` in the popular queries.
    pub fn update_popular_queries(&mut self, query: &str, result_count: usize, now: u64)
        ensures
            old(self).wf() ==> final(self).wf(),
            final(self).histories == old(self).histories,
            final(self).tags == old(self).tags,
            final(self).keywords == old(self).keywords,
            popular_updated(old(self).popular@, final(self).popular@, query@, result_count, now),
    {
        let ghost before = self.popular@;
        let mut found: Option<usize> = None;
        let mut i: usize = 0;
        while i < self.popular.len() && found.is_none()
            invariant
                i <= self.popular@.len(),
                self.popular@ == before,
                match found {
                    Some(f) => f < before.len() && before[f as int].query@ == query@ && forall|
                        j: int,
                    | 0 <= j < f ==> (#[trigger] before[j]).query@ != query@,
                    None => forall|j: int| 0 <= j < i ==> (#[trigger] before[j]).query@ != query@,
                },
            decreases self.popular@.len() - i + (if found is None {
                1int
            } else {
                0int
            }),
        {
            if str_eq(self.popular[i].query.as_str(), query) {
                found = Some(i);
            } else {
                i += 1;
            }
        }
        let mut list: Vec<PopularQuery> = Vec::new();
        core::mem::swap(&mut list, &mut self.popular);
        match found {
            Some(f) => {
                let p: PopularQuery = list.remove(f);
                let count: u32 = if p.search_count == u32::MAX {
                    p.search_count
                } else {
                    p.search_count + 1
                };
                let add: u64 = result_count as u64;
                let total: u64 = if p.total_results > u64::MAX - add {
                    u64::MAX
                } else {
                    p.total_results + add
                };
                let q = PopularQuery {
                    query: p.query,
                    search_count: count,
                    total_results: total,
                    last_searched: now,
                };
                list.insert(f, q);
                assert(is_upsert(before, list@, query@, result_count, now)) by {
                    assert forall|j: int| 0 <= j < before.len() && j != f implies #[trigger] list@[j]
                        == before[j] by {}
                }
                proof {
                    if crate::seqs::distinct_by(before, query_of()) {
                        assert forall|x: int, y: int| 0 <= x < y < list@.len() implies (query_of())(
                            #[trigger] list@[x],
                        ) != (query_of())(#[trigger] list@[y]) by {
                            assert((query_of())(list@[x]) == (query_of())(before[x]));
                            assert((query_of())(list@[y]) == (query_of())(before[y]));
                        }
                    }
                }
            },
            None => {
                list.push(
                    PopularQuery {
                        query: str_to_string(query),
                        search_count: 1,
                        total_results: result_count as u64,
                        last_searched: now,
                    },
                );
                assert(list@.take(before.len() as int) == before);
                assert(is_upsert(before, list@, query@, result_count, now));
                proof {
                    if crate::seqs::distinct_by(before, query_of()) {
                        assert forall|x: int, y: int| 0 <= x < y < list@.len() implies (query_of())(
                            #[trigger] list@[x],
                        ) != (query_of())(#[trigger] list@[y]) by {
                            assert(list@[x] == before[x]);
                            if y < before.len() {
                                assert(list@[y] == before[y]);
                            }
                        }
                    }
                }
            },
        }
        let ghost entered = list@;
        let sorted: Vec<PopularQuery> = sort_ranked(list);
        let ghost sv = sorted@;
        self.popular = crate::vector_store::keep_first(sorted, MAX_POPULAR);
        assert(is_upsert(before, entered, query@, result_count, now) && ranked(sv));
        proof {
            if crate::seqs::distinct_by(before, query_of()) {
                crate::seqs::lemma_distinct_permuted(entered, sv, query_of());
                crate::seqs::lemma_distinct_prefix(sv, MAX_POPULAR as nat, query_of());
            }
        }
    }

    /// What recording a search of `user` makes of the engine `before`.
    pub open spec fn recorded(
        &self,
        before: SuggestionsEngine,
        user: Seq<u8>,
        query: Seq<char>,
        result_count: usize,
        now: u64,
    ) -> bool {
        &&& exists|q: SearchQuery|
            q.query@ == query && q.timestamp == now && q.result_count == result_count
                && q.clicked_results@.len() == 0 && #[trigger] last_n(
                before.history(user).push(q),
                MAX_HISTORY as nat,
            ) == self.history(user)
        &&& forall|u: Seq<u8>| u != user ==> #[trigger] self.history(u) == before.history(u)
        &&& popular_updated(before.popular@, self.popular@, query, result_count, now)
        &&& self.tags == before.tags
        &&& forall|x: Seq<char>|
            #[trigger] self.keyword_count(x) == bumped(
                before.keyword_count(x),
                occurrences(keywords_of(query, 2), x),
            )
    }

    /// Records a search of `user`: it joins the history of the user, of
    /// which the last hundred searches are kept; it is entered in the
    /// popular queries; and the words of the query that are longer than two
    /// bytes are counted as keywords.
    pub fn record_search(&mut self, user: &Principal, query: &str, result_count: usize, now: u64)
        ensures
            old(self).wf() ==> final(self).wf(),
            exists|q: SearchQuery|
                q.query@ == query@ && q.timestamp == now && q.result_count == result_count
                    && q.clicked_results@.len() == 0 && #[trigger] last_n(
                    old(self).history(user@).push(q),
                    MAX_HISTORY as nat,
                ) == final(self).history(user@),
            forall|u: Seq<u8>| u != user@ ==> #[trigger] final(self).history(u) == old(self).history(u),
            popular_updated(old(self).popular@, final(self).popular@, query@, result_count, now),
            final(self).tags == old(self).tags,
            forall|x: Seq<char>|
                #[trigger] final(self).keyword_count(x) == bumped(
                    old(self).keyword_count(x),
                    occurrences(keywords_of(query@, 2), x),
                ),
            final(self).recorded(*old(self), user@, query@, result_count, now),
    {
        let q = SearchQuery {
            query: str_to_string(query),
            timestamp: now,
            result_count,
            clicked_results: Vec::new(),
        };
        let ghost model = history_model(self.histories@);
        let ghost full = old(self).history(user@).push(q);
        match self.find_user(user) {
            Some(i) => {
                proof {
                    lemma_lookup_first(model, user@, i as int);
                    assert(model[i as int].1 == self.histories@[i as int].queries@);
                }
                let mut h: UserHistory = self.histories.remove(i);
                h.queries.push(q);
                while h.queries.len() > MAX_HISTORY
                    invariant
                        h.queries@.len() <= full.len(),
                        h.queries@ == full.skip(full.len() - h.queries@.len()),
                        full.len() > MAX_HISTORY ==> h.queries@.len() >= MAX_HISTORY,
                        full.len() <= MAX_HISTORY ==> h.queries@.len() == full.len(),
                        h.user@ == user@,
                    decreases h.queries@.len(),
                {
                    let ghost before = h.queries@;
                    h.queries.remove(0);
                    assert(h.queries@ == before.skip(1));
                    assert(before.skip(1) == full.skip(full.len() - before.len() + 1));
                }
                assert(full.skip(0) == full);
                let ghost kept = h.queries@;
                self.histories.insert(i, h);
                proof {
                    assert(history_model(self.histories@) =~= model.update(i as int, (user@, kept)));
                    if distinct_keys(model) {
                        lemma_distinct_update(model, i as int, kept);
                    }
                    assert forall|u: Seq<u8>|
                        lookup(model.update(i as int, (user@, kept)), u) == if u == user@ {
                            Some(kept)
                        } else {
                            lookup(model, u)
                        } by {
                        lemma_lookup_update(model, user@, i as int, kept, u);
                    }
                }
            },
            None => {
                let mut queries: Vec<SearchQuery> = Vec::new();
                queries.push(q);
                let ghost kept = queries@;
                self.histories.push(UserHistory { user: user.duplicate(), queries });
                proof {
                    lemma_lookup_absent(model, user@);
                    assert(history_model(self.histories@) =~= model.push((user@, kept)));
                    if distinct_keys(model) {
                        lemma_distinct_push(model, user@, kept);
                    }
                    assert(full == Seq::<SearchQuery>::empty().push(q));
                    assert(kept == full);
                    assert forall|u: Seq<u8>|
                        lookup(model.push((user@, kept)), u) == if u == user@ {
                            Some(kept)
                        } else {
                            lookup(model, u)
                        } by {
                        lemma_lookup_push(model, user@, kept, u);
                    }
                }
            },
        }
        let ghost mid = *self;
        assert(mid.history(user@) == last_n(full, MAX_HISTORY as nat));
        assert(old(self).wf() ==> mid.wf());
        self.update_popular_queries(query, result_count, now);
        self.extract_and_index_keywords(query);
        proof {
            assert(self.history(user@) == mid.history(user@));
            assert forall|u: Seq<u8>| u != user@ implies #[trigger] self.history(u) == old(self).history(u) by {
                assert(self.history(u) == mid.history(u));
            }
        }
    }

    /// Records that `user` opened `memory_id` among the results of `query`:
    /// the id joins the opened results of the last search of that query, if
    /// the user made one.
    pub fn record_click(&mut self, user: &Principal, query: &str, memory_id: String)
        ensures
            old(self).wf() ==> final(self).wf(),
            final(self).popular == old(self).popular,
            final(self).tags == old(self).tags,
            final(self).keywords == old(self).keywords,
            forall|u: Seq<u8>| u != user@ ==> #[trigger] final(self).history(u) == old(self).history(u),
            (exists|j: int| last_search_at(old(self).history(user@), query@, j)) ==> exists|j: int|
                last_search_at(old(self).history(user@), query@, j) && #[trigger] click_added(
                    old(self).history(user@),
                    final(self).history(user@),
                    j,
                    memory_id@,
                ),
            (forall|j: int| !last_search_at(old(self).history(user@), query@, j)) ==> final(self).history(user@) == old(self).history(user@),
    {
        let ghost model = history_model(self.histories@);
        let i: usize = match self.find_user(user) {
            Some(i) => i,
            None => {
                proof {
                    lemma_lookup_absent(model, user@);
                }
                return ;
            },
        };
        proof {
            lemma_lookup_first(model, user@, i as int);
            assert(model[i as int].1 == self.histories@[i as int].queries@);
        }
        let ghost qs = self.histories@[i as int].queries@;
        let n: usize = self.histories[i].queries.len();
        let mut j: usize = n;
        let mut hit: Option<usize> = None;
        while j > 0 && hit.is_none()
            invariant
                j <= n == qs.len(),
                self.histories@ == old(self).histories@,
                qs == self.histories@[i as int].queries@,
                i < self.histories@.len(),
                match hit {
                    Some(h) => last_search_at(qs, query@, h as int),
                    None => forall|k: int| j <= k < qs.len() ==> (#[trigger] qs[k]).query@ != query@,
                },
            decreases j + (if hit is None { 1int } else { 0int }),
        {
            if str_eq(self.histories[i].queries[j - 1].query.as_str(), query) {
                hit = Some(j - 1);
            } else {
                j -= 1;
            }
        }
        match hit {
            Some(at) => {
                let mut h: UserHistory = self.histories.remove(i);
                let mut q: SearchQuery = h.queries.remove(at);
                let ghost before_clicks = q.clicked_results@;
                let ghost idv = memory_id@;
                q.clicked_results.push(memory_id);
                assert(strs(q.clicked_results@) == strs(before_clicks).push(idv));
                h.queries.insert(at, q);
                let ghost kept = h.queries@;
                self.histories.insert(i, h);
                proof {
                    assert(history_model(self.histories@) =~= model.update(i as int, (user@, kept)));
                    if distinct_keys(model) {
                        lemma_distinct_update(model, i as int, kept);
                    }
                    assert forall|u: Seq<u8>|
                        lookup(model.update(i as int, (user@, kept)), u) == if u == user@ {
                            Some(kept)
                        } else {
                            lookup(model, u)
                        } by {
                        lemma_lookup_update(model, user@, i as int, kept, u);
                    }
                    assert(click_added(qs, kept, at as int, idv)) by {
                        assert forall|k: int| 0 <= k < qs.len() && k != at implies #[trigger] kept[k]
                            == qs[k] by {}
                    }
                    assert(old(self).history(user@) == qs);
                    assert(self.history(user@) == kept);
                    assert(last_search_at(old(self).history(user@), query@, at as int));
                    assert(click_added(
                        old(self).history(user@),
                        self.history(user@),
                        at as int,
                        idv,
                    ));
                }
            },
            None => {
                proof {
                    assert forall|k: int| !last_search_at(qs, query@, k) by {
                        if 0 <= k < qs.len() {
                            assert(qs[k].query@ != query@);
                        }
                    }
                }
            },
        }
    }

    /// Forgets what is older than thirty days: the searches made and the
    /// popular queries last searched at or before the cutoff.
    pub fn cleanup_old_data(&mut self, now: u64)
        ensures
            old(self).wf() ==> final(self).wf(),
            final(self).tags == old(self).tags,
            final(self).keywords == old(self).keywords,
            final(self).popular@ == old(self).popular@.filter(popular_after(cutoff_of(now))),
            final(self).histories@.len() == old(self).histories@.len(),
            forall|i: int|
                0 <= i < old(self).histories@.len() ==> (#[trigger] final(self).histories@[i]).user@
                    == old(self).histories@[i].user@ && final(self).histories@[i].queries@ == old(self).histories@[i].queries@.filter(searched_after(cutoff_of(now))),
    {
        let cutoff: u64 = if now >= THIRTY_DAYS_NS {
            now - THIRTY_DAYS_NS
        } else {
            0
        };
        let mut popular: Vec<PopularQuery> = Vec::new();
        core::mem::swap(&mut popular, &mut self.popular);
        let mut keep: Vec<bool> = Vec::new();
        let mut i: usize = 0;
        while i < popular.len()
            invariant
                i <= popular@.len(),
                keep@.len() == i,
                forall|k: int| 0 <= k < i ==> keep@[k] == (popular@[k].last_searched > cutoff),
            decreases popular@.len() - i,
        {
            keep.push(popular[i].last_searched > cutoff);
            i += 1;
        }
        proof {
            lemma_masked_is_filter(popular@, keep@, popular_after(cutoff));
            if crate::seqs::distinct_by(popular@, query_of()) {
                crate::seqs::lemma_distinct_filter(popular@, query_of(), popular_after(cutoff));
            }
        }
        self.popular = keep_marked(popular, &keep);
        let mut hs: Vec<UserHistory> = Vec::new();
        core::mem::swap(&mut hs, &mut self.histories);
        let ghost before = hs@;
        let mut u: usize = 0;
        while u < hs.len()
            invariant
                u <= hs@.len(),
                hs@.len() == before.len(),
                forall|k: int|
                    0 <= k < u ==> (#[trigger] hs@[k]).user@ == before[k].user@ && hs@[k].queries@
                        == before[k].queries@.filter(searched_after(cutoff)),
                forall|k: int| u <= k < hs@.len() ==> #[trigger] hs@[k] == before[k],
            decreases hs@.len() - u,
        {
            let h: UserHistory = hs.remove(u);
            let mut marks: Vec<bool> = Vec::new();
            let mut k: usize = 0;
            while k < h.queries.len()
                invariant
                    k <= h.queries@.len(),
                    marks@.len() == k,
                    forall|m: int| 0 <= m < k ==> marks@[m] == (h.queries@[m].timestamp > cutoff),
                decreases h.queries@.len() - k,
            {
                marks.push(h.queries[k].timestamp > cutoff);
                k += 1;
            }
            proof {
                lemma_masked_is_filter(h.queries@, marks@, searched_after(cutoff));
            }
            let kept: Vec<SearchQuery> = keep_marked(h.queries, &marks);
            hs.insert(u, UserHistory { user: h.user, queries: kept });
            u += 1;
        }
        self.histories = hs;
        proof {
            if distinct_keys(history_model(before)) {
                assert forall|x: int, y: int|
                    0 <= x < y < history_model(self.histories@).len() implies (
                #[trigger] history_model(self.histories@)[x]).0 != (#[trigger] history_model(
                    self.histories@,
                )[y]).0 by {
                    assert(history_model(before)[x].0 == before[x].user@);
                    assert(history_model(before)[y].0 == before[y].user@);
                    assert(history_model(before)[x].0 != history_model(before)[y].0);
                }
            }
        }
    }
}

} // verus!
