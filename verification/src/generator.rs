//! The search: demand requests, word orderings, and the resumable
//! backtracking engines (sorted and fixed-order) that enumerate layouts
//! one completed crossword per resumption.

use vstd::prelude::*;
use itertools::Itertools;
use crate::crossword::{
    cw_wf, has_value, pairwise_compatible, spec_check_nonrecoverable, spec_check_recoverable,
    Crossword, CrosswordConstraint, CrosswordSettings, WordCompatibilitySettings,
    lemma_layout_candidate_value, lemma_insert_value_set,
};
use crate::placed_word::{pw_views, pw_wf, word_wf, PlacedWord, PlacedWordView, MAX_WORD_LEN};
use crate::word::{
    clone_bytes, clone_words, insert_word_sorted, word_sorted, word_views, words_without_index,
    Word, WordView,
};

verus! {

broadcast use
    crate::placed_word::lemma_pw_views_len,
    crate::placed_word::lemma_pw_views_index,
    crate::word::lemma_word_views_len,
    crate::word::lemma_word_views_index;

/// All settings for one generation run: the size constraints and the
/// adjacency policy.
#[derive(Debug)]
pub struct CrosswordGeneratorSettings {
    pub crossword_settings: CrosswordSettings,
    pub word_compatibility_settings: WordCompatibilitySettings,
}

impl Clone for CrosswordGeneratorSettings {
    fn clone(&self) -> (r: Self)
        ensures
            r.crossword_settings.constraints@ == self.crossword_settings.constraints@,
            r.word_compatibility_settings == self.word_compatibility_settings,
    {
        CrosswordGeneratorSettings {
            crossword_settings: self.crossword_settings.clone(),
            word_compatibility_settings: self.word_compatibility_settings,
        }
    }
}

impl Default for CrosswordGeneratorSettings {
    /// No constraints, and the default adjacency policy.
    fn default() -> (r: Self)
        ensures
            r.crossword_settings.constraints@.len() == 0,
            r.word_compatibility_settings == (WordCompatibilitySettings {
                side_by_side: false,
                head_by_head: false,
                side_by_head: false,
                corner_by_corner: true,
            }),
    {
        CrosswordGeneratorSettings {
            crossword_settings: CrosswordSettings::default(),
            word_compatibility_settings: WordCompatibilitySettings::default(),
        }
    }
}

/// A crossword generator: the input word set and the settings of the run.
#[derive(Debug)]
pub struct CrosswordGenerator {
    pub words: Vec<Word>,
    pub settings: CrosswordGeneratorSettings,
}

impl Default for CrosswordGenerator {
    /// No words, no constraints, the default adjacency policy.
    fn default() -> (r: Self)
        ensures
            r.words@.len() == 0,
            r.settings.crossword_settings.constraints@.len() == 0,
            r.settings.word_compatibility_settings == (WordCompatibilitySettings {
                side_by_side: false,
                head_by_head: false,
                side_by_head: false,
                corner_by_corner: true,
            }),
    {
        CrosswordGenerator { words: Vec::new(), settings: CrosswordGeneratorSettings::default() }
    }
}

impl Clone for CrosswordGenerator {
    fn clone(&self) -> (r: Self)
        ensures
            word_views(r.words@) == word_views(self.words@),
            r.settings.crossword_settings.constraints@
                == self.settings.crossword_settings.constraints@,
            r.settings.word_compatibility_settings == self.settings.word_compatibility_settings,
    {
        CrosswordGenerator { words: clone_words(&self.words), settings: self.settings.clone() }
    }
}

/// A consumer's demand message: stop the producer, permit a bounded number
/// of further layouts, or permit all remaining layouts.
#[derive(Clone, Copy, PartialEq, Eq, Structural, Debug, Hash)]
pub enum CrosswordGenerationRequest {
    /// Terminate the producer.
    Stop,
    /// Allow up to this many more layouts.
    Count(usize),
    /// Emit until the search is exhausted.
    All,
}

impl Default for CrosswordGenerationRequest {
    fn default() -> (r: Self)
        ensures
            r == CrosswordGenerationRequest::Stop,
    {
        CrosswordGenerationRequest::Stop
    }
}

impl CrosswordGenerationRequest {
    /// True when the demand is used up and the producer must wait for a
    /// further request before emitting.
    pub fn is_exhausted(&self) -> (r: bool)
        ensures
            r == (*self == CrosswordGenerationRequest::Count(0usize)),
    {
        match *self {
            CrosswordGenerationRequest::Count(n) => n == 0,
            _ => false,
        }
    }

    /// True when the demand permits emitting a layout now.
    pub fn permits_emission(&self) -> (r: bool)
        ensures
            r == (match *self {
                CrosswordGenerationRequest::Stop => false,
                CrosswordGenerationRequest::Count(n) => n > 0,
                CrosswordGenerationRequest::All => true,
            }),
    {
        match *self {
            CrosswordGenerationRequest::Stop => false,
            CrosswordGenerationRequest::Count(n) => n > 0,
            CrosswordGenerationRequest::All => true,
        }
    }

    /// The demand left after one layout has been emitted: a bounded count
    /// decreases by one, the other requests are unchanged.
    pub fn after_emission(&self) -> (r: Self)
        ensures
            (match *self {
                CrosswordGenerationRequest::Count(n) => if n > 0 {
                    r == CrosswordGenerationRequest::Count((n - 1) as usize)
                } else {
                    r == *self
                },
                _ => r == *self,
            }),
    {
        match *self {
            CrosswordGenerationRequest::Count(n) => if n > 0 {
                CrosswordGenerationRequest::Count(n - 1)
            } else {
                CrosswordGenerationRequest::Count(0)
            },
            CrosswordGenerationRequest::Stop => CrosswordGenerationRequest::Stop,
            CrosswordGenerationRequest::All => CrosswordGenerationRequest::All,
        }
    }
}

/// Whether an equal layout (same placed words, same policy) is already in
/// the list; used by the randomized strategy to suppress duplicates.
pub fn crossword_in_list(list: &Vec<Crossword>, cw: &Crossword) -> (r: bool)
    ensures
        r == (exists|i: int| 0 <= i < list@.len() && (#[trigger] list@[i])@ == cw@),
{
    let mut i: usize = 0;
    while i < list.len()
        invariant
            0 <= i <= list@.len(),
            forall|j: int| 0 <= j < i ==> (#[trigger] list@[j])@ != cw@,
        decreases list@.len() - i,
    {
        if &list[i] == cw {
            assert(list@[i as int]@ == cw@);
            return true;
        }
        i = i + 1;
    }
    false
}

/// Factorial: the number of orderings of a list.
pub open spec fn spec_factorial(n: nat) -> nat
    decreases n,
{
    if n == 0 {
        1
    } else {
        n * spec_factorial((n - 1) as nat)
    }
}

/// The index sequence `0, 1, ..., n - 1`.
pub open spec fn index_seq(n: nat) -> Seq<usize> {
    Seq::new(n, |k: int| k as usize)
}

/// No two words of the list are equal (same string, same lock).
pub open spec fn distinct_words(ws: Seq<Word>) -> bool {
    forall|a: int, b: int|
        #![trigger word_views(ws)[a], word_views(ws)[b]]
        0 <= a < b < ws.len() ==> word_views(ws)[a] != word_views(ws)[b]
}

/// Relies on itertools' permutations adaptor over the index range `0..n`:
/// it yields each of the `n!` orderings of those indices exactly once. An
/// ordering has length `n` and holds each index below `n` exactly once
/// (the adaptor only rearranges its index buffer), and the orderings are
/// pairwise distinct. When the full list of orderings does not fit in
/// memory the allocation aborts the process rather than returning.
#[verifier::external_body]
fn index_permutations(n: usize) -> (r: Vec<Vec<usize>>)
    ensures
        r@.len() == spec_factorial(n as nat),
        forall|i: int| 0 <= i < r@.len() ==> (#[trigger] r@[i])@.len() == n,
        forall|i: int, k: int| 0 <= i < r@.len() && 0 <= k < n ==> (#[trigger] r@[i]@[k]) < n,
        forall|i: int, v: usize| 0 <= i < r@.len() && v < n ==> (#[trigger] r@[i]@.contains(v)),
        forall|i: int|
            0 <= i < r@.len() ==> (#[trigger] r@[i])@.to_multiset() == index_seq(
                n as nat,
            ).to_multiset(),
        forall|i: int, j: int| 0 <= i < j < r@.len() ==> (#[trigger] r@[i])@ != (#[trigger] r@[j])@,
{
    (0..n).permutations(n).collect()
}

/// The second list arranges the first through the index list `p`: `p`
/// holds each position exactly once, and entry `k` of the arrangement is
/// the word of the first list at position `p[k]`.
pub open spec fn is_reindexing(ord: Seq<Word>, words: Seq<Word>, p: Seq<usize>) -> bool {
    &&& p.len() == words.len()
    &&& p.to_multiset() == index_seq(words.len() as nat).to_multiset()
    &&& ord.len() == words.len()
    &&& forall|k: int| 0 <= k < p.len() ==> (#[trigger] p[k]) < words.len()
    &&& forall|k: int|
        0 <= k < ord.len() ==> #[trigger] word_views(ord)[k] == word_views(words)[p[k] as int]
}

/// The first list is an arrangement of the second: some index list
/// reindexes one into the other.
pub open spec fn is_arrangement(ord: Seq<Word>, words: Seq<Word>) -> bool {
    exists|p: Seq<usize>| is_reindexing(ord, words, p)
}

/// Every word of the second list appears, by value and lock, in the first.
pub open spec fn order_from(words: Seq<Word>, ord: Seq<Word>) -> bool {
    forall|q: WordView|
        word_views(ord).contains(q) ==> exists|m: int|
            0 <= m < words.len() && word_views(words)[m] == q
}

/// Every word of the list has a bounded character string.
pub open spec fn order_bounded(ord: Seq<Word>) -> bool {
    forall|q: WordView| word_views(ord).contains(q) ==> word_wf(q)
}

impl CrosswordGenerator {
    /// Every ordering of the generator's word list, one list per
    /// permutation; the randomized strategy runs one fixed-order search
    /// per ordering. Each ordering arranges exactly the generator's words,
    /// and with pairwise-distinct words the orderings are pairwise
    /// distinct.
    pub fn word_orders(&self) -> (r: Vec<Vec<Word>>)
        ensures
            r@.len() == spec_factorial(self.words@.len() as nat),
            forall|i: int| 0 <= i < r@.len() ==> (#[trigger] r@[i])@.len() == self.words@.len(),
            forall|i: int| 0 <= i < r@.len() ==> order_from(self.words@, (#[trigger] r@[i])@),
            forall|i: int| 0 <= i < r@.len() ==> is_arrangement((#[trigger] r@[i])@, self.words@),
            (distinct_words(self.words@) ==> forall|i: int, j: int|
                0 <= i < j < r@.len() ==> word_views((#[trigger] r@[i])@) != word_views(
                    (#[trigger] r@[j])@,
                )),
    {
        let n = self.words.len();
        let perms = index_permutations(n);
        let mut orders: Vec<Vec<Word>> = Vec::new();
        let mut i: usize = 0;
        while i < perms.len()
            invariant
                0 <= i <= perms@.len(),
                n == self.words@.len(),
                perms@.len() == spec_factorial(n as nat),
                forall|i2: int| 0 <= i2 < perms@.len() ==> (#[trigger] perms@[i2])@.len() == n,
                forall|i2: int, k: int|
                    0 <= i2 < perms@.len() && 0 <= k < n ==> (#[trigger] perms@[i2]@[k]) < n,
                forall|i2: int|
                    0 <= i2 < perms@.len() ==> (#[trigger] perms@[i2])@.to_multiset() == index_seq(
                        n as nat,
                    ).to_multiset(),
                forall|i2: int, j2: int|
                    0 <= i2 < j2 < perms@.len() ==> (#[trigger] perms@[i2])@ != (
                    #[trigger] perms@[j2])@,
                orders@.len() == i,
                forall|i2: int| 0 <= i2 < i ==> (#[trigger] orders@[i2])@.len() == n,
                forall|i2: int| 0 <= i2 < i ==> order_from(self.words@, (#[trigger] orders@[i2])@),
                forall|i2: int|
                    0 <= i2 < i ==> is_reindexing(
                        (#[trigger] orders@[i2])@,
                        self.words@,
                        perms@[i2]@,
                    ),
            decreases perms@.len() - i,
        {
            let perm = &perms[i];
            let mut order: Vec<Word> = Vec::new();
            let mut k: usize = 0;
            while k < perm.len()
                invariant
                    0 <= k <= perm@.len(),
                    0 <= i < perms@.len(),
                    n == self.words@.len(),
                    perm@.len() == n,
                    perm@ == perms@[i as int]@,
                    forall|k2: int| 0 <= k2 < n ==> (#[trigger] perm@[k2]) < n,
                    order@.len() == k,
                    order_from(self.words@, order@),
                    forall|k2: int|
                        0 <= k2 < k ==> #[trigger] word_views(order@)[k2] == word_views(
                            self.words@,
                        )[perm@[k2] as int],
                decreases perm@.len() - k,
            {
                let idx = perm[k];
                let ghost before = word_views(order@);
                order.push(self.words[idx].clone());
                proof {
                    assert(forall|k2: int|
                        0 <= k2 < before.len() ==> #[trigger] word_views(order@)[k2]
                            == before[k2]);
                    assert(word_views(order@)[k as int] == self.words@[idx as int]@);
                    assert(word_views(self.words@)[idx as int] == self.words@[idx as int]@);
                    assert forall|q: WordView|
                        word_views(order@).contains(q) implies exists|m: int|
                        0 <= m < self.words@.len() && word_views(self.words@)[m] == q by {
                        let kq = choose|kq: int|
                            0 <= kq < word_views(order@).len() && word_views(order@)[kq] == q;
                        if kq < before.len() {
                            assert(before[kq] == q);
                            assert(before.contains(q));
                        } else {
                            assert(word_views(self.words@)[idx as int] == q);
                        }
                    }
                }
                k = k + 1;
            }
            let ghost ordv = order@;
            proof {
                assert(order_from(self.words@, ordv));
                assert(is_reindexing(ordv, self.words@, perms@[i as int]@)) by {
                    assert(perms@[i as int]@.to_multiset() == index_seq(n as nat).to_multiset());
                    assert(forall|k2: int|
                        0 <= k2 < ordv.len() ==> #[trigger] word_views(ordv)[k2] == word_views(
                            self.words@,
                        )[perms@[i as int]@[k2] as int]);
                }
            }
            let ghost prev_orders = orders@;
            orders.push(order);
            proof {
                assert forall|i2: int|
                    0 <= i2 < i + 1 implies order_from(
                    self.words@,
                    (#[trigger] orders@[i2])@,
                ) && is_reindexing(orders@[i2]@, self.words@, perms@[i2]@) by {
                    if i2 < i {
                        assert(orders@[i2] == prev_orders[i2]);
                        assert(order_from(self.words@, prev_orders[i2]@));
                        assert(is_reindexing(prev_orders[i2]@, self.words@, perms@[i2]@));
                    } else {
                        assert(orders@[i2]@ == ordv);
                    }
                }
            }
            i = i + 1;
        }
        proof {
            assert forall|i2: int|
                0 <= i2 < orders@.len() implies is_arrangement(
                (#[trigger] orders@[i2])@,
                self.words@,
            ) by {
                assert(is_reindexing(orders@[i2]@, self.words@, perms@[i2]@));
            }
            if distinct_words(self.words@) {
                assert forall|i2: int, j2: int|
                    0 <= i2 < j2 < orders@.len() implies word_views((#[trigger] orders@[i2])@)
                    != word_views((#[trigger] orders@[j2])@) by {
                    assert(is_reindexing(orders@[i2]@, self.words@, perms@[i2]@));
                    assert(is_reindexing(orders@[j2]@, self.words@, perms@[j2]@));
                    assert(perms@[i2]@ != perms@[j2]@);
                    if word_views(orders@[i2]@) == word_views(orders@[j2]@) {
                        assert forall|k: int|
                            0 <= k < n implies (#[trigger] perms@[i2]@[k]) == perms@[j2]@[k] by {
                            assert(word_views(orders@[i2]@)[k] == word_views(
                                self.words@,
                            )[perms@[i2]@[k] as int]);
                            assert(word_views(orders@[j2]@)[k] == word_views(
                                self.words@,
                            )[perms@[j2]@[k] as int]);
                            if perms@[i2]@[k] != perms@[j2]@[k] {
                                let a = perms@[i2]@[k] as int;
                                let b = perms@[j2]@[k] as int;
                                if a < b {
                                    assert(word_views(self.words@)[a] != word_views(
                                        self.words@,
                                    )[b]);
                                } else {
                                    assert(word_views(self.words@)[b] != word_views(
                                        self.words@,
                                    )[a]);
                                }
                            }
                        }
                        assert(perms@[i2]@ =~= perms@[j2]@);
                    }
                }
            }
        }
        orders
    }
}

/// Whether some input word carries the given character string./// Whether some input word carries the given character string.
spec fn value_in(ws: Seq<WordView>, v: Seq<u8>) -> bool {
    exists|i: int| 0 <= i < ws.len() && ws[i].value == v
}

/// Every input word's string is either already placed on the layout or
/// still available among the given remaining words.
spec fn covers_all(cur: Seq<PlacedWordView>, rem: Seq<WordView>, all: Seq<WordView>) -> bool {
    forall|i: int|
        0 <= i < all.len() ==> has_value(cur, (#[trigger] all[i]).value) || value_in(
            rem,
            all[i].value,
        )
}

/// Every value available in the first word list is available in the second.
spec fn values_subset(a: Seq<WordView>, b: Seq<WordView>) -> bool {
    forall|v: Seq<u8>| value_in(a, v) ==> value_in(b, v)
}

/// A value available in some frame's remaining words is available in every
/// frame below it on the stack.
proof fn lemma_chain_value_in(stack: Seq<SearchFrame>, v: Seq<u8>, start: int)
    requires
        forall|k: int|
            0 <= k < stack.len() - 1 ==> values_subset(
                word_views(stack[k + 1].remained@),
                word_views((#[trigger] stack[k]).remained@),
            ),
        0 <= start < stack.len(),
        value_in(word_views(stack[start].remained@), v),
    ensures
        forall|k: int| 0 <= k <= start ==> value_in(word_views((#[trigger] stack[k]).remained@), v),
    decreases start,
{
    if start > 0 {
        assert(values_subset(
            word_views(stack[start].remained@),
            word_views(stack[start - 1].remained@),
        ));
        lemma_chain_value_in(stack, v, start - 1);
    }
}

/// Every word of the list is bounded and drawn from the input words.
spec fn word_list_ok(ws: Seq<WordView>, rem: Seq<Word>) -> bool {
    forall|k: int|
        0 <= k < rem.len() ==> word_wf(#[trigger] word_views(rem)[k]) && value_in(
            ws,
            word_views(rem)[k].value,
        )
}

/// Consistency of one backtracking frame against the input words.
spec fn frame_ok(ws: Seq<WordView>, f: SearchFrame) -> bool {
    &&& word_list_ok(ws, f.remained@)
    &&& forall|k: int|
        0 <= k < f.placements@.len() ==> pw_wf(#[trigger] pw_views(f.placements@)[k]) && value_in(
            ws,
            pw_views(f.placements@)[k].value,
        )
    &&& f.remained@.len() > 0
    &&& f.word_i < f.remained@.len()
    &&& f.place_i <= f.placements@.len()
    &&& (f.child_active ==> f.place_i < f.placements@.len())
    &&& (f.child_active ==> value_in(word_views(f.remained@), f.placed_value@))
    &&& forall|k: int|
        0 <= k < f.placements@.len() ==> (#[trigger] pw_views(f.placements@)[k]).value
            == word_views(f.remained@)[f.word_i as int].value
}

/// One backtracking node: the words still unplaced at this node and the
/// progress of the iteration over those words and their candidate
/// placements.
struct SearchFrame {
    remained: Vec<Word>,
    word_i: usize,
    placements: Vec<PlacedWord>,
    place_i: usize,
    child_active: bool,
    placed_value: Vec<u8>,
}

/// Iteration strategy of a search.
#[derive(Clone, Copy, PartialEq, Eq, Structural, Debug)]
enum SearchMode {
    /// Visit the unplaced words of each node in sorted order, with
    /// duplicate suppression through previously completed base layouts.
    Sorted,
    /// Place the words in one fixed order, without base pruning; the
    /// caller deduplicates emitted layouts.
    FixedOrder,
}

/// A resumable backtracking search over all layouts of a word set. Each
/// resumption runs the search up to its next completed layout and hands
/// that layout out.
pub struct CrosswordSearch {
    settings: CrosswordGeneratorSettings,
    words: Vec<Word>,
    mode: SearchMode,
    current: Crossword,
    stack: Vec<SearchFrame>,
    bases: Vec<Crossword>,
    entering: bool,
    pending_remained: Vec<Word>,
    done: bool,
}

impl CrosswordSearch {
    /// The adjacency policy of this search.
    pub closed spec fn policy(&self) -> WordCompatibilitySettings {
        self.settings.word_compatibility_settings
    }

    /// The constraint list of this search.
    pub closed spec fn constraints(&self) -> Seq<CrosswordConstraint> {
        self.settings.crossword_settings.constraints@
    }

    /// Whether a character string is one of the search's input words.
    pub closed spec fn allowed_value(&self, v: Seq<u8>) -> bool {
        value_in(word_views(self.words@), v)
    }

    /// Whether the search has reported exhaustion; an exhausted search
    /// answers every further resumption with no layout.
    pub closed spec fn done(&self) -> bool {
        self.done
    }

    /// Internal consistency of the search state: the working layout is
    /// well-formed, pairwise compatible under the policy, built from input
    /// words; the stored bases are well-formed layouts.
    pub closed spec fn wf(&self) -> bool {
        let ws = word_views(self.words@);
        &&& cw_wf(self.current@)
        &&& self.current@.settings == self.settings.word_compatibility_settings
        &&& pairwise_compatible(self.current@)
        &&& forall|i: int|
            0 <= i < self.current@.words.len() ==> value_in(
                ws,
                (#[trigger] self.current@.words[i]).value,
            )
        &&& forall|k: int| 0 <= k < self.bases@.len() ==> cw_wf((#[trigger] self.bases@[k])@)
        &&& forall|k: int| 0 <= k < self.stack@.len() ==> frame_ok(ws, #[trigger] self.stack@[k])
        &&& word_list_ok(ws, self.pending_remained@)
        &&& forall|k: int|
            0 <= k < self.stack@.len() ==> covers_all(
                self.current@.words,
                word_views((#[trigger] self.stack@[k]).remained@),
                ws,
            )
        &&& forall|k: int|
            0 <= k < self.stack@.len() - 1 ==> values_subset(
                word_views(self.stack@[k + 1].remained@),
                word_views((#[trigger] self.stack@[k]).remained@),
            )
        &&& (self.entering ==> covers_all(
            self.current@.words,
            word_views(self.pending_remained@),
            ws,
        ))
        &&& (self.entering && self.stack@.len() > 0 ==> values_subset(
            word_views(self.pending_remained@),
            word_views(self.stack@[self.stack@.len() - 1].remained@),
        ))
    }

    /// What the search guarantees of every layout it emits: well-formed,
    /// carrying the search's policy, pairwise compatible under that
    /// policy, satisfying every configured constraint, and placing
    /// exactly the search's word values: nothing but input words, and
    /// every input word.
    pub open spec fn emitted_layout_ok(&self, cw: crate::crossword::CrosswordView) -> bool {
        &&& cw_wf(cw)
        &&& cw.settings == self.policy()
        &&& pairwise_compatible(cw)
        &&& spec_check_nonrecoverable(self.constraints(), cw)
        &&& spec_check_recoverable(self.constraints(), cw)
        &&& forall|i: int|
            0 <= i < cw.words.len() ==> self.allowed_value((#[trigger] cw.words[i]).value)
        &&& forall|v: Seq<u8>| #[trigger] self.allowed_value(v) ==> has_value(cw.words, v)
    }

    fn make(
        settings: CrosswordGeneratorSettings,
        words: Vec<Word>,
        mode: SearchMode,
    ) -> (r: CrosswordSearch)
        requires
            forall|k: int|
                0 <= k < words@.len() ==> word_wf(#[trigger] word_views(words@)[k]),
        ensures
            r.wf(),
            !r.done(),
            r.policy() == settings.word_compatibility_settings,
            r.constraints() == settings.crossword_settings.constraints@,
            forall|v: Seq<u8>|
                r.allowed_value(v) == exists|i: int|
                    0 <= i < words@.len() && word_views(words@)[i].value == v,
    {
        let pending = clone_words(&words);
        let current = Crossword::new(settings.word_compatibility_settings);
        let r = CrosswordSearch {
            settings,
            words,
            mode,
            current,
            stack: Vec::new(),
            bases: Vec::new(),
            entering: true,
            pending_remained: pending,
            done: false,
        };
        proof {
            let ws = word_views(r.words@);
            assert forall|k: int|
                0 <= k < r.pending_remained@.len() implies word_wf(
                #[trigger] word_views(r.pending_remained@)[k],
            ) && value_in(ws, word_views(r.pending_remained@)[k].value) by {
                assert(word_views(r.pending_remained@)[k] == ws[k]);
            }
            assert(covers_all(r.current@.words, word_views(r.pending_remained@), ws)) by {
                assert forall|i: int|
                    0 <= i < ws.len() implies has_value(
                    r.current@.words,
                    (#[trigger] ws[i]).value,
                ) || value_in(word_views(r.pending_remained@), ws[i].value) by {
                    assert(word_views(r.pending_remained@)[i] == ws[i]);
                }
            }
        }
        r
    }

    /// Starts the deterministic strategy on a generator: words are visited
    /// in sorted order, depth-first, with duplicate-base pruning. A word
    /// longer than `MAX_WORD_LEN` cannot be placed on the 16-bit grid and
    /// takes no part in the search.
    pub fn new_sorted(generator: &CrosswordGenerator) -> (r: CrosswordSearch)
        ensures
            r.wf(),
            !r.done(),
            r.policy() == generator.settings.word_compatibility_settings,
            r.constraints() == generator.settings.crossword_settings.constraints@,
            forall|v: Seq<u8>|
                r.allowed_value(v) == (exists|i: int|
                    0 <= i < generator.words@.len() && (#[trigger] word_views(
                        generator.words@,
                    )[i]).value == v && word_views(generator.words@)[i].value.len()
                        <= MAX_WORD_LEN),
    {
        let mut sorted_words: Vec<Word> = Vec::new();
        let mut i: usize = 0;
        while i < generator.words.len()
            invariant
                0 <= i <= generator.words@.len(),
                word_sorted(word_views(sorted_words@)),
                forall|k: int|
                    0 <= k < sorted_words@.len() ==> word_wf(
                        #[trigger] word_views(sorted_words@)[k],
                    ),
                forall|q: WordView|
                    word_views(sorted_words@).contains(q) ==> exists|m: int|
                        0 <= m < generator.words@.len() && word_views(generator.words@)[m] == q,
                forall|m: int|
                    0 <= m < i && (#[trigger] word_views(generator.words@)[m]).value.len()
                        <= MAX_WORD_LEN ==> word_views(sorted_words@).contains(
                        word_views(generator.words@)[m],
                    ),
            decreases generator.words@.len() - i,
        {
            let w = &generator.words[i];
            if w.value.len() <= MAX_WORD_LEN {
                let ghost before = word_views(sorted_words@);
                insert_word_sorted(&mut sorted_words, w.clone());
                proof {
                    assert(word_views(generator.words@)[i as int] == generator.words@[i as int]@);
                    assert forall|q: WordView|
                        word_views(sorted_words@).contains(q) implies exists|m: int|
                        0 <= m < generator.words@.len() && word_views(generator.words@)[m]
                            == q by {
                        if !before.contains(q) {
                            assert(q == generator.words@[i as int]@);
                            assert(word_views(generator.words@)[i as int] == q);
                        }
                    }
                    assert forall|k: int|
                        0 <= k < sorted_words@.len() implies word_wf(
                        #[trigger] word_views(sorted_words@)[k],
                    ) by {
                        assert(word_views(sorted_words@).contains(word_views(sorted_words@)[k]));
                        if before.contains(word_views(sorted_words@)[k]) {
                            let m = choose|m: int|
                                0 <= m < before.len() && before[m] == word_views(sorted_words@)[k];
                        }
                    }
                    assert forall|m: int|
                        0 <= m < i + 1 && (#[trigger] word_views(generator.words@)[m]).value.len()
                            <= MAX_WORD_LEN implies word_views(sorted_words@).contains(
                        word_views(generator.words@)[m],
                    ) by {
                        if m < i {
                            assert(before.contains(word_views(generator.words@)[m]));
                        } else {
                            assert(word_views(generator.words@)[i as int] == w@);
                        }
                    }
                }
            } else {
                proof {
                    assert(word_views(generator.words@)[i as int] == generator.words@[i as int]@);
                }
            }
            i = i + 1;
        }
        let ghost sv = word_views(sorted_words@);
        proof {
            assert(forall|q: WordView|
                sv.contains(q) ==> exists|m: int|
                    0 <= m < generator.words@.len() && word_views(generator.words@)[m] == q);
        }
        proof {
            assert(forall|m: int|
                0 <= m < generator.words@.len() && (#[trigger] word_views(
                    generator.words@,
                )[m]).value.len() <= MAX_WORD_LEN ==> sv.contains(
                    word_views(generator.words@)[m],
                ));
            assert(forall|k: int| 0 <= k < sv.len() ==> word_wf(#[trigger] sv[k]));
        }
        let r = CrosswordSearch::make(generator.settings.clone(), sorted_words, SearchMode::Sorted);
        proof {
            assert forall|v: Seq<u8>|
                r.allowed_value(v) == (exists|i2: int|
                    0 <= i2 < generator.words@.len() && (#[trigger] word_views(
                        generator.words@,
                    )[i2]).value == v && word_views(generator.words@)[i2].value.len()
                        <= MAX_WORD_LEN) by {
                if r.allowed_value(v) {
                    let i2 = choose|i2: int| 0 <= i2 < sv.len() && sv[i2].value == v;
                    assert(sv.contains(sv[i2]));
                    assert(word_wf(sv[i2]));
                    let m = choose|m: int|
                        0 <= m < generator.words@.len() && word_views(generator.words@)[m]
                            == sv[i2];
                }
                if exists|i2: int|
                    0 <= i2 < generator.words@.len() && (#[trigger] word_views(
                        generator.words@,
                    )[i2]).value == v && word_views(generator.words@)[i2].value.len()
                        <= MAX_WORD_LEN {
                    let i2 = choose|i2: int|
                        0 <= i2 < generator.words@.len() && (#[trigger] word_views(
                            generator.words@,
                        )[i2]).value == v && word_views(generator.words@)[i2].value.len()
                            <= MAX_WORD_LEN;
                    assert(sv.contains(word_views(generator.words@)[i2]));
                    let k = choose|k: int|
                        0 <= k < sv.len() && sv[k] == word_views(generator.words@)[i2];
                }
            }
        }
        r
    }

    /// Starts a fixed-order search: the words are placed in exactly the
    /// order given, with no base pruning. The randomized strategy runs one
    /// such search per permutation and deduplicates the emitted layouts. A
    /// word longer than `MAX_WORD_LEN` cannot be placed on the 16-bit grid
    /// and takes no part in the search.
    pub fn new_fixed_order(settings: &CrosswordGeneratorSettings, order: &Vec<Word>) -> (r:
        CrosswordSearch)
        ensures
            r.wf(),
            !r.done(),
            r.policy() == settings.word_compatibility_settings,
            r.constraints() == settings.crossword_settings.constraints@,
            forall|v: Seq<u8>|
                r.allowed_value(v) == (exists|i: int|
                    0 <= i < order@.len() && (#[trigger] word_views(order@)[i]).value == v
                        && word_views(order@)[i].value.len() <= MAX_WORD_LEN),
    {
        let mut ws: Vec<Word> = Vec::new();
        let mut i: usize = 0;
        while i < order.len()
            invariant
                0 <= i <= order@.len(),
                order_bounded(ws@),
                order_from(order@, ws@),
                forall|m: int|
                    0 <= m < i && (#[trigger] word_views(order@)[m]).value.len() <= MAX_WORD_LEN
                        ==> word_views(ws@).contains(word_views(order@)[m]),
            decreases order@.len() - i,
        {
            let w = &order[i];
            if w.value.len() <= MAX_WORD_LEN {
                let ghost before = word_views(ws@);
                ws.push(w.clone());
                proof {
                    assert(forall|k2: int|
                        0 <= k2 < before.len() ==> #[trigger] word_views(ws@)[k2] == before[k2]);
                    assert(word_views(ws@)[ws@.len() - 1] == order@[i as int]@);
                    assert(word_views(order@)[i as int] == order@[i as int]@);
                    assert forall|q: WordView| #![trigger word_views(ws@).contains(q)]
                        word_views(ws@).contains(q) implies word_wf(q) && (exists|m: int|
                        0 <= m < order@.len() && word_views(order@)[m] == q) by {
                        let kq = choose|kq: int|
                            0 <= kq < word_views(ws@).len() && word_views(ws@)[kq] == q;
                        if kq < before.len() {
                            assert(before[kq] == q);
                            assert(before.contains(q));
                        } else {
                            assert(q == order@[i as int]@);
                            assert(word_views(order@)[i as int] == q);
                            assert(q.value == w.value@);
                            assert(word_wf(q));
                        }
                    }
                    assert forall|m: int|
                        0 <= m < i + 1 && (#[trigger] word_views(order@)[m]).value.len()
                            <= MAX_WORD_LEN implies word_views(ws@).contains(
                        word_views(order@)[m],
                    ) by {
                        if m < i {
                            assert(before.contains(word_views(order@)[m]));
                            let k = choose|k: int|
                                0 <= k < before.len() && before[k] == word_views(order@)[m];
                            assert(word_views(ws@)[k] == word_views(order@)[m]);
                        } else {
                            assert(word_views(ws@)[ws@.len() - 1] == word_views(order@)[i as int]);
                        }
                    }
                }
            } else {
                proof {
                    assert(word_views(order@)[i as int] == order@[i as int]@);
                }
            }
            i = i + 1;
        }
        let ghost wsv = word_views(ws@);
        proof {
            assert forall|k: int|
                0 <= k < ws@.len() implies word_wf(#[trigger] word_views(ws@)[k]) by {
                assert(word_views(ws@).contains(word_views(ws@)[k]));
            }
        }
        proof {
            assert(forall|m: int|
                0 <= m < order@.len() && (#[trigger] word_views(order@)[m]).value.len()
                    <= MAX_WORD_LEN ==> wsv.contains(word_views(order@)[m]));
        }
        let r = CrosswordSearch::make(settings.clone(), ws, SearchMode::FixedOrder);
        proof {
            assert forall|v: Seq<u8>|
                r.allowed_value(v) == (exists|i2: int|
                    0 <= i2 < order@.len() && (#[trigger] word_views(order@)[i2]).value == v
                        && word_views(order@)[i2].value.len() <= MAX_WORD_LEN) by {
                if r.allowed_value(v) {
                    let i2 = choose|i2: int| 0 <= i2 < wsv.len() && wsv[i2].value == v;
                    assert(wsv.contains(wsv[i2]));
                    assert(word_wf(wsv[i2]));
                    let m = choose|m: int|
                        0 <= m < order@.len() && word_views(order@)[m] == wsv[i2];
                }
                if exists|i2: int|
                    0 <= i2 < order@.len() && (#[trigger] word_views(order@)[i2]).value == v
                        && word_views(order@)[i2].value.len() <= MAX_WORD_LEN {
                    let i2 = choose|i2: int|
                        0 <= i2 < order@.len() && (#[trigger] word_views(order@)[i2]).value == v
                            && word_views(order@)[i2].value.len() <= MAX_WORD_LEN;
                    assert(wsv.contains(word_views(order@)[i2]));
                    let k = choose|k: int|
                        0 <= k < wsv.len() && wsv[k] == word_views(order@)[i2];
                }
            }
        }
        r
    }

    fn contained_in_any_base(&self) -> (r: bool)
        requires
            cw_wf(self.current@),
            forall|k: int| 0 <= k < self.bases@.len() ==> cw_wf((#[trigger] self.bases@[k])@),
    {
        let mut k: usize = 0;
        while k < self.bases.len()
            invariant
                0 <= k <= self.bases@.len(),
                cw_wf(self.current@),
                forall|k2: int| 0 <= k2 < self.bases@.len() ==> cw_wf((#[trigger] self.bases@[k2])@),
            decreases self.bases@.len() - k,
        {
            if self.current.contains_crossword(&self.bases[k]) {
                return true;
            }
            k = k + 1;
        }
        false
    }

    fn update_bases(&mut self)
        requires
            cw_wf(old(self).current@),
            forall|k: int|
                0 <= k < old(self).bases@.len() ==> cw_wf((#[trigger] old(self).bases@[k])@),
        ensures
            *final(self) == (CrosswordSearch { bases: final(self).bases, ..*old(self) }),
            forall|k: int|
                0 <= k < final(self).bases@.len() ==> cw_wf((#[trigger] final(self).bases@[k])@),
    {
        let mut k: usize = 0;
        while k < self.bases.len()
            invariant
                0 <= k <= self.bases@.len(),
                *self == (CrosswordSearch { bases: self.bases, ..*old(self) }),
                cw_wf(self.current@),
                forall|k2: int| 0 <= k2 < self.bases@.len() ==> cw_wf((#[trigger] self.bases@[k2])@),
            decreases self.bases@.len() - k,
        {
            if self.current.contains_crossword(&self.bases[k]) {
                self.bases.remove(k);
            } else {
                k = k + 1;
            }
        }
        let c = self.current.clone();
        self.bases.push(c);
    }

    /// One entry step of the search: checks the current node against the
    /// constraints and the explored bases, emits at a completed leaf, or
    /// opens a frame for the node's words.
    fn step_enter(&mut self) -> (r: Option<Crossword>)
        requires
            old(self).wf(),
            old(self).entering,
        ensures
            final(self).wf(),
            final(self).words@ == old(self).words@,
            final(self).settings == old(self).settings,
            final(self).done == old(self).done,
            (r matches Option::Some(cw) ==> final(self).emitted_layout_ok(cw@)),
    {
        let ghost w0v = word_views(self.words@);
        proof {
            // These hold of a well-formed state while the entering flag is
            // set; capture them before clearing it.
            assert(covers_all(self.current@.words, word_views(self.pending_remained@), w0v));
            if self.stack@.len() > 0 {
                assert(values_subset(
                    word_views(self.pending_remained@),
                    word_views(self.stack@[self.stack@.len() - 1].remained@),
                ));
            }
        }
        self.entering = false;
        if !self.settings.crossword_settings.check_nonrecoverables_constraints(&self.current) {
            return Option::None;
        }
        if self.mode == SearchMode::Sorted && self.contained_in_any_base() {
            return Option::None;
        }
        if self.pending_remained.len() == 0 {
            if self.settings.crossword_settings.check_recoverable_constraints(&self.current) {
                let out = self.current.clone();
                proof {
                    assert(self.emitted_layout_ok(out@)) by {
                        assert(forall|i: int|
                            0 <= i < out@.words.len() ==> value_in(
                                w0v,
                                (#[trigger] out@.words[i]).value,
                            ));
                        assert forall|v: Seq<u8>| #[trigger] self.allowed_value(v) implies
                            has_value(out@.words, v) by {
                            let i = choose|i: int| 0 <= i < w0v.len() && w0v[i].value == v;
                            assert(has_value(self.current@.words, w0v[i].value) || value_in(
                                word_views(self.pending_remained@),
                                w0v[i].value,
                            ));
                        }
                    }
                }
                return Option::Some(out);
            }
            return Option::None;
        }
        let rem = clone_words(&self.pending_remained);
        proof {
            assert(forall|k: int|
                0 <= k < rem@.len() ==> #[trigger] word_views(rem@)[k] == word_views(
                    self.pending_remained@,
                )[k]);
            assert(word_views(rem@) =~= word_views(self.pending_remained@));
        }
        let ghost remv = word_views(rem@);
        let first = &rem[0];
        proof {
            assert(first@ == word_views(rem@)[0]);
        }
        let placements = self.current.calculate_possible_ways_to_add_word(first);
        proof {
            assert forall|k: int|
                0 <= k < placements@.len() implies pw_wf(#[trigger] pw_views(placements@)[k])
                && value_in(w0v, pw_views(placements@)[k].value) && pw_views(
                placements@,
            )[k].value == word_views(rem@)[0].value by {
                lemma_layout_candidate_value(self.current@, first@, pw_views(placements@)[k]);
                assert(word_views(rem@)[0] == word_views(self.pending_remained@)[0]);
            }
        }
        let f = SearchFrame {
            remained: rem,
            word_i: 0,
            placements,
            place_i: 0,
            child_active: false,
            placed_value: Vec::new(),
        };
        self.stack.push(f);
        proof {
            let st = self.stack@;
            assert(word_views(st[st.len() - 1].remained@) == remv);
            assert(covers_all(self.current@.words, remv, w0v));
            if st.len() > 1 {
                assert(values_subset(remv, word_views(st[st.len() - 2].remained@)));
            }
            assert(forall|k: int| 0 <= k < st.len() - 1 ==> st[k] == old(self).stack@[k]);
        }
        Option::None
    }

    /// Finishes a child subtree that has just returned: folds the current
    /// layout into the explored bases (sorted strategy) and takes the
    /// child's word back out of the layout.
    fn advance_backtrack(&mut self, f: SearchFrame) -> (r: SearchFrame)
        requires
            old(self).wf(),
            !old(self).entering,
            frame_ok(word_views(old(self).words@), f),
            f.child_active,
            covers_all(
                old(self).current@.words,
                word_views(f.remained@),
                word_views(old(self).words@),
            ),
            forall|k: int|
                0 <= k < old(self).stack@.len() ==> value_in(
                    word_views((#[trigger] old(self).stack@[k]).remained@),
                    f.placed_value@,
                ),
        ensures
            final(self).wf(),
            final(self).words@ == old(self).words@,
            final(self).settings == old(self).settings,
            final(self).done == old(self).done,
            final(self).entering == old(self).entering,
            final(self).stack@ == old(self).stack@,
            frame_ok(word_views(final(self).words@), r),
            !r.child_active,
            r.remained == f.remained,
            covers_all(
                final(self).current@.words,
                word_views(r.remained@),
                word_views(final(self).words@),
            ),
    {
        let ghost w0v = word_views(self.words@);
        let mut f = f;
        f.child_active = false;
        if self.mode == SearchMode::Sorted {
            self.update_bases();
        }
        let ghost pre_remove = self.current@;
        let ghost v = f.placed_value@;
        self.current.remove_word(&f.placed_value);
        proof {
            if has_value(pre_remove.words, v) {
                let (i, dx, dy) = choose|i: int, dx: int, dy: int|
                    0 <= i < pre_remove.words.len() && pre_remove.words[i].value == v
                        && crate::crossword::shifted_seq(
                        self.current@.words,
                        pre_remove.words.remove(i),
                        dx,
                        dy,
                    );
                assert forall|k: int|
                    0 <= k < self.current@.words.len() implies value_in(
                    w0v,
                    (#[trigger] self.current@.words[k]).value,
                ) by {
                    let src = if k < i {
                        k
                    } else {
                        k + 1
                    };
                    assert(pre_remove.words.remove(i)[k] == pre_remove.words[src]);
                    assert(self.current@.words[k].value == pre_remove.words[src].value);
                    assert(value_in(w0v, pre_remove.words[src].value));
                }
                // Removal takes out exactly the child's word value: every
                // other placed value survives, and the removed one is still
                // available in every remaining word list on the stack.
                crate::crossword::lemma_remove_keeps_other_values(pre_remove.words, i);
                crate::crossword::lemma_shifted_values(
                    self.current@.words,
                    pre_remove.words.remove(i),
                    dx,
                    dy,
                );
                assert(pre_remove.words[i].value == v);
                assert forall|u: Seq<u8>|
                    has_value(pre_remove.words, u) && u != v implies has_value(
                    self.current@.words,
                    u,
                ) by {}
            }
            assert forall|k: int|
                0 <= k < self.stack@.len() implies covers_all(
                self.current@.words,
                word_views((#[trigger] self.stack@[k]).remained@),
                w0v,
            ) by {
                let rem = word_views(self.stack@[k].remained@);
                assert(covers_all(pre_remove.words, rem, w0v));
                assert forall|i2: int|
                    0 <= i2 < w0v.len() implies has_value(
                    self.current@.words,
                    (#[trigger] w0v[i2]).value,
                ) || value_in(rem, w0v[i2].value) by {
                    if has_value(pre_remove.words, w0v[i2].value) && !value_in(
                        rem,
                        w0v[i2].value,
                    ) {
                        if w0v[i2].value == v {
                            assert(value_in(rem, v));
                        } else {
                            assert(has_value(self.current@.words, w0v[i2].value));
                        }
                    }
                }
            }
            assert(covers_all(self.current@.words, word_views(f.remained@), w0v)) by {
                assert forall|i2: int|
                    0 <= i2 < w0v.len() implies has_value(
                    self.current@.words,
                    (#[trigger] w0v[i2]).value,
                ) || value_in(word_views(f.remained@), w0v[i2].value) by {
                    if has_value(pre_remove.words, w0v[i2].value) && !value_in(
                        word_views(f.remained@),
                        w0v[i2].value,
                    ) {
                        if w0v[i2].value == v {
                            assert(value_in(word_views(f.remained@), v));
                        } else {
                            assert(has_value(self.current@.words, w0v[i2].value));
                        }
                    }
                }
            }
        }
        let cap = f.placements.len();
        proof {
            assert(f.place_i < cap);
        }
        f.place_i = f.place_i + 1;
        f
    }

    /// Tries the frame's current candidate placement: places it and opens
    /// the child node when the layout accepts it, otherwise moves on to
    /// the next candidate.
    fn advance_try_place(&mut self, f: SearchFrame) -> (r: SearchFrame)
        requires
            old(self).wf(),
            !old(self).entering,
            frame_ok(word_views(old(self).words@), f),
            !f.child_active,
            f.place_i < f.placements@.len(),
            covers_all(
                old(self).current@.words,
                word_views(f.remained@),
                word_views(old(self).words@),
            ),
            (old(self).stack@.len() > 0 ==> values_subset(
                word_views(f.remained@),
                word_views(old(self).stack@[old(self).stack@.len() - 1].remained@),
            )),
        ensures
            final(self).wf(),
            final(self).words@ == old(self).words@,
            final(self).settings == old(self).settings,
            final(self).done == old(self).done,
            final(self).stack@ == old(self).stack@,
            frame_ok(word_views(final(self).words@), r),
            r.remained == f.remained,
            covers_all(
                final(self).current@.words,
                word_views(r.remained@),
                word_views(final(self).words@),
            ),
            (final(self).entering && final(self).stack@.len() > 0 ==> values_subset(
                word_views(final(self).pending_remained@),
                word_views(final(self).stack@[final(self).stack@.len() - 1].remained@),
            )),
            (final(self).entering ==> values_subset(
                word_views(final(self).pending_remained@),
                word_views(r.remained@),
            )),
            (final(self).entering ==> covers_all(
                final(self).current@.words,
                word_views(final(self).pending_remained@),
                word_views(final(self).words@),
            )),
    {
        let ghost w0v = word_views(self.words@);
        let mut f = f;
        let p = f.placements[f.place_i].clone();
        proof {
            assert(p@ == pw_views(f.placements@)[f.place_i as int]);
            assert(p@.value == word_views(f.remained@)[f.word_i as int].value);
        }
        let fits = self.current.placement_fits(&p);
        let mut added = false;
        if fits {
            let val = clone_bytes(&p.value);
            let ghost pre_add = self.current@;
            match self.current.add_word(p) {
                Result::Ok(_) => {
                    proof {
                        let pv = pw_views(f.placements@)[f.place_i as int];
                        let (dx, dy) = choose|dx: int, dy: int|
                            crate::crossword::shifted_seq(
                                self.current@.words,
                                crate::placed_word::sorted_insert(pre_add.words, pv),
                                dx,
                                dy,
                            );
                        lemma_insert_value_set(pre_add.words, pv);
                        assert forall|k: int|
                            0 <= k < self.current@.words.len() implies value_in(
                            w0v,
                            (#[trigger] self.current@.words[k]).value,
                        ) by {
                            let ins = crate::placed_word::sorted_insert(pre_add.words, pv);
                            assert(self.current@.words[k].value == ins[k].value);
                        }
                        // The layout's value set grew by the placed word.
                        crate::crossword::lemma_sorted_insert_values(pre_add.words, pv);
                        crate::crossword::lemma_shifted_values(
                            self.current@.words,
                            crate::placed_word::sorted_insert(pre_add.words, pv),
                            dx,
                            dy,
                        );
                        assert(has_value(self.current@.words, pv.value));
                        assert(forall|u: Seq<u8>|
                            has_value(pre_add.words, u) ==> has_value(self.current@.words, u));
                        assert forall|k: int|
                            0 <= k < self.stack@.len() implies covers_all(
                            self.current@.words,
                            word_views((#[trigger] self.stack@[k]).remained@),
                            w0v,
                        ) by {
                            assert(covers_all(
                                pre_add.words,
                                word_views(self.stack@[k].remained@),
                                w0v,
                            ));
                        }
                        assert(covers_all(self.current@.words, word_views(f.remained@), w0v));
                    }
                    f.placed_value = val;
                    f.child_active = true;
                    added = true;
                }
                Result::Err(_) => {
                    let cap = f.placements.len();
                    proof {
                        assert(f.place_i < cap);
                    }
                    f.place_i = f.place_i + 1;
                }
            }
        } else {
            let cap = f.placements.len();
            proof {
                assert(f.place_i < cap);
            }
            f.place_i = f.place_i + 1;
        }
        if added {
            let crem = words_without_index(&f.remained, f.word_i);
            proof {
                assert forall|k: int|
                    0 <= k < crem@.len() implies word_wf(#[trigger] word_views(crem@)[k])
                    && value_in(w0v, word_views(crem@)[k].value) by {
                    let src = if k < f.word_i {
                        k
                    } else {
                        k + 1
                    };
                    assert(word_views(crem@)[k] == word_views(f.remained@)[src]);
                }
                // Every value still available in the child's list was
                // available in this node's list.
                assert forall|u: Seq<u8>|
                    value_in(word_views(crem@), u) implies value_in(
                    word_views(f.remained@),
                    u,
                ) by {
                    let k = choose|k: int|
                        0 <= k < word_views(crem@).len() && word_views(crem@)[k].value == u;
                    let src = if k < f.word_i {
                        k
                    } else {
                        k + 1
                    };
                    assert(word_views(crem@)[k] == word_views(f.remained@)[src]);
                }
                // The word taken out of the child's list is now placed, so
                // the child's list still covers every input word.
                assert(covers_all(self.current@.words, word_views(crem@), w0v)) by {
                    assert forall|i2: int|
                        0 <= i2 < w0v.len() implies has_value(
                        self.current@.words,
                        (#[trigger] w0v[i2]).value,
                    ) || value_in(word_views(crem@), w0v[i2].value) by {
                        if !has_value(self.current@.words, w0v[i2].value) {
                            assert(value_in(word_views(f.remained@), w0v[i2].value));
                            let k = choose|k: int|
                                0 <= k < word_views(f.remained@).len() && word_views(
                                    f.remained@,
                                )[k].value == w0v[i2].value;
                            if k == f.word_i {
                                assert(has_value(
                                    self.current@.words,
                                    word_views(f.remained@)[f.word_i as int].value,
                                ));
                            } else {
                                let k2 = if k < f.word_i {
                                    k
                                } else {
                                    k - 1
                                };
                                assert(word_views(crem@)[k2] == word_views(f.remained@)[k]);
                            }
                        }
                    }
                }
            }
            self.pending_remained = crem;
            self.entering = true;
        }
        f
    }

    /// One backtracking step: finishes the returned child of the top
    /// frame, tries its next candidate placement, advances to the node's
    /// next word, or closes the node; marks the search done when the stack
    /// is empty.
    fn step_advance(&mut self)
        requires
            old(self).wf(),
            !old(self).entering,
        ensures
            final(self).wf(),
            final(self).words@ == old(self).words@,
            final(self).settings == old(self).settings,
    {
        let ghost w0v = word_views(self.words@);
        if self.stack.len() == 0 {
            self.done = true;
            return;
        }
        let ghost st0 = self.stack@;
        proof {
            assert(frame_ok(w0v, st0[st0.len() - 1]));
            assert(covers_all(
                self.current@.words,
                word_views(st0[st0.len() - 1].remained@),
                w0v,
            ));
            if st0[st0.len() - 1].child_active {
                lemma_chain_value_in(st0, st0[st0.len() - 1].placed_value@, st0.len() - 1);
            }
        }
        let mut f = self.stack.pop().unwrap();
        proof {
            assert(forall|k: int| 0 <= k < st0.len() - 1 ==> self.stack@[k] == st0[k]);
            assert(frame_ok(w0v, f));
            assert(covers_all(self.current@.words, word_views(f.remained@), w0v));
            if self.stack@.len() > 0 {
                assert(values_subset(
                    word_views(f.remained@),
                    word_views(self.stack@[self.stack@.len() - 1].remained@),
                ));
            }
            if f.child_active {
                assert forall|k: int|
                    0 <= k < self.stack@.len() implies value_in(
                    word_views((#[trigger] self.stack@[k]).remained@),
                    f.placed_value@,
                ) by {
                    assert(self.stack@[k] == st0[k]);
                    assert(value_in(word_views(st0[k].remained@), f.placed_value@));
                }
            }
            assert(self.wf());
        }
        let ghost parent_rem = if self.stack@.len() > 0 {
            word_views(self.stack@[self.stack@.len() - 1].remained@)
        } else {
            Seq::<WordView>::empty()
        };
        if f.child_active {
            f = self.advance_backtrack(f);
        }
        if f.place_i < f.placements.len() {
            let f2 = self.advance_try_place(f);
            self.stack.push(f2);
            proof {
                let st = self.stack@;
                assert(st[st.len() - 1] == f2);
                assert(forall|k: int| 0 <= k < st.len() - 1 ==> st[k] == st0[k]);
                if st.len() > 1 {
                    assert(values_subset(word_views(f2.remained@), parent_rem));
                }
                if self.entering {
                    assert(values_subset(
                        word_views(self.pending_remained@),
                        word_views(f2.remained@),
                    ));
                }
            }
            return;
        }
        if self.mode == SearchMode::Sorted {
            let rcap = f.remained.len();
            proof {
                assert(f.word_i < rcap);
            }
            f.word_i = f.word_i + 1;
            if f.word_i < f.remained.len() {
                let next_word = &f.remained[f.word_i];
                proof {
                    assert(next_word@ == word_views(f.remained@)[f.word_i as int]);
                }
                let placements = self.current.calculate_possible_ways_to_add_word(next_word);
                proof {
                    assert forall|k: int|
                        0 <= k < placements@.len() implies pw_wf(
                        #[trigger] pw_views(placements@)[k],
                    ) && value_in(w0v, pw_views(placements@)[k].value) && pw_views(
                        placements@,
                    )[k].value == word_views(f.remained@)[f.word_i as int].value by {
                        lemma_layout_candidate_value(
                            self.current@,
                            next_word@,
                            pw_views(placements@)[k],
                        );
                    }
                }
                f.placements = placements;
                f.place_i = 0;
                self.stack.push(f);
                proof {
                    let st = self.stack@;
                    assert(forall|k: int| 0 <= k < st.len() - 1 ==> st[k] == st0[k]);
                    if st.len() > 1 {
                        assert(values_subset(
                            word_views(st[st.len() - 1].remained@),
                            parent_rem,
                        ));
                    }
                }
            }
        }
        // Otherwise the node's single word is exhausted (fixed order) or
        // its word list is: the node is finished and its parent resumes.
    }

    /// Resumes the search and returns the next completed layout, or `None`
    /// when the search is exhausted.
    pub fn next_crossword(&mut self) -> (r: Option<Crossword>)
        requires
            old(self).wf(),
        ensures
            final(self).wf(),
            final(self).policy() == old(self).policy(),
            final(self).constraints() == old(self).constraints(),
            forall|v: Seq<u8>| final(self).allowed_value(v) == old(self).allowed_value(v),
            (r matches Option::Some(cw) ==> old(self).emitted_layout_ok(cw@)),
            (r is None ==> final(self).done()),
            (old(self).done() ==> r is None && *final(self) == *old(self)),
    {
        if self.done {
            return Option::None;
        }
        let mut fuel: u64 = 0xFFFF_FFFF_FFFF_FFFF;
        while fuel > 0
            invariant
                self.wf(),
                self.words@ == old(self).words@,
                self.settings == old(self).settings,
                !old(self).done(),
            decreases fuel,
        {
            fuel = fuel - 1;
            if self.done {
                return Option::None;
            }
            if self.entering {
                let r = self.step_enter();
                match r {
                    Option::Some(out) => {
                        proof {
                            assert(old(self).emitted_layout_ok(out@)) by {
                                assert(self.emitted_layout_ok(out@));
                                assert(word_views(self.words@) == word_views(old(self).words@));
                                assert(forall|v: Seq<u8>|
                                    #[trigger] old(self).allowed_value(v) == self.allowed_value(
                                        v,
                                    ));
                            }
                        }
                        return Option::Some(out);
                    }
                    Option::None => {}
                }
            } else {
                self.step_advance();
            }
        }
        self.done = true;
        Option::None
    }

    /// Runs the search and collects up to `count` further layouts, in
    /// emission order; a shorter list means the search is exhausted.
    pub fn generate_up_to(&mut self, count: usize) -> (r: Vec<Crossword>)
        requires
            old(self).wf(),
        ensures
            final(self).wf(),
            final(self).policy() == old(self).policy(),
            final(self).constraints() == old(self).constraints(),
            forall|v: Seq<u8>| final(self).allowed_value(v) == old(self).allowed_value(v),
            r@.len() <= count,
            forall|k: int|
                0 <= k < r@.len() ==> old(self).emitted_layout_ok((#[trigger] r@[k])@),
            (r@.len() < count ==> final(self).done()),
            (old(self).done() ==> r@.len() == 0),
    {
        let mut out: Vec<Crossword> = Vec::new();
        let mut stop = false;
        while !stop && out.len() < count
            invariant
                self.wf(),
                stop ==> self.done(),
                old(self).done() ==> out@.len() == 0 && self.done(),
                self.policy() == old(self).policy(),
                self.constraints() == old(self).constraints(),
                forall|v: Seq<u8>| self.allowed_value(v) == old(self).allowed_value(v),
                out@.len() <= count,
                forall|k: int|
                    0 <= k < out@.len() ==> old(self).emitted_layout_ok((#[trigger] out@[k])@),
            decreases count - out@.len() + (if stop {
                0int
            } else {
                1int
            }),
        {
            match self.next_crossword() {
                Option::Some(cw) => {
                    out.push(cw);
                }
                Option::None => {
                    stop = true;
                }
            }
        }
        out
    }
}

} // verus!
