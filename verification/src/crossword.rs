//! The layout itself: a canonically ordered, normalized set of placed
//! words governed by a compatibility policy, with the operations and laws
//! of the placement algebra and the size-constraint engine.

use vstd::prelude::*;
use crate::placed_word::{
    coords_in_range, is_candidate, lemma_intersection_indices_in_range, pw_lt, pw_sorted,
    pw_views, pw_wf, insert_placed_sorted, sorted_insert, spec_corners_touch,
    spec_head_touches_head, spec_intersection_indices, spec_intersects, spec_side_touches_head,
    spec_side_touches_side, word_wf, PlacedWord, PlacedWordView,
};
use crate::word::{bytes_eq, clone_bytes, Direction, Position, Word, WordView};

verus! {

broadcast use crate::placed_word::lemma_pw_views_len, crate::placed_word::lemma_pw_views_index;

/// Reasons an attempt to place a word on a crossword can fail.
#[derive(Clone, Copy, PartialEq, Eq, Structural, Debug)]
pub enum CrosswordError {
    /// The word would violate the compatibility policy against an existing
    /// placed word.
    CantAddWord,
    /// A placed word with the same character string already exists.
    WordAlreadyExists,
}

/// Policy describing which non-intersecting adjacencies of two placed words
/// are allowed.
#[derive(Clone, Copy, PartialEq, Eq, Structural, Debug, Hash)]
pub struct WordCompatibilitySettings {
    pub side_by_side: bool,
    pub head_by_head: bool,
    pub side_by_head: bool,
    pub corner_by_corner: bool,
}

impl Default for WordCompatibilitySettings {
    /// The default policy forbids every adjacency except corner-by-corner.
    fn default() -> (r: Self)
        ensures
            r == (WordCompatibilitySettings {
                side_by_side: false,
                head_by_head: false,
                side_by_head: false,
                corner_by_corner: true,
            }),
    {
        WordCompatibilitySettings {
            side_by_side: false,
            head_by_head: false,
            side_by_head: false,
            corner_by_corner: true,
        }
    }
}

/// The characters of two perpendicular intersecting words agree at their
/// crossing cell.
pub open spec fn chars_match_at_crossing(a: PlacedWordView, b: PlacedWordView) -> bool {
    match spec_intersection_indices(a, b) {
        Option::Some(p) => 0 <= p.0 < a.value.len() && 0 <= p.1 < b.value.len() && a.value[p.0]
            == b.value[p.1],
        Option::None => true,
    }
}

/// Whether two placed words may coexist under a compatibility policy.
pub open spec fn spec_compatible(
    s: WordCompatibilitySettings,
    a: PlacedWordView,
    b: PlacedWordView,
) -> bool {
    if spec_corners_touch(a, b) && !s.corner_by_corner {
        false
    } else if a.direction == b.direction {
        &&& !(spec_head_touches_head(a, b) && !s.head_by_head)
        &&& !(spec_side_touches_side(a, b) && !s.side_by_side)
        &&& !spec_intersects(a, b)
    } else {
        &&& !(spec_side_touches_head(a, b) && !s.side_by_head)
        &&& (spec_intersects(a, b) ==> chars_match_at_crossing(a, b))
    }
}

/// Compatibility does not depend on the order of the two words.
pub proof fn lemma_compatible_symmetric(
    s: WordCompatibilitySettings,
    a: PlacedWordView,
    b: PlacedWordView,
)
    ensures
        spec_compatible(s, a, b) == spec_compatible(s, b, a),
{
    assert(spec_corners_touch(a, b) == spec_corners_touch(b, a));
    assert(spec_intersects(a, b) == spec_intersects(b, a));
    assert(spec_side_touches_side(a, b) == spec_side_touches_side(b, a));
    assert(spec_head_touches_head(a, b) == spec_head_touches_head(b, a));
    assert(spec_side_touches_head(a, b) == spec_side_touches_head(b, a));
    if a.direction != b.direction && spec_intersects(a, b) {
        assert(chars_match_at_crossing(a, b) == chars_match_at_crossing(b, a));
    }
}

/// A placed word translated by a fixed offset.
pub open spec fn pwv_shift(p: PlacedWordView, dx: int, dy: int) -> PlacedWordView {
    PlacedWordView { x: p.x + dx, y: p.y + dy, direction: p.direction, value: p.value }
}

/// Translating both words by the same offset changes no geometric relation.
pub proof fn lemma_compatible_shift(
    s: WordCompatibilitySettings,
    a: PlacedWordView,
    b: PlacedWordView,
    dx: int,
    dy: int,
)
    ensures
        spec_compatible(s, pwv_shift(a, dx, dy), pwv_shift(b, dx, dy)) == spec_compatible(s, a, b),
{
    let a1 = pwv_shift(a, dx, dy);
    let b1 = pwv_shift(b, dx, dy);
    assert(spec_corners_touch(a1, b1) == spec_corners_touch(a, b));
    assert(spec_intersects(a1, b1) == spec_intersects(a, b));
    assert(spec_side_touches_side(a1, b1) == spec_side_touches_side(a, b));
    assert(spec_head_touches_head(a1, b1) == spec_head_touches_head(a, b));
    assert(spec_side_touches_head(a1, b1) == spec_side_touches_head(a, b));
    assert(spec_intersection_indices(a1, b1) == spec_intersection_indices(a, b));
}

/// The placed-word order is invariant under a uniform translation.
pub proof fn lemma_pw_lt_shift(a: PlacedWordView, b: PlacedWordView, dx: int, dy: int)
    ensures
        pw_lt(pwv_shift(a, dx, dy), pwv_shift(b, dx, dy)) == pw_lt(a, b),
{
}

impl WordCompatibilitySettings {
    /// Decides whether two placed words may coexist under this policy.
    pub fn are_words_compatible(&self, first: &PlacedWord, second: &PlacedWord) -> (r: bool)
        requires
            pw_wf(first@),
            pw_wf(second@),
        ensures
            r == spec_compatible(*self, first@, second@),
    {
        if first.corners_touch(second) && !self.corner_by_corner {
            return false;
        }
        if first.direction == second.direction {
            if first.head_touches_head(second) && !self.head_by_head {
                return false;
            }
            if first.side_touches_side(second) && !self.side_by_side {
                return false;
            }
            if first.intersects(second) {
                return false;
            }
            true
        } else {
            if first.side_touches_head(second) && !self.side_by_head {
                return false;
            }
            if first.intersects(second) {
                proof {
                    lemma_intersection_indices_in_range(first@, second@);
                }
                let indices = first.get_intersection_indices(second);
                match indices {
                    Option::Some((first_ind, second_ind)) => {
                        let first_char: u8 = first.value[first_ind as usize];
                        let second_char: u8 = second.value[second_ind as usize];
                        return first_char == second_char;
                    }
                    Option::None => {
                        return false;
                    }
                }
            }
            true
        }
    }
}

/// Some placed word in the sequence carries this character string.
pub open spec fn has_value(s: Seq<PlacedWordView>, v: Seq<u8>) -> bool {
    exists|i: int| 0 <= i < s.len() && s[i].value == v
}

/// No two placed words carry the same character string.
pub open spec fn values_unique(s: Seq<PlacedWordView>) -> bool {
    forall|i: int, j: int| 0 <= i < j < s.len() ==> s[i].value != s[j].value
}

/// All coordinates are non-negative and, when any word is placed, the
/// minimum x and the minimum y over all words are both zero.
pub open spec fn normalized(s: Seq<PlacedWordView>) -> bool {
    &&& forall|i: int| 0 <= i < s.len() ==> s[i].x >= 0 && s[i].y >= 0
    &&& s.len() > 0 ==> (exists|i: int| 0 <= i < s.len() && s[i].x == 0) && (exists|i: int|
        0 <= i < s.len() && s[i].y == 0)
}

/// Any two words of the sequence are close enough that translating the
/// whole sequence to canonical coordinates stays on the 16-bit grid.
pub open spec fn span_ok(s: Seq<PlacedWordView>) -> bool {
    forall|i: int, j: int|
        0 <= i < s.len() && 0 <= j < s.len() ==> s[i].x - s[j].x <= i16::MAX && s[i].y - s[j].y
            <= i16::MAX
}

/// The first sequence is the second translated word by word by `(dx, dy)`.
pub open spec fn shifted_seq(
    t: Seq<PlacedWordView>,
    s: Seq<PlacedWordView>,
    dx: int,
    dy: int,
) -> bool {
    t.len() == s.len() && forall|i: int| 0 <= i < s.len() ==> t[i] == pwv_shift(s[i], dx, dy)
}

/// Mathematical value of a crossword: its placed words in canonical order,
/// and its compatibility policy.
#[verifier::ext_equal]
pub ghost struct CrosswordView {
    pub words: Seq<PlacedWordView>,
    pub settings: WordCompatibilitySettings,
}

/// Well-formedness of a crossword: canonically sorted, unique word values,
/// bounded word lengths, and normalized coordinates.
pub open spec fn cw_wf(c: CrosswordView) -> bool {
    &&& pw_sorted(c.words)
    &&& values_unique(c.words)
    &&& (forall|i: int| 0 <= i < c.words.len() ==> pw_wf(#[trigger] c.words[i]))
    &&& normalized(c.words)
}

/// The new word is compatible with every word already placed.
pub open spec fn spec_can_word_be_added(c: CrosswordView, w: PlacedWordView) -> bool {
    forall|i: int| 0 <= i < c.words.len() ==> spec_compatible(c.settings, #[trigger] c.words[i], w)
}

/// Every pair of distinct placed words is compatible under the policy.
pub open spec fn pairwise_compatible(c: CrosswordView) -> bool {
    forall|i: int, j: int|
        0 <= i < c.words.len() && 0 <= j < c.words.len() && i != j ==> spec_compatible(
            c.settings,
            #[trigger] c.words[i],
            #[trigger] c.words[j],
        )
}

/// A crossword: a normalized set of placed words with unique values, plus
/// the compatibility policy that governs additions.
#[derive(Eq, Debug)]
pub struct Crossword {
    words: Vec<PlacedWord>,
    pub word_compatibility_settings: WordCompatibilitySettings,
}

impl View for Crossword {
    type V = CrosswordView;

    closed spec fn view(&self) -> CrosswordView {
        CrosswordView { words: pw_views(self.words@), settings: self.word_compatibility_settings }
    }
}

impl PartialEq for Crossword {
    fn eq(&self, other: &Crossword) -> (r: bool) {
        let words_eq: bool = self.words == other.words;
        proof {
            if words_eq {
                assert(self@.words =~= other@.words);
            } else if self@.words == other@.words {
                assert(self.words.len() == other.words.len());
                assert forall|i: int|
                    0 <= i < self.words@.len() implies self.words@[i]@ == other.words@[i]@ by {
                    assert(pw_views(self.words@)[i] == pw_views(other.words@)[i]);
                }
            }
        }
        let r = words_eq && self.word_compatibility_settings == other.word_compatibility_settings;
        proof {
            if r {
                assert(self@ =~= other@);
            }
        }
        r
    }
}

impl vstd::std_specs::cmp::PartialEqSpecImpl for Crossword {
    open spec fn obeys_eq_spec() -> bool {
        true
    }

    open spec fn eq_spec(&self, other: &Crossword) -> bool {
        self@ == other@
    }
}

impl Clone for Crossword {
    fn clone(&self) -> (r: Self)
        ensures
            r@ == self@,
    {
        let mut nw: Vec<PlacedWord> = Vec::new();
        let mut i: usize = 0;
        while i < self.words.len()
            invariant
                0 <= i <= self.words@.len(),
                nw@.len() == i,
                forall|j: int| 0 <= j < i ==> nw@[j]@ == self.words@[j]@,
            decreases self.words@.len() - i,
        {
            nw.push(self.words[i].clone());
            i = i + 1;
        }
        let r = Crossword {
            words: nw,
            word_compatibility_settings: self.word_compatibility_settings,
        };
        proof {
            assert(pw_views(r.words@) =~= pw_views(self.words@));
            assert(r@ =~= self@);
        }
        r
    }
}

impl Default for Crossword {
    /// An empty crossword with the default compatibility policy.
    fn default() -> (r: Self)
        ensures
            r@.words.len() == 0,
            r@.settings == (WordCompatibilitySettings {
                side_by_side: false,
                head_by_head: false,
                side_by_head: false,
                corner_by_corner: true,
            }),
            cw_wf(r@),
    {
        Crossword {
            words: Vec::new(),
            word_compatibility_settings: WordCompatibilitySettings::default(),
        }
    }
}

impl Crossword {
    /// Creates an empty crossword with the given compatibility policy.
    pub fn new(word_compatibility_settings: WordCompatibilitySettings) -> (r: Crossword)
        ensures
            r@.words.len() == 0,
            r@.settings == word_compatibility_settings,
            cw_wf(r@),
    {
        Crossword { words: Vec::new(), word_compatibility_settings }
    }

    /// The placed words, in canonical order.
    pub fn words(&self) -> (r: &Vec<PlacedWord>)
        ensures
            pw_views(r@) == self@.words,
    {
        &self.words
    }

    /// Index of the placed word carrying this character string, if any.
    fn find_index(&self, word: &Vec<u8>) -> (r: Option<usize>)
        ensures
            (match r {
                Option::Some(i) => 0 <= i < self@.words.len() && self@.words[i as int].value
                    == word@,
                Option::None => forall|i: int|
                    0 <= i < self@.words.len() ==> self@.words[i].value != word@,
            }),
    {
        let mut i: usize = 0;
        while i < self.words.len()
            invariant
                0 <= i <= self.words@.len(),
                forall|j: int| 0 <= j < i ==> self@.words[j].value != word@,
            decreases self.words@.len() - i,
        {
            if bytes_eq(&self.words[i].value, word) {
                assert(self@.words[i as int].value == word@);
                return Option::Some(i);
            }
            i = i + 1;
        }
        Option::None
    }

    /// Finds the placed word carrying this character string.
    pub fn find_word(&self, word: &Vec<u8>) -> (r: Option<&PlacedWord>)
        ensures
            (match r {
                Option::Some(w) => self@.words.contains(w@) && w@.value == word@,
                Option::None => forall|i: int|
                    0 <= i < self@.words.len() ==> self@.words[i].value != word@,
            }),
    {
        match self.find_index(word) {
            Option::Some(i) => {
                let w = &self.words[i];
                proof {
                    assert(self@.words[i as int] == w@);
                    assert(self@.words.contains(w@));
                }
                Option::Some(w)
            }
            Option::None => Option::None,
        }
    }

    /// Decides whether the word is compatible with every placed word.
    pub fn can_word_be_added(&self, word: &PlacedWord) -> (r: bool)
        requires
            forall|i: int| 0 <= i < self@.words.len() ==> pw_wf(#[trigger] self@.words[i]),
            pw_wf(word@),
        ensures
            r == spec_can_word_be_added(self@, word@),
    {
        let mut i: usize = 0;
        while i < self.words.len()
            invariant
                0 <= i <= self.words@.len(),
                forall|j: int| 0 <= j < self@.words.len() ==> pw_wf(#[trigger] self@.words[j]),
                pw_wf(word@),
                forall|j: int|
                    0 <= j < i ==> spec_compatible(self@.settings, #[trigger] self@.words[j], word@),
            decreases self.words@.len() - i,
        {
            proof {
                assert(self@.words[i as int] == self.words@[i as int]@);
                assert(pw_wf(self@.words[i as int]));
            }
            if !self.word_compatibility_settings.are_words_compatible(&self.words[i], word) {
                assert(!spec_compatible(self@.settings, self@.words[i as int], word@));
                return false;
            }
            i = i + 1;
        }
        true
    }

    /// Translates all placed words so that the minimum x and minimum y
    /// become zero, preserving every relative position.
    fn normalize(&mut self)
        requires
            pw_sorted(old(self)@.words),
            values_unique(old(self)@.words),
            forall|i: int| 0 <= i < old(self)@.words.len() ==> pw_wf(#[trigger] old(self)@.words[i]),
            span_ok(old(self)@.words),
        ensures
            final(self)@.settings == old(self)@.settings,
            exists|dx: int, dy: int| shifted_seq(final(self)@.words, old(self)@.words, dx, dy),
            cw_wf(final(self)@),
    {
        let ghost ov = self@.words;
        if self.words.len() == 0 {
            proof {
                assert(shifted_seq(self@.words, ov, 0, 0)) by {
                    assert(forall|i: int|
                        0 <= i < ov.len() ==> ov[i] == pwv_shift(ov[i], 0, 0)) by {
                        assert(forall|i: int|
                            0 <= i < ov.len() ==> ov[i] =~= pwv_shift(ov[i], 0, 0));
                    }
                }
            }
            return;
        }
        let mut minx: i16 = self.words[0].position.x;
        let mut miny: i16 = self.words[0].position.y;
        proof {
            assert(self@.words[0].x == minx as int);
            assert(self@.words[0].y == miny as int);
        }
        let mut i: usize = 1;
        while i < self.words.len()
            invariant
                1 <= i <= self.words@.len(),
                self.words@.len() > 0,
                forall|j: int|
                    0 <= j < i ==> minx <= self@.words[j].x && miny <= self@.words[j].y,
                exists|j: int| 0 <= j < i && self@.words[j].x == minx,
                exists|j: int| 0 <= j < i && self@.words[j].y == miny,
            decreases self.words@.len() - i,
        {
            let ghost oldminx = minx;
            let ghost oldminy = miny;
            if self.words[i].position.x < minx {
                minx = self.words[i].position.x;
            }
            if self.words[i].position.y < miny {
                miny = self.words[i].position.y;
            }
            proof {
                if minx as int == self@.words[i as int].x {
                    assert(exists|j: int| 0 <= j < i + 1 && self@.words[j].x == minx as int);
                } else {
                    let j0 = choose|j: int| 0 <= j < i && self@.words[j].x == oldminx as int;
                    assert(0 <= j0 < i + 1 && self@.words[j0].x == minx as int);
                }
                if miny as int == self@.words[i as int].y {
                    assert(exists|j: int| 0 <= j < i + 1 && self@.words[j].y == miny as int);
                } else {
                    let j0 = choose|j: int| 0 <= j < i && self@.words[j].y == oldminy as int;
                    assert(0 <= j0 < i + 1 && self@.words[j0].y == miny as int);
                }
            }
            i = i + 1;
        }
        let mut nw: Vec<PlacedWord> = Vec::new();
        let mut k: usize = 0;
        while k < self.words.len()
            invariant
                0 <= k <= self.words@.len(),
                self@.words == ov,
                nw@.len() == k,
                forall|j: int| 0 <= j < self.words@.len() ==> minx <= ov[j].x && miny <= ov[j].y,
                span_ok(ov),
                exists|j: int| 0 <= j < ov.len() && ov[j].x == minx,
                exists|j: int| 0 <= j < ov.len() && ov[j].y == miny,
                forall|j: int|
                    0 <= j < k ==> nw@[j]@ == pwv_shift(ov[j], -(minx as int), -(miny as int)),
            decreases self.words@.len() - k,
        {
            let w = &self.words[k];
            let nx32: i32 = w.position.x as i32 - minx as i32;
            let ny32: i32 = w.position.y as i32 - miny as i32;
            proof {
                let jx = choose|j: int| 0 <= j < ov.len() && ov[j].x == minx;
                assert(ov[k as int].x - ov[jx].x <= i16::MAX);
                let jy = choose|j: int| 0 <= j < ov.len() && ov[j].y == miny;
                assert(ov[k as int].y - ov[jy].y <= i16::MAX);
            }
            let npw = PlacedWord {
                position: Position { x: nx32 as i16, y: ny32 as i16 },
                direction: w.direction,
                value: clone_bytes(&w.value),
            };
            proof {
                assert(npw@ =~= pwv_shift(ov[k as int], -(minx as int), -(miny as int)));
            }
            nw.push(npw);
            k = k + 1;
        }
        self.words = nw;
        proof {
            let dx = -(minx as int);
            let dy = -(miny as int);
            let nv = self@.words;
            assert(shifted_seq(nv, ov, dx, dy));
            assert(pw_sorted(nv)) by {
                assert forall|a: int, b: int| 0 <= a < b < nv.len() implies pw_lt(nv[a], nv[b]) by {
                    lemma_pw_lt_shift(ov[a], ov[b], dx, dy);
                }
            }
            assert(values_unique(nv));
            assert(normalized(nv)) by {
                let jx = choose|j: int| 0 <= j < ov.len() && ov[j].x == minx;
                let jy = choose|j: int| 0 <= j < ov.len() && ov[j].y == miny;
                assert(nv[jx].x == 0);
                assert(nv[jy].y == 0);
            }
        }
    }

    /// Whether adding this word would keep every pair of word coordinates
    /// close enough for renormalization to stay on the 16-bit grid; callers
    /// establish `add_word`'s coordinate requirement with this check.
    pub fn placement_fits(&self, word: &PlacedWord) -> (r: bool)
        ensures
            r == span_ok(self@.words.push(word@)),
    {
        let ghost u = self@.words.push(word@);
        let mut minx: i32 = word.position.x as i32;
        let mut maxx: i32 = word.position.x as i32;
        let mut miny: i32 = word.position.y as i32;
        let mut maxy: i32 = word.position.y as i32;
        proof {
            assert(u[u.len() - 1] == word@);
        }
        let mut i: usize = 0;
        while i < self.words.len()
            invariant
                0 <= i <= self.words@.len(),
                u == self@.words.push(word@),
                u.len() == self@.words.len() + 1,
                forall|k: int| 0 <= k < self@.words.len() ==> u[k] == self@.words[k],
                u[u.len() - 1] == word@,
                -0x8000 <= minx <= maxx <= 0x7FFF,
                -0x8000 <= miny <= maxy <= 0x7FFF,
                forall|k: int| 0 <= k < i ==> minx <= (#[trigger] u[k]).x <= maxx,
                forall|k: int| 0 <= k < i ==> miny <= (#[trigger] u[k]).y <= maxy,
                minx <= u[u.len() - 1].x <= maxx,
                miny <= u[u.len() - 1].y <= maxy,
                exists|k: int| 0 <= k < u.len() && (#[trigger] u[k]).x == minx,
                exists|k: int| 0 <= k < u.len() && (#[trigger] u[k]).x == maxx,
                exists|k: int| 0 <= k < u.len() && (#[trigger] u[k]).y == miny,
                exists|k: int| 0 <= k < u.len() && (#[trigger] u[k]).y == maxy,
            decreases self.words@.len() - i,
        {
            let w = &self.words[i];
            proof {
                assert(u[i as int] == w@);
            }
            if (w.position.x as i32) < minx {
                minx = w.position.x as i32;
            }
            if (w.position.x as i32) > maxx {
                maxx = w.position.x as i32;
            }
            if (w.position.y as i32) < miny {
                miny = w.position.y as i32;
            }
            if (w.position.y as i32) > maxy {
                maxy = w.position.y as i32;
            }
            i = i + 1;
        }
        let r = maxx - minx <= 0x7FFF && maxy - miny <= 0x7FFF;
        proof {
            if r {
                assert forall|a: int, b: int|
                    0 <= a < u.len() && 0 <= b < u.len() implies u[a].x - u[b].x <= i16::MAX
                    && u[a].y - u[b].y <= i16::MAX by {
                    assert(minx <= u[a].x <= maxx && minx <= u[b].x <= maxx);
                    assert(miny <= u[a].y <= maxy && miny <= u[b].y <= maxy);
                }
            } else {
                if maxx - minx > 0x7FFF {
                    let ka = choose|k: int| 0 <= k < u.len() && (#[trigger] u[k]).x == maxx;
                    let kb = choose|k: int| 0 <= k < u.len() && (#[trigger] u[k]).x == minx;
                    assert(u[ka].x - u[kb].x > i16::MAX);
                } else {
                    let ka = choose|k: int| 0 <= k < u.len() && (#[trigger] u[k]).y == maxy;
                    let kb = choose|k: int| 0 <= k < u.len() && (#[trigger] u[k]).y == miny;
                    assert(u[ka].y - u[kb].y > i16::MAX);
                }
            }
        }
        r
    }

    /// Adds the placed word after checking for a duplicate value and for
    /// compatibility, then renormalizes. On an error the crossword is
    /// unchanged; on success the result is the canonical form of the old
    /// words plus the new one.
    #[verifier::rlimit(50)]
    pub fn add_word(&mut self, word: PlacedWord) -> (r: Result<(), CrosswordError>)
        requires
            cw_wf(old(self)@),
            pw_wf(word@),
            span_ok(old(self)@.words.push(word@)),
        ensures
            final(self)@.settings == old(self)@.settings,
            cw_wf(final(self)@),
            (r matches Result::Err(e) ==> final(self)@ == old(self)@ && ((e
                == CrosswordError::WordAlreadyExists) == has_value(
                old(self)@.words,
                word@.value,
            )) && ((e == CrosswordError::CantAddWord) == (!has_value(old(self)@.words, word@.value)
                && !spec_can_word_be_added(old(self)@, word@)))),
            (r is Ok) == (!has_value(old(self)@.words, word@.value) && spec_can_word_be_added(
                old(self)@,
                word@,
            )),
            (r is Ok ==> exists|dx: int, dy: int|
                shifted_seq(
                    final(self)@.words,
                    sorted_insert(old(self)@.words, word@),
                    dx,
                    dy,
                )),
            (r is Ok && pairwise_compatible(old(self)@) ==> pairwise_compatible(final(self)@)),
    {
        let ghost ov = self@.words;
        let ghost wv = word@;
        match self.find_index(&word.value) {
            Option::Some(_) => {
                return Result::Err(CrosswordError::WordAlreadyExists);
            }
            Option::None => {}
        }
        if !self.can_word_be_added(&word) {
            return Result::Err(CrosswordError::CantAddWord);
        }
        proof {
            assert(!pw_views(self.words@).contains(wv)) by {
                if pw_views(self.words@).contains(wv) {
                    let i = choose|i: int|
                        0 <= i < pw_views(self.words@).len() && pw_views(self.words@)[i] == wv;
                    assert(self@.words[i].value == wv.value);
                }
            }
        }
        insert_placed_sorted(&mut self.words, word);
        let ghost mid = self@.words;
        proof {
            assert(mid == sorted_insert(ov, wv));
            // The inserted sequence is the old one with the word spliced in,
            // so every element is either an old word or the new word.
            let i = choose|i: int|
                0 <= i <= ov.len() && (forall|j: int| 0 <= j < i ==> pw_lt(ov[j], wv)) && (i
                    < ov.len() ==> pw_lt(wv, ov[i]));
            assert(exists|i: int| 0 <= i <= ov.len() && mid =~= ov.insert(i, wv)) by {
                lemma_insert_index_exists(ov, wv);
            }
            let ii = choose|i: int| 0 <= i <= ov.len() && mid =~= ov.insert(i, wv);
            assert(values_unique(mid)) by {
                lemma_insert_preserves(ov, wv, ii);
            }
            assert(span_ok(mid)) by {
                lemma_insert_preserves(ov, wv, ii);
            }
            assert(forall|j: int| 0 <= j < mid.len() ==> pw_wf(#[trigger] mid[j])) by {
                lemma_insert_preserves(ov, wv, ii);
            }
        }
        self.normalize();
        proof {
            let nv = self@.words;
            let d = choose|dx: int, dy: int| shifted_seq(nv, mid, dx, dy);
            if pairwise_compatible(CrosswordView { words: ov, settings: self@.settings }) {
                let ii = choose|i: int| 0 <= i <= ov.len() && mid =~= ov.insert(i, wv);
                assert forall|a: int, b: int|
                    0 <= a < mid.len() && 0 <= b < mid.len() && a != b implies spec_compatible(
                    self@.settings,
                    mid[a],
                    mid[b],
                ) by {
                    let ma = if a < ii { ov[a] } else if a == ii { wv } else { ov[a - 1] };
                    let mb = if b < ii { ov[b] } else if b == ii { wv } else { ov[b - 1] };
                    assert(mid[a] == ma && mid[b] == mb);
                    if a == ii {
                        assert(spec_compatible(self@.settings, mb, wv));
                        lemma_compatible_symmetric(self@.settings, mb, wv);
                    } else if b == ii {
                        assert(spec_compatible(self@.settings, ma, wv));
                    } else {
                        assert(spec_compatible(self@.settings, ma, mb));
                    }
                }
                assert forall|a: int, b: int|
                    0 <= a < nv.len() && 0 <= b < nv.len() && a != b implies spec_compatible(
                    self@.settings,
                    nv[a],
                    nv[b],
                ) by {
                    lemma_compatible_shift(self@.settings, mid[a], mid[b], d.0, d.1);
                }
            }
        }
        Result::Ok(())
    }
}

/// Outcome of folding unnormalized additions of a list of words over a
/// crossword's word sequence: the final sequence, and the first error if
/// any word was rejected (words after the first rejected one are skipped).
pub open spec fn batch_add(
    s: Seq<PlacedWordView>,
    settings: WordCompatibilitySettings,
    ws: Seq<PlacedWordView>,
) -> (Seq<PlacedWordView>, Option<CrosswordError>)
    decreases ws.len(),
{
    if ws.len() == 0 {
        (s, Option::None)
    } else {
        let w = ws[0];
        if has_value(s, w.value) {
            (s, Option::Some(CrosswordError::WordAlreadyExists))
        } else if !spec_can_word_be_added(CrosswordView { words: s, settings }, w) {
            (s, Option::Some(CrosswordError::CantAddWord))
        } else {
            batch_add(sorted_insert(s, w), settings, ws.skip(1))
        }
    }
}

impl Crossword {
    fn add_word_unnormalized(&mut self, word: PlacedWord) -> (r: Result<(), CrosswordError>)
        requires
            pw_sorted(old(self)@.words),
            values_unique(old(self)@.words),
            forall|i: int| 0 <= i < old(self)@.words.len() ==> pw_wf(#[trigger] old(self)@.words[i]),
            pw_wf(word@),
        ensures
            final(self)@.settings == old(self)@.settings,
            pw_sorted(final(self)@.words),
            values_unique(final(self)@.words),
            forall|i: int|
                0 <= i < final(self)@.words.len() ==> pw_wf(#[trigger] final(self)@.words[i]),
            (r matches Result::Err(e) ==> final(self)@ == old(self)@ && ((e
                == CrosswordError::WordAlreadyExists) == has_value(
                old(self)@.words,
                word@.value,
            )) && ((e == CrosswordError::CantAddWord) == (!has_value(old(self)@.words, word@.value)
                && !spec_can_word_be_added(old(self)@, word@)))),
            (r is Ok) == (!has_value(old(self)@.words, word@.value) && spec_can_word_be_added(
                old(self)@,
                word@,
            )),
            (r is Ok ==> final(self)@.words == sorted_insert(old(self)@.words, word@)),
    {
        let ghost ov = self@.words;
        let ghost wv = word@;
        match self.find_index(&word.value) {
            Option::Some(_) => {
                return Result::Err(CrosswordError::WordAlreadyExists);
            }
            Option::None => {}
        }
        if !self.can_word_be_added(&word) {
            return Result::Err(CrosswordError::CantAddWord);
        }
        proof {
            assert(!pw_views(self.words@).contains(wv)) by {
                if pw_views(self.words@).contains(wv) {
                    let k = choose|k: int|
                        0 <= k < pw_views(self.words@).len() && pw_views(self.words@)[k] == wv;
                    assert(self@.words[k].value == wv.value);
                }
            }
        }
        insert_placed_sorted(&mut self.words, word);
        proof {
            assert(exists|i2: int| 0 <= i2 <= ov.len() && self@.words =~= ov.insert(i2, wv)) by {
                lemma_insert_index_exists(ov, wv);
            }
            let jj = choose|i2: int| 0 <= i2 <= ov.len() && self@.words =~= ov.insert(i2, wv);
            lemma_insert_preserves_basic(ov, wv, jj);
        }
        Result::Ok(())
    }

    /// Whether every pair of this crossword's word coordinates is close
    /// enough for renormalization to stay on the 16-bit grid.
    fn span_within_limit(&self) -> (r: bool)
        ensures
            r == span_ok(self@.words),
    {
        if self.words.len() == 0 {
            return true;
        }
        let ghost u = self@.words;
        let mut minx: i32 = self.words[0].position.x as i32;
        let mut maxx: i32 = minx;
        let mut miny: i32 = self.words[0].position.y as i32;
        let mut maxy: i32 = miny;
        proof {
            assert(u[0].x == minx && u[0].y == miny);
        }
        let mut i: usize = 1;
        while i < self.words.len()
            invariant
                1 <= i <= self.words@.len(),
                u == self@.words,
                self.words@.len() > 0,
                -0x8000 <= minx <= maxx <= 0x7FFF,
                -0x8000 <= miny <= maxy <= 0x7FFF,
                forall|k: int| 0 <= k < i ==> minx <= (#[trigger] u[k]).x <= maxx,
                forall|k: int| 0 <= k < i ==> miny <= (#[trigger] u[k]).y <= maxy,
                exists|k: int| 0 <= k < u.len() && (#[trigger] u[k]).x == minx,
                exists|k: int| 0 <= k < u.len() && (#[trigger] u[k]).x == maxx,
                exists|k: int| 0 <= k < u.len() && (#[trigger] u[k]).y == miny,
                exists|k: int| 0 <= k < u.len() && (#[trigger] u[k]).y == maxy,
            decreases self.words@.len() - i,
        {
            let w = &self.words[i];
            proof {
                assert(u[i as int] == w@);
            }
            if (w.position.x as i32) < minx {
                minx = w.position.x as i32;
            }
            if (w.position.x as i32) > maxx {
                maxx = w.position.x as i32;
            }
            if (w.position.y as i32) < miny {
                miny = w.position.y as i32;
            }
            if (w.position.y as i32) > maxy {
                maxy = w.position.y as i32;
            }
            i = i + 1;
        }
        let r = maxx - minx <= 0x7FFF && maxy - miny <= 0x7FFF;
        proof {
            if r {
                assert forall|a: int, b: int|
                    0 <= a < u.len() && 0 <= b < u.len() implies u[a].x - u[b].x <= i16::MAX
                    && u[a].y - u[b].y <= i16::MAX by {
                    assert(minx <= u[a].x <= maxx && minx <= u[b].x <= maxx);
                    assert(miny <= u[a].y <= maxy && miny <= u[b].y <= maxy);
                }
            } else {
                if maxx - minx > 0x7FFF {
                    let ka = choose|k: int| 0 <= k < u.len() && (#[trigger] u[k]).x == maxx;
                    let kb = choose|k: int| 0 <= k < u.len() && (#[trigger] u[k]).x == minx;
                    assert(u[ka].x - u[kb].x > i16::MAX);
                } else {
                    let ka = choose|k: int| 0 <= k < u.len() && (#[trigger] u[k]).y == maxy;
                    let kb = choose|k: int| 0 <= k < u.len() && (#[trigger] u[k]).y == miny;
                    assert(u[ka].y - u[kb].y > i16::MAX);
                }
            }
        }
        r
    }

    /// Whether the words a batch addition would actually keep stay within
    /// the renormalizable coordinate span: replays the unnormalized
    /// additions on a scratch copy and measures the result. Callers
    /// establish `add_words`' coordinate requirement with this check.
    pub fn batch_fits(&self, words: &Vec<PlacedWord>) -> (r: bool)
        requires
            cw_wf(self@),
            forall|i: int| 0 <= i < words@.len() ==> pw_wf(#[trigger] pw_views(words@)[i]),
        ensures
            r == span_ok(batch_add(self@.words, self@.settings, pw_views(words@)).0),
    {
        let ghost ov = self@.words;
        let ghost wvs = pw_views(words@);
        let ghost settings = self@.settings;
        let mut probe = self.clone();
        let mut failed = false;
        let mut i: usize = 0;
        proof {
            assert(wvs.skip(0) =~= wvs);
        }
        while i < words.len() && !failed
            invariant
                0 <= i <= words@.len(),
                wvs == pw_views(words@),
                wvs.len() == words@.len(),
                probe@.settings == settings,
                pw_sorted(probe@.words),
                values_unique(probe@.words),
                forall|j: int| 0 <= j < probe@.words.len() ==> pw_wf(#[trigger] probe@.words[j]),
                forall|j: int| 0 <= j < words@.len() ==> pw_wf(#[trigger] pw_views(words@)[j]),
                (if failed {
                    batch_add(ov, settings, wvs).0 == probe@.words
                } else {
                    batch_add(ov, settings, wvs) == batch_add(
                        probe@.words,
                        settings,
                        wvs.skip(i as int),
                    )
                }),
            decreases words@.len() - i,
        {
            let w = words[i].clone();
            proof {
                assert(w@ == pw_views(words@)[i as int]);
                assert(wvs.skip(i as int)[0] == wvs[i as int]);
            }
            let ghost pre = probe@.words;
            let step = probe.add_word_unnormalized(w);
            proof {
                let rest = wvs.skip(i as int);
                assert(rest.skip(1) =~= wvs.skip(i + 1));
                match step {
                    Result::Ok(_) => {
                        assert(batch_add(pre, settings, rest) == batch_add(
                            sorted_insert(pre, wvs[i as int]),
                            settings,
                            rest.skip(1),
                        ));
                    }
                    Result::Err(err) => {
                        assert(batch_add(pre, settings, rest) == (pre, Option::Some(err)));
                    }
                }
            }
            if step.is_err() {
                failed = true;
            }
            i = i + 1;
        }
        proof {
            if !failed {
                assert(wvs.skip(i as int) =~= Seq::<PlacedWordView>::empty());
                assert(batch_add(probe@.words, settings, wvs.skip(i as int)) == (
                    probe@.words,
                    Option::<CrosswordError>::None,
                ));
            }
            assert(batch_add(ov, settings, wvs).0 == probe@.words);
        }
        probe.span_within_limit()
    }

    /// Adds each word in turn without renormalizing, stopping at the first
    /// word that is rejected, then renormalizes once. The error of the
    /// first rejected word, if any, is returned; the words added before it
    /// stay in the crossword. `batch_fits` decides the coordinate
    /// requirement at run time.
    pub fn add_words(&mut self, words: Vec<PlacedWord>) -> (r: Result<(), CrosswordError>)
        requires
            cw_wf(old(self)@),
            forall|i: int| 0 <= i < words@.len() ==> pw_wf(#[trigger] pw_views(words@)[i]),
            span_ok(
                batch_add(old(self)@.words, old(self)@.settings, pw_views(words@)).0,
            ),
        ensures
            final(self)@.settings == old(self)@.settings,
            cw_wf(final(self)@),
            ({
                let (t, e) = batch_add(old(self)@.words, old(self)@.settings, pw_views(words@));
                &&& (match r {
                    Result::Ok(_) => e is None,
                    Result::Err(err) => e == Option::Some(err),
                })
                &&& exists|dx: int, dy: int| shifted_seq(final(self)@.words, t, dx, dy)
            }),
    {
        let ghost ov = self@.words;
        let ghost wvs = pw_views(words@);
        let ghost settings = self@.settings;
        let mut res: Result<(), CrosswordError> = Result::Ok(());
        let mut i: usize = 0;
        proof {
            assert(wvs.skip(0) =~= wvs);
            assert(wvs.len() == words@.len());
        }
        while i < words.len() && res.is_ok()
            invariant
                0 <= i <= words@.len(),
                wvs == pw_views(words@),
                wvs.len() == words@.len(),
                self@.settings == settings,
                pw_sorted(self@.words),
                values_unique(self@.words),
                forall|j: int| 0 <= j < self@.words.len() ==> pw_wf(#[trigger] self@.words[j]),
                forall|j: int| 0 <= j < words@.len() ==> pw_wf(#[trigger] pw_views(words@)[j]),
                (match res {
                    Result::Ok(_) => batch_add(ov, settings, wvs) == batch_add(
                        self@.words,
                        settings,
                        wvs.skip(i as int),
                    ),
                    Result::Err(err) => batch_add(ov, settings, wvs) == (
                        self@.words,
                        Option::Some(err),
                    ),
                }),
            decreases words@.len() - i,
        {
            let w = words[i].clone();
            proof {
                assert(wvs.len() == words@.len());
                assert(w@ == pw_views(words@)[i as int]);
                assert(wvs.skip(i as int)[0] == wvs[i as int]);
            }
            let ghost pre = self@.words;
            let step = self.add_word_unnormalized(w);
            proof {
                let rest = wvs.skip(i as int);
                assert(rest.skip(1) =~= wvs.skip(i + 1));
                match step {
                    Result::Ok(_) => {
                        assert(batch_add(pre, settings, rest) == batch_add(
                            sorted_insert(pre, wvs[i as int]),
                            settings,
                            rest.skip(1),
                        ));
                    }
                    Result::Err(err) => {
                        assert(batch_add(pre, settings, rest) == (
                            pre,
                            Option::Some(err),
                        ));
                    }
                }
            }
            match step {
                Result::Ok(_) => {}
                Result::Err(err) => {
                    res = Result::Err(err);
                }
            }
            i = i + 1;
        }
        proof {
            if res is Ok {
                assert(wvs.skip(i as int) =~= Seq::<PlacedWordView>::empty());
                assert(batch_add(self@.words, settings, wvs.skip(i as int)) == (
                    self@.words,
                    Option::<CrosswordError>::None,
                ));
            }
            assert(span_ok(self@.words));
        }
        self.normalize();
        res
    }

    /// Removes the placed word carrying this character string, if present,
    /// and renormalizes; reports whether a word was removed.
    pub fn remove_word(&mut self, word: &Vec<u8>) -> (r: bool)
        requires
            cw_wf(old(self)@),
        ensures
            final(self)@.settings == old(self)@.settings,
            cw_wf(final(self)@),
            r == has_value(old(self)@.words, word@),
            (!r ==> final(self)@ == old(self)@),
            (r ==> exists|i: int, dx: int, dy: int|
                0 <= i < old(self)@.words.len() && old(self)@.words[i].value == word@
                    && shifted_seq(final(self)@.words, old(self)@.words.remove(i), dx, dy)),
            (pairwise_compatible(old(self)@) ==> pairwise_compatible(final(self)@)),
    {
        let ghost ov = self@.words;
        match self.find_index(word) {
            Option::None => {
                proof {
                    if has_value(ov, word@) {
                        let i = choose|i: int| 0 <= i < ov.len() && ov[i].value == word@;
                    }
                }
                false
            }
            Option::Some(i) => {
                self.words.remove(i);
                let ghost mid = self@.words;
                proof {
                    assert(mid =~= ov.remove(i as int));
                    assert(forall|k: int| 0 <= k < i ==> mid[k] == ov[k]);
                    assert(forall|k: int| i <= k < mid.len() ==> mid[k] == ov[k + 1]);
                    assert(pw_sorted(mid)) by {
                        assert forall|a: int, b: int|
                            0 <= a < b < mid.len() implies pw_lt(mid[a], mid[b]) by {
                            let ua = if a < i { a } else { a + 1 };
                            let ub = if b < i { b } else { b + 1 };
                            assert(mid[a] == ov[ua] && mid[b] == ov[ub]);
                        }
                    };
                    assert(values_unique(mid)) by {
                        assert forall|a: int, b: int|
                            0 <= a < b < mid.len() implies mid[a].value != mid[b].value by {
                            let ua = if a < i { a } else { a + 1 };
                            let ub = if b < i { b } else { b + 1 };
                            assert(mid[a] == ov[ua] && mid[b] == ov[ub]);
                        }
                    };
                    assert(forall|k: int| 0 <= k < mid.len() ==> pw_wf(#[trigger] mid[k]));
                    assert(span_ok(mid)) by {
                        assert forall|a: int, b: int|
                            0 <= a < mid.len() && 0 <= b < mid.len() implies mid[a].x - mid[b].x
                            <= i16::MAX && mid[a].y - mid[b].y <= i16::MAX by {
                            let ua = if a < i { a } else { a + 1 };
                            let ub = if b < i { b } else { b + 1 };
                            assert(mid[a] == ov[ua] && mid[b] == ov[ub]);
                            assert(ov[ua].x >= 0 && ov[ub].x >= 0 && ov[ua].y >= 0 && ov[ub].y
                                >= 0);
                            assert(ov[ua].x <= i16::MAX && ov[ua].y <= i16::MAX);
                        }
                    };
                }
                self.normalize();
                proof {
                    let d = choose|dx: int, dy: int| shifted_seq(self@.words, mid, dx, dy);
                    assert(shifted_seq(self@.words, ov.remove(i as int), d.0, d.1));
                    if pairwise_compatible(CrosswordView { words: ov, settings: self@.settings }) {
                        assert forall|a: int, b: int|
                            0 <= a < self@.words.len() && 0 <= b < self@.words.len() && a != b
                            implies spec_compatible(
                            self@.settings,
                            self@.words[a],
                            self@.words[b],
                        ) by {
                            let ua = if a < i { a } else { a + 1 };
                            let ub = if b < i { b } else { b + 1 };
                            assert(mid[a] == ov[ua] && mid[b] == ov[ub]);
                            assert(spec_compatible(self@.settings, ov[ua], ov[ub]));
                            lemma_compatible_shift(self@.settings, mid[a], mid[b], d.0, d.1);
                        }
                    }
                }
                true
            }
        }
    }
}

/// Some word of `a` carries the same string and direction as `w` and sits
/// at `w`'s position translated by `(dx, dy)`.
pub open spec fn spec_word_match_at(
    a: Seq<PlacedWordView>,
    w: PlacedWordView,
    dx: int,
    dy: int,
) -> bool {
    exists|i: int|
        0 <= i < a.len() && a[i].value == w.value && a[i].direction == w.direction && a[i].x == w.x
            + dx && a[i].y == w.y + dy
}

/// Every word of `b` is matched in `a` at the offset `(dx, dy)`.
pub open spec fn spec_all_match_at(
    a: Seq<PlacedWordView>,
    b: Seq<PlacedWordView>,
    dx: int,
    dy: int,
) -> bool {
    forall|j: int| 0 <= j < b.len() ==> spec_word_match_at(a, #[trigger] b[j], dx, dy)
}

/// The second crossword appears inside the first: every word of `b` is
/// matched by value and direction in `a`, all at one common offset.
pub open spec fn spec_contains(a: CrosswordView, b: CrosswordView) -> bool {
    exists|dx: int, dy: int| spec_all_match_at(a.words, b.words, dx, dy)
}

/// A candidate placement of a word against the whole layout: on an empty
/// layout the single default placement; otherwise a crossing against some
/// placed word that the policy accepts against every placed word.
pub open spec fn spec_layout_candidate(c: CrosswordView, w: WordView, p: PlacedWordView) -> bool {
    if c.words.len() == 0 {
        p == (PlacedWordView { x: 0, y: 0, direction: Direction::Right, value: w.value })
    } else {
        (exists|i: int| 0 <= i < c.words.len() && is_candidate(#[trigger] c.words[i], w, p))
            && spec_can_word_be_added(c, p)
    }
}

/// Horizontal cell extent of a placed word, at least one cell.
pub open spec fn extent_x(w: PlacedWordView) -> int {
    w.x + (if w.direction == Direction::Right && w.value.len() > 0 {
        w.value.len() as int
    } else {
        1
    })
}

/// Vertical cell extent of a placed word, at least one cell.
pub open spec fn extent_y(w: PlacedWordView) -> int {
    w.y + (if w.direction == Direction::Down && w.value.len() > 0 {
        w.value.len() as int
    } else {
        1
    })
}

/// Width of the smallest enclosing rectangle anchored at the origin.
pub open spec fn spec_width(s: Seq<PlacedWordView>) -> int
    decreases s.len(),
{
    if s.len() == 0 {
        0
    } else {
        let rest = spec_width(s.drop_last());
        let e = extent_x(s.last());
        if e > rest {
            e
        } else {
            rest
        }
    }
}

/// Height of the smallest enclosing rectangle anchored at the origin.
pub open spec fn spec_height(s: Seq<PlacedWordView>) -> int
    decreases s.len(),
{
    if s.len() == 0 {
        0
    } else {
        let rest = spec_height(s.drop_last());
        let e = extent_y(s.last());
        if e > rest {
            e
        } else {
            rest
        }
    }
}

/// Character `k` of word `w` occupies cell `(x, y)`.
pub open spec fn covers(w: PlacedWordView, k: int, x: int, y: int) -> bool {
    0 <= k < w.value.len() && (match w.direction {
        Direction::Right => y == w.y && x == w.x + k,
        Direction::Down => x == w.x && y == w.y + k,
    })
}

/// Some character of some word among the first `n` occupies cell `(x, y)`.
pub open spec fn cell_covered(s: Seq<PlacedWordView>, n: int, x: int, y: int) -> bool {
    exists|i: int, k: int| 0 <= i < n && i < s.len() && #[trigger] covers(s[i], k, x, y)
}

/// The cell holds the character of a covering word among the first `n`, or
/// the default character when no word covers it.
pub open spec fn cell_char_ok(s: Seq<PlacedWordView>, n: int, x: int, y: int, c: u8) -> bool {
    if cell_covered(s, n, x, y) {
        exists|i: int, k: int|
            0 <= i < n && i < s.len() && #[trigger] covers(s[i], k, x, y) && s[i].value[k] == c
    } else {
        c == 0
    }
}

impl Crossword {
    /// Checks whether another crossword appears inside this one: every word
    /// of the other found here by value with the same direction, and all of
    /// the matches related by one common positional offset.
    pub fn contains_crossword(&self, other: &Crossword) -> (r: bool)
        requires
            cw_wf(self@),
            cw_wf(other@),
        ensures
            r == spec_contains(self@, other@),
    {
        let ghost av = self@.words;
        let ghost bv = other@.words;
        let mut dx: i16 = 0;
        let mut dy: i16 = 0;
        let mut j: usize = 0;
        while j < other.words.len()
            invariant
                0 <= j <= bv.len(),
                cw_wf(self@),
                cw_wf(other@),
                av == self@.words,
                bv == other@.words,
                j > 0 ==> (forall|j2: int|
                    0 <= j2 < j ==> spec_word_match_at(av, #[trigger] bv[j2], dx as int, dy as int)),
                j > 0 ==> (forall|d1: int, d2: int|
                    spec_word_match_at(av, bv[0], d1, d2) ==> d1 == dx as int && d2 == dy as int),
            decreases bv.len() - j,
        {
            let bw = &other.words[j];
            proof {
                assert(bv[j as int] == bw@);
            }
            match self.find_index(&bw.value) {
                Option::None => {
                    proof {
                        if spec_contains(self@, other@) {
                            let (d1, d2) = choose|d1: int, d2: int| spec_all_match_at(av, bv, d1, d2);
                            assert(spec_word_match_at(av, bv[j as int], d1, d2));
                            let i0 = choose|i0: int|
                                0 <= i0 < av.len() && av[i0].value == bv[j as int].value
                                    && av[i0].direction == bv[j as int].direction && av[i0].x == bv[
                                    j as int
                                ].x + d1 && av[i0].y == bv[j as int].y + d2;
                            assert(av[i0].value == bw.value@);
                        }
                    }
                    return false;
                }
                Option::Some(i) => {
                    let cur = &self.words[i];
                    proof {
                        assert(av[i as int] == cur@);
                    }
                    if cur.direction != bw.direction {
                        proof {
                            if spec_contains(self@, other@) {
                                let (d1, d2) = choose|d1: int, d2: int| spec_all_match_at(av, bv, d1, d2);
                                assert(spec_word_match_at(av, bv[j as int], d1, d2));
                                let i0 = choose|i0: int|
                                    0 <= i0 < av.len() && av[i0].value == bv[j as int].value
                                        && av[i0].direction == bv[j as int].direction && av[i0].x
                                        == bv[j as int].x + d1 && av[i0].y == bv[j as int].y + d2;
                                assert(i0 == i) by {
                                    if i0 < i {
                                        assert(av[i0].value != av[i as int].value);
                                    } else if i0 > i {
                                        assert(av[i as int].value != av[i0].value);
                                    }
                                }
                            }
                        }
                        return false;
                    }
                    proof {
                        assert(av[i as int].x >= 0 && av[i as int].y >= 0);
                        assert(bv[j as int].x >= 0 && bv[j as int].y >= 0);
                        assert(av[i as int].x <= i16::MAX && av[i as int].y <= i16::MAX);
                        assert(bv[j as int].x <= i16::MAX && bv[j as int].y <= i16::MAX);
                    }
                    let ndx: i16 = (cur.position.x as i32 - bw.position.x as i32) as i16;
                    let ndy: i16 = (cur.position.y as i32 - bw.position.y as i32) as i16;
                    if j == 0 {
                        dx = ndx;
                        dy = ndy;
                        proof {
                            assert(spec_word_match_at(av, bv[0], dx as int, dy as int)) by {
                                assert(0 <= i < av.len() && av[i as int].value == bv[0].value
                                    && av[i as int].direction == bv[0].direction && av[
                                    i as int
                                ].x == bv[0].x + dx as int && av[i as int].y == bv[0].y
                                    + dy as int);
                            }
                            assert forall|d1: int, d2: int|
                                spec_word_match_at(av, bv[0], d1, d2) implies d1 == dx as int && d2
                                == dy as int by {
                                let i0 = choose|i0: int|
                                    0 <= i0 < av.len() && av[i0].value == bv[0].value
                                        && av[i0].direction == bv[0].direction && av[i0].x == bv[
                                        0
                                    ].x + d1 && av[i0].y == bv[0].y + d2;
                                assert(i0 == i) by {
                                    if i0 < i {
                                        assert(av[i0].value != av[i as int].value);
                                    } else if i0 > i {
                                        assert(av[i as int].value != av[i0].value);
                                    }
                                }
                            }
                        }
                    } else {
                        if ndx != dx || ndy != dy {
                            proof {
                                if spec_contains(self@, other@) {
                                    let (d1, d2) = choose|d1: int, d2: int| spec_all_match_at(av, bv, d1, d2);
                                    assert(spec_word_match_at(av, bv[0], d1, d2));
                                    assert(d1 == dx as int && d2 == dy as int);
                                    assert(spec_word_match_at(av, bv[j as int], d1, d2));
                                    let i0 = choose|i0: int|
                                        0 <= i0 < av.len() && av[i0].value == bv[j as int].value
                                            && av[i0].direction == bv[j as int].direction && av[
                                            i0
                                        ].x == bv[j as int].x + d1 && av[i0].y == bv[j as int].y
                                            + d2;
                                    assert(i0 == i) by {
                                        if i0 < i {
                                            assert(av[i0].value != av[i as int].value);
                                        } else if i0 > i {
                                            assert(av[i as int].value != av[i0].value);
                                        }
                                    }
                                }
                            }
                            return false;
                        }
                        proof {
                            assert(spec_word_match_at(av, bv[j as int], dx as int, dy as int)) by {
                                assert(0 <= i < av.len() && av[i as int].value == bv[
                                    j as int
                                ].value && av[i as int].direction == bv[j as int].direction && av[
                                    i as int
                                ].x == bv[j as int].x + dx as int && av[i as int].y == bv[
                                    j as int
                                ].y + dy as int);
                            }
                        }
                    }
                }
            }
            j = j + 1;
        }
        proof {
            assert(spec_contains(self@, other@)) by {
                assert(spec_all_match_at(av, bv, dx as int, dy as int));
            }
        }
        true
    }

    /// All ways to add the word onto the layout: the single default
    /// placement on an empty layout, otherwise every crossing against some
    /// placed word that the policy accepts against the whole layout, as a
    /// sorted duplicate-free set.
    pub fn calculate_possible_ways_to_add_word(&self, word: &Word) -> (r: Vec<PlacedWord>)
        requires
            cw_wf(self@),
            word_wf(word@),
        ensures
            pw_sorted(pw_views(r@)),
            forall|k: int|
                0 <= k < r@.len() ==> spec_layout_candidate(self@, word@, #[trigger] pw_views(r@)[k]),
            forall|p: PlacedWordView|
                spec_layout_candidate(self@, word@, p) && coords_in_range(p.x, p.y)
                    ==> pw_views(r@).contains(p),
    {
        if self.words.len() == 0 {
            let mut single: Vec<PlacedWord> = Vec::new();
            let pw = PlacedWord {
                position: Position { x: 0, y: 0 },
                direction: Direction::Right,
                value: clone_bytes(&word.value),
            };
            proof {
                assert(pw@ =~= (PlacedWordView {
                    x: 0,
                    y: 0,
                    direction: Direction::Right,
                    value: word@.value,
                }));
            }
            single.push(pw);
            proof {
                assert forall|p: PlacedWordView|
                    spec_layout_candidate(self@, word@, p) && coords_in_range(
                        p.x,
                        p.y,
                    ) implies pw_views(single@).contains(p) by {
                    assert(pw_views(single@)[0] == p);
                }
            }
            return single;
        }
        let mut result: Vec<PlacedWord> = Vec::new();
        let mut i: usize = 0;
        while i < self.words.len()
            invariant
                0 <= i <= self.words@.len(),
                cw_wf(self@),
                word_wf(word@),
                self@.words.len() > 0,
                pw_sorted(pw_views(result@)),
                forall|k: int|
                    0 <= k < result@.len() ==> spec_layout_candidate(
                        self@,
                        word@,
                        #[trigger] pw_views(result@)[k],
                    ),
                forall|p: PlacedWordView, i2: int|
                    0 <= i2 < i && #[trigger] is_candidate(self@.words[i2], word@, p)
                        && spec_can_word_be_added(self@, p) && coords_in_range(p.x, p.y)
                        ==> pw_views(result@).contains(p),
            decreases self.words@.len() - i,
        {
            let base = &self.words[i];
            proof {
                assert(base@ == self@.words[i as int]);
                assert(pw_wf(base@));
            }
            let cands = base.calculate_possible_ways_to_add_word(word);
            let mut jj: usize = 0;
            while jj < cands.len()
                invariant
                    0 <= jj <= cands@.len(),
                    0 <= i < self.words@.len(),
                    cw_wf(self@),
                    word_wf(word@),
                    self@.words.len() > 0,
                    base@ == self@.words[i as int],
                    pw_sorted(pw_views(result@)),
                    forall|k: int|
                        0 <= k < cands@.len() ==> is_candidate(
                            base@,
                            word@,
                            #[trigger] pw_views(cands@)[k],
                        ),
                    forall|wi: int, si: int|
                        crate::placed_word::candidate_pair_ok(base@, word@, wi, si)
                            && crate::placed_word::candidate_allowed(base@, word@)
                            && coords_in_range(
                            crate::placed_word::candidate_view(base@, word@, wi, si).x,
                            crate::placed_word::candidate_view(base@, word@, wi, si).y,
                        ) ==> pw_views(cands@).contains(
                            crate::placed_word::candidate_view(base@, word@, wi, si),
                        ),
                    forall|k: int|
                        0 <= k < result@.len() ==> spec_layout_candidate(
                            self@,
                            word@,
                            #[trigger] pw_views(result@)[k],
                        ),
                    forall|p: PlacedWordView, i2: int|
                        0 <= i2 < i && #[trigger] is_candidate(self@.words[i2], word@, p)
                            && spec_can_word_be_added(self@, p) && coords_in_range(p.x, p.y)
                            ==> pw_views(result@).contains(p),
                    forall|k: int|
                        0 <= k < jj && spec_can_word_be_added(
                            self@,
                            #[trigger] pw_views(cands@)[k],
                        ) ==> pw_views(result@).contains(pw_views(cands@)[k]),
                decreases cands@.len() - jj,
            {
                let cand = cands[jj].clone();
                proof {
                    assert(cand@ == pw_views(cands@)[jj as int]);
                    assert(is_candidate(base@, word@, cand@));
                    assert(pw_wf(cand@)) by {
                        let (wi, si) = choose|wi: int, si: int|
                            crate::placed_word::candidate_pair_ok(base@, word@, wi, si) && cand@
                                == crate::placed_word::candidate_view(base@, word@, wi, si);
                    }
                }
                if self.can_word_be_added(&cand) {
                    let ghost before = pw_views(result@);
                    insert_placed_sorted(&mut result, cand);
                    proof {
                        let after = pw_views(result@);
                        assert(spec_layout_candidate(self@, word@, cand@)) by {
                            assert(is_candidate(self@.words[i as int], word@, cand@));
                        }
                        assert forall|k: int|
                            0 <= k < after.len() implies spec_layout_candidate(
                            self@,
                            word@,
                            #[trigger] after[k],
                        ) by {
                            assert(after.contains(after[k]));
                            if before.contains(after[k]) {
                                let k2 = choose|k2: int|
                                    0 <= k2 < before.len() && before[k2] == after[k];
                            } else {
                                assert(after[k] == cand@);
                            }
                        }
                    }
                }
                jj = jj + 1;
            }
            proof {
                assert forall|p: PlacedWordView, i2: int|
                    0 <= i2 < i + 1 && #[trigger] is_candidate(self@.words[i2], word@, p)
                        && spec_can_word_be_added(self@, p) && coords_in_range(
                        p.x,
                        p.y,
                    ) implies pw_views(result@).contains(p) by {
                    if i2 == i {
                        let (wi, si) = choose|wi: int, si: int|
                            crate::placed_word::candidate_pair_ok(base@, word@, wi, si) && p
                                == crate::placed_word::candidate_view(base@, word@, wi, si);
                        assert(pw_views(cands@).contains(p));
                        let k = choose|k: int|
                            0 <= k < pw_views(cands@).len() && pw_views(cands@)[k] == p;
                    }
                }
            }
            i = i + 1;
        }
        proof {
            assert forall|p: PlacedWordView|
                spec_layout_candidate(self@, word@, p) && coords_in_range(
                    p.x,
                    p.y,
                ) implies pw_views(result@).contains(p) by {
                let i2 = choose|i2: int|
                    0 <= i2 < self@.words.len() && #[trigger] is_candidate(self@.words[i2], word@, p);
            }
        }
        result
    }

    /// Size of the smallest rectangle anchored at the origin that contains
    /// every placed word: width first, then height.
    pub fn get_size(&self) -> (r: (u16, u16))
        requires
            cw_wf(self@),
        ensures
            r.0 as int == spec_width(self@.words),
            r.1 as int == spec_height(self@.words),
    {
        let mut mx: i32 = 0;
        let mut my: i32 = 0;
        let mut i: usize = 0;
        proof {
            assert(self@.words.take(0) =~= Seq::<PlacedWordView>::empty());
        }
        while i < self.words.len()
            invariant
                0 <= i <= self.words@.len(),
                cw_wf(self@),
                mx == spec_width(self@.words.take(i as int)),
                my == spec_height(self@.words.take(i as int)),
                0 <= mx <= 0xC000,
                0 <= my <= 0xC000,
            decreases self.words@.len() - i,
        {
            let w = &self.words[i];
            proof {
                assert(w@ == self@.words[i as int]);
                assert(pw_wf(w@));
                assert(w@.x >= 0 && w@.y >= 0);
            }
            let ex: i32 = w.position.x as i32 + (match w.direction {
                Direction::Right => if w.value.len() > 0 {
                    w.value.len() as i32
                } else {
                    1
                },
                Direction::Down => 1,
            });
            let ey: i32 = w.position.y as i32 + (match w.direction {
                Direction::Right => 1,
                Direction::Down => if w.value.len() > 0 {
                    w.value.len() as i32
                } else {
                    1
                },
            });
            proof {
                assert(ex == extent_x(w@) && ey == extent_y(w@));
            }
            if ex > mx {
                mx = ex;
            }
            if ey > my {
                my = ey;
            }
            proof {
                let t1 = self@.words.take(i + 1);
                assert(t1.drop_last() =~= self@.words.take(i as int));
                assert(t1.last() == self@.words[i as int]);
            }
            i = i + 1;
        }
        proof {
            assert(self@.words.take(self.words@.len() as int) =~= self@.words);
        }
        (mx as u16, my as u16)
    }

    /// Row-major matrix of cells sized by `get_size`, holding each placed
    /// word's characters and the default character in empty cells.
    pub fn generate_char_table(&self) -> (r: Vec<Vec<u8>>)
        requires
            cw_wf(self@),
        ensures
            r@.len() == spec_height(self@.words),
            forall|row: int| 0 <= row < r@.len() ==> (#[trigger] r@[row])@.len() == spec_width(self@.words),
            forall|x: int, y: int|
                0 <= x < spec_width(self@.words) && 0 <= y < spec_height(self@.words)
                    ==> cell_char_ok(self@.words, self@.words.len() as int, x, y, r@[y]@[x]),
    {
        let (w16, h16) = self.get_size();
        let width = w16 as usize;
        let height = h16 as usize;
        let ghost s = self@.words;
        let ghost n = self@.words.len() as int;
        let mut table: Vec<Vec<u8>> = Vec::new();
        let mut y: usize = 0;
        while y < height
            invariant
                0 <= y <= height,
                cw_wf(self@),
                s == self@.words,
                n == s.len(),
                width as int == spec_width(s),
                height as int == spec_height(s),
                width <= 0xFFFF,
                height <= 0xFFFF,
                table@.len() == y,
                forall|row: int| 0 <= row < y ==> (#[trigger] table@[row])@.len() == width as int,
                forall|x: int, row: int|
                    0 <= x < width && 0 <= row < y ==> cell_char_ok(s, n, x, row, table@[row]@[x]),
            decreases height - y,
        {
            let mut row: Vec<u8> = Vec::new();
            let mut x: usize = 0;
            while x < width
                invariant
                    0 <= x <= width,
                    0 <= y < height,
                    width <= 0xFFFF,
                    height <= 0xFFFF,
                    cw_wf(self@),
                    s == self@.words,
                    n == s.len(),
                    row@.len() == x,
                    forall|x2: int| 0 <= x2 < x ==> cell_char_ok(s, n, x2, y as int, row@[x2]),
                decreases width - x,
            {
                let mut c: u8 = 0;
                let mut i: usize = 0;
                while i < self.words.len()
                    invariant
                        0 <= i <= self.words@.len(),
                        0 <= x < width,
                        0 <= y < height,
                        width <= 0xFFFF,
                        height <= 0xFFFF,
                        cw_wf(self@),
                        s == self@.words,
                        cell_char_ok(s, i as int, x as int, y as int, c),
                    decreases self.words@.len() - i,
                {
                    let pw = &self.words[i];
                    proof {
                        assert(pw@ == s[i as int]);
                        assert(pw_wf(pw@));
                    }
                    let mut hit = false;
                    match pw.direction {
                        Direction::Right => {
                            if pw.position.y as i32 == y as i32 && pw.position.x as i32 <= x as i32
                                && (x as i32) < pw.position.x as i32 + pw.value.len() as i32 {
                                let k = (x as i32 - pw.position.x as i32) as usize;
                                c = pw.value[k];
                                hit = true;
                                proof {
                                    assert(covers(s[i as int], k as int, x as int, y as int));
                                    assert(s[i as int].value[k as int] == c);
                                }
                            }
                        }
                        Direction::Down => {
                            if pw.position.x as i32 == x as i32 && pw.position.y as i32 <= y as i32
                                && (y as i32) < pw.position.y as i32 + pw.value.len() as i32 {
                                let k = (y as i32 - pw.position.y as i32) as usize;
                                c = pw.value[k];
                                hit = true;
                                proof {
                                    assert(covers(s[i as int], k as int, x as int, y as int));
                                    assert(s[i as int].value[k as int] == c);
                                }
                            }
                        }
                    }
                    proof {
                        if hit {
                            assert(cell_char_ok(s, i + 1, x as int, y as int, c));
                        } else {
                            assert(forall|k: int| !covers(s[i as int], k, x as int, y as int));
                            assert(cell_covered(s, i + 1, x as int, y as int) == cell_covered(
                                s,
                                i as int,
                                x as int,
                                y as int,
                            )) by {
                                if cell_covered(s, i + 1, x as int, y as int) {
                                    let (i2, k2) = choose|i2: int, k2: int|
                                        0 <= i2 < i + 1 && i2 < s.len() && #[trigger] covers(
                                            s[i2],
                                            k2,
                                            x as int,
                                            y as int,
                                        );
                                    assert(i2 < i);
                                }
                            }
                            assert(cell_char_ok(s, i + 1, x as int, y as int, c)) by {
                                if cell_covered(s, i as int, x as int, y as int) {
                                    let (i2, k2) = choose|i2: int, k2: int|
                                        0 <= i2 < i && i2 < s.len() && #[trigger] covers(
                                            s[i2],
                                            k2,
                                            x as int,
                                            y as int,
                                        ) && s[i2].value[k2] == c;
                                }
                            }
                        }
                    }
                    i = i + 1;
                }
                row.push(c);
                x = x + 1;
            }
            table.push(row);
            y = y + 1;
        }
        table
    }
}

/// A size constraint on a crossword layout.
#[derive(Clone, Copy, PartialEq, Eq, Structural, Debug)]
pub enum CrosswordConstraint {
    /// Always satisfied.
    Unconstrained,
    /// The layout's width may not exceed the bound.
    MaxLength(u16),
    /// The layout's height may not exceed the bound.
    MaxHeight(u16),
    /// The layout's cell area may not exceed the bound.
    MaxArea(u32),
}

/// Whether a layout that fails the constraint could satisfy it again after
/// more words are added. Every size constraint is non-recoverable, since
/// the layout only grows.
pub open spec fn spec_constraint_recoverable(c: CrosswordConstraint) -> bool {
    match c {
        CrosswordConstraint::Unconstrained => false,
        CrosswordConstraint::MaxLength(_) => false,
        CrosswordConstraint::MaxHeight(_) => false,
        CrosswordConstraint::MaxArea(_) => false,
    }
}

/// Whether the layout satisfies the constraint.
pub open spec fn spec_constraint_check(c: CrosswordConstraint, cw: CrosswordView) -> bool {
    match c {
        CrosswordConstraint::Unconstrained => true,
        CrosswordConstraint::MaxLength(l) => spec_width(cw.words) <= l,
        CrosswordConstraint::MaxHeight(h) => spec_height(cw.words) <= h,
        CrosswordConstraint::MaxArea(a) => spec_width(cw.words) * spec_height(cw.words) <= a,
    }
}

impl CrosswordConstraint {
    /// Whether the crossword satisfies this constraint.
    pub fn check(&self, crossword: &Crossword) -> (r: bool)
        requires
            cw_wf(crossword@),
        ensures
            r == spec_constraint_check(*self, crossword@),
    {
        match *self {
            CrosswordConstraint::Unconstrained => true,
            CrosswordConstraint::MaxLength(length) => {
                let size = crossword.get_size();
                size.0 <= length
            }
            CrosswordConstraint::MaxHeight(height) => {
                let size = crossword.get_size();
                size.1 <= height
            }
            CrosswordConstraint::MaxArea(area) => {
                let size = crossword.get_size();
                proof {
                    assert((size.0 as u32) * (size.1 as u32) <= 0xFFFF * 0xFFFF) by (nonlinear_arith)
                        requires
                            size.0 <= 0xFFFF,
                            size.1 <= 0xFFFF,
                    ;
                    assert((size.0 as u32) * (size.1 as u32) == spec_width(crossword@.words)
                        * spec_height(crossword@.words));
                }
                (size.0 as u32) * (size.1 as u32) <= area
            }
        }
    }

    /// Whether a failing layout could later satisfy this constraint.
    pub fn recoverable(&self) -> (r: bool)
        ensures
            r == spec_constraint_recoverable(*self),
    {
        match *self {
            CrosswordConstraint::Unconstrained => false,
            CrosswordConstraint::MaxLength(_) => false,
            CrosswordConstraint::MaxHeight(_) => false,
            CrosswordConstraint::MaxArea(_) => false,
        }
    }
}

/// Every recoverable constraint in the list holds of the layout.
pub open spec fn spec_check_recoverable(cs: Seq<CrosswordConstraint>, cw: CrosswordView) -> bool {
    forall|i: int|
        0 <= i < cs.len() && spec_constraint_recoverable(#[trigger] cs[i]) ==> spec_constraint_check(
            cs[i],
            cw,
        )
}

/// Every non-recoverable constraint in the list holds of the layout.
pub open spec fn spec_check_nonrecoverable(
    cs: Seq<CrosswordConstraint>,
    cw: CrosswordView,
) -> bool {
    forall|i: int|
        0 <= i < cs.len() && !spec_constraint_recoverable(#[trigger] cs[i])
            ==> spec_constraint_check(cs[i], cw)
}

/// The ordered collection of constraints configured for a generation run.
#[derive(Eq, Debug)]
pub struct CrosswordSettings {
    pub constraints: Vec<CrosswordConstraint>,
}

impl PartialEq for CrosswordSettings {
    fn eq(&self, other: &CrosswordSettings) -> (r: bool) {
        if self.constraints.len() != other.constraints.len() {
            return false;
        }
        let mut i: usize = 0;
        while i < self.constraints.len()
            invariant
                0 <= i <= self.constraints@.len(),
                self.constraints@.len() == other.constraints@.len(),
                forall|j: int| 0 <= j < i ==> self.constraints@[j] == other.constraints@[j],
            decreases self.constraints@.len() - i,
        {
            if self.constraints[i] != other.constraints[i] {
                return false;
            }
            i = i + 1;
        }
        proof {
            assert(self.constraints@ =~= other.constraints@);
        }
        true
    }
}

impl vstd::std_specs::cmp::PartialEqSpecImpl for CrosswordSettings {
    open spec fn obeys_eq_spec() -> bool {
        true
    }

    open spec fn eq_spec(&self, other: &CrosswordSettings) -> bool {
        self.constraints@ == other.constraints@
    }
}

impl Clone for CrosswordSettings {
    fn clone(&self) -> (r: Self)
        ensures
            r.constraints@ == self.constraints@,
    {
        let mut cs: Vec<CrosswordConstraint> = Vec::new();
        let mut i: usize = 0;
        while i < self.constraints.len()
            invariant
                0 <= i <= self.constraints@.len(),
                cs@ == self.constraints@.take(i as int),
            decreases self.constraints@.len() - i,
        {
            cs.push(self.constraints[i]);
            proof {
                assert(cs@ =~= self.constraints@.take(i + 1));
            }
            i = i + 1;
        }
        proof {
            assert(cs@ =~= self.constraints@);
        }
        CrosswordSettings { constraints: cs }
    }
}

impl Default for CrosswordSettings {
    /// An empty constraint list: everything is allowed.
    fn default() -> (r: Self)
        ensures
            r.constraints@.len() == 0,
    {
        CrosswordSettings { constraints: Vec::new() }
    }
}

impl CrosswordSettings {
    /// Whether the layout satisfies every recoverable constraint.
    pub fn check_recoverable_constraints(&self, crossword: &Crossword) -> (r: bool)
        requires
            cw_wf(crossword@),
        ensures
            r == spec_check_recoverable(self.constraints@, crossword@),
    {
        let mut i: usize = 0;
        while i < self.constraints.len()
            invariant
                0 <= i <= self.constraints@.len(),
                cw_wf(crossword@),
                forall|j: int|
                    0 <= j < i && spec_constraint_recoverable(#[trigger] self.constraints@[j])
                        ==> spec_constraint_check(self.constraints@[j], crossword@),
            decreases self.constraints@.len() - i,
        {
            let c = self.constraints[i];
            if c.recoverable() && !c.check(crossword) {
                return false;
            }
            i = i + 1;
        }
        true
    }

    /// Whether the layout satisfies every non-recoverable constraint.
    pub fn check_nonrecoverables_constraints(&self, crossword: &Crossword) -> (r: bool)
        requires
            cw_wf(crossword@),
        ensures
            r == spec_check_nonrecoverable(self.constraints@, crossword@),
    {
        let mut i: usize = 0;
        while i < self.constraints.len()
            invariant
                0 <= i <= self.constraints@.len(),
                cw_wf(crossword@),
                forall|j: int|
                    0 <= j < i && !spec_constraint_recoverable(#[trigger] self.constraints@[j])
                        ==> spec_constraint_check(self.constraints@[j], crossword@),
            decreases self.constraints@.len() - i,
        {
            let c = self.constraints[i];
            if !c.recoverable() && !c.check(crossword) {
                return false;
            }
            i = i + 1;
        }
        true
    }
}

/// Every word of an ordered insertion is either the inserted word itself
/// or one of the words already present.
pub proof fn lemma_insert_value_set(s: Seq<PlacedWordView>, w: PlacedWordView)
    ensures
        forall|k: int|
            0 <= k < sorted_insert(s, w).len() ==> (#[trigger] sorted_insert(s, w)[k] == w
                || exists|m: int| 0 <= m < s.len() && s[m] == sorted_insert(s, w)[k]),
{
    lemma_insert_index_exists(s, w);
    let j = choose|j: int| 0 <= j <= s.len() && sorted_insert(s, w) =~= s.insert(j, w);
    let t = sorted_insert(s, w);
    assert forall|k: int|
        0 <= k < t.len() implies (#[trigger] t[k] == w || exists|m: int|
        0 <= m < s.len() && s[m] == t[k]) by {
        if k != j {
            let m = if k < j {
                k
            } else {
                k - 1
            };
            assert(s[m] == t[k]);
        }
    }
}

/// An ordered insertion keeps every value already present and adds the
/// inserted word's value.
pub proof fn lemma_sorted_insert_values(s: Seq<PlacedWordView>, w: PlacedWordView)
    ensures
        forall|v: Seq<u8>| has_value(s, v) ==> has_value(sorted_insert(s, w), v),
        has_value(sorted_insert(s, w), w.value),
{
    lemma_insert_index_exists(s, w);
    let j = choose|j: int| 0 <= j <= s.len() && sorted_insert(s, w) =~= s.insert(j, w);
    let t = sorted_insert(s, w);
    assert(t[j] == w);
    assert(has_value(t, w.value));
    assert forall|v: Seq<u8>| has_value(s, v) implies has_value(t, v) by {
        let m = choose|m: int| 0 <= m < s.len() && s[m].value == v;
        let m2 = if m < j {
            m
        } else {
            m + 1
        };
        assert(t[m2] == s[m]);
        assert(has_value(t, v));
    }
}

/// A translated sequence holds exactly the values of the original.
pub proof fn lemma_shifted_values(
    t: Seq<PlacedWordView>,
    s: Seq<PlacedWordView>,
    dx: int,
    dy: int,
)
    requires
        shifted_seq(t, s, dx, dy),
    ensures
        forall|v: Seq<u8>| has_value(t, v) == has_value(s, v),
{
    assert forall|v: Seq<u8>| has_value(t, v) == has_value(s, v) by {
        if has_value(s, v) {
            let m = choose|m: int| 0 <= m < s.len() && s[m].value == v;
            assert(t[m].value == v);
        }
        if has_value(t, v) {
            let m = choose|m: int| 0 <= m < t.len() && t[m].value == v;
            assert(s[m].value == v);
        }
    }
}

/// Removing one word keeps every other value present.
pub proof fn lemma_remove_keeps_other_values(s: Seq<PlacedWordView>, i: int)
    requires
        0 <= i < s.len(),
    ensures
        forall|v: Seq<u8>|
            v != s[i].value && has_value(s, v) ==> has_value(s.remove(i), v),
{
    assert forall|v: Seq<u8>|
        v != s[i].value && has_value(s, v) implies has_value(s.remove(i), v) by {
        let m = choose|m: int| 0 <= m < s.len() && s[m].value == v;
        assert(m != i);
        let m2 = if m < i {
            m
        } else {
            m - 1
        };
        assert(s.remove(i)[m2] == s[m]);
        assert(has_value(s.remove(i), v));
    }
}

/// A candidate placement always carries the character string of the word
/// being placed.
pub proof fn lemma_layout_candidate_value(c: CrosswordView, w: WordView, p: PlacedWordView)
    requires
        spec_layout_candidate(c, w, p),
    ensures
        p.value == w.value,
{
    if c.words.len() > 0 {
        let i = choose|i: int| 0 <= i < c.words.len() && #[trigger] is_candidate(c.words[i], w, p);
        let (wi, si) = choose|wi: int, si: int|
            crate::placed_word::candidate_pair_ok(c.words[i], w, wi, si) && p
                == crate::placed_word::candidate_view(c.words[i], w, wi, si);
    }
}

/// Minimum x coordinate over a sequence of placed words (zero if empty).
pub open spec fn min_x_of(s: Seq<PlacedWordView>) -> int
    decreases s.len(),
{
    if s.len() == 0 {
        0
    } else if s.len() == 1 {
        s[0].x
    } else {
        let m = min_x_of(s.drop_last());
        if s.last().x < m {
            s.last().x
        } else {
            m
        }
    }
}

/// Minimum y coordinate over a sequence of placed words (zero if empty).
pub open spec fn min_y_of(s: Seq<PlacedWordView>) -> int
    decreases s.len(),
{
    if s.len() == 0 {
        0
    } else if s.len() == 1 {
        s[0].y
    } else {
        let m = min_y_of(s.drop_last());
        if s.last().y < m {
            s.last().y
        } else {
            m
        }
    }
}

/// The canonical translate of a sequence: every word shifted so that the
/// minima become zero.
pub open spec fn spec_renormalize(s: Seq<PlacedWordView>) -> Seq<PlacedWordView> {
    Seq::new(s.len(), |i: int| pwv_shift(s[i], -min_x_of(s), -min_y_of(s)))
}

/// The minima really are minima, and are attained.
pub proof fn lemma_min_attained(s: Seq<PlacedWordView>)
    requires
        s.len() > 0,
    ensures
        forall|i: int| 0 <= i < s.len() ==> min_x_of(s) <= (#[trigger] s[i]).x && min_y_of(s)
            <= s[i].y,
        exists|i: int| 0 <= i < s.len() && (#[trigger] s[i]).x == min_x_of(s),
        exists|i: int| 0 <= i < s.len() && (#[trigger] s[i]).y == min_y_of(s),
    decreases s.len(),
{
    if s.len() == 1 {
        assert(s[0].x == min_x_of(s) && s[0].y == min_y_of(s));
    } else {
        let d = s.drop_last();
        lemma_min_attained(d);
        assert(forall|i: int| 0 <= i < d.len() ==> d[i] == s[i]);
        assert(s.last() == s[s.len() - 1]);
        if min_x_of(s) == s.last().x {
            assert(s[s.len() - 1].x == min_x_of(s));
        } else {
            let i = choose|i: int| 0 <= i < d.len() && (#[trigger] d[i]).x == min_x_of(d);
            assert(s[i].x == min_x_of(s));
        }
        if min_y_of(s) == s.last().y {
            assert(s[s.len() - 1].y == min_y_of(s));
        } else {
            let i = choose|i: int| 0 <= i < d.len() && (#[trigger] d[i]).y == min_y_of(d);
            assert(s[i].y == min_y_of(s));
        }
    }
}

/// Renormalizing is a translation and its result is normalized.
pub proof fn lemma_renormalize_canonical(s: Seq<PlacedWordView>)
    ensures
        shifted_seq(spec_renormalize(s), s, -min_x_of(s), -min_y_of(s)),
        normalized(spec_renormalize(s)),
{
    let t = spec_renormalize(s);
    if s.len() > 0 {
        lemma_min_attained(s);
        let ix = choose|i: int| 0 <= i < s.len() && (#[trigger] s[i]).x == min_x_of(s);
        let iy = choose|i: int| 0 <= i < s.len() && (#[trigger] s[i]).y == min_y_of(s);
        assert(t[ix].x == 0);
        assert(t[iy].y == 0);
    }
}

/// An already normalized sequence is its own canonical translate.
pub proof fn lemma_renormalize_of_normalized(s: Seq<PlacedWordView>)
    requires
        normalized(s),
    ensures
        spec_renormalize(s) == s,
{
    if s.len() == 0 {
        assert(spec_renormalize(s) =~= s);
    } else {
        lemma_min_attained(s);
        let ix = choose|i: int| 0 <= i < s.len() && (#[trigger] s[i]).x == 0;
        let iy = choose|i: int| 0 <= i < s.len() && (#[trigger] s[i]).y == 0;
        assert(min_x_of(s) <= 0);
        assert(min_y_of(s) <= 0);
        let jx = choose|i: int| 0 <= i < s.len() && (#[trigger] s[i]).x == min_x_of(s);
        let jy = choose|i: int| 0 <= i < s.len() && (#[trigger] s[i]).y == min_y_of(s);
        assert(min_x_of(s) >= 0);
        assert(min_y_of(s) >= 0);
        assert(spec_renormalize(s) =~= s) by {
            assert(forall|i: int|
                0 <= i < s.len() ==> spec_renormalize(s)[i] =~= (#[trigger] s[i]));
        }
    }
}

/// Two normalized translates of one non-empty sequence are the same: the
/// translation to canonical coordinates is unique.
pub proof fn lemma_normalized_shift_unique(
    t: Seq<PlacedWordView>,
    s: Seq<PlacedWordView>,
    dx: int,
    dy: int,
)
    requires
        shifted_seq(t, s, dx, dy),
        normalized(t),
        normalized(s),
        s.len() > 0,
    ensures
        dx == 0,
        dy == 0,
        t == s,
{
    let k0 = choose|i: int| 0 <= i < s.len() && (#[trigger] s[i]).x == 0;
    assert(t[k0].x == dx);
    assert(dx >= 0);
    let k1 = choose|i: int| 0 <= i < t.len() && (#[trigger] t[i]).x == 0;
    assert(s[k1].x == -dx);
    assert(dx <= 0);
    let k2 = choose|i: int| 0 <= i < s.len() && (#[trigger] s[i]).y == 0;
    assert(t[k2].y == dy);
    let k3 = choose|i: int| 0 <= i < t.len() && (#[trigger] t[i]).y == 0;
    assert(s[k3].y == -dy);
    assert(t =~= s) by {
        assert(forall|i: int| 0 <= i < s.len() ==> t[i] =~= (#[trigger] s[i]));
    }
}

/// A normalized translate of a sequence is exactly its canonical
/// translate, so the layout `add_word` leaves behind is the canonical form
/// of the ordered insertion: one step of the sequential addition model.
pub proof fn lemma_add_step_canonical(
    pre: Seq<PlacedWordView>,
    w: PlacedWordView,
    post: Seq<PlacedWordView>,
    dx: int,
    dy: int,
)
    requires
        shifted_seq(post, sorted_insert(pre, w), dx, dy),
        normalized(post),
    ensures
        post == spec_renormalize(sorted_insert(pre, w)),
{
    let ins = sorted_insert(pre, w);
    let canon = spec_renormalize(ins);
    lemma_renormalize_canonical(ins);
    assert(ins.len() > 0) by {
        lemma_insert_index_exists(pre, w);
        let i = choose|i: int| 0 <= i <= pre.len() && sorted_insert(pre, w) =~= pre.insert(i, w);
    }
    assert(shifted_seq(post, canon, dx + min_x_of(ins), dy + min_y_of(ins))) by {
        assert(forall|i: int|
            0 <= i < canon.len() ==> post[i] =~= pwv_shift(
                #[trigger] canon[i],
                dx + min_x_of(ins),
                dy + min_y_of(ins),
            ));
    }
    lemma_normalized_shift_unique(post, canon, dx + min_x_of(ins), dy + min_y_of(ins));
}

/// Adding a fresh placeable word to a layout and then removing it by value
/// gives back exactly the original layout: `c1` is any well-formed result
/// of adding `w` to `c`, and `c2` any well-formed result of removing
/// `w`'s value from `c1`.
pub proof fn lemma_add_then_remove(
    c: CrosswordView,
    w: PlacedWordView,
    c1: CrosswordView,
    c2: CrosswordView,
    dx1: int,
    dy1: int,
    i2: int,
    dx2: int,
    dy2: int,
)
    requires
        cw_wf(c),
        !has_value(c.words, w.value),
        c1.settings == c.settings,
        cw_wf(c1),
        shifted_seq(c1.words, sorted_insert(c.words, w), dx1, dy1),
        c2.settings == c1.settings,
        cw_wf(c2),
        0 <= i2 < c1.words.len(),
        c1.words[i2].value == w.value,
        shifted_seq(c2.words, c1.words.remove(i2), dx2, dy2),
    ensures
        c2 == c,
{
    lemma_insert_index_exists(c.words, w);
    let j = choose|j: int| 0 <= j <= c.words.len() && sorted_insert(c.words, w) =~= c.words.insert(j, w);
    let ins = c.words.insert(j, w);
    assert(forall|k: int| 0 <= k < j ==> ins[k] == c.words[k]);
    assert(ins[j] == w);
    assert(forall|k: int| j < k < ins.len() ==> ins[k] == c.words[k - 1]);
    // The removed index carries w's value; since values are unique it is
    // exactly the spliced position.
    assert(i2 == j) by {
        if i2 != j {
            assert(c1.words[i2] == pwv_shift(ins[i2], dx1, dy1));
            let orig = if i2 < j { i2 } else { i2 - 1 };
            assert(ins[i2] == c.words[orig]);
            assert(c.words[orig].value == w.value);
            assert(has_value(c.words, w.value));
        }
    }
    // Removing the spliced word undoes the splice.
    assert(c1.words.remove(j) =~= Seq::new(c.words.len(), |k: int| pwv_shift(c.words[k], dx1, dy1)));
    assert(shifted_seq(c2.words, c1.words.remove(j), dx2, dy2));
    assert(shifted_seq(c2.words, c.words, dx1 + dx2, dy1 + dy2)) by {
        assert(forall|k: int|
            0 <= k < c.words.len() ==> c2.words[k] =~= pwv_shift(
                #[trigger] c.words[k],
                dx1 + dx2,
                dy1 + dy2,
            ));
    }
    if c.words.len() == 0 {
        assert(c2.words =~= c.words);
        assert(c2 =~= c);
    } else {
        lemma_normalized_shift_unique(c2.words, c.words, dx1 + dx2, dy1 + dy2);
        assert(c2 =~= c);
    }
}

/// Layout containment is reflexive: every layout contains itself.
pub proof fn lemma_contains_reflexive(c: CrosswordView)
    ensures
        spec_contains(c, c),
{
    assert(spec_all_match_at(c.words, c.words, 0, 0)) by {
        assert forall|j: int|
            0 <= j < c.words.len() implies spec_word_match_at(c.words, #[trigger] c.words[j], 0, 0) by {
            assert(0 <= j < c.words.len() && c.words[j].value == c.words[j].value && c.words[j].direction
                == c.words[j].direction && c.words[j].x == c.words[j].x + 0 && c.words[j].y == c.words[j].y
                + 0);
        }
    }
}

/// If every word of one layout is matched in another by value and
/// direction at one consistent offset, the latter contains the former.
pub proof fn lemma_contains_subset(a: CrosswordView, b: CrosswordView, dx: int, dy: int)
    requires
        spec_all_match_at(a.words, b.words, dx, dy),
    ensures
        spec_contains(a, b),
{
}

/// A word whose direction lock matches the direction of the only placed
/// word admits no candidate placement.
pub proof fn lemma_direction_lock_no_placements(c: CrosswordView, w: WordView, p: PlacedWordView)
    requires
        c.words.len() == 1,
        w.dir == Option::Some(c.words[0].direction),
    ensures
        !spec_layout_candidate(c, w, p),
{
    if spec_layout_candidate(c, w, p) {
        let i = choose|i: int| 0 <= i < c.words.len() && #[trigger] is_candidate(c.words[i], w, p);
        assert(i == 0);
        assert(crate::placed_word::candidate_allowed(c.words[0], w));
    }
}

/// Outcome of adding each word in turn, renormalizing after every
/// successful addition, as `add_word` does.
pub open spec fn sequential_add(
    s: Seq<PlacedWordView>,
    settings: WordCompatibilitySettings,
    ws: Seq<PlacedWordView>,
) -> (Seq<PlacedWordView>, Option<CrosswordError>)
    decreases ws.len(),
{
    if ws.len() == 0 {
        (s, Option::None)
    } else {
        let w = ws[0];
        if has_value(s, w.value) {
            (s, Option::Some(CrosswordError::WordAlreadyExists))
        } else if !spec_can_word_be_added(CrosswordView { words: s, settings }, w) {
            (s, Option::Some(CrosswordError::CantAddWord))
        } else {
            sequential_add(spec_renormalize(sorted_insert(s, w)), settings, ws.skip(1))
        }
    }
}

/// Adding a list of words one at a time, renormalizing after each, gives
/// the same layout as adding them as one batch with a single final
/// renormalization, provided the layout starts with at least one word and
/// every added word sits at non-negative coordinates: then no intermediate
/// renormalization moves anything, so the two paths coincide.
pub proof fn lemma_batch_equals_sequential(
    s: Seq<PlacedWordView>,
    settings: WordCompatibilitySettings,
    ws: Seq<PlacedWordView>,
)
    requires
        normalized(s),
        s.len() > 0,
        forall|k: int| 0 <= k < ws.len() ==> (#[trigger] ws[k]).x >= 0 && ws[k].y >= 0,
    ensures
        sequential_add(s, settings, ws) == batch_add(s, settings, ws),
        normalized(batch_add(s, settings, ws).0),
        spec_renormalize(batch_add(s, settings, ws).0) == batch_add(s, settings, ws).0,
    decreases ws.len(),
{
    if ws.len() == 0 {
        lemma_renormalize_of_normalized(s);
    } else {
        let w = ws[0];
        if has_value(s, w.value) || !spec_can_word_be_added(
            CrosswordView { words: s, settings },
            w,
        ) {
            lemma_renormalize_of_normalized(s);
        } else {
            let ins = sorted_insert(s, w);
            lemma_insert_index_exists(s, w);
            let j = choose|j: int| 0 <= j <= s.len() && sorted_insert(s, w) =~= s.insert(j, w);
            assert(normalized(ins)) by {
                assert(forall|k: int| 0 <= k < j ==> ins[k] == s[k]);
                assert(ins[j] == w);
                assert(forall|k: int| j < k < ins.len() ==> ins[k] == s[k - 1]);
                let kx = choose|i: int| 0 <= i < s.len() && (#[trigger] s[i]).x == 0;
                let ky = choose|i: int| 0 <= i < s.len() && (#[trigger] s[i]).y == 0;
                let kx2 = if kx < j {
                    kx
                } else {
                    kx + 1
                };
                let ky2 = if ky < j {
                    ky
                } else {
                    ky + 1
                };
                assert(ins[kx2].x == 0);
                assert(ins[ky2].y == 0);
            }
            lemma_renormalize_of_normalized(ins);
            assert(forall|k: int| 0 <= k < ws.skip(1).len() ==> (#[trigger] ws.skip(1)[k]) == ws[k
                + 1]);
            lemma_batch_equals_sequential(ins, settings, ws.skip(1));
        }
    }
}

/// There is a scan index at which ordered insertion splices the word in.
proof fn lemma_insert_index_exists(s: Seq<PlacedWordView>, w: PlacedWordView)
    ensures
        exists|i: int| 0 <= i <= s.len() && sorted_insert(s, w) =~= s.insert(i, w),
    decreases s.len(),
{
    if s.len() == 0 {
        assert(sorted_insert(s, w) =~= s.insert(0, w));
    } else if pw_lt(s[0], w) {
        lemma_insert_index_exists(s.skip(1), w);
        let i = choose|i: int|
            0 <= i <= s.skip(1).len() && sorted_insert(s.skip(1), w) =~= s.skip(1).insert(i, w);
        assert(sorted_insert(s, w) =~= s.insert(i + 1, w)) by {
            assert(sorted_insert(s, w) == seq![s[0]] + sorted_insert(s.skip(1), w));
            assert(forall|k: int|
                0 <= k < s.skip(1).insert(i, w).len() ==> #[trigger] (seq![s[0]] + s.skip(
                    1,
                ).insert(i, w))[k + 1] == s.skip(1).insert(i, w)[k]);
        }
    } else {
        assert(sorted_insert(s, w) =~= s.insert(0, w));
    }
}

/// Splicing a fresh bounded word into a sequence preserves value
/// uniqueness and bounded word lengths.
proof fn lemma_insert_preserves_basic(s: Seq<PlacedWordView>, w: PlacedWordView, i: int)
    requires
        0 <= i <= s.len(),
        values_unique(s),
        !has_value(s, w.value),
        pw_wf(w),
        forall|j: int| 0 <= j < s.len() ==> pw_wf(#[trigger] s[j]),
    ensures
        values_unique(s.insert(i, w)),
        forall|j: int| 0 <= j < s.insert(i, w).len() ==> pw_wf(#[trigger] s.insert(i, w)[j]),
{
    let t = s.insert(i, w);
    assert(forall|k: int| 0 <= k < i ==> t[k] == s[k]);
    assert(t[i] == w);
    assert(forall|k: int| i < k < t.len() ==> t[k] == s[k - 1]);
    assert(values_unique(t)) by {
        assert forall|a: int, b: int| 0 <= a < b < t.len() implies t[a].value != t[b].value by {
            if a == i {
                if t[a].value == t[b].value {
                    assert(s[b - 1].value == w.value);
                }
            } else if b == i {
                if t[a].value == t[b].value {
                    assert(s[a].value == w.value);
                }
            }
        }
    };
}

/// Splicing a bounded word into a sequence preserves value uniqueness,
/// bounded lengths, and the bounded span.
proof fn lemma_insert_preserves(s: Seq<PlacedWordView>, w: PlacedWordView, i: int)
    requires
        0 <= i <= s.len(),
        values_unique(s),
        !has_value(s, w.value),
        pw_wf(w),
        forall|j: int| 0 <= j < s.len() ==> pw_wf(#[trigger] s[j]),
        span_ok(s.push(w)),
    ensures
        values_unique(s.insert(i, w)),
        span_ok(s.insert(i, w)),
        forall|j: int| 0 <= j < s.insert(i, w).len() ==> pw_wf(#[trigger] s.insert(i, w)[j]),
{
    let t = s.insert(i, w);
    let u = s.push(w);
    assert(forall|k: int| 0 <= k < i ==> t[k] == s[k]);
    assert(t[i] == w);
    assert(forall|k: int| i < k < t.len() ==> t[k] == s[k - 1]);
    assert(forall|k: int| 0 <= k < s.len() ==> u[k] == s[k]);
    assert(u[s.len() as int] == w);
    assert(values_unique(t)) by {
        assert forall|a: int, b: int| 0 <= a < b < t.len() implies t[a].value != t[b].value by {
            if a == i {
                assert(t[b] == s[b - 1]);
                assert(!has_value(s, w.value));
                if t[a].value == t[b].value {
                    assert(s[b - 1].value == w.value);
                }
            } else if b == i {
                if t[a].value == t[b].value {
                    assert(s[a].value == w.value);
                }
            }
        }
    };
    assert(span_ok(t)) by {
        assert forall|a: int, b: int|
            0 <= a < t.len() && 0 <= b < t.len() implies t[a].x - t[b].x <= i16::MAX && t[a].y
            - t[b].y <= i16::MAX by {
            let ua = if a == i { s.len() as int } else if a < i { a } else { a - 1 };
            let ub = if b == i { s.len() as int } else if b < i { b } else { b - 1 };
            assert(t[a] == u[ua] && t[b] == u[ub]);
        }
    };
}

} // verus!

