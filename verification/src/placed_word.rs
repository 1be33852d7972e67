//! Words placed on the grid: bounding-box geometry, the adjacency
//! predicates, crossing indices, and the enumeration of the ways one word
//! can cross another.

use vstd::prelude::*;
use crate::word::{
    bytes_lt, bytes_lt_exec, clone_bytes, dir_rank, lemma_bytes_lt_connected,
    lemma_bytes_lt_transitive, Direction, Position, Word, WordView,
};

verus! {

/// Longest supported word, chosen so that every coordinate computation over
/// the signed 16-bit grid stays within machine range.
pub const MAX_WORD_LEN: usize = 0x4000;

/// Axis-aligned bounding box of a placed word: top-left corner and extents.
#[derive(Clone, Copy, PartialEq, Eq, Structural, Debug)]
struct WordBoundingBox {
    x: i16,
    y: i16,
    w: u16,
    h: u16,
}

/// Overlap of two axis-aligned boxes given by corner and extents.
pub open spec fn boxes_intersect(
    ax: int, ay: int, aw: int, ah: int,
    bx: int, by: int, bw: int, bh: int,
) -> bool {
    (ax < bx + bw && ax + aw > bx) && (ay < by + bh && ay + ah > by)
}

/// Two boxes share an edge segment of non-zero length without overlapping.
pub open spec fn boxes_sides_touch(
    ax: int, ay: int, aw: int, ah: int,
    bx: int, by: int, bw: int, bh: int,
) -> bool {
    ||| ((ax + aw > bx && ax < bx + bw) && (ay + ah == by || by + bh == ay))
    ||| ((ay + ah > by && ay < by + bh) && (ax + aw == bx || bx + bw == ax))
}

/// A corner of one box coincides with a corner of the other.
pub open spec fn boxes_corners_touch(
    ax: int, ay: int, aw: int, ah: int,
    bx: int, by: int, bw: int, bh: int,
) -> bool {
    ||| (ax == bx + bw && ay == by + bh)
    ||| (ax + aw == bx && ay == by + bh)
    ||| (ax + aw == bx && ay + ah == by)
    ||| (ax == bx + bw && ay + ah == by)
}

impl WordBoundingBox {
    fn intersects(&self, other: &WordBoundingBox) -> (r: bool)
        ensures
            r == boxes_intersect(
                self.x as int, self.y as int, self.w as int, self.h as int,
                other.x as int, other.y as int, other.w as int, other.h as int,
            ),
    {
        (self.x as i32) < (other.x as i32) + (other.w as i32)
            && (self.x as i32) + (self.w as i32) > (other.x as i32)
            && (self.y as i32) < (other.y as i32) + (other.h as i32)
            && (self.y as i32) + (self.h as i32) > (other.y as i32)
    }

    fn sides_touch(&self, other: &WordBoundingBox) -> (r: bool)
        ensures
            r == boxes_sides_touch(
                self.x as int, self.y as int, self.w as int, self.h as int,
                other.x as int, other.y as int, other.w as int, other.h as int,
            ),
    {
        (((self.x as i32) + (self.w as i32) > (other.x as i32)
            && (self.x as i32) < (other.x as i32) + (other.w as i32))
            && ((self.y as i32) + (self.h as i32) == (other.y as i32)
                || (other.y as i32) + (other.h as i32) == (self.y as i32)))
            || (((self.y as i32) + (self.h as i32) > (other.y as i32)
                && (self.y as i32) < (other.y as i32) + (other.h as i32))
                && ((self.x as i32) + (self.w as i32) == (other.x as i32)
                    || (other.x as i32) + (other.w as i32) == (self.x as i32)))
    }

    fn corners_touch(&self, other: &WordBoundingBox) -> (r: bool)
        ensures
            r == boxes_corners_touch(
                self.x as int, self.y as int, self.w as int, self.h as int,
                other.x as int, other.y as int, other.w as int, other.h as int,
            ),
    {
        ((self.x as i32) == (other.x as i32) + (other.w as i32)
            && (self.y as i32) == (other.y as i32) + (other.h as i32))
            || ((self.x as i32) + (self.w as i32) == (other.x as i32)
                && (self.y as i32) == (other.y as i32) + (other.h as i32))
            || ((self.x as i32) + (self.w as i32) == (other.x as i32)
                && (self.y as i32) + (self.h as i32) == (other.y as i32))
            || ((self.x as i32) == (other.x as i32) + (other.w as i32)
                && (self.y as i32) + (self.h as i32) == (other.y as i32))
    }
}

/// A word placed on the grid: position of its first character, direction,
/// and character string.
#[derive(Eq, Debug, Hash)]
pub struct PlacedWord {
    pub position: Position,
    pub direction: Direction,
    pub value: Vec<u8>,
}

/// Mathematical value of a placed word, with unbounded coordinates.
#[verifier::ext_equal]
pub ghost struct PlacedWordView {
    pub x: int,
    pub y: int,
    pub direction: Direction,
    pub value: Seq<u8>,
}

impl View for PlacedWord {
    type V = PlacedWordView;

    open spec fn view(&self) -> PlacedWordView {
        PlacedWordView {
            x: self.position.x as int,
            y: self.position.y as int,
            direction: self.direction,
            value: self.value@,
        }
    }
}

/// Views of a sequence of placed words, element by element.
pub open spec fn pw_views(s: Seq<PlacedWord>) -> Seq<PlacedWordView> {
    Seq::new(s.len(), |i: int| s[i]@)
}

/// The view sequence has the same length as the sequence itself.
pub broadcast proof fn lemma_pw_views_len(s: Seq<PlacedWord>)
    ensures
        (#[trigger] pw_views(s)).len() == s.len(),
{
}

/// Indexing the view sequence gives the view of the indexed element.
pub broadcast proof fn lemma_pw_views_index(s: Seq<PlacedWord>, i: int)
    requires
        0 <= i < s.len(),
    ensures
        #[trigger] pw_views(s)[i] == s[i]@,
{
}

/// A placed word the geometry can handle: its length is bounded.
pub open spec fn pw_wf(w: PlacedWordView) -> bool {
    w.value.len() <= MAX_WORD_LEN
}

/// A word value the geometry can handle: its length is bounded.
pub open spec fn word_wf(w: WordView) -> bool {
    w.value.len() <= MAX_WORD_LEN
}

/// Both coordinates fit the signed 16-bit grid.
pub open spec fn coords_in_range(x: int, y: int) -> bool {
    i16::MIN <= x <= i16::MAX && i16::MIN <= y <= i16::MAX
}

/// Horizontal extent of a placed word's bounding box.
pub open spec fn bb_w(w: PlacedWordView) -> int {
    match w.direction {
        Direction::Right => w.value.len() as int,
        Direction::Down => 1,
    }
}

/// Vertical extent of a placed word's bounding box.
pub open spec fn bb_h(w: PlacedWordView) -> int {
    match w.direction {
        Direction::Right => 1,
        Direction::Down => w.value.len() as int,
    }
}

/// The coordinate that stays fixed along the word's axis.
pub open spec fn parallel_coord(w: PlacedWordView) -> int {
    match w.direction {
        Direction::Right => w.y,
        Direction::Down => w.x,
    }
}

/// Bounding boxes of the two placed words overlap.
pub open spec fn spec_intersects(a: PlacedWordView, b: PlacedWordView) -> bool {
    boxes_intersect(a.x, a.y, bb_w(a), bb_h(a), b.x, b.y, bb_w(b), bb_h(b))
}

/// Bounding boxes of the two placed words share an edge segment.
pub open spec fn spec_sides_touch(a: PlacedWordView, b: PlacedWordView) -> bool {
    boxes_sides_touch(a.x, a.y, bb_w(a), bb_h(a), b.x, b.y, bb_w(b), bb_h(b))
}

/// Bounding boxes of the two placed words touch at a corner.
pub open spec fn spec_corners_touch(a: PlacedWordView, b: PlacedWordView) -> bool {
    boxes_corners_touch(a.x, a.y, bb_w(a), bb_h(a), b.x, b.y, bb_w(b), bb_h(b))
}

/// Parallel words lying side by side.
pub open spec fn spec_side_touches_side(a: PlacedWordView, b: PlacedWordView) -> bool {
    a.direction == b.direction && spec_sides_touch(a, b) && parallel_coord(a)
        != parallel_coord(b)
}

/// A word's side touching a perpendicular word's end.
pub open spec fn spec_side_touches_head(a: PlacedWordView, b: PlacedWordView) -> bool {
    a.direction != b.direction && spec_sides_touch(a, b)
}

/// Parallel words touching end to end.
pub open spec fn spec_head_touches_head(a: PlacedWordView, b: PlacedWordView) -> bool {
    a.direction == b.direction && spec_sides_touch(a, b) && parallel_coord(a)
        == parallel_coord(b)
}

/// Character indices at the crossing cell of two perpendicular intersecting
/// words: index in `a` first, then index in `b`.
pub open spec fn spec_intersection_indices(a: PlacedWordView, b: PlacedWordView) -> Option<
    (int, int),
> {
    if !spec_intersects(a, b) || a.direction == b.direction {
        Option::None
    } else {
        match a.direction {
            Direction::Right => Option::Some((b.x - a.x, a.y - b.y)),
            Direction::Down => Option::Some((b.y - a.y, a.x - b.x)),
        }
    }
}

/// When two perpendicular words intersect, the crossing indices land inside
/// both character strings.
pub proof fn lemma_intersection_indices_in_range(a: PlacedWordView, b: PlacedWordView)
    requires
        spec_intersects(a, b),
        a.direction != b.direction,
    ensures
        spec_intersection_indices(a, b) matches Option::Some(p) && 0 <= p.0 < a.value.len()
            && 0 <= p.1 < b.value.len(),
{
    match a.direction {
        Direction::Right => {
            assert(bb_h(a) == 1 && bb_w(b) == 1);
            assert(a.x < b.x + 1 && a.x + a.value.len() > b.x);
            assert(a.y < b.y + b.value.len() && a.y + 1 > b.y);
            assert(spec_intersection_indices(a, b) == Option::Some((b.x - a.x, a.y - b.y)));
            assert(0 <= b.x - a.x < a.value.len());
            assert(0 <= a.y - b.y < b.value.len());
        }
        Direction::Down => {
            assert(bb_w(a) == 1 && bb_h(b) == 1);
            assert(a.y < b.y + 1 && a.y + a.value.len() > b.y);
            assert(a.x < b.x + b.value.len() && a.x + 1 > b.x);
            assert(spec_intersection_indices(a, b) == Option::Some((b.y - a.y, a.x - b.x)));
            assert(0 <= b.y - a.y < a.value.len());
            assert(0 <= a.x - b.x < b.value.len());
        }
    }
}

impl PartialEq for PlacedWord {
    fn eq(&self, other: &PlacedWord) -> (r: bool) {
        let val_eq: bool = self.value == other.value;
        proof {
            if val_eq {
                assert(self.value@ =~= other.value@);
            } else if self.value@ == other.value@ {
                assert(forall|i: int|
                    0 <= i < self.value@.len() ==> self.value@[i] == other.value@[i]);
            }
            if self@ == other@ {
                assert(self.position.x == other.position.x) by {
                    assert(self@.x == other@.x);
                }
                assert(self.position.y == other.position.y) by {
                    assert(self@.y == other@.y);
                }
            }
        }
        let pos_eq: bool = self.position.x == other.position.x && self.position.y
            == other.position.y;
        let dir_eq: bool = self.direction == other.direction;
        let r = pos_eq && dir_eq && val_eq;
        proof {
            if r {
                assert(self@ =~= other@);
            }
        }
        r
    }
}

impl vstd::std_specs::cmp::PartialEqSpecImpl for PlacedWord {
    open spec fn obeys_eq_spec() -> bool {
        true
    }

    open spec fn eq_spec(&self, other: &PlacedWord) -> bool {
        self@ == other@
    }
}

impl Clone for PlacedWord {
    fn clone(&self) -> (r: Self)
        ensures
            r@ == self@,
    {
        let r = PlacedWord {
            position: self.position,
            direction: self.direction,
            value: clone_bytes(&self.value),
        };
        proof {
            assert(r@ =~= self@);
        }
        r
    }
}

/// Strict order on placed words: by position, then direction, then string.
pub open spec fn pw_lt(a: PlacedWordView, b: PlacedWordView) -> bool {
    ||| a.x < b.x
    ||| (a.x == b.x && (a.y < b.y || (a.y == b.y && (dir_rank(a.direction) < dir_rank(b.direction)
        || (a.direction == b.direction && bytes_lt(a.value, b.value))))))
}

/// The placed-word order is transitive.
pub proof fn lemma_pw_lt_transitive(a: PlacedWordView, b: PlacedWordView, c: PlacedWordView)
    ensures
        pw_lt(a, b) && pw_lt(b, c) ==> pw_lt(a, c),
{
    if pw_lt(a, b) && pw_lt(b, c) {
        if a.x == b.x && b.x == c.x && a.y == b.y && b.y == c.y && a.direction == b.direction
            && b.direction == c.direction {
            lemma_bytes_lt_transitive(a.value, b.value, c.value);
        }
    }
}

/// Two placed words not ordered either way are equal.
pub proof fn lemma_pw_lt_connected(a: PlacedWordView, b: PlacedWordView)
    requires
        !pw_lt(a, b),
        !pw_lt(b, a),
    ensures
        a == b,
{
    assert(a.x == b.x && a.y == b.y);
    assert(a.direction == b.direction);
    lemma_bytes_lt_connected(a.value, b.value);
    assert(a =~= b);
}

/// Compares two placed words in the strict placed-word order.
pub fn pw_lt_exec(a: &PlacedWord, b: &PlacedWord) -> (r: bool)
    ensures
        r == pw_lt(a@, b@),
{
    if a.position.x < b.position.x {
        true
    } else if a.position.x > b.position.x {
        false
    } else if a.position.y < b.position.y {
        true
    } else if a.position.y > b.position.y {
        false
    } else {
        let ar: u8 = match a.direction {
            Direction::Right => 0,
            Direction::Down => 1,
        };
        let br: u8 = match b.direction {
            Direction::Right => 0,
            Direction::Down => 1,
        };
        if ar < br {
            true
        } else if ar > br {
            false
        } else {
            bytes_lt_exec(&a.value, &b.value)
        }
    }
}

/// A sequence of placed words in strictly increasing placed-word order.
pub open spec fn pw_sorted(s: Seq<PlacedWordView>) -> bool {
    forall|i: int, j: int| 0 <= i < j < s.len() ==> pw_lt(s[i], s[j])
}

impl PlacedWord {
    /// Creates a placed word from its string, position and direction.
    pub fn new(val: Vec<u8>, pos: Position, dir: Direction) -> (r: PlacedWord)
        ensures
            r@ == (PlacedWordView {
                x: pos.x as int,
                y: pos.y as int,
                direction: dir,
                value: val@,
            }),
    {
        PlacedWord { value: val, position: pos, direction: dir }
    }

    fn get_bounding_box(&self) -> (r: WordBoundingBox)
        requires
            pw_wf(self@),
        ensures
            r.x as int == self@.x,
            r.y as int == self@.y,
            r.w as int == bb_w(self@),
            r.h as int == bb_h(self@),
    {
        match self.direction {
            Direction::Right => WordBoundingBox {
                x: self.position.x,
                y: self.position.y,
                w: self.value.len() as u16,
                h: 1,
            },
            Direction::Down => WordBoundingBox {
                x: self.position.x,
                y: self.position.y,
                w: 1,
                h: self.value.len() as u16,
            },
        }
    }

    fn get_parallel_coordinate(&self) -> (r: i16)
        ensures
            r as int == parallel_coord(self@),
    {
        match self.direction {
            Direction::Right => self.position.y,
            Direction::Down => self.position.x,
        }
    }

    /// True when the bounding boxes of the two words overlap.
    pub fn intersects(&self, other: &PlacedWord) -> (r: bool)
        requires
            pw_wf(self@),
            pw_wf(other@),
        ensures
            r == spec_intersects(self@, other@),
    {
        self.get_bounding_box().intersects(&other.get_bounding_box())
    }

    fn sides_touch(&self, other: &PlacedWord) -> (r: bool)
        requires
            pw_wf(self@),
            pw_wf(other@),
        ensures
            r == spec_sides_touch(self@, other@),
    {
        self.get_bounding_box().sides_touch(&other.get_bounding_box())
    }

    /// True when the two words touch corner to corner.
    pub fn corners_touch(&self, other: &PlacedWord) -> (r: bool)
        requires
            pw_wf(self@),
            pw_wf(other@),
        ensures
            r == spec_corners_touch(self@, other@),
    {
        self.get_bounding_box().corners_touch(&other.get_bounding_box())
    }

    /// True when the two words are parallel and lie side by side.
    pub fn side_touches_side(&self, other: &PlacedWord) -> (r: bool)
        requires
            pw_wf(self@),
            pw_wf(other@),
        ensures
            r == spec_side_touches_side(self@, other@),
    {
        self.direction == other.direction && self.sides_touch(other)
            && self.get_parallel_coordinate() != other.get_parallel_coordinate()
    }

    /// True when a side of one word touches the end of a perpendicular word.
    pub fn side_touches_head(&self, other: &PlacedWord) -> (r: bool)
        requires
            pw_wf(self@),
            pw_wf(other@),
        ensures
            r == spec_side_touches_head(self@, other@),
    {
        self.direction != other.direction && self.sides_touch(other)
    }

    /// True when the two words are parallel and touch end to end.
    pub fn head_touches_head(&self, other: &PlacedWord) -> (r: bool)
        requires
            pw_wf(self@),
            pw_wf(other@),
        ensures
            r == spec_head_touches_head(self@, other@),
    {
        self.direction == other.direction && self.sides_touch(other)
            && self.get_parallel_coordinate() == other.get_parallel_coordinate()
    }

    /// Character indices at the crossing cell when the two words are
    /// perpendicular and their bounding boxes intersect; character equality
    /// at the crossing is not checked here.
    pub fn get_intersection_indices(&self, other: &PlacedWord) -> (r: Option<(u16, u16)>)
        requires
            pw_wf(self@),
            pw_wf(other@),
        ensures
            (match r {
                Option::None => spec_intersection_indices(self@, other@) is None,
                Option::Some(p) => spec_intersection_indices(self@, other@) == Option::Some(
                    (p.0 as int, p.1 as int),
                ),
            }),
    {
        if !self.intersects(other) {
            return Option::None;
        }
        if self.direction == other.direction {
            return Option::None;
        }
        proof {
            lemma_intersection_indices_in_range(self@, other@);
        }
        match self.direction {
            Direction::Right => Option::Some(
                (
                    (other.position.x - self.position.x) as u16,
                    (self.position.y - other.position.y) as u16,
                ),
            ),
            Direction::Down => Option::Some(
                (
                    (other.position.y - self.position.y) as u16,
                    (self.position.x - other.position.x) as u16,
                ),
            ),
        }
    }
}

/// The word's direction lock permits placing it perpendicular to `s`.
pub open spec fn candidate_allowed(s: PlacedWordView, w: WordView) -> bool {
    match w.dir {
        Option::Some(d) => d != s.direction,
        Option::None => true,
    }
}

/// Character `wi` of the new word matches character `si` of the placed word.
pub open spec fn candidate_pair_ok(s: PlacedWordView, w: WordView, wi: int, si: int) -> bool {
    0 <= wi < w.value.len() && 0 <= si < s.value.len() && w.value[wi] == s.value[si]
}

/// The placement of the new word that crosses `s` at character pair
/// `(wi, si)`.
pub open spec fn candidate_view(s: PlacedWordView, w: WordView, wi: int, si: int) -> PlacedWordView {
    PlacedWordView {
        x: match s.direction {
            Direction::Right => s.x + si,
            Direction::Down => s.x - wi,
        },
        y: match s.direction {
            Direction::Right => s.y - wi,
            Direction::Down => s.y + si,
        },
        direction: s.direction.spec_opposite(),
        value: w.value,
    }
}

/// Membership in the candidate set produced by crossing `w` over `s`.
pub open spec fn is_candidate(s: PlacedWordView, w: WordView, p: PlacedWordView) -> bool {
    candidate_allowed(s, w) && (exists|wi: int, si: int|
        candidate_pair_ok(s, w, wi, si) && p == candidate_view(s, w, wi, si))
}

/// Insertion of a placed word into a sorted sequence at its ordered place.
pub open spec fn sorted_insert(s: Seq<PlacedWordView>, w: PlacedWordView) -> Seq<PlacedWordView>
    decreases s.len(),
{
    if s.len() == 0 {
        seq![w]
    } else if pw_lt(s[0], w) {
        seq![s[0]] + sorted_insert(s.skip(1), w)
    } else {
        seq![w] + s
    }
}

/// Inserting at the index found by a linear scan is the ordered insertion.
pub proof fn lemma_sorted_insert_at(s: Seq<PlacedWordView>, w: PlacedWordView, i: int)
    requires
        0 <= i <= s.len(),
        forall|j: int| 0 <= j < i ==> pw_lt(s[j], w),
        i < s.len() ==> pw_lt(w, s[i]),
    ensures
        sorted_insert(s, w) == s.insert(i, w),
    decreases s.len(),
{
    if s.len() == 0 {
        assert(sorted_insert(s, w) =~= s.insert(0, w));
    } else if i == 0 {
        assert(!pw_lt(s[0], w)) by {
            if pw_lt(s[0], w) {
                lemma_pw_lt_transitive(w, s[0], w);
                crate::word::lemma_bytes_lt_irreflexive(w.value);
            }
        }
        assert(sorted_insert(s, w) =~= s.insert(0, w));
    } else {
        assert(pw_lt(s[0], w));
        let s1 = s.skip(1);
        assert(forall|j: int| 0 <= j < i - 1 ==> s1[j] == s[j + 1]);
        assert(i - 1 < s1.len() ==> pw_lt(w, s1[i - 1]));
        lemma_sorted_insert_at(s1, w, i - 1);
        assert(sorted_insert(s, w) =~= s.insert(i, w)) by {
            assert(sorted_insert(s, w) == seq![s[0]] + s1.insert(i - 1, w));
            assert(forall|k: int|
                0 <= k < s1.insert(i - 1, w).len() ==> #[trigger] (seq![s[0]] + s1.insert(
                    i - 1,
                    w,
                ))[k + 1] == s1.insert(i - 1, w)[k]);
        }
    }
}

/// Inserts a placed word into a strictly sorted sequence, keeping it sorted
/// and dropping the word if an equal one is already present.
pub fn insert_placed_sorted(v: &mut Vec<PlacedWord>, p: PlacedWord)
    requires
        pw_sorted(pw_views(old(v)@)),
    ensures
        pw_sorted(pw_views(final(v)@)),
        forall|q: PlacedWordView|
            pw_views(final(v)@).contains(q) == (pw_views(old(v)@).contains(q) || q == p@),
        (if pw_views(old(v)@).contains(p@) {
            pw_views(final(v)@) == pw_views(old(v)@)
        } else {
            pw_views(final(v)@) == sorted_insert(pw_views(old(v)@), p@)
        }),
{
    let mut i: usize = 0;
    while i < v.len() && pw_lt_exec(&v[i], &p)
        invariant
            0 <= i <= v@.len(),
            pw_sorted(pw_views(v@)),
            forall|j: int| 0 <= j < i ==> pw_lt(pw_views(v@)[j], p@),
        decreases v@.len() - i,
    {
        i = i + 1;
    }
    if i < v.len() {
        if !pw_lt_exec(&p, &v[i]) {
            proof {
                lemma_pw_lt_connected(v@[i as int]@, p@);
                assert(pw_views(v@).contains(p@)) by {
                    assert(pw_views(v@)[i as int] == p@);
                }
            }
            return;
        }
    }
    // Here either i == v.len(), or p comes strictly before v[i].
    let ghost pre = v@;
    v.insert(i, p);
    proof {
        let nv = pw_views(v@);
        let ov = pw_views(pre);
        assert(v@ == pre.insert(i as int, p));
        assert(nv.len() == ov.len() + 1);
        assert(forall|j: int| 0 <= j < i ==> nv[j] == ov[j]);
        assert(nv[i as int] == p@);
        assert(forall|j: int| i < j < nv.len() ==> nv[j] == ov[j - 1]);
        assert(pw_sorted(nv)) by {
            assert forall|a: int, b: int| 0 <= a < b < nv.len() implies pw_lt(nv[a], nv[b]) by {
                if b < i {
                    assert(pw_lt(ov[a], ov[b]));
                } else if b == i {
                    assert(pw_lt(ov[a], p@));
                } else if a == i {
                    // nv[b] == ov[b - 1] with b - 1 >= i; p is before ov[i].
                    assert(pw_lt(p@, ov[i as int]));
                    if b - 1 > i {
                        lemma_pw_lt_transitive(p@, ov[i as int], ov[b - 1]);
                    }
                } else if a < i {
                    assert(pw_lt(ov[a], ov[b - 1]));
                } else {
                    assert(pw_lt(ov[a - 1], ov[b - 1]));
                }
            }
        };
        assert(!ov.contains(p@)) by {
            if ov.contains(p@) {
                let k = choose|k: int| 0 <= k < ov.len() && ov[k] == p@;
                if k < i {
                    assert(pw_lt(ov[k], p@));
                } else if k == i {
                    assert(pw_lt(p@, ov[i as int]));
                } else {
                    assert(pw_lt(ov[i as int], ov[k]));
                    assert(pw_lt(p@, ov[i as int]));
                    lemma_pw_lt_transitive(p@, ov[i as int], ov[k]);
                }
                crate::word::lemma_bytes_lt_irreflexive(p@.value);
            }
        };
        assert(nv =~= ov.insert(i as int, p@));
        lemma_sorted_insert_at(ov, p@, i as int);
        assert forall|q: PlacedWordView| nv.contains(q) == (ov.contains(q) || q == p@) by {
            if nv.contains(q) {
                let k = choose|k: int| 0 <= k < nv.len() && nv[k] == q;
                if k == i {
                } else if k < i {
                    assert(ov[k] == q);
                    assert(ov.contains(q));
                } else {
                    assert(ov[k - 1] == q);
                    assert(ov.contains(q));
                }
            }
            if ov.contains(q) {
                let k = choose|k: int| 0 <= k < ov.len() && ov[k] == q;
                if k < i {
                    assert(nv[k] == q);
                } else {
                    assert(nv[k + 1] == q);
                }
                assert(nv.contains(q));
            }
            if q == p@ {
                assert(nv[i as int] == q);
                assert(nv.contains(q));
            }
        };
    }
}

impl PlacedWord {
    /// All placements of `word` that cross this placed word on a matching
    /// character, as a sorted duplicate-free set. Placements whose
    /// coordinates would leave the signed 16-bit grid are not produced.
    pub fn calculate_possible_ways_to_add_word(&self, word: &Word) -> (r: Vec<PlacedWord>)
        requires
            pw_wf(self@),
            word_wf(word@),
        ensures
            pw_sorted(pw_views(r@)),
            forall|i: int| 0 <= i < r@.len() ==> is_candidate(self@, word@, pw_views(r@)[i]),
            forall|wi: int, si: int|
                candidate_pair_ok(self@, word@, wi, si) && candidate_allowed(self@, word@)
                    && coords_in_range(
                    candidate_view(self@, word@, wi, si).x,
                    candidate_view(self@, word@, wi, si).y,
                ) ==> pw_views(r@).contains(candidate_view(self@, word@, wi, si)),
    {
        let mut pos_ways: Vec<PlacedWord> = Vec::new();
        if let Option::Some(dir) = word.dir {
            if dir == self.direction {
                return pos_ways;
            }
        }
        let mut wi: usize = 0;
        while wi < word.value.len()
            invariant
                0 <= wi <= word.value@.len(),
                pw_wf(self@),
                word_wf(word@),
                candidate_allowed(self@, word@),
                pw_sorted(pw_views(pos_ways@)),
                forall|i: int|
                    0 <= i < pos_ways@.len() ==> is_candidate(self@, word@, pw_views(pos_ways@)[i]),
                forall|a: int, b: int|
                    candidate_pair_ok(self@, word@, a, b) && a < wi && coords_in_range(
                        candidate_view(self@, word@, a, b).x,
                        candidate_view(self@, word@, a, b).y,
                    ) ==> pw_views(pos_ways@).contains(candidate_view(self@, word@, a, b)),
            decreases word.value@.len() - wi,
        {
            let mut si: usize = 0;
            while si < self.value.len()
                invariant
                    0 <= wi < word.value@.len(),
                    0 <= si <= self.value@.len(),
                    pw_wf(self@),
                    word_wf(word@),
                    candidate_allowed(self@, word@),
                    pw_sorted(pw_views(pos_ways@)),
                    forall|i: int|
                        0 <= i < pos_ways@.len() ==> is_candidate(
                            self@,
                            word@,
                            pw_views(pos_ways@)[i],
                        ),
                    forall|a: int, b: int|
                        candidate_pair_ok(self@, word@, a, b) && (a < wi || (a == wi && b < si))
                            && coords_in_range(
                            candidate_view(self@, word@, a, b).x,
                            candidate_view(self@, word@, a, b).y,
                        ) ==> pw_views(pos_ways@).contains(candidate_view(self@, word@, a, b)),
                decreases self.value@.len() - si,
            {
                if word.value[wi] == self.value[si] {
                    let cx: i32 = match self.direction {
                        Direction::Right => self.position.x as i32 + si as i32,
                        Direction::Down => self.position.x as i32 - wi as i32,
                    };
                    let cy: i32 = match self.direction {
                        Direction::Right => self.position.y as i32 - wi as i32,
                        Direction::Down => self.position.y as i32 + si as i32,
                    };
                    if cx >= i16::MIN as i32 && cx <= i16::MAX as i32 && cy >= i16::MIN as i32
                        && cy <= i16::MAX as i32 {
                        let cand = PlacedWord {
                            position: Position { x: cx as i16, y: cy as i16 },
                            direction: self.direction.opposite(),
                            value: clone_bytes(&word.value),
                        };
                        proof {
                            assert(cand@ =~= candidate_view(self@, word@, wi as int, si as int));
                            assert(candidate_pair_ok(self@, word@, wi as int, si as int));
                            assert(is_candidate(self@, word@, cand@));
                        }
                        let ghost before = pw_views(pos_ways@);
                        insert_placed_sorted(&mut pos_ways, cand);
                        proof {
                            let after = pw_views(pos_ways@);
                            assert forall|i2: int|
                                0 <= i2 < after.len() implies is_candidate(
                                self@,
                                word@,
                                after[i2],
                            ) by {
                                assert(after.contains(after[i2]));
                                if before.contains(after[i2]) {
                                    let k = choose|k: int|
                                        0 <= k < before.len() && before[k] == after[i2];
                                } else {
                                    assert(after[i2] == cand@);
                                }
                            }
                        }
                    }
                }
                si = si + 1;
            }
            wi = wi + 1;
        }
        pos_ways
    }
}

} // verus!
