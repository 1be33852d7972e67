//! Grid positions, directions, and unplaced words, together with the
//! lexicographic orders used to keep word collections canonical.

use vstd::prelude::*;

verus! {

/// Position of the first character of a placed word on the grid.
#[derive(Clone, Copy, PartialEq, Eq, Structural, Debug, Hash)]
pub struct Position {
    pub x: i16,
    pub y: i16,
}

impl Default for Position {
    fn default() -> (r: Self)
        ensures
            r.x == 0 && r.y == 0,
    {
        Position { x: 0, y: 0 }
    }
}

/// Direction of a word placed on the grid: rightwards or downwards.
#[derive(Clone, Copy, PartialEq, Eq, Structural, Debug, Hash)]
pub enum Direction {
    Right,
    Down,
}

impl Default for Direction {
    fn default() -> (r: Self)
        ensures
            r == Direction::Right,
    {
        Direction::Right
    }
}

impl Direction {
    pub open spec fn spec_opposite(self) -> Direction {
        match self {
            Direction::Right => Direction::Down,
            Direction::Down => Direction::Right,
        }
    }

    /// The perpendicular direction. Applying it twice gives the original
    /// direction back.
    pub fn opposite(&self) -> (r: Direction)
        ensures
            r == self.spec_opposite(),
            r.spec_opposite() == *self,
    {
        match *self {
            Direction::Right => Direction::Down,
            Direction::Down => Direction::Right,
        }
    }
}

/// Rank used to order directions: Right before Down.
pub open spec fn dir_rank(d: Direction) -> int {
    match d {
        Direction::Right => 0,
        Direction::Down => 1,
    }
}

/// Rank used to order optional direction locks: no lock first.
pub open spec fn dir_opt_rank(d: Option<Direction>) -> int {
    match d {
        Option::None => 0,
        Option::Some(dd) => 1 + dir_rank(dd),
    }
}

/// Strict lexicographic order on byte strings.
pub open spec fn bytes_lt(a: Seq<u8>, b: Seq<u8>) -> bool {
    ||| (a.len() < b.len() && a == b.take(a.len() as int))
    ||| (exists|i: int|
        0 <= i < a.len() && i < b.len() && a[i] < b[i] && (forall|j: int|
            0 <= j < i ==> a[j] == b[j]))
}

/// Stepping off equal first bytes preserves the lexicographic order.
proof fn lemma_bytes_lt_step(a: Seq<u8>, b: Seq<u8>)
    requires
        a.len() > 0,
        b.len() > 0,
        a[0] == b[0],
    ensures
        bytes_lt(a, b) == bytes_lt(a.skip(1), b.skip(1)),
{
    let a1 = a.skip(1);
    let b1 = b.skip(1);
    if bytes_lt(a, b) {
        if a.len() < b.len() && a == b.take(a.len() as int) {
            assert(a1 =~= b1.take(a1.len() as int)) by {
                assert(forall|j: int|
                    0 <= j < a1.len() ==> a1[j] == a[j + 1] && b1[j] == b[j + 1]);
                assert(forall|j: int| 0 <= j < a.len() ==> a[j] == b.take(a.len() as int)[j]);
            }
            assert(bytes_lt(a1, b1));
        } else {
            let i = choose|i: int|
                0 <= i < a.len() && i < b.len() && a[i] < b[i] && (forall|j: int|
                    0 <= j < i ==> a[j] == b[j]);
            assert(i != 0);
            let k = i - 1;
            assert(a1[k] < b1[k]);
            assert(forall|j: int| 0 <= j < k ==> a1[j] == a[j + 1] && b1[j] == b[j + 1]);
            assert(bytes_lt(a1, b1));
        }
    }
    if bytes_lt(a1, b1) {
        if a1.len() < b1.len() && a1 == b1.take(a1.len() as int) {
            assert(a =~= b.take(a.len() as int)) by {
                assert(forall|j: int|
                    1 <= j < a.len() ==> a[j] == a1[j - 1] && b[j] == b1[j - 1]);
                assert(forall|j: int|
                    0 <= j < a1.len() ==> a1[j] == b1.take(a1.len() as int)[j]);
            }
            assert(bytes_lt(a, b));
        } else {
            let k = choose|k: int|
                0 <= k < a1.len() && k < b1.len() && a1[k] < b1[k] && (forall|j: int|
                    0 <= j < k ==> a1[j] == b1[j]);
            let i = k + 1;
            assert(a[i] < b[i]);
            assert(forall|j: int| 1 <= j < i ==> a[j] == a1[j - 1] && b[j] == b1[j - 1]);
            assert(forall|j: int| 0 <= j < i ==> a[j] == b[j]);
            assert(bytes_lt(a, b));
        }
    }
}

/// A string is never lexicographically below itself.
pub proof fn lemma_bytes_lt_irreflexive(a: Seq<u8>)
    ensures
        !bytes_lt(a, a),
{
}

/// Two strings that are not ordered either way are equal.
pub proof fn lemma_bytes_lt_connected(a: Seq<u8>, b: Seq<u8>)
    requires
        !bytes_lt(a, b),
        !bytes_lt(b, a),
    ensures
        a == b,
    decreases a.len(),
{
    if a.len() == 0 {
        if b.len() > 0 {
            assert(a == b.take(0));
            assert(bytes_lt(a, b));
        }
        assert(a =~= b);
    } else if b.len() == 0 {
        assert(b == a.take(0));
        assert(bytes_lt(b, a));
    } else {
        if a[0] < b[0] {
            assert(bytes_lt(a, b)) by {
                assert(0 <= 0 < a.len() && 0 < b.len() && a[0] < b[0] && (forall|j: int|
                    0 <= j < 0 ==> a[j] == b[j]));
            }
        }
        if b[0] < a[0] {
            assert(bytes_lt(b, a)) by {
                assert(0 <= 0 < b.len() && 0 < a.len() && b[0] < a[0] && (forall|j: int|
                    0 <= j < 0 ==> b[j] == a[j]));
            }
        }
        assert(a[0] == b[0]);
        lemma_bytes_lt_step(a, b);
        lemma_bytes_lt_step(b, a);
        lemma_bytes_lt_connected(a.skip(1), b.skip(1));
        assert(a =~= b) by {
            assert(forall|j: int| 1 <= j < a.len() ==> a[j] == a.skip(1)[j - 1]);
            assert(forall|j: int| 1 <= j < b.len() ==> b[j] == b.skip(1)[j - 1]);
        }
    }
}

/// The lexicographic order is transitive.
pub proof fn lemma_bytes_lt_transitive(a: Seq<u8>, b: Seq<u8>, c: Seq<u8>)
    requires
        bytes_lt(a, b),
        bytes_lt(b, c),
    ensures
        bytes_lt(a, c),
    decreases a.len(),
{
    assert(b.len() > 0);
    assert(c.len() > 0);
    if a.len() == 0 {
        assert(a == c.take(0));
        assert(bytes_lt(a, c));
    } else {
        // From bytes_lt(a, b): a[0] <= b[0]; similarly b[0] <= c[0].
        assert(a[0] <= b[0]) by {
            if a[0] > b[0] {
                if a.len() < b.len() && a == b.take(a.len() as int) {
                    assert(a[0] == b.take(a.len() as int)[0]);
                } else {
                    let i = choose|i: int|
                        0 <= i < a.len() && i < b.len() && a[i] < b[i] && (forall|j: int|
                            0 <= j < i ==> a[j] == b[j]);
                    assert(i == 0 ==> a[0] < b[0]);
                    assert(i > 0 ==> a[0] == b[0]);
                }
            }
        }
        assert(b[0] <= c[0]) by {
            if b[0] > c[0] {
                if b.len() < c.len() && b == c.take(b.len() as int) {
                    assert(b[0] == c.take(b.len() as int)[0]);
                } else {
                    let i = choose|i: int|
                        0 <= i < b.len() && i < c.len() && b[i] < c[i] && (forall|j: int|
                            0 <= j < i ==> b[j] == c[j]);
                    assert(i == 0 ==> b[0] < c[0]);
                    assert(i > 0 ==> b[0] == c[0]);
                }
            }
        }
        if a[0] < c[0] {
            assert(bytes_lt(a, c)) by {
                assert(0 <= 0 < a.len() && 0 < c.len() && a[0] < c[0] && (forall|j: int|
                    0 <= j < 0 ==> a[j] == c[j]));
            }
        } else {
            assert(a[0] == b[0] && b[0] == c[0]);
            lemma_bytes_lt_step(a, b);
            lemma_bytes_lt_step(b, c);
            lemma_bytes_lt_transitive(a.skip(1), b.skip(1), c.skip(1));
            lemma_bytes_lt_step(a, c);
        }
    }
}

/// Compares two byte strings lexicographically; true when `a` comes strictly
/// before `b`.
pub fn bytes_lt_exec(a: &Vec<u8>, b: &Vec<u8>) -> (r: bool)
    ensures
        r == bytes_lt(a@, b@),
{
    let mut i: usize = 0;
    let min: usize = if a.len() < b.len() {
        a.len()
    } else {
        b.len()
    };
    while i < min
        invariant
            0 <= i <= min,
            min == if a@.len() < b@.len() {
                a@.len()
            } else {
                b@.len()
            },
            forall|j: int| 0 <= j < i ==> a@[j] == b@[j],
        decreases min - i,
    {
        if a[i] < b[i] {
            assert(bytes_lt(a@, b@));
            return true;
        }
        if a[i] > b[i] {
            assert(!bytes_lt(a@, b@)) by {
                if a@.len() < b@.len() && a@ == b@.take(a@.len() as int) {
                    assert(a@[i as int] == b@.take(a@.len() as int)[i as int]);
                }
            }
            return false;
        }
        i = i + 1;
    }
    if a.len() < b.len() {
        assert(a@ =~= b@.take(a@.len() as int));
        true
    } else {
        assert(!bytes_lt(a@, b@)) by {
            if a@.len() < b@.len() && a@ == b@.take(a@.len() as int) {
            } else {
                if exists|k: int|
                    0 <= k < a@.len() && k < b@.len() && a@[k] < b@[k] && (forall|j: int|
                        0 <= j < k ==> a@[j] == b@[j]) {
                    let k = choose|k: int|
                        0 <= k < a@.len() && k < b@.len() && a@[k] < b@[k] && (forall|j: int|
                            0 <= j < k ==> a@[j] == b@[j]);
                    assert(k < min);
                    assert(a@[k] == b@[k]);
                }
            }
        }
        false
    }
}

/// Compares two byte strings for equality of their character sequences.
pub fn bytes_eq(a: &Vec<u8>, b: &Vec<u8>) -> (r: bool)
    ensures
        r == (a@ == b@),
{
    let r: bool = a == b;
    proof {
        if r {
            assert(a@ =~= b@);
        } else if a@ == b@ {
            assert(a.len() == b.len());
            assert(forall|i: int| 0 <= i < a@.len() ==> a@[i] == b@[i]);
        }
    }
    r
}

/// Builds an independent copy of a byte string.
pub fn clone_bytes(v: &Vec<u8>) -> (r: Vec<u8>)
    ensures
        r@ == v@,
{
    let mut r: Vec<u8> = Vec::new();
    let mut i: usize = 0;
    while i < v.len()
        invariant
            0 <= i <= v@.len(),
            r@ == v@.take(i as int),
        decreases v@.len() - i,
    {
        r.push(v[i]);
        assert(r@ =~= v@.take(i + 1 as int));
        i = i + 1;
    }
    assert(r@ =~= v@);
    r
}

/// A word that is not yet placed: its character string, and an optional
/// direction lock restricting the directions in which it may be placed.
#[derive(Eq, Debug, Hash)]
pub struct Word {
    pub value: Vec<u8>,
    pub dir: Option<Direction>,
}

/// Mathematical value of a word: its character sequence and direction lock.
#[verifier::ext_equal]
pub ghost struct WordView {
    pub value: Seq<u8>,
    pub dir: Option<Direction>,
}

impl View for Word {
    type V = WordView;

    open spec fn view(&self) -> WordView {
        WordView { value: self.value@, dir: self.dir }
    }
}

impl PartialEq for Word {
    fn eq(&self, other: &Word) -> (r: bool) {
        let dir_eq: bool = match (self.dir, other.dir) {
            (Option::None, Option::None) => true,
            (Option::Some(a), Option::Some(b)) => a == b,
            _ => false,
        };
        let val_eq: bool = self.value == other.value;
        proof {
            if val_eq {
                assert(self.value@ =~= other.value@);
            } else if self.value@ == other.value@ {
                assert(self.value.len() == other.value.len());
                assert(forall|i: int|
                    0 <= i < self.value@.len() ==> self.value@[i] == other.value@[i]);
            }
        }
        dir_eq && val_eq
    }
}

impl vstd::std_specs::cmp::PartialEqSpecImpl for Word {
    open spec fn obeys_eq_spec() -> bool {
        true
    }

    open spec fn eq_spec(&self, other: &Word) -> bool {
        self@ == other@
    }
}

impl Clone for Word {
    fn clone(&self) -> (r: Self)
        ensures
            r@ == self@,
    {
        let r = Word { value: clone_bytes(&self.value), dir: self.dir };
        proof {
            assert(r@ =~= self@);
        }
        r
    }
}

impl Word {
    /// Creates a word from its character string and an optional direction
    /// lock.
    pub fn new(val: Vec<u8>, dir: Option<Direction>) -> (r: Word)
        ensures
            r@ == (WordView { value: val@, dir }),
    {
        Word { value: val, dir }
    }
}

/// Views of a sequence of words, element by element.
pub open spec fn word_views(s: Seq<Word>) -> Seq<WordView> {
    Seq::new(s.len(), |i: int| s[i]@)
}

/// The view sequence has the same length as the sequence itself.
pub broadcast proof fn lemma_word_views_len(s: Seq<Word>)
    ensures
        (#[trigger] word_views(s)).len() == s.len(),
{
}

/// Indexing the view sequence gives the view of the indexed element.
pub broadcast proof fn lemma_word_views_index(s: Seq<Word>, i: int)
    requires
        0 <= i < s.len(),
    ensures
        #[trigger] word_views(s)[i] == s[i]@,
{
}

/// Builds an independent copy of a list of words.
pub fn clone_words(v: &Vec<Word>) -> (r: Vec<Word>)
    ensures
        word_views(r@) == word_views(v@),
{
    let mut r: Vec<Word> = Vec::new();
    let mut i: usize = 0;
    while i < v.len()
        invariant
            0 <= i <= v@.len(),
            r@.len() == i,
            forall|j: int| 0 <= j < i ==> r@[j]@ == v@[j]@,
        decreases v@.len() - i,
    {
        r.push(v[i].clone());
        i = i + 1;
    }
    proof {
        assert(word_views(r@) =~= word_views(v@)) by {
            assert(forall|j: int|
                0 <= j < v@.len() ==> word_views(r@)[j] == #[trigger] word_views(v@)[j]);
        }
    }
    r
}

/// Builds a copy of a list of words with the word at one index left out.
pub fn words_without_index(v: &Vec<Word>, at: usize) -> (r: Vec<Word>)
    requires
        at < v@.len(),
    ensures
        word_views(r@) == word_views(v@).remove(at as int),
{
    let mut r: Vec<Word> = Vec::new();
    let mut i: usize = 0;
    while i < v.len()
        invariant
            0 <= i <= v@.len(),
            at < v@.len(),
            r@.len() == (if i <= at {
                i as int
            } else {
                i - 1
            }),
            forall|j: int| 0 <= j < r@.len() && j < at ==> r@[j]@ == v@[j]@,
            forall|j: int| at <= j < r@.len() ==> r@[j]@ == v@[j + 1]@,
        decreases v@.len() - i,
    {
        if i != at {
            r.push(v[i].clone());
        }
        i = i + 1;
    }
    proof {
        assert(word_views(r@) =~= word_views(v@).remove(at as int)) by {
            assert(forall|j: int|
                0 <= j < r@.len() ==> word_views(r@)[j] == r@[j]@);
            assert(forall|j: int| 0 <= j < v@.len() ==> #[trigger] word_views(v@)[j] == v@[j]@);
        }
    }
    r
}

/// Strict order on word values: by character string, then by direction lock.
pub open spec fn word_lt(a: WordView, b: WordView) -> bool {
    ||| bytes_lt(a.value, b.value)
    ||| (a.value == b.value && dir_opt_rank(a.dir) < dir_opt_rank(b.dir))
}

/// Compares two words in the strict word order.
pub fn word_lt_exec(a: &Word, b: &Word) -> (r: bool)
    ensures
        r == word_lt(a@, b@),
{
    if bytes_lt_exec(&a.value, &b.value) {
        true
    } else if bytes_lt_exec(&b.value, &a.value) {
        false
    } else {
        proof {
            lemma_bytes_lt_connected(a.value@, b.value@);
        }
        let ar: u8 = match a.dir {
            Option::None => 0,
            Option::Some(Direction::Right) => 1,
            Option::Some(Direction::Down) => 2,
        };
        let br: u8 = match b.dir {
            Option::None => 0,
            Option::Some(Direction::Right) => 1,
            Option::Some(Direction::Down) => 2,
        };
        ar < br
    }
}

/// A sequence of words in strictly increasing word order.
pub open spec fn word_sorted(s: Seq<WordView>) -> bool {
    forall|i: int, j: int| 0 <= i < j < s.len() ==> word_lt(s[i], s[j])
}

/// Inserts a word into a strictly sorted list, keeping it sorted and
/// dropping the word when an equal one is already present.
pub fn insert_word_sorted(v: &mut Vec<Word>, w: Word)
    requires
        word_sorted(word_views(old(v)@)),
    ensures
        word_sorted(word_views(final(v)@)),
        forall|q: WordView|
            word_views(final(v)@).contains(q) == (word_views(old(v)@).contains(q) || q == w@),
{
    let mut i: usize = 0;
    while i < v.len() && word_lt_exec(&v[i], &w)
        invariant
            0 <= i <= v@.len(),
            word_sorted(word_views(v@)),
            forall|j: int| 0 <= j < i ==> word_lt(#[trigger] word_views(v@)[j], w@),
        decreases v@.len() - i,
    {
        proof {
            assert(word_views(v@)[i as int] == v@[i as int]@);
        }
        i = i + 1;
    }
    if i < v.len() {
        if !word_lt_exec(&w, &v[i]) {
            proof {
                lemma_word_lt_connected(v@[i as int]@, w@);
                assert(word_views(v@).contains(w@)) by {
                    assert(word_views(v@)[i as int] == w@);
                }
            }
            return;
        }
    }
    let ghost pre = v@;
    proof {
        assert(i < pre.len() ==> word_lt(w@, word_views(pre)[i as int]));
    }
    v.insert(i, w);
    proof {
        let nv = word_views(v@);
        let ov = word_views(pre);
        assert(v@ == pre.insert(i as int, w));
        assert(forall|j: int| 0 <= j < i ==> nv[j] == ov[j]);
        assert(nv[i as int] == w@);
        assert(forall|j: int| i < j < nv.len() ==> nv[j] == ov[j - 1]);
        assert(word_sorted(nv)) by {
            assert forall|a: int, b: int| 0 <= a < b < nv.len() implies word_lt(nv[a], nv[b]) by {
                if b < i {
                } else if b == i {
                    assert(word_lt(ov[a], w@));
                } else if a == i {
                    assert(word_lt(w@, ov[i as int]));
                    if b - 1 > i {
                        lemma_word_lt_transitive(w@, ov[i as int], ov[b - 1]);
                    }
                } else if a < i {
                    assert(word_lt(ov[a], ov[b - 1]));
                } else {
                    assert(word_lt(ov[a - 1], ov[b - 1]));
                }
            }
        };
        assert forall|q: WordView| nv.contains(q) == (ov.contains(q) || q == w@) by {
            if nv.contains(q) {
                let k = choose|k: int| 0 <= k < nv.len() && nv[k] == q;
                if k == i {
                } else if k < i {
                    assert(ov[k] == q);
                    assert(ov.contains(q));
                } else {
                    assert(ov[k - 1] == q);
                    assert(ov.contains(q));
                }
            }
            if ov.contains(q) {
                let k = choose|k: int| 0 <= k < ov.len() && ov[k] == q;
                if k < i {
                    assert(nv[k] == q);
                } else {
                    assert(nv[k + 1] == q);
                }
                assert(nv.contains(q));
            }
            if q == w@ {
                assert(nv[i as int] == q);
                assert(nv.contains(q));
            }
        };
    }
}

/// The word order is transitive.
pub proof fn lemma_word_lt_transitive(a: WordView, b: WordView, c: WordView)
    requires
        word_lt(a, b),
        word_lt(b, c),
    ensures
        word_lt(a, c),
{
    if bytes_lt(a.value, b.value) && bytes_lt(b.value, c.value) {
        lemma_bytes_lt_transitive(a.value, b.value, c.value);
    }
}

/// Two words not ordered either way are equal.
pub proof fn lemma_word_lt_connected(a: WordView, b: WordView)
    requires
        !word_lt(a, b),
        !word_lt(b, a),
    ensures
        a == b,
{
    if bytes_lt(a.value, b.value) || bytes_lt(b.value, a.value) {
    } else {
        lemma_bytes_lt_connected(a.value, b.value);
        assert(a =~= b);
    }
}

} // verus!
