//! A map from grid coordinate to the entities that stand there.
//!
//! The index knows nothing of the store it serves: it holds what it is told
//! to hold. The store keeps it in step with the position components.

use crate::components::ID;
use std::collections::HashMap;
use vstd::prelude::*;
use vstd::std_specs::hash::*;

verus! {

broadcast use vstd::std_specs::hash::group_hash_axioms;

/// One number for each coordinate, different for different coordinates.
pub open spec fn key_spec(x: i32, y: i32) -> int {
    (x + 0x8000_0000) * 0x1_0000_0000 + (y + 0x8000_0000)
}

/// Different coordinates have different keys.
pub proof fn lemma_key_injective(x1: i32, y1: i32, x2: i32, y2: i32)
    ensures
        key_spec(x1, y1) == key_spec(x2, y2) <==> (x1 == x2 && y1 == y2),
        0 <= key_spec(x1, y1) <= u64::MAX,
{
}

/// The key of the coordinate `(x, y)`.
pub fn key(x: i32, y: i32) -> (k: u64)
    ensures
        k == key_spec(x, y),
{
    let column: u64 = (x as i64 + 0x8000_0000) as u64;
    let row: u64 = (y as i64 + 0x8000_0000) as u64;
    column * 0x1_0000_0000 + row
}

/// The first place at which `id` stands in `s`.
pub open spec fn first_index_of(s: Seq<ID>, id: ID) -> int
    decreases s.len(),
{
    if s.len() == 0 {
        0
    } else if s[0] == id {
        0
    } else {
        1 + first_index_of(s.drop_first(), id)
    }
}

/// `s` without the first occurrence of `id`.
pub open spec fn without_first(s: Seq<ID>, id: ID) -> Seq<ID> {
    if s.contains(id) {
        s.remove(first_index_of(s, id))
    } else {
        s
    }
}

/// Where `first_index_of` points when `id` occurs in `s`.
pub proof fn lemma_first_index_of(s: Seq<ID>, id: ID)
    requires
        s.contains(id),
    ensures
        0 <= first_index_of(s, id) < s.len(),
        s[first_index_of(s, id)] == id,
        forall|j: int| 0 <= j < first_index_of(s, id) ==> s[j] != id,
    decreases s.len(),
{
    if s[0] != id {
        let rest = s.drop_first();
        let i = choose|i: int| 0 <= i < s.len() && s[i] == id;
        assert(rest[i - 1] == id);
        lemma_first_index_of(rest, id);
        assert forall|j: int| 0 <= j < first_index_of(s, id) implies s[j] != id by {
            if j > 0 {
                assert(rest[j - 1] == s[j]);
            }
        }
    }
}

/// In a sequence that holds nothing twice, taking out the first occurrence
/// of `id` takes out `id` and nothing else.
pub proof fn lemma_without_first(s: Seq<ID>, id: ID)
    requires
        s.no_duplicates(),
    ensures
        without_first(s, id).no_duplicates(),
        !without_first(s, id).contains(id),
        forall|other: ID|
            other != id ==> (#[trigger] without_first(s, id).contains(other) <==> s.contains(
                other,
            )),
{
    if s.contains(id) {
        lemma_first_index_of(s, id);
        let i = first_index_of(s, id);
        let r = s.remove(i);
        assert forall|a: int, b: int| 0 <= a < r.len() && 0 <= b < r.len() && a != b implies r[a]
            != r[b] by {
            let sa = if a < i {
                a
            } else {
                a + 1
            };
            let sb = if b < i {
                b
            } else {
                b + 1
            };
            assert(r[a] == s[sa] && r[b] == s[sb]);
        }
        assert forall|other: ID| #![auto] r.contains(other) implies s.contains(other) && other
            != id by {
            let a = choose|a: int| 0 <= a < r.len() && r[a] == other;
            let sa = if a < i {
                a
            } else {
                a + 1
            };
            assert(r[a] == s[sa]);
        }
        assert forall|other: ID| other != id && s.contains(other) implies #[trigger] r.contains(
            other,
        ) by {
            let sa = choose|sa: int| 0 <= sa < s.len() && s[sa] == other;
            let a = if sa < i {
                sa
            } else {
                sa - 1
            };
            assert(r[a] == other);
        }
    }
}

/// Adding `id` at the end of a sequence that holds nothing twice and does
/// not hold `id` adds `id` and nothing else.
pub proof fn lemma_push_distinct(s: Seq<ID>, id: ID)
    requires
        s.no_duplicates(),
        !s.contains(id),
    ensures
        s.push(id).no_duplicates(),
        s.push(id).contains(id),
        forall|other: ID|
            other != id ==> (#[trigger] s.push(id).contains(other) <==> s.contains(other)),
{
    let r = s.push(id);
    assert(r[s.len() as int] == id);
    assert forall|a: int, b: int| 0 <= a < r.len() && 0 <= b < r.len() && a != b implies r[a]
        != r[b] by {
        if a < s.len() {
            assert(s.contains(r[a]));
        }
        if b < s.len() {
            assert(s.contains(r[b]));
        }
    }
    assert forall|other: ID| other != id && #[trigger] r.contains(other) implies s.contains(
        other,
    ) by {
        let a = choose|a: int| 0 <= a < r.len() && r[a] == other;
        assert(s[a] == other);
    }
    assert forall|other: ID| other != id && s.contains(other) implies #[trigger] r.contains(
        other,
    ) by {
        let a = choose|a: int| 0 <= a < s.len() && s[a] == other;
        assert(r[a] == other);
    }
}

/// Filtering by a test that everything passes changes nothing.
pub proof fn lemma_filter_all(s: Seq<ID>, keep: spec_fn(ID) -> bool)
    requires
        forall|i: int| 0 <= i < s.len() ==> keep(#[trigger] s[i]),
    ensures
        s.filter(keep) == s,
    decreases s.len(),
{
    reveal(Seq::filter);
    if s.len() > 0 {
        let front = s.drop_last();
        assert forall|i: int| 0 <= i < front.len() implies keep(#[trigger] front[i]) by {
            assert(front[i] == s[i]);
        }
        lemma_filter_all(front, keep);
        assert(keep(s[s.len() - 1]));
        assert(front.push(s.last()) =~= s);
    } else {
        assert(s.filter(keep) =~= s);
    }
}

/// Two tests that agree on everything in `s` filter it alike.
pub proof fn lemma_filter_alike(s: Seq<ID>, keep: spec_fn(ID) -> bool, also: spec_fn(ID) -> bool)
    requires
        forall|i: int| 0 <= i < s.len() ==> keep(#[trigger] s[i]) == also(s[i]),
    ensures
        s.filter(keep) == s.filter(also),
    decreases s.len(),
{
    reveal(Seq::filter);
    if s.len() > 0 {
        let front = s.drop_last();
        assert forall|i: int| 0 <= i < front.len() implies keep(#[trigger] front[i]) == also(
            front[i],
        ) by {
            assert(front[i] == s[i]);
        }
        lemma_filter_alike(front, keep, also);
        assert(keep(s[s.len() - 1]) == also(s[s.len() - 1]));
    }
}

/// Filtering twice is filtering by both tests at once.
pub proof fn lemma_filter_twice(
    s: Seq<ID>,
    keep: spec_fn(ID) -> bool,
    then: spec_fn(ID) -> bool,
    both: spec_fn(ID) -> bool,
)
    requires
        forall|i: int| 0 <= i < s.len() ==> both(#[trigger] s[i]) == (keep(s[i]) && then(s[i])),
    ensures
        s.filter(keep).filter(then) == s.filter(both),
    decreases s.len(),
{
    reveal(Seq::filter);
    if s.len() > 0 {
        let front = s.drop_last();
        assert forall|i: int| 0 <= i < front.len() implies both(#[trigger] front[i]) == (keep(
            front[i],
        ) && then(front[i])) by {
            assert(front[i] == s[i]);
        }
        lemma_filter_twice(front, keep, then, both);
        assert(both(s[s.len() - 1]) == (keep(s[s.len() - 1]) && then(s[s.len() - 1])));
        if keep(s.last()) {
            let kept = front.filter(keep);
            assert(kept.push(s.last()).drop_last() =~= kept);
            assert(kept.push(s.last()).last() == s.last());
        }
    } else {
        assert(s.filter(keep) =~= Seq::<ID>::empty());
    }
}

/// In a sequence that holds nothing twice, taking out the first
/// occurrence of `id` is keeping everything but `id`.
pub proof fn lemma_without_first_is_a_filter(s: Seq<ID>, id: ID)
    requires
        s.no_duplicates(),
    ensures
        without_first(s, id) == s.filter(|x: ID| x != id),
    decreases s.len(),
{
    reveal(Seq::filter);
    let keep = |x: ID| x != id;
    if s.len() > 0 {
        let front = s.drop_last();
        let last = s.last();
        assert(front.no_duplicates()) by {
            assert forall|i: int, j: int|
                0 <= i < front.len() && 0 <= j < front.len() && i != j implies front[i]
                != front[j] by {
                assert(front[i] == s[i] && front[j] == s[j]);
            }
        }
        assert(!front.contains(last)) by {
            if front.contains(last) {
                let i = choose|i: int| 0 <= i < front.len() && front[i] == last;
                assert(s[i] == s[s.len() - 1]);
            }
        }
        lemma_without_first_is_a_filter(front, id);
        assert(s[s.len() - 1] == last);
        if last == id {
            assert(s.contains(id));
            lemma_first_index_of(s, id);
            let f = first_index_of(s, id);
            if f < s.len() - 1 {
                assert(front[f] == id);
            }
            assert(s.remove(f) =~= front);
            assert forall|i: int| 0 <= i < front.len() implies keep(#[trigger] front[i]) by {
                assert(front.contains(front[i]));
            }
            lemma_filter_all(front, keep);
        } else {
            if front.contains(id) {
                let i = choose|i: int| 0 <= i < front.len() && front[i] == id;
                assert(s[i] == id);
                assert(s.contains(id));
                lemma_first_index_of(s, id);
                lemma_first_index_of(front, id);
                let f = first_index_of(s, id);
                let g = first_index_of(front, id);
                assert(f < s.len() - 1);
                assert(front[f] == id);
                assert(s[g] == id);
                assert(f == g);
                assert(s.remove(f) =~= front.remove(g).push(last));
            } else {
                assert(!s.contains(id)) by {
                    if s.contains(id) {
                        let i = choose|i: int| 0 <= i < s.len() && s[i] == id;
                        assert(front[i] == id);
                    }
                }
                assert(front.push(last) =~= s);
            }
        }
    } else {
        assert(s.filter(keep) =~= s);
    }
}

pub struct PositionIndex {
    cells: HashMap<u64, Vec<ID>>,
}

impl PositionIndex {
    /// The entities filed under `(x, y)`, in the order in which they came.
    pub closed spec fn at(&self, x: i32, y: i32) -> Seq<ID> {
        let k = key_spec(x, y) as u64;
        if self.cells@.contains_key(k) {
            self.cells@[k]@
        } else {
            Seq::empty()
        }
    }

    pub fn new() -> (index: PositionIndex)
        ensures
            forall|x: i32, y: i32| #[trigger] index.at(x, y) == Seq::<ID>::empty(),
    {
        PositionIndex { cells: HashMap::new() }
    }

    /// Files `id` under `(x, y)`, behind what is there.
    pub fn add(&mut self, x: i32, y: i32, id: ID)
        ensures
            final(self).at(x, y) == old(self).at(x, y).push(id),
            forall|x2: i32, y2: i32|
                (x2 != x || y2 != y) ==> #[trigger] final(self).at(x2, y2) == old(self).at(
                    x2,
                    y2,
                ),
    {
        let k = key(x, y);
        let mut bucket: Vec<ID> = match self.cells.remove(&k) {
            Some(b) => b,
            None => Vec::new(),
        };
        bucket.push(id);
        self.cells.insert(k, bucket);
        proof {
            assert forall|x2: i32, y2: i32| (x2 != x || y2 != y) implies #[trigger] self.at(x2, y2)
                == old(self).at(x2, y2) by {
                lemma_key_injective(x, y, x2, y2);
            }
        }
    }

    /// Takes the first `id` out of what is filed under `(x, y)` and says
    /// whether there was one.
    pub fn take(&mut self, x: i32, y: i32, id: ID) -> (found: bool)
        ensures
            found == old(self).at(x, y).contains(id),
            final(self).at(x, y) == without_first(old(self).at(x, y), id),
            forall|x2: i32, y2: i32|
                (x2 != x || y2 != y) ==> #[trigger] final(self).at(x2, y2) == old(self).at(
                    x2,
                    y2,
                ),
    {
        let k = key(x, y);
        let mut bucket: Vec<ID> = match self.cells.remove(&k) {
            Some(b) => b,
            None => Vec::new(),
        };
        let ghost before = bucket@;
        assert(before == old(self).at(x, y));
        let mut i: usize = 0;
        let mut found = false;
        while i < bucket.len()
            invariant_except_break
                bucket@ == before,
                i <= bucket.len(),
                forall|j: int| 0 <= j < i ==> before[j] != id,
                !found,
            ensures
                found ==> i < before.len() && before[i as int] == id && before.contains(id)
                    && first_index_of(before, id) == i && bucket@ == before.remove(i as int),
                !found ==> !before.contains(id) && bucket@ == before,
            decreases bucket.len() - i,
        {
            if bucket[i].0 == id.0 {
                proof {
                    assert(before[i as int] == id);
                    lemma_first_index_of(before, id);
                }
                bucket.remove(i);
                found = true;
                break ;
            }
            i = i + 1;
        }
        self.cells.insert(k, bucket);
        proof {
            assert forall|x2: i32, y2: i32| (x2 != x || y2 != y) implies #[trigger] self.at(x2, y2)
                == old(self).at(x2, y2) by {
                lemma_key_injective(x, y, x2, y2);
            }
        }
        found
    }

    /// A copy of what is filed under `(x, y)`.
    pub fn get(&self, x: i32, y: i32) -> (v: Vec<ID>)
        ensures
            v@ == self.at(x, y),
    {
        let k = key(x, y);
        let mut v: Vec<ID> = Vec::new();
        match self.cells.get(&k) {
            Some(bucket) => {
                let mut i: usize = 0;
                while i < bucket.len()
                    invariant
                        i <= bucket.len(),
                        v@ == bucket@.take(i as int),
                    decreases bucket.len() - i,
                {
                    v.push(bucket[i]);
                    proof {
                        assert(bucket@.take(i + 1) == bucket@.take(i as int).push(bucket@[i as int]));
                    }
                    i = i + 1;
                }
                proof {
                    assert(bucket@.take(i as int) == bucket@);
                }
            },
            None => {},
        }
        v
    }

    /// Forgets everything.
    pub fn clear(&mut self)
        ensures
            forall|x: i32, y: i32| #[trigger] final(self).at(x, y) == Seq::<ID>::empty(),
    {
        self.cells.clear();
    }
}

} // verus!
