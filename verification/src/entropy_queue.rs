use vstd::prelude::*;

use crate::position::Position;

verus! {

/// One pending entry of the priority store: the entropy key a cell had when
/// the entry was pushed, and the cell it refers to.
#[derive(Debug, PartialEq, Eq, Structural, Clone, Copy)]
pub struct EntropyEntry {
    pub key: i64,
    pub pos: Position,
}

/// Whether some entry in `s` refers to `p`.
pub open spec fn seq_has_pos(s: Seq<EntropyEntry>, p: Position) -> bool {
    exists|i: int| 0 <= i < s.len() && s[i].pos == p
}

/// Whether `x` occurs in `a`.
pub open spec fn came_from(a: Seq<EntropyEntry>, x: EntropyEntry) -> bool {
    exists|m: int| 0 <= m < a.len() && a[m] == x
}

/// Whether some entry in `s` refers to `q` and carries exactly `key`.
pub open spec fn seq_has_entry(s: Seq<EntropyEntry>, q: Position, key: int) -> bool {
    exists|i: int| 0 <= i < s.len() && s[i].pos == q && s[i].key == key
}

/// The heap shape: every entry's key is at least its parent's.
pub open spec fn heap_wf(s: Seq<EntropyEntry>) -> bool {
    forall|i: int| 1 <= i < s.len() ==> s[(i - 1) / 2].key <= (#[trigger] s[i]).key
}

/// In a well-shaped heap the root key is the least.
proof fn lemma_root_min(s: Seq<EntropyEntry>, i: int)
    requires
        heap_wf(s),
        0 <= i < s.len(),
    ensures
        s[0].key <= s[i].key,
    decreases i,
{
    if i > 0 {
        lemma_root_min(s, (i - 1) / 2);
    }
}

/// Overwriting one slot trades its old entry for the new one, as multisets.
proof fn lemma_update_ms(s: Seq<EntropyEntry>, i: int, v: EntropyEntry)
    requires
        0 <= i < s.len(),
    ensures
        s.update(i, v).to_multiset() == s.to_multiset().remove(s[i]).insert(v),
{
    broadcast use vstd::seq_lib::group_to_multiset_ensures;

    let s2 = s.update(i, v);
    assert(s2.remove(i) =~= s.remove(i));
    assert(s2.remove(i).to_multiset() == s2.to_multiset().remove(v));
    assert(s.remove(i).to_multiset() == s.to_multiset().remove(s[i]));
    assert(s2.contains(v)) by {
        assert(s2[i] == v);
    }
    assert(s2.to_multiset().count(v) > 0);
    assert forall|x: EntropyEntry| true implies #[trigger] s2.to_multiset().count(x)
        == s.to_multiset().remove(s[i]).insert(v).count(x) by {
        if x == v {
            assert(s2.to_multiset().remove(v).count(x) == s2.to_multiset().count(x) - 1);
        } else {
            assert(s2.to_multiset().remove(v).count(x) == s2.to_multiset().count(x));
        }
    }
    assert(s2.to_multiset() =~= s.to_multiset().remove(s[i]).insert(v));
}

/// Swapping two entries keeps the multiset of entries.
proof fn lemma_swap_ms(a: Seq<EntropyEntry>, b: Seq<EntropyEntry>, i: int, j: int)
    requires
        0 <= i < a.len(),
        0 <= j < a.len(),
        b == a.update(i, a[j]).update(j, a[i]),
    ensures
        b.to_multiset() == a.to_multiset(),
{
    broadcast use vstd::seq_lib::group_to_multiset_ensures;

    if i == j {
        assert(b =~= a);
    } else {
        let s1 = a.update(i, a[j]);
        lemma_update_ms(a, i, a[j]);
        assert(s1[j] == a[j]);
        lemma_update_ms(s1, j, a[i]);
        assert(a.contains(a[i]));
        assert(a.to_multiset().count(a[i]) > 0);
        assert(b.to_multiset() =~= a.to_multiset());
    }
}

/// Swapping two entries keeps every position's presence and every entry's
/// provenance.
proof fn lemma_swap_has_pos(a: Seq<EntropyEntry>, b: Seq<EntropyEntry>, i: int, j: int)
    requires
        0 <= i < a.len(),
        0 <= j < a.len(),
        b == a.update(i, a[j]).update(j, a[i]),
    ensures
        forall|p: Position| #[trigger] seq_has_pos(b, p) <==> seq_has_pos(a, p),
        forall|k: int| 0 <= k < b.len() ==> came_from(a, #[trigger] b[k]),
{
    assert forall|p: Position| #[trigger] seq_has_pos(b, p) <==> seq_has_pos(a, p) by {
        if seq_has_pos(a, p) {
            let k = choose|k: int| 0 <= k < a.len() && a[k].pos == p;
            if k == i {
                assert(b[j].pos == p);
            } else if k == j {
                assert(b[i].pos == p);
            } else {
                assert(b[k].pos == p);
            }
        }
        if seq_has_pos(b, p) {
            let k = choose|k: int| 0 <= k < b.len() && b[k].pos == p;
            if k == i {
                assert(a[j].pos == p);
            } else if k == j {
                assert(a[i].pos == p);
            } else {
                assert(a[k].pos == p);
            }
        }
    }
    assert forall|k: int| 0 <= k < b.len() implies came_from(a, #[trigger] b[k]) by {
        if k == i {
            assert(a[j] == b[k]);
        } else if k == j {
            assert(a[i] == b[k]);
        } else {
            assert(a[k] == b[k]);
        }
    }
}

impl View for EntropyQueue {
    type V = Seq<EntropyEntry>;

    open spec fn view(&self) -> Seq<EntropyEntry> {
        self.entries@
    }
}

/// A binary min-heap of cells keyed by ascending entropy, with lazy
/// deletion: entries are never removed when a cell changes, the consumer
/// discards stale ones after popping. `pop` removes and returns an entry
/// with the least key.
pub struct EntropyQueue {
    pub entries: Vec<EntropyEntry>,
}

impl EntropyQueue {
    pub fn new() -> (r: Self)
        ensures
            r@.len() == 0,
            heap_wf(r@),
    {
        EntropyQueue { entries: Vec::new() }
    }

    pub fn len(&self) -> (r: usize)
        ensures
            r == self@.len(),
    {
        self.entries.len()
    }

    /// Swaps two entries.
    fn swap_at(&mut self, i: usize, j: usize)
        requires
            i < old(self)@.len(),
            j < old(self)@.len(),
        ensures
            final(self)@ == old(self)@.update(i as int, old(self)@[j as int]).update(
                j as int,
                old(self)@[i as int],
            ),
            final(self)@.to_multiset() == old(self)@.to_multiset(),
    {
        proof {
            lemma_swap_ms(
                self@,
                self@.update(i as int, self@[j as int]).update(j as int, self@[i as int]),
                i as int,
                j as int,
            );
        }
        let a = self.entries[i];
        let b = self.entries[j];
        let si = &mut self.entries[i];
        *si = b;
        let sj = &mut self.entries[j];
        *sj = a;
    }

    /// Adds an entry and bubbles it up to its place.
    pub fn push(&mut self, e: EntropyEntry)
        requires
            heap_wf(old(self)@),
        ensures
            heap_wf(final(self)@),
            final(self)@.len() == old(self)@.len() + 1,
            final(self)@.to_multiset() == old(self)@.to_multiset().insert(e),
            forall|p: Position| #[trigger]
                seq_has_pos(final(self)@, p) <==> (seq_has_pos(old(self)@, p) || e.pos == p),
            forall|k: int|
                0 <= k < final(self)@.len() ==> came_from(old(self)@, #[trigger] (final(self)@[k]))
                    || final(self)@[k] == e,
    {
        let ghost base = self@;
        self.entries.push(e);
        proof {
            broadcast use vstd::seq_lib::group_to_multiset_ensures;

            assert(self@ =~= base.push(e));
            assert(self@.to_multiset() == base.to_multiset().insert(e));
            assert forall|p: Position| #[trigger]
                seq_has_pos(self@, p) <==> (seq_has_pos(base, p) || e.pos == p) by {
                if seq_has_pos(base, p) {
                    let k = choose|k: int| 0 <= k < base.len() && base[k].pos == p;
                    assert(self@[k].pos == p);
                }
                if e.pos == p {
                    assert(self@[self@.len() - 1].pos == p);
                }
                if seq_has_pos(self@, p) {
                    let k = choose|k: int| 0 <= k < self@.len() && self@[k].pos == p;
                    if k < base.len() {
                        assert(base[k].pos == p);
                    }
                }
            }
            assert forall|k: int|
                0 <= k < self@.len() implies came_from(base, #[trigger] self@[k]) || self@[k]
                == e by {
                if k < base.len() {
                    assert(base[k] == self@[k]);
                }
            }
        }
        let mut j: usize = self.entries.len() - 1;
        while j > 0
            invariant
                base == old(self)@,
                j < self@.len(),
                self@.len() == base.len() + 1,
                forall|i: int|
                    1 <= i < self@.len() && i != j ==> self@[(i - 1) / 2].key <= (
                    #[trigger] self@[i]).key,
                forall|i: int|
                    1 <= i < self@.len() && (i - 1) / 2 == j && j > 0 ==> self@[(j - 1)
                        / 2].key <= (#[trigger] self@[i]).key,
                self@.to_multiset() == base.to_multiset().insert(e),
                forall|p: Position| #[trigger]
                    seq_has_pos(self@, p) <==> (seq_has_pos(base, p) || e.pos == p),
                forall|k: int|
                    0 <= k < self@.len() ==> came_from(base, #[trigger] self@[k]) || self@[k]
                        == e,
            decreases j,
        {
            let parent = (j - 1) / 2;
            if self.entries[parent].key > self.entries[j].key {
                let ghost before = self@;
                self.swap_at(parent, j);
                proof {
                    lemma_swap_has_pos(before, self@, parent as int, j as int);
                    assert forall|k: int|
                        0 <= k < self@.len() implies came_from(base, #[trigger] self@[k])
                        || self@[k] == e by {
                        let m0 = choose|m0: int| 0 <= m0 < before.len() && before[m0] == self@[k];
                    }
                }
                j = parent;
            } else {
                return ;
            }
        }
    }

    /// Lets an out-of-place root sink down to where the shape holds again.
    fn sift_down(&mut self)
        requires
            old(self)@.len() > 0,
            forall|i: int|
                3 <= i < old(self)@.len() ==> old(self)@[(i - 1) / 2].key <= (#[trigger] old(
                    self,
                )@[i]).key,
        ensures
            heap_wf(final(self)@),
            final(self)@.len() == old(self)@.len(),
            final(self)@.to_multiset() == old(self)@.to_multiset(),
            forall|p: Position| #[trigger]
                seq_has_pos(final(self)@, p) <==> seq_has_pos(old(self)@, p),
            forall|k: int|
                0 <= k < final(self)@.len() ==> came_from(old(self)@, #[trigger] (final(self)@[k])),
    {
        let n = self.entries.len();
        let mut j: usize = 0;
        proof {
            assert forall|k: int|
                0 <= k < self@.len() implies came_from(old(self)@, #[trigger] self@[k]) by {
                assert(old(self)@[k] == self@[k]);
            }
        }
        loop
            invariant
                n == self@.len(),
                n == old(self)@.len(),
                j < n,
                forall|i: int|
                    1 <= i < self@.len() && (i - 1) / 2 != j ==> self@[(i - 1) / 2].key <= (
                    #[trigger] self@[i]).key,
                forall|i: int|
                    1 <= i < self@.len() && (i - 1) / 2 == j && j > 0 ==> self@[(j - 1)
                        / 2].key <= (#[trigger] self@[i]).key,
                self@.to_multiset() == old(self)@.to_multiset(),
                forall|p: Position| #[trigger]
                    seq_has_pos(self@, p) <==> seq_has_pos(old(self)@, p),
                forall|k: int|
                    0 <= k < self@.len() ==> came_from(old(self)@, #[trigger] self@[k]),
            decreases n - j,
        {
            if j >= n / 2 {
                proof {
                    assert forall|i: int|
                        1 <= i < self@.len() implies self@[(i - 1) / 2].key <= (
                        #[trigger] self@[i]).key by {
                        assert((i - 1) / 2 < n / 2);
                    }
                }
                return ;
            }
            let left = 2 * j + 1;
            let right = 2 * j + 2;
            let mut c = left;
            if right < n && self.entries[right].key < self.entries[left].key {
                c = right;
            }
            proof {
                assert((left - 1) / 2 == j);
                assert((right - 1) / 2 == j);
            }
            if self.entries[c].key < self.entries[j].key {
                let ghost before = self@;
                self.swap_at(j, c);
                proof {
                    lemma_swap_has_pos(before, self@, j as int, c as int);
                    assert forall|k: int|
                        0 <= k < self@.len() implies came_from(old(self)@, #[trigger] self@[k]) by {
                        let m0 = choose|m0: int| 0 <= m0 < before.len() && before[m0] == self@[k];
                    }
                    assert forall|i: int|
                        1 <= i < self@.len() && (i - 1) / 2 != c implies self@[(i - 1) / 2].key
                        <= (#[trigger] self@[i]).key by {
                        if (i - 1) / 2 == j {
                            assert(i == left || i == right);
                            assert(self@[j as int].key == before[c as int].key);
                            assert(before[c as int].key <= before[i].key);
                        }
                    }
                    assert forall|i: int|
                        1 <= i < self@.len() && (i - 1) / 2 == c implies self@[(c - 1)
                            / 2].key <= (#[trigger] self@[i]).key by {
                        assert(self@[i] == before[i]);
                        assert(before[c as int].key <= before[i].key);
                        assert(self@[(c - 1) / 2] == self@[j as int]);
                        assert(self@[j as int].key == before[c as int].key);
                    }
                }
                j = c;
            } else {
                proof {
                    assert forall|i: int|
                        1 <= i < self@.len() implies self@[(i - 1) / 2].key <= (
                        #[trigger] self@[i]).key by {
                        if (i - 1) / 2 == j {
                            assert(i == left || i == right);
                            assert(self@[c as int].key <= self@[i].key);
                        }
                    }
                }
                return ;
            }
        }
    }

    /// Removes and returns an entry with the least key, or nothing when the
    /// store is empty. Entries for every position other than the returned
    /// one survive.
    pub fn pop(&mut self) -> (r: Option<EntropyEntry>)
        requires
            heap_wf(old(self)@),
        ensures
            heap_wf(final(self)@),
            old(self)@.len() == 0 ==> r.is_none() && *final(self) == *old(self),
            old(self)@.len() > 0 ==> r.is_some(),
            r matches Some(e) ==> exists|j: int|
                0 <= j < old(self)@.len() && old(self)@[j] == e,
            r matches Some(e) ==> forall|i: int|
                0 <= i < old(self)@.len() ==> e.key <= old(self)@[i].key,
            r matches Some(e) ==> final(self)@.len() == old(self)@.len() - 1,
            r matches Some(e) ==> final(self)@.to_multiset() == old(self)@.to_multiset().remove(
                e,
            ),
            r matches Some(e) ==> forall|p: Position|
                #[trigger] seq_has_pos(final(self)@, p) ==> seq_has_pos(old(self)@, p),
            r matches Some(e) ==> forall|p: Position|
                #[trigger] seq_has_pos(old(self)@, p) && p != e.pos ==> seq_has_pos(
                    final(self)@,
                    p,
                ),
    {
        let n = self.entries.len();
        if n == 0 {
            return None;
        }
        proof {
            assert forall|i: int|
                0 <= i < self@.len() implies self@[0].key <= (#[trigger] self@[i]).key by {
                lemma_root_min(self@, i);
            }
        }
        let ghost before = self@;
        let e = self.entries.swap_remove(0);
        proof {
            broadcast use vstd::seq_lib::group_to_multiset_ensures;

            let after = self.entries@;
            assert(after =~= before.update(0, before.last()).drop_last());
            let s1 = before.update(0, before.last());
            lemma_update_ms(before, 0, before.last());
            assert(s1.drop_last() =~= s1.remove(s1.len() - 1));
            assert(s1.remove(s1.len() - 1).to_multiset() == s1.to_multiset().remove(
                s1[s1.len() - 1],
            ));
            assert(s1[s1.len() - 1] == before.last());
            assert(before.contains(before[0]));
            assert(before.to_multiset().count(before[0]) > 0);
            assert(after.to_multiset() =~= before.to_multiset().remove(e));
            assert forall|p: Position| #[trigger]
                seq_has_pos(after, p) implies seq_has_pos(before, p) by {
                let k = choose|k: int| 0 <= k < after.len() && after[k].pos == p;
                if k == 0 {
                    assert(before[before.len() - 1].pos == p);
                } else {
                    assert(before[k].pos == p);
                }
            }
            assert forall|p: Position| #[trigger]
                seq_has_pos(before, p) && p != e.pos implies seq_has_pos(after, p) by {
                let k = choose|k: int| 0 <= k < before.len() && before[k].pos == p;
                if k == before.len() - 1 {
                    if k != 0 {
                        assert(after[0].pos == p);
                    }
                } else {
                    assert(k != 0);
                    assert(after[k].pos == p);
                }
            }
            assert forall|i: int|
                3 <= i < self@.len() implies self@[(i - 1) / 2].key <= (#[trigger] self@[i]).key by {
                assert(self@[i] == before[i]);
                assert(self@[(i - 1) / 2] == before[(i - 1) / 2]);
            }
        }
        if self.entries.len() > 0 {
            let ghost mid = self@;
            self.sift_down();
            proof {
                assert forall|p: Position| #[trigger]
                    seq_has_pos(self@, p) implies seq_has_pos(before, p) by {
                    assert(seq_has_pos(mid, p));
                }
                assert forall|p: Position| #[trigger]
                    seq_has_pos(before, p) && p != e.pos implies seq_has_pos(self@, p) by {
                    assert(seq_has_pos(mid, p));
                }
            }
        }
        Some(e)
    }
}

} // verus!
