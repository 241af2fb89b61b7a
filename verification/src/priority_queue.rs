//! A minimum-priority queue with integer keys.

use vstd::prelude::*;

verus! {

/// Holds `(key, element)` entries and always yields an entry whose key is
/// minimal among those currently held.  Ties between equal keys are broken
/// arbitrarily.  Backed by a plain vector: `dequeue` scans for a minimal key,
/// and `contains` is a linear scan by element equality.
pub struct MinPrioriyQueue {
    entries: Vec<(u64, u64)>,
}

impl View for MinPrioriyQueue {
    type V = Seq<(u64, u64)>;

    closed spec fn view(&self) -> Seq<(u64, u64)> {
        self.entries@
    }
}

/// `k` is no larger than any key in `s`.
pub open spec fn min_key_of(s: Seq<(u64, u64)>, k: u64) -> bool {
    forall|j: int| 0 <= j < s.len() ==> k <= #[trigger] s[j].0
}

/// The elements of the entries of `s`, keys dropped, in storage order.
pub open spec fn elems_of(s: Seq<(u64, u64)>) -> Seq<u64> {
    s.map_values(|p: (u64, u64)| p.1)
}

/// `t` is `s` with a minimal-key entry holding `e` removed at position `i`.
pub open spec fn removed_min(s: Seq<(u64, u64)>, t: Seq<(u64, u64)>, e: u64, i: int) -> bool {
    &&& 0 <= i < s.len()
    &&& s[i].1 == e
    &&& min_key_of(s, s[i].0)
    &&& t == s.remove(i)
}

/// One possible outcome of `dequeue`: on an empty queue it returns `None` and
/// changes nothing; otherwise it removes the minimal-key entry at position `i`
/// and returns its element.
pub open spec fn dequeue_step(s: Seq<(u64, u64)>, t: Seq<(u64, u64)>, r: Option<u64>, i: int) -> bool {
    match r {
        None => s.len() == 0 && t == s,
        Some(e) => s.len() > 0 && removed_min(s, t, e, i),
    }
}

/// What `dequeue` does: on an empty queue it returns `None` and changes
/// nothing; otherwise it removes one minimal-key entry and returns its
/// element.
pub open spec fn dequeue_post(s: Seq<(u64, u64)>, t: Seq<(u64, u64)>, r: Option<u64>) -> bool {
    exists|i: int| dequeue_step(s, t, r, i)
}

impl MinPrioriyQueue {
    /// Creates an empty queue.
    pub fn new() -> (q: Self)
        ensures
            q@ =~= Seq::<(u64, u64)>::empty(),
    {
        MinPrioriyQueue { entries: Vec::new() }
    }

    /// Adds an entry.
    pub fn enqueue(&mut self, priority: u64, element: u64)
        ensures
            final(self)@ == old(self)@.push((priority, element)),
    {
        self.entries.push((priority, element));
    }

    /// Removes and returns an element whose key is minimal among the entries
    /// held, or `None` when the queue is empty.
    pub fn dequeue(&mut self) -> (r: Option<u64>)
        ensures
            dequeue_post(old(self)@, final(self)@, r),
    {
        if self.entries.len() == 0 {
            proof {
                assert(dequeue_step(self@, self@, None::<u64>, 0));
            }
            return None;
        }
        let ghost s = self.entries@;
        let mut best: usize = 0;
        let mut i: usize = 1;
        while i < self.entries.len()
            invariant
                0 < self.entries@.len(),
                (best as int) < (i as int),
                i <= self.entries@.len(),
                forall|j: int|
                    0 <= j < i ==> self.entries@[best as int].0 <= #[trigger] self.entries@[j].0,
            decreases self.entries@.len() - i,
        {
            if self.entries[i].0 < self.entries[best].0 {
                best = i;
            }
            i = i + 1;
        }
        let entry = self.entries.remove(best);
        proof {
            assert(dequeue_step(s, self@, Some(entry.1), best as int));
        }
        Some(entry.1)
    }

    /// Whether some entry holds `element`, by a linear scan.
    pub fn contains(&self, element: u64) -> (r: bool)
        ensures
            r == elems_of(self@).contains(element),
    {
        let mut i: usize = 0;
        while i < self.entries.len()
            invariant
                i <= self@.len(),
                forall|j: int| 0 <= j < i ==> #[trigger] self@[j].1 != element,
            decreases self@.len() - i,
        {
            if self.entries[i].1 == element {
                proof {
                    assert(elems_of(self@)[i as int] == element);
                }
                return true;
            }
            i = i + 1;
        }
        proof {
            assert forall|k: int| 0 <= k < elems_of(self@).len() implies elems_of(self@)[k]
                != element by {
                assert(elems_of(self@)[k] == self@[k].1);
            }
        }
        false
    }

    /// Whether the queue holds no entry.
    pub fn is_empty(&self) -> (r: bool)
        ensures
            r == (self@.len() == 0),
    {
        self.entries.len() == 0
    }

    /// The elements held, keys dropped, in storage order.
    pub fn to_elements(&self) -> (r: Vec<u64>)
        ensures
            r@ == elems_of(self@),
    {
        let mut out: Vec<u64> = Vec::new();
        let mut i: usize = 0;
        while i < self.entries.len()
            invariant
                i <= self@.len(),
                out@ =~= elems_of(self@).subrange(0, i as int),
            decreases self@.len() - i,
        {
            out.push(self.entries[i].1);
            i = i + 1;
        }
        proof {
            assert(out@ =~= elems_of(self@));
        }
        out
    }
}

impl Default for MinPrioriyQueue {
    /// An empty queue.
    fn default() -> (q: Self)
        ensures
            q@ =~= Seq::<(u64, u64)>::empty(),
    {
        MinPrioriyQueue::new()
    }
}

/// Pushing an entry appends its element to the element view.
pub proof fn lemma_elems_push(s: Seq<(u64, u64)>, p: (u64, u64))
    ensures
        elems_of(s.push(p)) =~= elems_of(s).push(p.1),
{
    assert forall|i: int| 0 <= i < s.len() + 1 implies elems_of(s.push(p))[i] == elems_of(s).push(
        p.1,
    )[i] by {
        if i < s.len() {
            assert(s.push(p)[i] == s[i]);
        } else {
            assert(s.push(p)[i] == p);
        }
    }
}

/// Removing an entry removes its element from the element view.
pub proof fn lemma_elems_remove(s: Seq<(u64, u64)>, i: int)
    requires
        0 <= i < s.len(),
    ensures
        elems_of(s.remove(i)) =~= elems_of(s).remove(i),
{
    s.remove_ensures(i);
    elems_of(s).remove_ensures(i);
    assert forall|j: int| 0 <= j < s.len() - 1 implies elems_of(s.remove(i))[j] == elems_of(
        s,
    ).remove(i)[j] by {
        if j < i {
            assert(s.remove(i)[j] == s[j]);
            assert(elems_of(s).remove(i)[j] == elems_of(s)[j]);
        } else {
            assert(s.remove(i)[j] == s[j + 1]);
            assert(elems_of(s).remove(i)[j] == elems_of(s)[j + 1]);
        }
    }
}

/// Law: repeated dequeues yield entries in non-decreasing key order.  When a
/// dequeue removes a minimal-key entry at position `i`, every entry still in
/// the queue — in particular the one the next dequeue removes — has a key at
/// least as large.
pub proof fn lemma_dequeue_keys_nondecreasing(s: Seq<(u64, u64)>, i: int, j: int)
    requires
        0 <= i < s.len(),
        min_key_of(s, s[i].0),
        0 <= j < s.remove(i).len(),
    ensures
        s[i].0 <= s.remove(i)[j].0,
{
    s.remove_ensures(i);
    if j < i {
        assert(s.remove(i)[j] == s[j]);
    } else {
        assert(s.remove(i)[j] == s[j + 1]);
    }
}

} // verus!
