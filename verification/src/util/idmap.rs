//! A sparse pool of elements addressed by stable ids.
//!
//! The pool is a row of slots, each empty or occupied. An element's id is the
//! index of its slot and stays the same for as long as the element lives. The
//! ids of empty slots are kept on a stack, so that `insert_free` reuses the
//! slot that was emptied last.
use vstd::prelude::*;

verus! {

/// A pool of elements, each in the slot that its id names.
pub struct IdMap<T> {
    vec: Vec<Option<T>>,
    free_slots: Vec<usize>,
}

impl<T> View for IdMap<T> {
    type V = Seq<Option<T>>;

    /// The row of slots.
    closed spec fn view(&self) -> Seq<Option<T>> {
        self.vec@
    }
}

/// The elements that a row of slots holds, in index order.
pub open spec fn occupants<T>(slots: Seq<Option<T>>) -> Seq<T>
    decreases slots.len(),
{
    if slots.len() == 0 {
        Seq::empty()
    } else {
        match slots.last() {
            Some(e) => occupants(slots.drop_last()).push(e),
            None => occupants(slots.drop_last()),
        }
    }
}

/// The ids of the occupied slots, in ascending order.
pub open spec fn occupied_ids<T>(slots: Seq<Option<T>>) -> Seq<usize>
    decreases slots.len(),
{
    if slots.len() == 0 {
        Seq::empty()
    } else if slots.last() is Some {
        occupied_ids(slots.drop_last()).push((slots.len() - 1) as usize)
    } else {
        occupied_ids(slots.drop_last())
    }
}

/// A row of slots, lengthened with empty slots until it has at least `n`.
pub open spec fn padded<T>(slots: Seq<Option<T>>, n: int) -> Seq<Option<T>> {
    if slots.len() >= n {
        slots
    } else {
        slots + Seq::new((n - slots.len()) as nat, |i: int| None::<T>)
    }
}

/// The ids `lo, lo + 1, .., hi - 1`.
pub open spec fn id_range(lo: int, hi: int) -> Seq<usize> {
    if hi <= lo {
        Seq::empty()
    } else {
        Seq::new((hi - lo) as nat, |k: int| (lo + k) as usize)
    }
}

/// The ids below `n` for which `gone` holds, in ascending order.
pub open spec fn ids_where(n: int, gone: spec_fn(int) -> bool) -> Seq<usize>
    decreases n,
{
    if n <= 0 {
        Seq::empty()
    } else if gone(n - 1) {
        ids_where(n - 1, gone).push((n - 1) as usize)
    } else {
        ids_where(n - 1, gone)
    }
}

impl<T> IdMap<T> {
    /// The stack of empty slots; its last entry is reused first.
    pub closed spec fn free(&self) -> Seq<usize> {
        self.free_slots@
    }

    /// The stack of empty slots names every empty slot once, and nothing else.
    pub open spec fn wf(&self) -> bool {
        &&& self.free().no_duplicates()
        &&& forall|k: int| 0 <= k < self.free().len() ==> (#[trigger] self.free()[k]) < self@.len()
        &&& forall|i: int|
            0 <= i < self@.len() ==> ((#[trigger] self@[i]) is None <==> self.free().contains(
                i as usize,
            ))
    }

    /// The row has no more slots than there are ids.
    pub proof fn lemma_len_fits(&self)
        ensures
            self@.len() <= usize::MAX,
    {
        broadcast use vstd::std_specs::vec::axiom_spec_len;

        assert(self.vec.len() == self.vec@.len());
    }

    /// Whether slot `id` exists and is occupied.
    pub open spec fn spec_has_key(&self, id: usize) -> bool {
        id < self@.len() && self@[id as int] is Some
    }

    /// The element in slot `id`.
    pub open spec fn spec_at(&self, id: usize) -> T
        recommends
            self.spec_has_key(id),
    {
        self@[id as int]->0
    }

    /// An empty pool.
    pub fn new() -> (m: Self)
        ensures
            m@ == Seq::<Option<T>>::empty(),
            m.free() == Seq::<usize>::empty(),
            m.wf(),
    {
        Self { vec: Vec::new(), free_slots: Vec::new() }
    }

    /// Puts `value` into slot `id`, which must not be occupied. A slot beyond
    /// the end of the row is created, together with empty slots before it;
    /// those are stacked in ascending order.
    pub fn insert(&mut self, id: usize, value: T)
        requires
            old(self).wf(),
            !old(self).spec_has_key(id),
            id < usize::MAX,
        ensures
            final(self).wf(),
            final(self)@ == padded(old(self)@, id + 1).update(id as int, Some(value)),
            id < old(self)@.len() ==> final(self).free() == old(self).free().update(
                old(self).free().index_of(id),
                old(self).free().last(),
            ).drop_last(),
            id >= old(self)@.len() ==> final(self).free() == old(self).free() + id_range(
                old(self)@.len() as int,
                id as int,
            ),
    {
        let len = self.vec.len();
        if id < len {
            let mut k: usize = 0;
            proof {
                assert(old(self)@[id as int] is None);
                assert(self.free().contains(id));
                assert(self.free().index_of(id) < self.free().len());
            }
            while self.free_slots[k] != id
                invariant
                    self.free_slots@ == old(self).free(),
                    self.free_slots@.contains(id),
                    0 <= k < self.free_slots.len(),
                    forall|j: int| 0 <= j < k ==> self.free_slots@[j] != id,
                decreases self.free_slots.len() - k,
            {
                proof {
                    let w = self.free_slots@.index_of(id);
                    assert(self.free_slots@[w] == id);
                    assert(w > k);
                }
                k += 1;
            }
            proof {
                old(self).free().index_of_first_ensures(id);
                let w = old(self).free().index_of(id);
                assert(old(self).free()[w] == id);
                assert(w == k);
            }
            self.free_slots.swap_remove(k);
            self.vec[id] = Some(value);
            proof {
                let before = old(self).free();
                let after = self.free_slots@;
                let n = before.len() as int;
                assert forall|a: int| 0 <= a < after.len() implies (#[trigger] after[a]) != id
                    && before.contains(after[a]) by {
                    if a == k {
                        assert(after[a] == before[n - 1]);
                    } else {
                        assert(after[a] == before[a]);
                    }
                }
                assert forall|a: int, b: int|
                    0 <= a < after.len() && 0 <= b < after.len() && a != b implies after[a]
                    != after[b] by {
                    let pa = if a == k { n - 1 } else { a };
                    let pb = if b == k { n - 1 } else { b };
                    assert(after[a] == before[pa]);
                    assert(after[b] == before[pb]);
                }
                assert forall|i: int| 0 <= i < self@.len() implies ((#[trigger] self@[i]) is None
                    <==> after.contains(i as usize)) by {
                    if i == id {
                        assert(!after.contains(id));
                    } else {
                        assert(self@[i] == old(self)@[i]);
                        if before.contains(i as usize) {
                            let w = before.index_of(i as usize);
                            assert(before[w] == i as usize);
                            if w == n - 1 {
                                assert(after[k as int] == i as usize);
                            } else {
                                assert(after[w] == i as usize);
                            }
                        }
                    }
                }
                assert(self@ =~= padded(old(self)@, id + 1).update(id as int, Some(value)));
            }
        } else {
            let mut i: usize = len;
            while i < id
                invariant
                    len <= i <= id,
                    len == old(self)@.len(),
                    self.vec@ == padded(old(self)@, i as int),
                    self.free_slots@ == old(self).free() + id_range(len as int, i as int),
                decreases id - i,
            {
                self.free_slots.push(i);
                self.vec.push(None);
                i += 1;
                proof {
                    assert(self.vec@ =~= padded(old(self)@, i as int));
                    assert(self.free_slots@ =~= old(self).free() + id_range(len as int, i as int));
                }
            }
            self.vec.push(Some(value));
            proof {
                let before = old(self).free();
                let added = id_range(len as int, id as int);
                let after = self.free_slots@;
                assert(self@ =~= padded(old(self)@, id + 1).update(id as int, Some(value)));
                assert forall|a: int, b: int|
                    0 <= a < after.len() && 0 <= b < after.len() && a != b implies after[a]
                    != after[b] by {
                    if a < before.len() {
                        assert(after[a] == before[a]);
                    } else {
                        assert(after[a] == added[a - before.len()]);
                    }
                    if b < before.len() {
                        assert(after[b] == before[b]);
                    } else {
                        assert(after[b] == added[b - before.len()]);
                    }
                }
                assert forall|i: int| 0 <= i < self@.len() implies ((#[trigger] self@[i]) is None
                    <==> after.contains(i as usize)) by {
                    if i < len {
                        assert(self@[i] == old(self)@[i]);
                        if before.contains(i as usize) {
                            let w = before.index_of(i as usize);
                            assert(after[w] == i as usize);
                        }
                        if after.contains(i as usize) {
                            let w = after.index_of(i as usize);
                            assert(after[w] == i as usize);
                            if w >= before.len() {
                                assert(after[w] == added[w - before.len()]);
                            } else {
                                assert(before[w] == i as usize);
                            }
                        }
                    } else if i < id {
                        assert(after[before.len() + (i - len)] == added[i - len]);
                        assert(added[i - len] == i as usize);
                    } else {
                        if after.contains(i as usize) {
                            let w = after.index_of(i as usize);
                            assert(after[w] == i as usize);
                            if w >= before.len() {
                                assert(after[w] == added[w - before.len()]);
                            } else {
                                assert(before[w] == i as usize);
                            }
                        }
                    }
                }
                assert forall|k: int| 0 <= k < after.len() implies (#[trigger] after[k])
                    < self@.len() by {
                    if k < before.len() {
                        assert(after[k] == before[k]);
                    } else {
                        assert(after[k] == added[k - before.len()]);
                    }
                }
            }
        }
    }

    /// Empties slot `id` and puts it on the stack of empty slots. Nothing
    /// happens where the slot does not exist or is empty already.
    pub fn remove(&mut self, id: usize)
        requires
            old(self).wf(),
        ensures
            final(self).wf(),
            old(self).spec_has_key(id) ==> final(self)@ == old(self)@.update(id as int, None)
                && final(self).free() == old(self).free().push(id),
            !old(self).spec_has_key(id) ==> final(self)@ == old(self)@ && final(self).free()
                == old(self).free(),
    {
        if id < self.vec.len() && self.vec[id].is_some() {
            self.vec[id] = None;
            self.free_slots.push(id);
            proof {
                let before = old(self).free();
                let after = self.free_slots@;
                assert(!before.contains(id));
                assert forall|i: int| 0 <= i < self@.len() implies ((#[trigger] self@[i]) is None
                    <==> after.contains(i as usize)) by {
                    if i == id {
                        assert(after[before.len() as int] == id);
                    } else {
                        assert(self@[i] == old(self)@[i]);
                        if before.contains(i as usize) {
                            let w = before.index_of(i as usize);
                            assert(after[w] == i as usize);
                        }
                        if after.contains(i as usize) {
                            let w = after.index_of(i as usize);
                            assert(after[w] == i as usize);
                            assert(before[w] == i as usize);
                        }
                    }
                }
            }
        }
    }

    /// The element in slot `id`, if the slot exists and is occupied.
    pub fn get(&self, id: usize) -> (r: Option<&T>)
        ensures
            self.spec_has_key(id) ==> r == Some(&self.spec_at(id)),
            !self.spec_has_key(id) ==> r is None,
    {
        if id < self.vec.len() {
            self.vec[id].as_ref()
        } else {
            None
        }
    }

    /// The element in slot `id`, to be changed in place.
    pub fn get_mut(&mut self, id: usize) -> (r: Option<&mut T>)
        ensures
            match r {
                Some(e) => old(self).spec_has_key(id) && *e == old(self).spec_at(id)
                    && final(self)@ == old(self)@.update(id as int, Some(*final(e))),
                None => !old(self).spec_has_key(id) && final(self)@ == old(self)@,
            },
            final(self).free() == old(self).free(),
            old(self).wf() ==> final(self).wf(),
    {
        if id < self.vec.len() {
            match &mut self.vec[id] {
                Some(e) => Some(e),
                None => None,
            }
        } else {
            None
        }
    }

    #[verifier::when_used_as_spec(spec_has_key)]
    pub fn has_key(&self, id: usize) -> (b: bool)
        ensures
            b == self.spec_has_key(id),
    {
        id < self.vec.len() && self.vec[id].is_some()
    }

    /// Puts `value` into the slot that was emptied last, or into a new slot at
    /// the end where none is empty, and returns the slot's id.
    pub fn insert_free(&mut self, value: T) -> (id: usize)
        requires
            old(self).wf(),
        ensures
            final(self).wf(),
            old(self).free().len() == 0 ==> id == old(self)@.len() && final(self)@
                == old(self)@.push(Some(value)) && final(self).free() == old(self).free(),
            old(self).free().len() > 0 ==> id == old(self).free().last() && final(self)@
                == old(self)@.update(id as int, Some(value)) && final(self).free()
                    == old(self).free().drop_last(),
            !old(self).spec_has_key(id),
            final(self).spec_has_key(id),
    {
        match self.free_slots.pop() {
            None => {
                let ind = self.vec.len();
                self.vec.push(Some(value));
                proof {
                    assert forall|i: int| 0 <= i < self@.len() implies ((#[trigger] self@[i])
                        is None <==> self.free().contains(i as usize)) by {
                        if i < ind {
                            assert(self@[i] == old(self)@[i]);
                        }
                    }
                }
                ind
            },
            Some(ind) => {
                proof {
                    let before = old(self).free();
                    assert(before[before.len() - 1] == ind);
                    assert(before.contains(ind));
                }
                self.vec[ind] = Some(value);
                proof {
                    let before = old(self).free();
                    let after = self.free_slots@;
                    assert(after =~= before.drop_last());
                    assert(self@.len() == self.vec.len());
                    assert forall|i: int| 0 <= i < self@.len() implies ((#[trigger] self@[i])
                        is None <==> after.contains(i as usize)) by {
                        if i == ind {
                            if after.contains(ind) {
                                let w = after.index_of(ind);
                                assert(before[w] == ind);
                            }
                        } else {
                            assert(self@[i] == old(self)@[i]);
                            if before.contains(i as usize) {
                                let w = before.index_of(i as usize);
                                assert(before[w] == i as usize);
                                assert(w != before.len() - 1);
                                assert(after[w] == i as usize);
                            }
                            if after.contains(i as usize) {
                                let w = after.index_of(i as usize);
                                assert(before[w] == i as usize);
                            }
                        }
                    }
                }
                ind
            },
        }
    }

    /// The elements of the occupied slots, in index order.
    pub fn iter(&self) -> (r: Vec<&T>)
        ensures
            r@.len() == occupants(self@).len(),
            forall|k: int| 0 <= k < r@.len() ==> *(#[trigger] r@[k]) == occupants(self@)[k],
    {
        let mut out: Vec<&T> = Vec::new();
        let mut i: usize = 0;
        while i < self.vec.len()
            invariant
                0 <= i <= self.vec.len(),
                out@.len() == occupants(self@.take(i as int)).len(),
                forall|k: int|
                    0 <= k < out@.len() ==> *(#[trigger] out@[k]) == occupants(
                        self@.take(i as int),
                    )[k],
            decreases self.vec.len() - i,
        {
            proof {
                assert(self@.take(i + 1).drop_last() =~= self@.take(i as int));
                assert(self@.take(i + 1).last() == self@[i as int]);
            }
            match &self.vec[i] {
                Some(e) => {
                    out.push(e);
                },
                None => {},
            }
            i += 1;
        }
        proof {
            assert(self@.take(i as int) =~= self@);
        }
        out
    }

    /// The ids of the occupied slots, in ascending order: the handles through
    /// which `get_mut` reaches each element in turn.
    pub fn iter_mut(&mut self) -> (r: Vec<usize>)
        ensures
            r@ == occupied_ids(old(self)@),
            final(self)@ == old(self)@,
            final(self).free() == old(self).free(),
            forall|k: int| 0 <= k < r@.len() ==> final(self).spec_has_key(#[trigger] r@[k]),
    {
        let mut out: Vec<usize> = Vec::new();
        let mut i: usize = 0;
        while i < self.vec.len()
            invariant
                0 <= i <= self.vec.len(),
                self@ == old(self)@,
                self.free() == old(self).free(),
                out@ == occupied_ids(self@.take(i as int)),
                forall|k: int| 0 <= k < out@.len() ==> self.spec_has_key(#[trigger] out@[k]),
            decreases self.vec.len() - i,
        {
            proof {
                assert(self@.take(i + 1).drop_last() =~= self@.take(i as int));
                assert(self@.take(i + 1).last() == self@[i as int]);
            }
            if self.vec[i].is_some() {
                out.push(i);
            }
            i += 1;
        }
        proof {
            assert(self@.take(i as int) =~= self@);
        }
        out
    }

    /// The number of slots, empty ones included.
    pub fn len(&self) -> (n: usize)
        ensures
            n == self@.len(),
    {
        self.vec.len()
    }

    /// Empties every slot whose element `predicate` accepts, in index order.
    pub fn remove_where<P>(&mut self, predicate: P) where P: Fn(&T) -> bool
        requires
            old(self).wf(),
            forall|i: int|
                0 <= i < old(self)@.len() && (#[trigger] old(self)@[i]) is Some
                    ==> predicate.requires((&old(self)@[i]->0,)),
        ensures
            final(self).wf(),
            final(self)@.len() == old(self)@.len(),
            forall|i: int|
                0 <= i < old(self)@.len() ==> {
                    let before = #[trigger] old(self)@[i];
                    let after = final(self)@[i];
                    &&& before is None ==> after is None
                    &&& before is Some && after is None ==> predicate.ensures((&before->0,), true)
                    &&& after is Some ==> after == before && predicate.ensures(
                        (&before->0,),
                        false,
                    )
                },
            final(self).free() == old(self).free() + ids_where(
                old(self)@.len() as int,
                |i: int| old(self)@[i] is Some && final(self)@[i] is None,
            ),
    {
        let ghost gone = |i: int| old(self)@[i] is Some && final(self)@[i] is None;
        let mut i: usize = 0;
        while i < self.vec.len()
            invariant
                0 <= i <= self.vec.len(),
                self@.len() == old(self)@.len(),
                old(self).wf(),
                forall|j: int|
                    0 <= j < old(self)@.len() && (#[trigger] old(self)@[j]) is Some
                        ==> predicate.requires((&old(self)@[j]->0,)),
                forall|j: int| i <= j < self@.len() ==> (#[trigger] self@[j]) == old(self)@[j],
                forall|j: int|
                    0 <= j < i ==> {
                        let before = #[trigger] old(self)@[j];
                        let after = self@[j];
                        &&& before is None ==> after is None
                        &&& before is Some && after is None ==> predicate.ensures(
                            (&before->0,),
                            true,
                        )
                        &&& after is Some ==> after == before && predicate.ensures(
                            (&before->0,),
                            false,
                        )
                    },
                self.free() == old(self).free() + ids_where(
                    i as int,
                    |j: int| old(self)@[j] is Some && self@[j] is None,
                ),
            decreases self.vec.len() - i,
        {
            let ghost prev = self@;
            let ghost prev_gone = |j: int| old(self)@[j] is Some && prev[j] is None;
            let remove = match &self.vec[i] {
                Some(item) => predicate(item),
                None => false,
            };
            if remove {
                self.vec[i] = None;
                self.free_slots.push(i);
            }
            proof {
                let now_gone = |j: int| old(self)@[j] is Some && self@[j] is None;
                lemma_ids_where_agree(i as int, prev_gone, now_gone);
                assert(self.free() =~= old(self).free() + ids_where(i + 1, now_gone));
            }
            i += 1;
        }
        proof {
            let now_gone = |j: int| old(self)@[j] is Some && self@[j] is None;
            let n = self@.len() as int;
            let before = old(self).free();
            let added = ids_where(n, now_gone);
            let after = self.free();
            lemma_ids_where_members(n, now_gone);
            assert forall|a: int, b: int|
                0 <= a < after.len() && 0 <= b < after.len() && a != b implies after[a]
                != after[b] by {
                if a < before.len() && b < before.len() {
                } else if a >= before.len() && b >= before.len() {
                    assert(after[a] == added[a - before.len()]);
                    assert(after[b] == added[b - before.len()]);
                } else {
                    let (x, y) = if a < before.len() {
                        (a, b)
                    } else {
                        (b, a)
                    };
                    assert(after[x] == before[x]);
                    assert(after[y] == added[y - before.len()]);
                    assert(added.contains(added[y - before.len()]));
                    assert(before.contains(before[x]));
                    let v = after[y] as int;
                    assert(now_gone(v));
                    assert(old(self)@[v] is Some);
                }
            }
            assert forall|k: int| 0 <= k < after.len() implies (#[trigger] after[k])
                < self@.len() by {
                if k < before.len() {
                    assert(after[k] == before[k]);
                } else {
                    assert(after[k] == added[k - before.len()]);
                    assert(added.contains(added[k - before.len()]));
                }
            }
            assert forall|i: int| 0 <= i < self@.len() implies ((#[trigger] self@[i]) is None
                <==> after.contains(i as usize)) by {
                let _ = old(self)@[i];
                if self@[i] is None {
                    if old(self)@[i] is None {
                        let w = before.index_of(i as usize);
                        assert(before.contains(i as usize));
                        assert(after[w] == i as usize);
                    } else {
                        assert(now_gone(i));
                        assert(added.contains(i as usize));
                        let w = added.index_of(i as usize);
                        assert(after[before.len() + w] == i as usize);
                    }
                }
                if after.contains(i as usize) {
                    let w = after.index_of(i as usize);
                    assert(after[w] == i as usize);
                    if w < before.len() {
                        assert(before[w] == i as usize);
                        assert(before.contains(i as usize));
                    } else {
                        assert(after[w] == added[w - before.len()]);
                        assert(added.contains(added[w - before.len()]));
                        assert(now_gone(i));
                    }
                }
            }
            assert(ids_where(n, now_gone) == ids_where(
                old(self)@.len() as int,
                |i: int| old(self)@[i] is Some && self@[i] is None,
            ));
        }
    }
}

/// `ids_where` looks at its predicate below `n` only.
pub proof fn lemma_ids_where_agree(n: int, p: spec_fn(int) -> bool, q: spec_fn(int) -> bool)
    requires
        forall|i: int| 0 <= i < n ==> (#[trigger] p(i)) == q(i),
    ensures
        ids_where(n, p) == ids_where(n, q),
    decreases n,
{
    if n > 0 {
        lemma_ids_where_agree(n - 1, p, q);
    }
}

/// `ids_where(n, p)` holds exactly the ids below `n` that satisfy `p`, each once
/// and in ascending order.
pub proof fn lemma_ids_where_members(n: int, p: spec_fn(int) -> bool)
    requires
        n <= usize::MAX,
    ensures
        forall|v: usize| #[trigger]
            ids_where(n, p).contains(v) <==> (0 <= v < n && p(v as int)),
        forall|a: int, b: int|
            0 <= a < b < ids_where(n, p).len() ==> ids_where(n, p)[a] < ids_where(n, p)[b],
        forall|a: int| 0 <= a < ids_where(n, p).len() ==> 0 <= #[trigger] ids_where(n, p)[a] < n,
    decreases n,
{
    if n > 0 {
        lemma_ids_where_members(n - 1, p);
        let s = ids_where(n - 1, p);
        let t = ids_where(n, p);
        if p(n - 1) {
            assert(t == s.push((n - 1) as usize));
            assert forall|v: usize| #[trigger] t.contains(v) <==> (0 <= v < n && p(v as int)) by {
                if t.contains(v) {
                    let w = t.index_of(v);
                    if w < s.len() {
                        assert(s[w] == v);
                        assert(s.contains(v));
                    }
                }
                if 0 <= v < n && p(v as int) {
                    if v == n - 1 {
                        assert(t[s.len() as int] == v);
                    } else {
                        assert(s.contains(v));
                        let w = s.index_of(v);
                        assert(t[w] == v);
                    }
                }
            }
            assert forall|a: int, b: int| 0 <= a < b < t.len() implies t[a] < t[b] by {
                assert(t[a] == s[a]);
                if b < s.len() {
                    assert(t[b] == s[b]);
                }
            }
        } else {
            assert(t == s);
        }
    }
}

} // verus!
