//! A gap buffer holding the sorts of the editor.
//!
//! The storage is a vector of slots; the slots in `[gap_start, gap_end)` form
//! the gap and hold nothing, every other slot holds one entry.  The logical
//! content of the buffer is the entries before the gap followed by the
//! entries after it.
use vstd::prelude::*;

verus! {

/// Number of slots a fresh buffer starts with.
pub const INITIAL_CAPACITY: usize = 1024;

/// Gap buffer of entries, giving cheap insertion and deletion near the
/// position of the last edit.
pub struct SortBuffer<T> {
    buffer: Vec<Option<T>>,
    gap_start: usize,
    gap_end: usize,
}

impl<T> View for SortBuffer<T> {
    type V = Seq<T>;

    /// The entries in logical order: those before the gap, then those after it.
    closed spec fn view(&self) -> Seq<T> {
        Seq::new(
            (self.buffer@.len() - (self.gap_end - self.gap_start)) as nat,
            |i: int|
                if i < self.gap_start {
                    self.buffer@[i]->0
                } else {
                    self.buffer@[i + (self.gap_end - self.gap_start)]->0
                },
        )
    }
}

/// Storage slots `slots` hold exactly `content` with the gap `[gs, ge)`.
pub open spec fn slots_hold<T>(slots: Seq<Option<T>>, gs: int, ge: int) -> bool {
    &&& 0 <= gs <= ge <= slots.len() <= usize::MAX
    &&& slots.len() > 0
    &&& forall|i: int| 0 <= i < slots.len() ==> (#[trigger] slots[i] is Some <==> !(gs <= i < ge))
}

impl<T> SortBuffer<T> {
    /// Internal consistency: the gap lies inside the storage, and exactly the
    /// slots outside the gap are occupied.
    pub closed spec fn wf(&self) -> bool {
        slots_hold(self.buffer@, self.gap_start as int, self.gap_end as int)
    }

    /// Number of storage slots.
    pub closed spec fn capacity(&self) -> nat {
        self.buffer@.len()
    }

    /// Whether `n` more entries can be inserted without the storage size
    /// overflowing `usize` when it doubles.
    pub open spec fn has_room_for(&self, n: nat) -> bool {
        self@.len() + n <= usize::MAX / 2
    }

    proof fn lemma_capacity(&self)
        requires
            self.wf(),
        ensures
            self@.len() <= self.capacity(),
            self@.len() + (self.gap_end - self.gap_start) == self.capacity(),
    {
    }

    /// Create an empty buffer with room for `INITIAL_CAPACITY` entries.
    pub fn new() -> (r: Self)
        ensures
            r.wf(),
            r@ == Seq::<T>::empty(),
    {
        let mut buffer: Vec<Option<T>> = Vec::new();
        let mut i: usize = 0;
        while i < INITIAL_CAPACITY
            invariant
                i <= INITIAL_CAPACITY,
                buffer@.len() == i,
                forall|j: int| 0 <= j < i ==> #[trigger] buffer@[j] is None,
            decreases INITIAL_CAPACITY - i,
        {
            buffer.push(None);
            i = i + 1;
        }
        let r = SortBuffer { buffer, gap_start: 0, gap_end: INITIAL_CAPACITY };
        assert(r@ =~= Seq::<T>::empty());
        r
    }

    /// Create a buffer holding `sorts`, with twice as many slots (and at
    /// least `INITIAL_CAPACITY`) so that later edits have room.
    pub fn from_sorts(sorts: Vec<T>) -> (r: Self)
        requires
            sorts@.len() <= usize::MAX / 2,
        ensures
            r.wf(),
            r@ == sorts@,
    {
        let len = sorts.len();
        let doubled = len * 2;
        let capacity = if doubled >= INITIAL_CAPACITY { doubled } else { INITIAL_CAPACITY };
        let ghost initial = sorts@;
        let mut source = sorts;
        let mut reversed: Vec<T> = Vec::new();
        while source.len() > 0
            invariant
                reversed@.len() + source@.len() == initial.len(),
                forall|j: int| 0 <= j < source@.len() ==> #[trigger] source@[j] == initial[j],
                forall|j: int|
                    0 <= j < reversed@.len() ==> #[trigger] reversed@[j] == initial[initial.len()
                        - 1 - j],
            decreases source@.len(),
        {
            let x = source.pop().unwrap();
            reversed.push(x);
        }
        let mut buffer: Vec<Option<T>> = Vec::new();
        while reversed.len() > 0
            invariant
                buffer@.len() + reversed@.len() == initial.len(),
                forall|j: int|
                    0 <= j < reversed@.len() ==> #[trigger] reversed@[j] == initial[initial.len()
                        - 1 - j],
                forall|j: int| 0 <= j < buffer@.len() ==> #[trigger] buffer@[j] == Some(initial[j]),
            decreases reversed@.len(),
        {
            let x = reversed.pop().unwrap();
            buffer.push(Some(x));
        }
        while buffer.len() < capacity
            invariant
                len <= buffer@.len() <= capacity,
                len == initial.len(),
                forall|j: int| 0 <= j < len ==> #[trigger] buffer@[j] == Some(initial[j]),
                forall|j: int| len <= j < buffer@.len() ==> #[trigger] buffer@[j] is None,
            decreases capacity - buffer@.len(),
        {
            buffer.push(None);
        }
        let r = SortBuffer { buffer, gap_start: len, gap_end: capacity };
        assert(r@ =~= initial);
        r
    }

    /// Number of entries (the storage minus the gap).
    pub fn len(&self) -> (r: usize)
        requires
            self.wf(),
        ensures
            r == self@.len(),
    {
        self.buffer.len() - (self.gap_end - self.gap_start)
    }

    /// Whether the buffer holds no entry.
    pub fn is_empty(&self) -> (r: bool)
        requires
            self.wf(),
        ensures
            r == (self@.len() == 0),
    {
        self.len() == 0
    }

    /// The entry at logical position `index`, if there is one.
    pub fn get(&self, index: usize) -> (r: Option<&T>)
        requires
            self.wf(),
        ensures
            r == (if index < self@.len() { Some(&self@[index as int]) } else { None }),
    {
        if index >= self.len() {
            return None;
        }
        proof {
            self.lemma_capacity();
        }
        if index < self.gap_start {
            self.buffer[index].as_ref()
        } else {
            self.buffer[index + (self.gap_end - self.gap_start)].as_ref()
        }
    }

    /// Move the gap so that it starts at logical position `position`; the
    /// entries keep their logical order.
    fn move_gap_to(&mut self, position: usize)
        requires
            old(self).wf(),
            position <= old(self)@.len(),
        ensures
            final(self).wf(),
            final(self)@ == old(self)@,
            final(self).gap_start == position,
            final(self).gap_end - final(self).gap_start == old(self).gap_end - old(self).gap_start,
            final(self).capacity() == old(self).capacity(),
    {
        proof {
            self.lemma_capacity();
        }
        if position == self.gap_start {
            return;
        }
        let ghost old_slots = self.buffer@;
        let ghost old_view = self@;
        let gs = self.gap_start;
        let ge = self.gap_end;
        let gap_size = ge - gs;
        if position < gs {
            // Shift the entries in [position, gs) to the end of the gap,
            // last one first so that no entry is overwritten before it moves.
            let move_count = gs - position;
            let mut j: usize = move_count;
            while j > 0
                invariant
                    0 <= j <= move_count,
                    move_count == gs - position,
                    gap_size == ge - gs,
                    position < gs <= ge <= old_slots.len(),
                    self.buffer@.len() == old_slots.len(),
                    slots_hold(old_slots, gs as int, ge as int),
                    forall|k: int|
                        0 <= k < position + j ==> #[trigger] self.buffer@[k] == old_slots[k],
                    forall|k: int|
                        position + j <= k < position + gap_size + j ==> #[trigger] self.buffer@[k]
                            is None,
                    forall|k: int|
                        position + gap_size + j <= k < ge ==> #[trigger] self.buffer@[k]
                            == old_slots[k - gap_size],
                    forall|k: int|
                        ge <= k < old_slots.len() ==> #[trigger] self.buffer@[k] == old_slots[k],
                decreases j,
            {
                j = j - 1;
                let src = position + j;
                let dst = position + gap_size + j;
                let item = self.buffer[src].take();
                self.buffer[dst] = item;
            }
            self.gap_start = position;
            self.gap_end = position + gap_size;
        } else {
            // Shift the entries in [ge, ge + count) to the start of the gap,
            // first one first.
            let move_count = position - gs;
            let mut i: usize = 0;
            while i < move_count
                invariant
                    0 <= i <= move_count,
                    move_count == position - gs,
                    gap_size == ge - gs,
                    gs <= ge,
                    ge + move_count <= old_slots.len(),
                    self.buffer@.len() == old_slots.len(),
                    slots_hold(old_slots, gs as int, ge as int),
                    forall|k: int| 0 <= k < gs ==> #[trigger] self.buffer@[k] == old_slots[k],
                    forall|k: int|
                        gs <= k < gs + i ==> #[trigger] self.buffer@[k] == old_slots[k + gap_size],
                    forall|k: int| gs + i <= k < ge + i ==> #[trigger] self.buffer@[k] is None,
                    forall|k: int|
                        ge + i <= k < old_slots.len() ==> #[trigger] self.buffer@[k] == old_slots[k],
                decreases move_count - i,
            {
                let src = ge + i;
                let dst = gs + i;
                let item = self.buffer[src].take();
                self.buffer[dst] = item;
                i = i + 1;
            }
            self.gap_start = position;
            self.gap_end = position + gap_size;
        }
        assert(self@ =~= old_view);
    }

    /// Double the storage; the new slots join the gap, and the entries after
    /// the gap move to the end of the storage.
    fn grow_gap(&mut self)
        requires
            old(self).wf(),
            old(self).capacity() * 2 <= usize::MAX,
        ensures
            final(self).wf(),
            final(self)@ == old(self)@,
            final(self).gap_start == old(self).gap_start,
            final(self).gap_end > final(self).gap_start,
            final(self).capacity() == old(self).capacity() * 2,
    {
        let ghost old_slots = self.buffer@;
        let ghost old_view = self@;
        let old_capacity = self.buffer.len();
        let new_capacity = old_capacity * 2;
        let gs = self.gap_start;
        let ge = self.gap_end;
        let gap_size = ge - gs;
        let new_gap_size = gap_size + (new_capacity - old_capacity);
        while self.buffer.len() < new_capacity
            invariant
                old_capacity <= self.buffer@.len() <= new_capacity,
                self.gap_start == gs,
                old_capacity == old_slots.len(),
                forall|k: int| 0 <= k < old_capacity ==> #[trigger] self.buffer@[k] == old_slots[k],
                forall|k: int|
                    old_capacity <= k < self.buffer@.len() ==> #[trigger] self.buffer@[k] is None,
            decreases new_capacity - self.buffer@.len(),
        {
            self.buffer.push(None);
        }
        let after_gap = old_capacity - ge;
        let mut j: usize = after_gap;
        while j > 0
            invariant
                0 <= j <= after_gap,
                after_gap == old_capacity - ge,
                self.gap_start == gs,
                new_capacity == old_capacity * 2,
                self.buffer@.len() == new_capacity,
                old_capacity == old_slots.len(),
                slots_hold(old_slots, gs as int, ge as int),
                forall|k: int| 0 <= k < ge + j ==> #[trigger] self.buffer@[k] == (if k < old_capacity {
                    old_slots[k]
                } else {
                    None
                }),
                forall|k: int|
                    ge + j <= k < old_capacity + ge + j ==> #[trigger] self.buffer@[k] is None,
                forall|k: int|
                    old_capacity + ge + j <= k < new_capacity ==> #[trigger] self.buffer@[k]
                        == old_slots[k - old_capacity],
            decreases j,
        {
            j = j - 1;
            let src = ge + j;
            let dst = new_capacity - after_gap + j;
            let item = self.buffer[src].take();
            self.buffer[dst] = item;
        }
        self.gap_end = gs + new_gap_size;
        assert forall|i: int| 0 <= i < old_view.len() implies self@[i] == old_view[i] by {
            if i >= gs {
                assert(self.buffer@[i + new_gap_size] == old_slots[i + gap_size]);
            }
        }
        assert(self@ =~= old_view);
    }

    /// Insert `sort` so that it becomes the entry at logical position
    /// `index`; an `index` past the end leaves the buffer unchanged.
    pub fn insert(&mut self, index: usize, sort: T)
        requires
            old(self).wf(),
            old(self).has_room_for(1),
        ensures
            final(self).wf(),
            final(self)@ == if index <= old(self)@.len() {
                old(self)@.insert(index as int, sort)
            } else {
                old(self)@
            },
    {
        if index > self.len() {
            return;
        }
        proof {
            self.lemma_capacity();
        }
        if self.gap_start >= self.gap_end {
            self.grow_gap();
        }
        self.move_gap_to(index);
        let ghost before = self@;
        let gs = self.gap_start;
        self.buffer[gs] = Some(sort);
        self.gap_start = gs + 1;
        assert(self@ =~= before.insert(index as int, sort));
    }

    /// Remove the entry at logical position `index` and return it; `None`
    /// (and no change) when there is no such entry.
    pub fn delete(&mut self, index: usize) -> (r: Option<T>)
        requires
            old(self).wf(),
        ensures
            final(self).wf(),
            index < old(self)@.len() ==> r == Some(old(self)@[index as int]) && final(self)@
                == old(self)@.remove(index as int),
            index >= old(self)@.len() ==> r is None && final(self)@ == old(self)@,
    {
        if index >= self.len() {
            return None;
        }
        self.move_gap_to(index);
        proof {
            self.lemma_capacity();
        }
        let ghost before = self@;
        let ge = self.gap_end;
        let deleted = self.buffer[ge].take();
        self.gap_end = ge + 1;
        assert(self@ =~= before.remove(index as int));
        deleted
    }

    /// Mutable access to the entry at logical position `index`, if there
    /// is one.  The buffer afterwards holds whatever the caller left there.
    pub fn get_mut(&mut self, index: usize) -> (r: Option<&mut T>)
        requires
            old(self).wf(),
        ensures
            final(self).wf(),
            index < old(self)@.len() ==> r is Some && *r->0 == old(self)@[index as int]
                && final(self)@ == old(self)@.update(index as int, *final(r->0)),
            index >= old(self)@.len() ==> r is None && final(self)@ == old(self)@,
    {
        if index >= self.len() {
            return None;
        }
        proof {
            self.lemma_capacity();
        }
        let slot = if index < self.gap_start {
            index
        } else {
            index + (self.gap_end - self.gap_start)
        };
        self.buffer[slot].as_mut()
    }

    /// An iterator over the entries in logical order.
    pub fn iter(&self) -> (r: SortBufferIterator<'_, T>)
        requires
            self.wf(),
        ensures
            r.source() == *self,
            r.position() == 0,
    {
        SortBufferIterator { buffer: self, index: 0 }
    }

    /// Remove every entry; the storage keeps its size and becomes all gap.
    pub fn clear(&mut self)
        requires
            old(self).wf(),
        ensures
            final(self).wf(),
            final(self)@ == Seq::<T>::empty(),
    {
        let n = self.buffer.len();
        let mut i: usize = 0;
        while i < n
            invariant
                0 <= i <= n,
                n == self.buffer@.len(),
                n > 0,
                forall|k: int| 0 <= k < i ==> #[trigger] self.buffer@[k] is None,
            decreases n - i,
        {
            self.buffer[i] = None;
            i = i + 1;
        }
        self.gap_start = 0;
        self.gap_end = n;
        assert(self@ =~= Seq::<T>::empty());
    }
}

impl<T: Clone> SortBuffer<T> {
    /// Copies of all entries, in logical order.
    pub fn to_vec(&self) -> (r: Vec<T>)
        requires
            self.wf(),
        ensures
            r@.len() == self@.len(),
            forall|i: int| 0 <= i < self@.len() ==> cloned::<T>(self@[i], #[trigger] r@[i]),
    {
        let n = self.len();
        let mut result: Vec<T> = Vec::new();
        let mut i: usize = 0;
        while i < n
            invariant
                self.wf(),
                n == self@.len(),
                0 <= i <= n,
                result@.len() == i,
                forall|k: int| 0 <= k < i ==> cloned::<T>(self@[k], #[trigger] result@[k]),
            decreases n - i,
        {
            if let Some(sort) = self.get(i) {
                result.push(sort.clone());
            }
            i = i + 1;
        }
        result
    }
}

/// Walks the entries of a `SortBuffer` in logical order.
pub struct SortBufferIterator<'a, T> {
    buffer: &'a SortBuffer<T>,
    index: usize,
}

impl<'a, T> SortBufferIterator<'a, T> {
    /// The buffer being walked.
    pub closed spec fn source(&self) -> SortBuffer<T> {
        *self.buffer
    }

    /// Logical position of the next entry to hand out.
    pub closed spec fn position(&self) -> nat {
        self.index as nat
    }

    /// The next entry, or `None` once every entry has been handed out.
    pub fn next(&mut self) -> (r: Option<&'a T>)
        requires
            old(self).source().wf(),
        ensures
            final(self).source() == old(self).source(),
            old(self).position() < old(self).source()@.len() ==> r == Some(
                &old(self).source()@[old(self).position() as int],
            ) && final(self).position() == old(self).position() + 1,
            old(self).position() >= old(self).source()@.len() ==> r is None && final(self).position()
                == old(self).position(),
    {
        if self.index >= self.buffer.len() {
            None
        } else {
            let item = self.buffer.get(self.index);
            self.index = self.index + 1;
            item
        }
    }
}

impl<T> Default for SortBuffer<T> {
    /// An empty buffer, as `new` makes it.
    fn default() -> (r: Self)
        ensures
            r.wf(),
            r@ == Seq::<T>::empty(),
    {
        Self::new()
    }
}

/// Deleting at the index where a sort was just inserted gives that sort
/// back and leaves the buffer as it was before the insert.  `inserted` is
/// the buffer after `insert(index, sort)` on `before`, and `removed` and
/// `after` are what `delete(index)` then returned and left, as their
/// contracts describe them.
pub proof fn lemma_delete_undoes_insert<T>(
    before: SortBuffer<T>,
    index: int,
    sort: T,
    inserted: SortBuffer<T>,
    removed: Option<T>,
    after: SortBuffer<T>,
)
    requires
        before.wf(),
        0 <= index <= before@.len(),
        inserted.wf(),
        inserted@ == before@.insert(index, sort),
        index < inserted@.len() ==> removed == Some(inserted@[index]) && after@
            == inserted@.remove(index),
        index >= inserted@.len() ==> removed is None && after@ == inserted@,
    ensures
        removed == Some(sort),
        after@ == before@,
        after@.len() == before@.len(),
{
    assert(before@.insert(index, sort).remove(index) =~= before@);
}

/// Inserting at `index` leaves the entries before it in place and shifts
/// the ones from it on by one.
pub proof fn lemma_insert_shifts<T>(buffer: SortBuffer<T>, index: int, sort: T)
    requires
        buffer.wf(),
        0 <= index <= buffer@.len(),
    ensures
        forall|k: int| 0 <= k < index ==> #[trigger] buffer@.insert(index, sort)[k] == buffer@[k],
        forall|k: int|
            index <= k < buffer@.len() ==> #[trigger] buffer@.insert(index, sort)[k + 1] == buffer@[k],
{
}

} // verus!
