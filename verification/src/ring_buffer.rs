use vstd::prelude::*;

verus! {

/// Brings an index that was displaced by less than one capacity in either
/// direction back into `[0, capacity)`.
spec fn wrap_around(raw: int, capacity: int) -> int {
    if raw < 0 {
        raw + capacity
    } else if raw >= capacity {
        raw - capacity
    } else {
        raw
    }
}

/// A fixed-capacity circular buffer: a fixed array plus modular front and
/// length bookkeeping, so that insertion and eviction are constant-time and
/// allocation-free. New items enter at the front; once the buffer is full,
/// each insertion overwrites the oldest item at the back.
pub struct RingBuffer<Item> {
    items: Vec<Item>,
    /// Index of the next available slot.
    front_idx: usize,
    num_items: usize,
}

impl<Item> View for RingBuffer<Item> {
    type V = Seq<Item>;

    /// The live contents of the buffer, oldest first.
    closed spec fn view(&self) -> Seq<Item> {
        Seq::new(
            self.num_items as nat,
            |k: int|
                self.items@[wrap_around(
                    self.front_idx - self.num_items + k,
                    self.items@.len() as int,
                )],
        )
    }
}

impl<Item: Copy> RingBuffer<Item> {
    /// The fixed capacity chosen at construction.
    pub closed spec fn capacity(&self) -> nat {
        self.items@.len()
    }

    /// Internal well-formedness: the bookkeeping indices stay within the
    /// fixed item array.
    pub closed spec fn wf(&self) -> bool {
        &&& self.num_items <= self.items@.len()
        &&& if self.items@.len() == 0 {
            self.front_idx == 0
        } else {
            self.front_idx < self.items@.len()
        }
    }

    /// The buffer never holds more items than its capacity.
    pub proof fn lemma_len_within_capacity(&self)
        requires
            self.wf(),
        ensures
            self@.len() <= self.capacity(),
    {
    }

    /// Constructs an empty buffer of the given capacity, with every slot of
    /// the backing array filled by the placeholder `zero`.
    pub fn new(zero: Item, capacity: usize) -> (buffer: Self)
        ensures
            buffer.wf(),
            buffer@ == Seq::<Item>::empty(),
            buffer.capacity() == capacity,
    {
        let mut items: Vec<Item> = Vec::new();
        let mut i: usize = 0;
        while i < capacity
            invariant
                i <= capacity,
                items@.len() == i,
            decreases capacity - i,
        {
            items.push(zero);
            i = i + 1;
        }
        let buffer = RingBuffer { items, front_idx: 0, num_items: 0 };
        proof {
            assert(buffer@ =~= Seq::<Item>::empty());
        }
        buffer
    }

    /// The number of live items in the buffer.
    pub fn len(&self) -> (num: usize)
        ensures
            num == self@.len(),
    {
        self.num_items
    }

    /// The fixed capacity, as an executable value.
    pub fn get_capacity(&self) -> (capacity: usize)
        ensures
            capacity == self.capacity(),
    {
        self.items.len()
    }

    /// Inserts `item` at the front. If the buffer is full, the oldest item
    /// is overwritten.
    pub fn push_front(&mut self, item: Item)
        requires
            old(self).wf(),
            old(self).capacity() > 0,
        ensures
            final(self).wf(),
            final(self).capacity() == old(self).capacity(),
            final(self)@ == if old(self)@.len() == old(self).capacity() {
                old(self)@.drop_first().push(item)
            } else {
                old(self)@.push(item)
            },
    {
        let capacity = self.items.len();
        self.items.set(self.front_idx, item);
        self.front_idx = wrapping_add(self.front_idx, 1, capacity);
        if self.num_items < capacity {
            self.num_items = self.num_items + 1;
        }
        proof {
            if old(self)@.len() == old(self).capacity() {
                assert(self@ =~= old(self)@.drop_first().push(item));
            } else {
                assert(self@ =~= old(self)@.push(item));
            }
        }
    }

    /// Removes and returns the oldest item, or `None` if the buffer is
    /// empty.
    pub fn pop_back(&mut self) -> (popped: Option<Item>)
        requires
            old(self).wf(),
        ensures
            final(self).wf(),
            final(self).capacity() == old(self).capacity(),
            match popped {
                Some(item) => old(self)@.len() > 0 && item == old(self)@[0] && final(self)@
                    == old(self)@.drop_first(),
                None => old(self)@.len() == 0 && final(self)@ == old(self)@,
            },
    {
        if 0 < self.num_items {
            let num_items = self.num_items;
            self.num_items = self.num_items - 1;
            let idx = wrapping_sub(self.front_idx, num_items, self.items.len());
            let item = self.items[idx];
            proof {
                assert(self@ =~= old(self)@.drop_first());
            }
            Some(item)
        } else {
            None
        }
    }

    /// Returns the newest item without removing it, or `None` if the buffer
    /// is empty.
    pub fn front(&self) -> (item: Option<Item>)
        requires
            self.wf(),
        ensures
            match item {
                Some(v) => self@.len() > 0 && v == self@.last(),
                None => self@.len() == 0,
            },
    {
        if 0 < self.num_items {
            Some(self.items[wrapping_sub(self.front_idx, 1, self.items.len())])
        } else {
            None
        }
    }

    /// Inserts `item` at the front; if the buffer was full, the evicted
    /// oldest item is returned.
    pub fn shift(&mut self, item: Item) -> (popped: Option<Item>)
        requires
            old(self).wf(),
            old(self).capacity() > 0,
        ensures
            final(self).wf(),
            final(self).capacity() == old(self).capacity(),
            final(self)@ == if old(self)@.len() == old(self).capacity() {
                old(self)@.drop_first().push(item)
            } else {
                old(self)@.push(item)
            },
            match popped {
                Some(p) => old(self)@.len() == old(self).capacity() && p == old(self)@[0],
                None => old(self)@.len() < old(self).capacity(),
            },
    {
        let popped = if self.len() == self.items.len() {
            self.pop_back()
        } else {
            None
        };
        self.push_front(item);
        popped
    }

    /// Returns the item `index` places from the oldest end.
    pub fn get(&self, index: usize) -> (item: Item)
        requires
            self.wf(),
            index < self@.len(),
        ensures
            item == self@[index as int],
    {
        let oldest = wrapping_sub(self.front_idx, self.num_items, self.items.len());
        let idx = wrapping_add(oldest, index, self.items.len());
        self.items[idx]
    }

    /// Returns an iterator over the live items, oldest first.
    pub fn iter<'a>(&'a self) -> (it: Iter<'a, Item>)
        requires
            self.wf(),
        ensures
            it.wf(),
            it@ == self@,
    {
        let cursor_idx = if self.items.len() == 0 {
            0
        } else {
            wrapping_sub(self.front_idx, self.num_items, self.items.len())
        };
        let it = Iter { items: &self.items, cursor_idx, num_items_left: self.num_items };
        proof {
            assert(it@ =~= self@);
        }
        it
    }
}

/// Adds `rhs` to `lhs`, wrapping around at `max_val`.
fn wrapping_add(lhs: usize, rhs: usize, max_val: usize) -> (wrapped: usize)
    requires
        max_val > 0,
        lhs < max_val,
        rhs <= max_val,
    ensures
        wrapped == wrap_around(lhs + rhs, max_val as int),
{
    if lhs >= max_val - rhs {
        lhs - (max_val - rhs)
    } else {
        lhs + rhs
    }
}

/// Subtracts `rhs` from `lhs`, wrapping around at `max_val`.
fn wrapping_sub(lhs: usize, rhs: usize, max_val: usize) -> (wrapped: usize)
    requires
        max_val > 0,
        lhs < max_val,
        rhs <= max_val,
    ensures
        wrapped == wrap_around(lhs - rhs, max_val as int),
{
    if lhs < rhs {
        (max_val - rhs) + lhs
    } else {
        lhs - rhs
    }
}

/// An iterator over the live items of a [`RingBuffer`], oldest first.
pub struct Iter<'a, Item> {
    items: &'a Vec<Item>,
    cursor_idx: usize,
    num_items_left: usize,
}

impl<'a, Item> View for Iter<'a, Item> {
    type V = Seq<Item>;

    /// The items not yet yielded, oldest first.
    closed spec fn view(&self) -> Seq<Item> {
        Seq::new(
            self.num_items_left as nat,
            |k: int|
                self.items@[wrap_around(self.cursor_idx + k, self.items@.len() as int)],
        )
    }
}

impl<'a, Item: Copy> Iter<'a, Item> {
    /// Internal well-formedness: the cursor stays within the borrowed item
    /// array.
    pub closed spec fn wf(&self) -> bool {
        &&& self.num_items_left <= self.items@.len()
        &&& if self.items@.len() == 0 {
            self.cursor_idx == 0
        } else {
            self.cursor_idx < self.items@.len()
        }
    }

    /// Yields the next item, oldest first, or `None` when every live item
    /// has been yielded.
    pub fn next(&mut self) -> (item: Option<Item>)
        requires
            old(self).wf(),
        ensures
            final(self).wf(),
            match item {
                Some(v) => old(self)@.len() > 0 && v == old(self)@[0] && final(self)@
                    == old(self)@.drop_first(),
                None => old(self)@.len() == 0 && final(self)@ == old(self)@,
            },
    {
        if self.num_items_left == 0 {
            return None;
        }
        self.num_items_left = self.num_items_left - 1;
        let cursor_idx = self.cursor_idx;
        self.cursor_idx = wrapping_add(self.cursor_idx, 1, self.items.len());
        let item = self.items[cursor_idx];
        proof {
            assert(self@ =~= old(self)@.drop_first());
        }
        Some(item)
    }
}

} // verus!
