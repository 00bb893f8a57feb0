use vstd::prelude::*;

verus! {

/// The last `n` items of `s` (all of `s` when it is shorter).
pub open spec fn keep_last<T>(s: Seq<T>, n: nat) -> Seq<T> {
    if s.len() <= n {
        s
    } else {
        s.subrange(s.len() - n, s.len() as int)
    }
}

/// What `out` holds after the first unread samples of `contents` are copied into it:
/// as many as fit, the rest of `out` left as it was.
pub open spec fn fill_from<T>(contents: Seq<T>, out: Seq<T>) -> Seq<T> {
    let n = copied_count(contents, out);
    contents.take(n as int) + out.skip(n as int)
}

/// How many samples a read or peek into `out` copies.
pub open spec fn copied_count<T>(contents: Seq<T>, out: Seq<T>) -> nat {
    if contents.len() <= out.len() {
        contents.len()
    } else {
        out.len()
    }
}

/// The unread samples after each block of `writes` was written in turn, starting from
/// `contents`.
pub open spec fn after_writes<T>(contents: Seq<T>, writes: Seq<Seq<T>>, capacity: nat) -> Seq<T>
    decreases writes.len(),
{
    if writes.len() == 0 {
        contents
    } else {
        after_writes(keep_last(contents + writes[0], capacity), writes.drop_first(), capacity)
    }
}

/// Writing `b` after the buffer already dropped what overflowed leaves what writing
/// `b` right after all of `a` would have left.
pub proof fn lemma_keep_last_append<T>(a: Seq<T>, b: Seq<T>, n: nat)
    ensures
        keep_last(keep_last(a, n) + b, n) == keep_last(a + b, n),
{
    if a.len() > n {
        let k = keep_last(a, n);
        assert((k + b).len() > n || b.len() == 0);
        if b.len() == 0 {
            assert(k + b =~= k);
            assert(a + b =~= a);
        } else {
            assert(keep_last(k + b, n) =~= keep_last(a + b, n));
        }
    }
}

/// Writing blocks one after another leaves what writing them all at once leaves.
pub proof fn lemma_after_writes<T>(contents: Seq<T>, writes: Seq<Seq<T>>, capacity: nat)
    requires
        contents.len() <= capacity,
    ensures
        after_writes(contents, writes, capacity) == keep_last(contents + writes.flatten(), capacity),
    decreases writes.len(),
{
    if writes.len() == 0 {
        assert(contents + writes.flatten() =~= contents);
    } else {
        let first = contents + writes[0];
        lemma_after_writes(keep_last(first, capacity), writes.drop_first(), capacity);
        lemma_keep_last_append(first, writes.drop_first().flatten(), capacity);
        assert(first + writes.drop_first().flatten() =~= contents + writes.flatten());
    }
}

/// First in, first out: while no more samples were written than the buffer holds
/// beyond what was unread, every written sample stays, after the unread ones and in
/// the order written, so reads hand them out exactly in that order.
pub proof fn lemma_fifo<T>(contents: Seq<T>, writes: Seq<Seq<T>>, capacity: nat)
    requires
        contents.len() + writes.flatten().len() <= capacity,
    ensures
        after_writes(contents, writes, capacity) == contents + writes.flatten(),
{
    lemma_after_writes(contents, writes, capacity);
}

/// Overflow: after more samples than the capacity were written into a drained buffer,
/// exactly the most recent `capacity` of them remain, oldest first.
pub proof fn lemma_overflow_keeps_newest<T>(writes: Seq<Seq<T>>, capacity: nat)
    requires
        writes.flatten().len() > capacity,
    ensures
        after_writes(Seq::empty(), writes, capacity).len() == capacity,
        after_writes(Seq::empty(), writes, capacity) == writes.flatten().subrange(
            writes.flatten().len() - capacity,
            writes.flatten().len() as int,
        ),
{
    lemma_after_writes(Seq::empty(), writes, capacity);
    assert(Seq::<T>::empty() + writes.flatten() =~= writes.flatten());
}

/// Each sample of `xs` as a block of its own: writing these is pushing `xs` one sample
/// at a time.
pub open spec fn one_by_one<T>(xs: Seq<T>) -> Seq<Seq<T>> {
    Seq::new(xs.len(), |i: int| seq![xs[i]])
}

proof fn lemma_flatten_one_by_one<T>(xs: Seq<T>)
    ensures
        one_by_one(xs).flatten() == xs,
    decreases xs.len(),
{
    if xs.len() > 0 {
        assert(one_by_one(xs).drop_first() =~= one_by_one(xs.drop_first()));
        lemma_flatten_one_by_one(xs.drop_first());
        assert(seq![xs[0]] + xs.drop_first() =~= xs);
    } else {
        assert(one_by_one(xs).flatten() =~= xs);
    }
}

/// Pushing `xs` one sample at a time into a drained buffer leaves exactly the most
/// recent `capacity` of them, oldest first; all of them, in the order pushed, when they
/// fit. Successive pops then return them in that order, and `None` after the last.
pub proof fn lemma_pushes_keep_newest<T>(xs: Seq<T>, capacity: nat)
    ensures
        after_writes(Seq::empty(), one_by_one(xs), capacity) == keep_last(xs, capacity),
        xs.len() <= capacity ==> after_writes(Seq::empty(), one_by_one(xs), capacity) == xs,
{
    lemma_after_writes(Seq::empty(), one_by_one(xs), capacity);
    lemma_flatten_one_by_one(xs);
    assert(Seq::<T>::empty() + xs =~= xs);
}

/// Peeking twice with no read between gives the same samples and the same count: a
/// second peek into what the first one filled changes nothing.
pub proof fn lemma_peek_repeatable<T>(contents: Seq<T>, out: Seq<T>)
    ensures
        copied_count(contents, fill_from(contents, out)) == copied_count(contents, out),
        fill_from(contents, fill_from(contents, out)) == fill_from(contents, out),
{
    let once = fill_from(contents, out);
    let n = copied_count(contents, out) as int;
    assert(once.len() == out.len());
    assert(once.take(n) =~= contents.take(n));
    assert(once.skip(n) =~= out.skip(n));
    assert(fill_from(contents, once) =~= once);
}

/// A fixed-capacity circular store of samples, shared between one producer and its
/// consumers. Its view is the sequence of unread samples, oldest first.
pub struct RingBuffer<T> {
    buffer: Vec<T>,
    read_idx: usize,
    len: usize,
}

impl<T> View for RingBuffer<T> {
    type V = Seq<T>;

    closed spec fn view(&self) -> Seq<T> {
        Seq::new(self.len as nat, |i: int| self.buffer@[slot(self.read_idx as int, i, self.buffer@.len() as int)])
    }
}

/// The slot `i` places after `start` on a ring of `cap` slots, for `start, i < cap`.
spec fn slot(start: int, i: int, cap: int) -> int {
    if start + i < cap {
        start + i
    } else {
        start + i - cap
    }
}

impl<T> RingBuffer<T> {
    /// The slot vector is nonempty and the cursor and count stay within it.
    pub closed spec fn well_formed(&self) -> bool {
        &&& self.buffer@.len() > 0
        &&& self.read_idx < self.buffer@.len()
        &&& self.len <= self.buffer@.len()
    }

    /// How many samples the buffer holds at most.
    pub closed spec fn capacity(&self) -> nat {
        self.buffer@.len()
    }

    /// A well-formed buffer has at least one slot and never more unread samples than
    /// slots.
    pub proof fn lemma_well_formed(&self)
        requires
            self.well_formed(),
        ensures
            self.capacity() > 0,
            self@.len() <= self.capacity(),
    {
    }
}

impl<T: Copy> RingBuffer<T> {
    /// An empty buffer of `capacity` slots, each first set to `fill`.
    pub fn new(capacity: usize, fill: T) -> (r: Self)
        requires
            capacity > 0,
        ensures
            r.well_formed(),
            r@ == Seq::<T>::empty(),
            r.capacity() == capacity,
    {
        let mut buffer: Vec<T> = Vec::new();
        while buffer.len() < capacity
            invariant
                buffer@.len() <= capacity,
            decreases capacity - buffer@.len(),
        {
            buffer.push(fill);
        }
        RingBuffer { buffer, read_idx: 0, len: 0 }
    }

    /// The slot count, as an executable value.
    pub fn capacity_len(&self) -> (r: usize)
        ensures
            r == self.capacity(),
    {
        self.buffer.len()
    }

    /// How many unread samples there are.
    pub fn available(&self) -> (r: usize)
        requires
            self.well_formed(),
        ensures
            r == self@.len(),
    {
        self.len
    }

    /// Appends one sample; on a full buffer the oldest unread sample is dropped.
    pub fn push(&mut self, sample: T)
        requires
            old(self).well_formed(),
        ensures
            final(self).well_formed(),
            final(self)@ == keep_last(old(self)@.push(sample), old(self).capacity()),
            final(self).capacity() == old(self).capacity(),
    {
        let cap = self.buffer.len();
        let w: usize = if self.read_idx < cap - self.len {
            self.read_idx + self.len
        } else {
            self.read_idx - (cap - self.len)
        };
        assert(self.len < cap ==> w as int == slot(self.read_idx as int, self.len as int, cap as int));
        let ghost old_view = self@;
        let ghost old_read = self.read_idx as int;
        let ghost old_len = self.len as int;
        self.buffer.set(w, sample);
        if self.len < cap {
            self.len = self.len + 1;
            assert forall|i: int| 0 <= i < old_len implies #[trigger] self@[i] == old_view[i] by {
                assert(slot(old_read, i, cap as int) != w as int);
            }
            assert(self@ =~= old_view.push(sample));
        } else {
            self.read_idx = if self.read_idx + 1 == cap { 0 } else { self.read_idx + 1 };
            let ghost s = old_view.push(sample);
            assert forall|i: int| 0 <= i < cap implies #[trigger] self@[i] == s[i + 1] by {
                assert(slot(self.read_idx as int, i, cap as int) == slot(old_read, i + 1, cap as int));
                if i + 1 < cap {
                    assert(slot(old_read, i + 1, cap as int) != w as int);
                }
            }
            assert(self@ =~= keep_last(s, cap as nat));
        }
    }

    /// Takes the oldest unread sample, or `None` on an empty buffer.
    pub fn pop(&mut self) -> (r: Option<T>)
        requires
            old(self).well_formed(),
        ensures
            final(self).well_formed(),
            old(self)@.len() == 0 ==> r is None && final(self)@ == old(self)@,
            old(self)@.len() > 0 ==> r == Some(old(self)@[0]) && final(self)@ == old(self)@.drop_first(),
            final(self).capacity() == old(self).capacity(),
    {
        if self.len == 0 {
            return None;
        }
        let cap = self.buffer.len();
        let ghost old_view = self@;
        let ghost old_read = self.read_idx as int;
        let sample = self.buffer[self.read_idx];
        self.read_idx = if self.read_idx + 1 == cap { 0 } else { self.read_idx + 1 };
        self.len = self.len - 1;
        assert forall|i: int| 0 <= i < self.len implies #[trigger] self@[i] == old_view.drop_first()[i] by {
            assert(slot(self.read_idx as int, i, cap as int) == slot(old_read, i + 1, cap as int));
        }
        assert(self@ =~= old_view.drop_first());
        Some(sample)
    }

    /// Writes every sample in turn; when they overflow the buffer, the oldest unread
    /// samples are dropped. Never blocks and never fails.
    pub fn write(&mut self, samples: &[T])
        requires
            old(self).well_formed(),
        ensures
            final(self).well_formed(),
            final(self)@ == keep_last(old(self)@ + samples@, old(self).capacity()),
            final(self).capacity() == old(self).capacity(),
    {
        let ghost start = self@;
        let ghost cap = self.capacity();
        let mut i: usize = 0;
        while i < samples.len()
            invariant
                self.well_formed(),
                self.capacity() == cap,
                i <= samples@.len(),
                self@ == keep_last(start + samples@.take(i as int), cap),
            decreases samples@.len() - i,
        {
            let x = samples[i];
            proof {
                lemma_keep_last_append(start + samples@.take(i as int), seq![x], cap);
                assert(start + samples@.take(i as int) + seq![x] =~= start + samples@.take(i + 1));
                assert(keep_last(start + samples@.take(i as int), cap).push(x)
                    =~= keep_last(start + samples@.take(i as int), cap) + seq![x]);
            }
            self.push(x);
            i = i + 1;
        }
        assert(samples@.take(i as int) =~= samples@);
    }

    /// Moves the oldest unread samples into the front of `out`, as many as fit, and
    /// returns how many were moved.
    pub fn read(&mut self, out: &mut [T]) -> (n: usize)
        requires
            old(self).well_formed(),
        ensures
            final(self).well_formed(),
            n == copied_count(old(self)@, old(out)@),
            final(out)@ == fill_from(old(self)@, old(out)@),
            final(self)@ == old(self)@.skip(n as int),
            final(self).capacity() == old(self).capacity(),
    {
        let ghost start = self@;
        let ghost start_out = out@;
        let n: usize = if self.len <= out.len() { self.len } else { out.len() };
        let mut i: usize = 0;
        while i < n
            invariant
                self.well_formed(),
                self.capacity() == old(self).capacity(),
                n == copied_count(start, start_out),
                i <= n,
                out@.len() == start_out.len(),
                self@ == start.skip(i as int),
                out@ == start.take(i as int) + start_out.skip(i as int),
            decreases n - i,
        {
            let r = self.pop();
            match r {
                Some(x) => {
                    out[i] = x;
                },
                None => {},
            }
            assert(start.take(i + 1) =~= start.take(i as int).push(start[i as int]));
            assert(out@ =~= start.take(i + 1) + start_out.skip(i + 1));
            assert(self@ =~= start.skip(i + 1));
            i = i + 1;
        }
        n
    }

    /// Copies the oldest unread samples into the front of `out`, as many as fit, without
    /// consuming them, and returns how many were copied.
    pub fn peek(&self, out: &mut [T]) -> (n: usize)
        requires
            self.well_formed(),
        ensures
            n == copied_count(self@, old(out)@),
            final(out)@ == fill_from(self@, old(out)@),
    {
        let ghost start_out = out@;
        let cap = self.buffer.len();
        let n: usize = if self.len <= out.len() { self.len } else { out.len() };
        let mut i: usize = 0;
        while i < n
            invariant
                self.well_formed(),
                cap == self.buffer@.len(),
                n == copied_count(self@, start_out),
                i <= n,
                out@.len() == start_out.len(),
                out@ == self@.take(i as int) + start_out.skip(i as int),
            decreases n - i,
        {
            let j: usize = if self.read_idx < cap - i { self.read_idx + i } else { self.read_idx - (cap - i) };
            assert(j as int == slot(self.read_idx as int, i as int, cap as int));
            out[i] = self.buffer[j];
            assert(self@.take(i + 1) =~= self@.take(i as int).push(self@[i as int]));
            assert(out@ =~= self@.take(i + 1) + start_out.skip(i + 1));
            i = i + 1;
        }
        n
    }
}

} // verus!
