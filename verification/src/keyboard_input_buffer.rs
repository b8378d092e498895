use vstd::prelude::*;

verus! {

/// Number of slots in the keyboard ring buffer. One slot always stays free,
/// so the buffer holds at most `KEY_BUFFER_SLOTS - 1` keys.
pub const KEY_BUFFER_SLOTS: usize = 128;

/// A fixed-size ring buffer of scancodes.
///
/// `front` is the slot of the oldest pending key and `back` the slot the next
/// key goes to; the buffer is empty exactly when they are equal.
pub struct KeyboardInputBuffer {
    pub front: usize,
    pub back: usize,
    pub buffer: [u8; 128],
}

/// The number of keys pending between `front` and `back` in a ring of 128 slots.
pub open spec fn ring_len(front: int, back: int) -> int {
    (back - front + 128) % 128
}

/// What reading does to the pending keys `q`: the oldest key comes out.
pub open spec fn read_outcome(q: Seq<u8>) -> (Option<u8>, Seq<u8>) {
    if q.len() == 0 {
        (None, q)
    } else {
        (Some(q[0]), q.drop_first())
    }
}

/// What adding `key` does to the pending keys `q`: it goes behind them unless
/// 127 keys are pending already.
pub open spec fn add_outcome(q: Seq<u8>, key: u8) -> (bool, Seq<u8>) {
    if q.len() < KEY_BUFFER_SLOTS - 1 {
        (true, q.push(key))
    } else {
        (false, q)
    }
}

/// The pending keys after adding each of `keys` in turn.
pub open spec fn add_all(q: Seq<u8>, keys: Seq<u8>) -> Seq<u8>
    decreases keys.len(),
{
    if keys.len() == 0 {
        q
    } else {
        add_all(add_outcome(q, keys[0]).1, keys.drop_first())
    }
}

/// The keys that `n` reads in turn return from the pending keys `q`
/// (a read that finds nothing contributes nothing).
pub open spec fn read_n(q: Seq<u8>, n: nat) -> Seq<u8>
    decreases n,
{
    if n == 0 {
        Seq::empty()
    } else {
        match read_outcome(q).0 {
            Some(k) => seq![k] + read_n(read_outcome(q).1, (n - 1) as nat),
            None => read_n(read_outcome(q).1, (n - 1) as nat),
        }
    }
}

impl KeyboardInputBuffer {
    /// Both cursors point at a slot of the buffer.
    pub open spec fn wf(&self) -> bool {
        &&& self.front < KEY_BUFFER_SLOTS
        &&& self.back < KEY_BUFFER_SLOTS
    }

    /// The slot that the `i`-th pending key occupies.
    pub open spec fn slot_of(&self, i: int) -> int {
        (self.front + i) % 128
    }
}

impl View for KeyboardInputBuffer {
    /// The pending keys, oldest first.
    type V = Seq<u8>;

    open spec fn view(&self) -> Seq<u8> {
        Seq::new(
            ring_len(self.front as int, self.back as int) as nat,
            |i: int| self.buffer@[self.slot_of(i)],
        )
    }
}

impl KeyboardInputBuffer {
    /// Takes the oldest pending key out of the buffer, or returns `None` when
    /// no key is pending (`front == back`). A pending key must sit in a slot
    /// of the buffer.
    pub fn read_key(&mut self) -> (key: Option<u8>)
        requires
            old(self).front != old(self).back ==> old(self).front < KEY_BUFFER_SLOTS,
        ensures
            final(self).buffer == old(self).buffer,
            final(self).back == old(self).back,
            old(self).front == old(self).back ==> key is None && final(self).front == old(
                self,
            ).front,
            old(self).front != old(self).back ==> {
                &&& key == Some(old(self).buffer@[old(self).front as int])
                &&& final(self).front == (old(self).front + 1) % 128
            },
            old(self).wf() ==> final(self).wf() && (key, final(self)@) == read_outcome(old(self)@),
    {
        if self.front == self.back {
            return None;
        }
        let key = self.buffer[self.front];
        self.front = (self.front + 1) % self.buffer.len();
        proof {
            if old(self).wf() {
                let old_keys = old(self)@;
                assert(old_keys.len() > 0);
                assert(self@ =~= old_keys.drop_first());
            }
        }
        Some(key)
    }

    /// Appends a key behind the pending ones. Returns `false`, and leaves the
    /// buffer as it was, when the slot after `back` is `front`: in a
    /// well-formed buffer, when 127 keys are already pending. Otherwise `back`
    /// must be a slot of the buffer.
    pub fn add_key(&mut self, key: u8) -> (added: bool)
        requires
            old(self).back < usize::MAX,
            (old(self).back + 1) % 128 != old(self).front ==> old(self).back < KEY_BUFFER_SLOTS,
        ensures
            added <==> (old(self).back + 1) % 128 != old(self).front,
            !added ==> *final(self) == *old(self),
            added ==> {
                &&& final(self).front == old(self).front
                &&& final(self).back == (old(self).back + 1) % 128
                &&& final(self).buffer@ == old(self).buffer@.update(old(self).back as int, key)
            },
            old(self).wf() ==> {
                &&& final(self).wf()
                &&& (added <==> old(self)@.len() < KEY_BUFFER_SLOTS - 1)
                &&& (added, final(self)@) == add_outcome(old(self)@, key)
            },
    {
        let next_back = (self.back + 1) % self.buffer.len();
        if next_back == self.front {
            return false;
        }
        self.buffer[self.back] = key;
        self.back = next_back;
        proof {
            if old(self).wf() {
                let old_keys = old(self)@;
                assert(old_keys.len() < 127);
                assert forall|i: int| 0 <= i < old_keys.len() implies #[trigger] self@[i]
                    == old_keys[i] by {
                    assert(self.slot_of(i) != old(self).back);
                }
                assert(self@ =~= old_keys.push(key));
            }
        }
        true
    }
}

/// A well-formed buffer never holds more than 127 pending keys.
pub proof fn lemma_capacity(b: KeyboardInputBuffer)
    requires
        b.wf(),
    ensures
        b@.len() <= KEY_BUFFER_SLOTS - 1,
{
}

/// Adding keys to pending keys that leave room for all of them appends them in order.
pub proof fn lemma_add_all_appends(q: Seq<u8>, keys: Seq<u8>)
    requires
        q.len() + keys.len() <= KEY_BUFFER_SLOTS - 1,
    ensures
        add_all(q, keys) == q + keys,
    decreases keys.len(),
{
    if keys.len() > 0 {
        lemma_add_all_appends(q.push(keys[0]), keys.drop_first());
        assert(q.push(keys[0]) + keys.drop_first() =~= q + keys);
    }
}

/// Reading `n` keys from pending keys that hold at least `n` returns the
/// oldest `n` of them.
pub proof fn lemma_read_n_takes(q: Seq<u8>, n: nat)
    requires
        n <= q.len(),
    ensures
        read_n(q, n) == q.take(n as int),
    decreases n,
{
    if n > 0 {
        lemma_read_n_takes(q.drop_first(), (n - 1) as nat);
        assert(seq![q[0]] + q.drop_first().take(n - 1) =~= q.take(n as int));
    }
}

/// First in, first out: after up to 127 keys go into an empty buffer, reading
/// as many times gives them back in the order they went in, and leaves the
/// buffer empty again.
pub proof fn lemma_fifo(keys: Seq<u8>)
    requires
        keys.len() <= KEY_BUFFER_SLOTS - 1,
    ensures
        read_n(add_all(Seq::empty(), keys), keys.len()) == keys,
{
    lemma_add_all_appends(Seq::empty(), keys);
    assert(Seq::<u8>::empty() + keys =~= keys);
    lemma_read_n_takes(keys, keys.len());
    assert(keys.take(keys.len() as int) =~= keys);
}

/// A full buffer refuses a key, and an empty one yields none; neither changes.
pub proof fn lemma_refusals_change_nothing(q: Seq<u8>, key: u8)
    ensures
        q.len() >= KEY_BUFFER_SLOTS - 1 ==> add_outcome(q, key) == (false, q),
        q.len() == 0 ==> read_outcome(q) == (None::<u8>, q),
{
}

/// Reading from a buffer right after adding a key to an empty one gives that
/// key back and leaves the buffer empty: the read undoes the add.
pub proof fn lemma_read_undoes_add(key: u8)
    ensures
        read_outcome(add_outcome(Seq::empty(), key).1) == (Some(key), Seq::<u8>::empty()),
{
    assert(Seq::<u8>::empty().push(key).drop_first() =~= Seq::<u8>::empty());
}

} // verus!
