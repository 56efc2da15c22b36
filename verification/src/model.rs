use vstd::prelude::*;

use crate::errors::BufferError;

verus! {

/// The abstract state of a lookahead buffer, as the contracts see it: the
/// whole byte stream behind the source, the configured chunk size, how many
/// bytes have been delivered to the caller, and how many of those were
/// rewound and not yet re-delivered. The physical chunks and the load count
/// are implementation detail and do not appear here.
pub ghost struct BufferView {
    /// Every byte the buffer's source produces, in order.
    pub stream: Seq<u8>,
    /// The size of one half of the circular buffer; at least 1.
    pub chunk_size: int,
    /// Bytes delivered to the caller so far; decreases on rewind.
    pub consumed: int,
    /// Rewound bytes not yet re-delivered; never exceeds `chunk_size`.
    pub withdrawn: int,
}

impl BufferView {
    /// The total capacity of the circular buffer: two chunks.
    pub open spec fn capacity(self) -> int {
        2 * self.chunk_size
    }

    /// The read cursor's slot within the circular buffer.
    pub open spec fn position(self) -> int {
        self.consumed % self.capacity()
    }

    /// Whether every byte of the stream has been consumed.
    pub open spec fn at_end(self) -> bool {
        self.consumed >= self.stream.len()
    }

    /// The byte the next successful `take_byte` delivers.
    pub open spec fn next_byte(self) -> u8 {
        self.stream[self.consumed]
    }

    /// What a well-formed buffer's view always satisfies.
    pub open spec fn inv(self) -> bool {
        &&& 1 <= self.chunk_size
        &&& 0 <= self.consumed
        &&& 0 <= self.withdrawn <= self.chunk_size
        &&& self.consumed + self.withdrawn <= self.stream.len()
    }

    /// The view after one successful `take_byte`: the cursor advances and a
    /// pending rewind, if any, is paid back by one byte.
    pub open spec fn step(self) -> BufferView {
        BufferView {
            consumed: self.consumed + 1,
            withdrawn: if self.withdrawn > 0 { self.withdrawn - 1 } else { 0 },
            ..self
        }
    }

    /// The view after `k` successful `take_byte` calls.
    pub open spec fn steps(self, k: nat) -> BufferView
        decreases k,
    {
        if k == 0 {
            self
        } else {
            self.step().steps((k - 1) as nat)
        }
    }

    /// The view after a fully applied `take_back(amount)`.
    pub open spec fn rewound(self, amount: int) -> BufferView {
        BufferView {
            consumed: self.consumed - amount,
            withdrawn: self.withdrawn + amount,
            ..self
        }
    }

    /// When `take_back(amount)` succeeds in full: the rewind stays within
    /// what has been consumed, within one chunk, and within the live
    /// withdrawn budget.
    pub open spec fn rewind_allowed(self, amount: int) -> bool {
        &&& amount <= self.consumed
        &&& amount <= self.chunk_size
        &&& self.withdrawn + amount <= self.chunk_size
    }
}

/// What `take_byte` returns from a buffer in view `v`.
pub open spec fn take_byte_outcome(v: BufferView) -> Result<u8, BufferError> {
    if v.at_end() {
        Err(BufferError::EndOfInput)
    } else {
        Ok(v.next_byte())
    }
}

/// What `take_char` returns from a buffer in view `v`: the next byte as a
/// character when it is ASCII, `InvalidInput` when it is not.
pub open spec fn take_char_outcome(v: BufferView) -> Result<char, BufferError> {
    if v.at_end() {
        Err(BufferError::EndOfInput)
    } else if v.next_byte() >= 0x80 {
        Err(BufferError::InvalidInput)
    } else {
        Ok(v.next_byte() as char)
    }
}

/// The bytes that `k` successive successful `take_byte` calls deliver from a
/// buffer in view `v`: each call at view `w` returns `w.next_byte()` and
/// moves to `w.step()`, so together they deliver this stream segment.
pub open spec fn delivered(v: BufferView, k: nat) -> Seq<u8> {
    v.stream.subrange(v.consumed, v.consumed + k)
}

/// How `k` steps evolve the counters: the cursor advances by `k` and the
/// withdrawn count is paid down, never below zero.
pub proof fn lemma_steps_unfold(v: BufferView, k: nat)
    requires
        0 <= v.withdrawn,
    ensures
        v.steps(k).stream == v.stream,
        v.steps(k).chunk_size == v.chunk_size,
        v.steps(k).consumed == v.consumed + k,
        v.steps(k).withdrawn == if v.withdrawn >= k {
            v.withdrawn - k
        } else {
            0
        },
    decreases k,
{
    if k > 0 {
        let k1 = (k - 1) as nat;
        lemma_steps_unfold(v.step(), k1);
        assert(v.steps(k) == v.step().steps(k1));
    }
}

/// Ties `delivered` to the single-call contract: the `k`-th call of a run
/// delivers `v.steps(k).next_byte()`, and the run of `k + 1` calls delivers
/// the run of `k` calls followed by that byte.
pub proof fn lemma_delivered_unfold(v: BufferView, k: nat)
    requires
        0 <= v.consumed,
        0 <= v.withdrawn,
        v.consumed + k < v.stream.len(),
    ensures
        delivered(v, (k + 1) as nat) == delivered(v, k).push(v.steps(k).next_byte()),
{
    lemma_steps_unfold(v, k);
    assert(delivered(v, (k + 1) as nat) =~= delivered(v, k).push(v.steps(k).next_byte()));
}

/// Repeated `take_byte` delivers exactly the source's bytes in order: from a
/// fresh buffer, `k` calls deliver the first `k` stream bytes, the view stays
/// well formed, and the next call fails with `EndOfInput` exactly when the
/// whole stream has been delivered.
pub proof fn lemma_sequential_reads(v: BufferView, k: nat)
    requires
        v.inv(),
        v.consumed == 0,
        v.withdrawn == 0,
        k <= v.stream.len(),
    ensures
        delivered(v, k) == v.stream.subrange(0, k as int),
        v.steps(k).consumed == k,
        v.steps(k).inv(),
        take_byte_outcome(v.steps(k)) is Err <==> k == v.stream.len(),
{
    lemma_steps_unfold(v, k);
}

/// Round-trip law: after `k <= chunk_size` bytes are consumed, `take_back(k)`
/// is always allowed in full, it restores the cursor and the position the
/// buffer had before those `k` consumes, and consuming again re-delivers the
/// same `k` bytes.
pub proof fn lemma_round_trip(v: BufferView, k: nat)
    requires
        v.inv(),
        k <= v.chunk_size,
        v.consumed + k <= v.stream.len(),
    ensures
        v.steps(k).rewind_allowed(k as int),
        v.steps(k).rewound(k as int).consumed == v.consumed,
        v.steps(k).rewound(k as int).position() == v.position(),
        delivered(v.steps(k).rewound(k as int), k) == delivered(v, k),
{
    lemma_steps_unfold(v, k);
}

/// A non-ASCII byte is delivered raw by `take_byte` but refused by
/// `take_char`, which fails with `InvalidInput` on the same offset.
pub proof fn lemma_non_ascii_byte(v: BufferView)
    requires
        v.inv(),
        !v.at_end(),
        v.next_byte() >= 0x80,
    ensures
        take_byte_outcome(v) == Ok::<u8, BufferError>(v.next_byte()),
        take_char_outcome(v) == Err::<char, BufferError>(BufferError::InvalidInput),
{
}

} // verus!
