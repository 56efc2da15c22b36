use vstd::prelude::*;

use vstd::arithmetic::div_mod::lemma_fundamental_div_mod;
use vstd::arithmetic::div_mod::lemma_fundamental_div_mod_converse;
use vstd::arithmetic::div_mod::lemma_mod_bound;

use crate::errors::BufferError;
use crate::model::BufferView;
use crate::model::take_byte_outcome;
use crate::model::take_char_outcome;
use crate::source::ByteSource;

verus! {

/// A buffer for consuming single bytes and ASCII characters.
///
/// It owns a byte source and two equal fixed-size chunks, the left and right
/// halves of one logical circular buffer of capacity `2 * chunk_size`. A
/// half is refilled from the source only when the read cursor crosses into
/// it and no pending rewind covers it, and already consumed bytes can be
/// taken back, up to the size of one chunk, and re-served without touching
/// the source.
pub struct CharBuffer<R> {
    /// The source that the buffer stages.
    source: R,
    /// The size of one half of the buffer.
    chunk_size: usize,
    /// The left half of the buffer.
    left: Vec<u8>,
    /// The right half of the buffer.
    right: Vec<u8>,
    /// Bytes delivered to the caller so far; decreases on rewind.
    consumed: usize,
    /// Bytes ever read from the source into the chunks; never decreases.
    loaded: usize,
    /// Rewound bytes not yet re-delivered.
    withdrawn: usize,
    /// The whole stream the source produces, fixed at construction.
    full: Ghost<Seq<u8>>,
}

impl<R> View for CharBuffer<R> {
    type V = BufferView;

    closed spec fn view(&self) -> BufferView {
        BufferView {
            stream: self.full@,
            chunk_size: self.chunk_size as int,
            consumed: self.consumed as int,
            withdrawn: self.withdrawn as int,
        }
    }
}

impl<R: ByteSource> CharBuffer<R> {
    /// The buffer's total capacity, as a mathematical integer.
    spec fn cap(&self) -> int {
        2 * self.chunk_size as int
    }

    /// The chunks exist and the capacity fits the machine.
    spec fn chunks_wf(&self) -> bool {
        &&& 1 <= self.chunk_size
        &&& 2 * self.chunk_size as int <= usize::MAX as int
        &&& self.left@.len() == self.chunk_size
        &&& self.right@.len() == self.chunk_size
    }

    /// The stream offset at which the most recently loaded chunk begins:
    /// the largest multiple of `chunk_size` strictly below `loaded`.
    spec fn last_chunk_start(&self) -> int {
        ((self.loaded as int - 1) / (self.chunk_size as int)) * (self.chunk_size as int)
    }

    /// The least stream offset whose byte is still intact in the chunks:
    /// everything below it may have been overwritten by a later refill.
    spec fn valid_lo(&self) -> int {
        if self.loaded as int <= self.cap() {
            0
        } else {
            self.last_chunk_start() - self.chunk_size as int
        }
    }

    /// The byte the circular buffer holds at slot `p`.
    spec fn slot(&self, p: int) -> u8 {
        if p < self.chunk_size as int {
            self.left@[p]
        } else {
            self.right@[p - self.chunk_size as int]
        }
    }

    /// The byte at stream offset `j` is physically present at the slot the
    /// circular mapping assigns to it.
    spec fn byte_ok(&self, j: int) -> bool {
        self.slot(j % self.cap()) == self.full@[j]
    }

    /// Every loaded byte that has not been overwritten is where the
    /// circular mapping says it is.
    spec fn data_ok(&self) -> bool {
        forall|j: int| self.valid_lo() <= j < self.loaded ==> #[trigger] self.byte_ok(j)
    }

    /// The buffer's internal invariant, established by `new` and preserved
    /// by every operation.
    pub closed spec fn wf(&self) -> bool {
        &&& self.chunks_wf()
        &&& self.full@.len() <= usize::MAX as int
        &&& self.withdrawn <= self.chunk_size
        &&& self.consumed + self.withdrawn <= self.loaded
        &&& self.loaded <= self.full@.len()
        &&& self.source.remaining() == self.full@.skip(self.loaded as int)
        &&& (self.loaded as int % (self.chunk_size as int) == 0 || self.loaded
            == self.full@.len())
        &&& ((self.consumed + self.withdrawn) % (self.chunk_size as int) == 0
            ==> self.consumed + self.withdrawn == self.loaded)
        &&& (self.loaded > 0 ==> self.consumed + self.withdrawn >= self.last_chunk_start())
        &&& self.data_ok()
    }

    /// A well-formed buffer has a well-formed view.
    pub proof fn lemma_view_inv(&self)
        requires
            self.wf(),
        ensures
            self@.inv(),
    {
    }

    /// Creates a buffer over `source` with two chunks of `chunk_size` bytes
    /// each, or fails when the chunk size is zero. The two `requires` are
    /// machine limits: the capacity and the byte counts are held in `usize`.
    pub fn new(source: R, chunk_size: usize) -> (r: Result<CharBuffer<R>, BufferError>)
        requires
            2 * chunk_size as int <= usize::MAX as int,
            source.remaining().len() <= usize::MAX as int,
        ensures
            match r {
                Ok(buf) => {
                    &&& chunk_size >= 1
                    &&& buf.wf()
                    &&& buf@ == (BufferView {
                        stream: source.remaining(),
                        chunk_size: chunk_size as int,
                        consumed: 0,
                        withdrawn: 0,
                    })
                },
                Err(e) => {
                    &&& chunk_size == 0
                    &&& e == BufferError::ConfigurationError
                },
            },
    {
        if chunk_size < 1 {
            return Err(BufferError::ConfigurationError);
        }
        let buf = CharBuffer {
            full: Ghost(source.remaining()),
            source,
            chunk_size,
            left: vec![0u8; chunk_size],
            right: vec![0u8; chunk_size],
            consumed: 0,
            loaded: 0,
            withdrawn: 0,
        };
        proof {
            assert(buf.source.remaining() =~= buf.full@.skip(0));
        }
        Ok(buf)
    }

    /// The total capacity of the buffer: twice the chunk size.
    pub fn capacity(&self) -> (c: usize)
        requires
            self.wf(),
        ensures
            c as int == self@.capacity(),
    {
        self.chunk_size * 2
    }

    /// The current position of the read cursor across both chunks.
    pub fn position(&self) -> (p: usize)
        requires
            self.wf(),
        ensures
            p as int == self@.position(),
    {
        self.consumed % self.capacity()
    }

    /// Loads the next chunk: fills the half the cursor is entering with the
    /// source's next bytes and returns how many were read. Called only at a
    /// half boundary with no rewind pending, when every loaded byte has been
    /// consumed.
    fn load_chunk(&mut self) -> (n: usize)
        requires
            old(self).wf(),
            old(self).withdrawn == 0,
            old(self).consumed == old(self).loaded,
            old(self)@.position() == 0 || old(self)@.position() == old(self).chunk_size,
        ensures
            final(self).source.remaining() == final(self).full@.skip(
                old(self).loaded + n,
            ),
            final(self).chunk_size == old(self).chunk_size,
            final(self).consumed == old(self).consumed,
            final(self).loaded == old(self).loaded,
            final(self).withdrawn == old(self).withdrawn,
            final(self).full == old(self).full,
            final(self).left@.len() == old(self).left@.len(),
            final(self).right@.len() == old(self).right@.len(),
            n == if old(self).chunk_size as int <= old(self).full@.len() - old(self).loaded {
                old(self).chunk_size as int
            } else {
                old(self).full@.len() - old(self).loaded
            },
            old(self)@.position() == 0 ==> final(self).right@ == old(self).right@,
            old(self)@.position() == old(self).chunk_size ==> final(self).left@ == old(
                self,
            ).left@,
            forall|i: int|
                n <= i < old(self).chunk_size ==> #[trigger] final(self).slot(
                    old(self)@.position() + i,
                ) == old(self).slot(old(self)@.position() + i),
            forall|d: int|
                0 <= d < n ==> #[trigger] final(self).slot(old(self)@.position() + d)
                    == old(self).full@[old(self).loaded + d],
    {
        let position = self.consumed % (self.chunk_size * 2);
        let n = if position < self.chunk_size {
            self.source.read_into(&mut self.left)
        } else {
            self.source.read_into(&mut self.right)
        };
        proof {
            assert(old(self).full@.skip(old(self).loaded as int).len() == old(
                self,
            ).full@.len() - old(self).loaded);
            assert(self.source.remaining() =~= self.full@.skip(old(self).loaded + n));
            assert forall|d: int|
                0 <= d < n implies #[trigger] self.slot(old(self)@.position() + d) == old(
                self,
            ).full@[old(self).loaded + d] by {
                assert(old(self).full@.skip(old(self).loaded as int)[d] == old(
                    self,
                ).full@[old(self).loaded + d]);
            }
        }
        n
    }

    /// Reads the next byte of the stream, or fails with `EndOfInput` once
    /// the source is exhausted and every loaded byte has been consumed.
    ///
    /// When the cursor is about to cross into a half and no pending rewind
    /// covers it, that half is first refilled from the source: at most one
    /// source read of at most `chunk_size` bytes per call. A successful call
    /// advances the cursor and pays back one byte of a pending rewind; the
    /// failing call changes nothing.
    pub fn take_byte(&mut self) -> (r: Result<u8, BufferError>)
        requires
            old(self).wf(),
        ensures
            final(self).wf(),
            r == take_byte_outcome(old(self)@),
            final(self)@ == (if old(self)@.at_end() {
                old(self)@
            } else {
                old(self)@.step()
            }),
    {
        let ghost c = old(self).chunk_size as int;
        let ghost cap = old(self).cap();
        let ghost consumed0 = old(self).consumed as int;
        let ghost loaded0 = old(self).loaded as int;
        let ghost w0 = old(self).withdrawn as int;
        proof {
            lemma_mod_bound(consumed0, cap);
        }
        let ghost mut mid = *self;
        let position = self.position();
        if self.withdrawn == 0 && (position == 0 || position == self.chunk_size) {
            proof {
                lemma_boundary_to_multiple(consumed0, c);
                // consumed % chunk_size == 0 and nothing is withdrawn, so by
                // the invariant every loaded byte has been consumed.
                assert(self.consumed == self.loaded);
            }
            let n = self.load_chunk();
            proof {
                mid = *self;
                assert(self.loaded + n <= self.full@.len());
            }
            self.loaded = self.loaded + n;
        }
        if self.consumed >= self.loaded {
            proof {
                let boundary0 = old(self)@.position() == 0 || old(self)@.position() == c;
                if !(w0 == 0 && boundary0) {
                    // no load happened, so the state is untouched; were the
                    // source not exhausted, the invariant would put the
                    // cursor on a boundary with nothing withdrawn, and a
                    // load would have happened.
                    assert(self.withdrawn == 0);
                    if loaded0 < self.full@.len() {
                        lemma_multiple_to_boundary(consumed0, c);
                        assert(false);
                    }
                } else {
                    // a load happened but returned nothing: the source is
                    // exhausted, and the chunks kept every byte they held.
                    assert(self.loaded == loaded0);
                    assert forall|j: int|
                        self.valid_lo() <= j < self.loaded implies #[trigger] self.byte_ok(
                        j,
                    ) by {
                        assert(old(self).byte_ok(j));
                        lemma_mod_bound(j, cap);
                        let q = j % cap;
                        if old(self)@.position() == 0 {
                            if q < c {
                                assert(mid.slot(old(self)@.position() + q) == old(
                                    self,
                                ).slot(old(self)@.position() + q));
                            }
                        } else {
                            if q >= c {
                                assert(mid.slot(old(self)@.position() + (q - c)) == old(
                                    self,
                                ).slot(old(self)@.position() + (q - c)));
                            }
                        }
                        assert(self.slot(q) == old(self).slot(q));
                    }
                }
                assert(self@ == old(self)@);
                assert(self@.at_end());
                assert(self.wf());
            }
            return Err(BufferError::EndOfInput);
        }
        if self.withdrawn > 0 {
            self.withdrawn = self.withdrawn - 1;
        }
        let byte = self.read_position(position);
        self.consumed = self.consumed + 1;
        proof {
            let boundary0 = old(self)@.position() == 0 || old(self)@.position() == c;
            let loaded1 = self.loaded as int;
            if w0 == 0 && boundary0 {
                // the load path: the cursor stood at the start of the half
                // that was just refilled, and the read byte is the first of
                // the fresh chunk.
                let n = loaded1 - loaded0;
                assert(consumed0 == loaded0);
                assert(1 <= n <= c);
                assert(mid.slot(old(self)@.position() + 0) == self.full@[loaded0 + 0]);
                assert(byte == self.full@[consumed0]);
                // the invariant, clause by clause
                vstd::arithmetic::div_mod::lemma_mod_add_multiples_vanish(loaded0, c);
                if loaded1 % c != 0 {
                    assert(n < c);
                    assert(loaded1 == self.full@.len());
                }
                if (consumed0 + 1) % c == 0 {
                    lemma_consecutive_multiples(consumed0, c);
                    assert(c == 1 && n == 1);
                }
                lemma_chunk_floor_after_load(loaded0, n, c);
                assert(self.last_chunk_start() == loaded0);
                assert forall|j: int|
                    self.valid_lo() <= j < self.loaded implies #[trigger] self.byte_ok(
                    j,
                ) by {
                    if j >= loaded0 {
                        let d = j - loaded0;
                        lemma_mod_offset(loaded0, d, cap);
                        assert(mid.slot(old(self)@.position() + d) == self.full@[loaded0
                            + d]);
                        assert(j % cap == old(self)@.position() + d);
                    } else {
                        assert(old(self).byte_ok(j));
                        if loaded0 >= 1 {
                            lemma_chunk_floor(loaded0, c);
                        }
                        if loaded1 <= cap {
                            // below full capacity the old load count is a
                            // multiple of the chunk size under twice it
                            lemma_multiple_to_boundary(loaded0, c);
                            vstd::arithmetic::div_mod::lemma_small_mod(
                                loaded0 as nat,
                                cap as nat,
                            );
                        }
                        lemma_prev_window(j, loaded0, c);
                        assert(self.slot(j % cap) == old(self).slot(j % cap));
                    }
                }
                assert(self.wf());
            } else {
                // no load: the byte was already staged, and the invariant
                // places it at the cursor's slot.
                assert(consumed0 < loaded0);
                lemma_chunk_floor(loaded0, c);
                assert(consumed0 >= old(self).valid_lo());
                assert(old(self).byte_ok(consumed0));
                assert(byte == self.full@[consumed0]);
                let hw1 = self.consumed + self.withdrawn;
                if hw1 % c == 0 && hw1 < loaded0 {
                    // the new high-water mark would be a chunk boundary
                    // strictly inside the last chunk: impossible.
                    assert(w0 == 0);
                    assert(hw1 == consumed0 + 1);
                    lemma_gap_not_multiple(hw1, old(self).last_chunk_start(), c);
                    assert(false);
                }
                assert forall|j: int|
                    self.valid_lo() <= j < self.loaded implies #[trigger] self.byte_ok(
                    j,
                ) by {
                    assert(old(self).byte_ok(j));
                }
                assert(self.wf());
            }
            assert(self@ == old(self)@.step());
        }
        Ok(byte)
    }

    /// Reads the next byte as an ASCII character.
    ///
    /// A byte with its high bit set fails with `InvalidInput`, but still
    /// counts as consumed: a caller that wants to recover it must rewind
    /// explicitly.
    pub fn take_char(&mut self) -> (r: Result<char, BufferError>)
        requires
            old(self).wf(),
        ensures
            final(self).wf(),
            r == take_char_outcome(old(self)@),
            final(self)@ == (if old(self)@.at_end() {
                old(self)@
            } else {
                old(self)@.step()
            }),
    {
        let byte = match self.take_byte() {
            Ok(b) => b,
            Err(e) => {
                return Err(e);
            },
        };
        if byte >= 0x80 {
            return Err(BufferError::InvalidInput);
        }
        Ok(byte as char)
    }

    /// Takes back `amount` already consumed bytes, so that the following
    /// reads re-deliver them without touching the source; returns the new
    /// cursor position.
    ///
    /// The whole request is refused with `PermissionDenied` when it exceeds
    /// what has been consumed or the size of one chunk. Otherwise the bytes
    /// are taken back one at a time, and a request that exhausts the live
    /// withdrawn budget on the way fails with `PermissionDenied`, leaving
    /// the steps already applied in effect.
    #[verifier::loop_isolation(false)]
    pub fn take_back(&mut self, amount: usize) -> (r: Result<usize, BufferError>)
        requires
            old(self).wf(),
        ensures
            final(self).wf(),
            ({
                let pre = old(self)@;
                if pre.rewind_allowed(amount as int) {
                    &&& r == Ok::<usize, BufferError>(
                        pre.rewound(amount as int).position() as usize,
                    )
                    &&& final(self)@ == pre.rewound(amount as int)
                } else {
                    &&& r == Err::<usize, BufferError>(BufferError::PermissionDenied)
                    &&& final(self)@ == (if amount <= pre.consumed && amount
                        <= pre.chunk_size {
                        pre.rewound(pre.chunk_size - pre.withdrawn)
                    } else {
                        pre
                    })
                }
            }),
    {
        if amount > self.consumed {
            return Err(BufferError::PermissionDenied);
        }
        if amount > self.chunk_size {
            return Err(BufferError::PermissionDenied);
        }
        let ghost pre = *self;
        let mut i: usize = 0;
        while i < amount
            invariant
                i <= amount,
                amount <= pre.consumed,
                amount <= pre.chunk_size,
                pre.wf(),
                self.source == pre.source,
                self.chunk_size == pre.chunk_size,
                self.left == pre.left,
                self.right == pre.right,
                self.loaded == pre.loaded,
                self.full == pre.full,
                self.consumed == pre.consumed - i,
                self.withdrawn == pre.withdrawn + i,
                self.withdrawn <= pre.chunk_size,
                self.wf(),
            decreases amount - i,
        {
            if self.withdrawn + 1 > self.chunk_size {
                proof {
                    assert(self.withdrawn == pre.chunk_size);
                    assert(i == pre.chunk_size - pre.withdrawn);
                    assert(!pre@.rewind_allowed(amount as int));
                    assert(self@ == pre@.rewound(pre.chunk_size - pre.withdrawn));
                }
                return Err(BufferError::PermissionDenied);
            }
            self.consumed = self.consumed - 1;
            self.withdrawn = self.withdrawn + 1;
            i = i + 1;
            proof {
                assert forall|j: int|
                    self.valid_lo() <= j < self.loaded implies #[trigger] self.byte_ok(
                    j,
                ) by {
                    assert(pre.byte_ok(j));
                }
            }
        }
        proof {
            assert(pre@.rewind_allowed(amount as int));
            assert(self@ == pre@.rewound(amount as int));
            lemma_mod_bound(self.consumed as int, self.cap());
        }
        Ok(self.consumed % (self.chunk_size * 2))
    }

    /// A human-readable snapshot of the buffer for diagnostics: both chunk
    /// contents in hexadecimal and the current position and capacity. The
    /// text is not a stability contract.
    pub fn debug_str(&self) -> String
        requires
            self.wf(),
    {
        let position = self.position();
        let capacity = self.capacity();
        render_debug(&self.left, &self.right, position, capacity)
    }

    /// Reads the byte a slot of the circular buffer holds.
    fn read_position(&self, position: usize) -> (b: u8)
        requires
            self.chunks_wf(),
            (position as int) < self.cap(),
        ensures
            b == self.slot(position as int),
    {
        if position < self.chunk_size {
            self.left[position]
        } else {
            proof {
                lemma_fundamental_div_mod_converse(
                    position as int,
                    self.chunk_size as int,
                    1,
                    position - self.chunk_size as int,
                );
            }
            self.right[position % self.chunk_size]
        }
    }
}

/// Relies on std's `format!` macro to render the diagnostic snapshot; the
/// resulting text carries no contract.
#[verifier::external_body]
fn render_debug(left: &Vec<u8>, right: &Vec<u8>, position: usize, capacity: usize) -> String {
    format!(
        "CharBuffer {{ left: {:02X?}, right: {:02X?}, position: {} ({} positions) }}",
        left,
        right,
        position,
        capacity,
    )
}

/// A cursor stands at a half boundary of the circular buffer exactly when
/// its stream offset is a multiple of the chunk size.
proof fn lemma_boundary_to_multiple(a: int, c: int)
    requires
        c >= 1,
        a >= 0,
        a % (2 * c) == 0 || a % (2 * c) == c,
    ensures
        a % c == 0,
{
    lemma_fundamental_div_mod(a, 2 * c);
    let q = a / (2 * c);
    let r = a % (2 * c);
    if r == 0 {
        assert(a == (2 * q) * c + 0) by (nonlinear_arith)
            requires
                a == 2 * c * q + r,
                r == 0,
        ;
        lemma_fundamental_div_mod_converse(a, c, 2 * q, 0);
    } else {
        assert(a == (2 * q + 1) * c + 0) by (nonlinear_arith)
            requires
                a == 2 * c * q + r,
                r == c,
        ;
        lemma_fundamental_div_mod_converse(a, c, 2 * q + 1, 0);
    }
}

/// The converse: a multiple of the chunk size lands on one of the two half
/// boundaries of the circular buffer.
proof fn lemma_multiple_to_boundary(a: int, c: int)
    requires
        c >= 1,
        a >= 0,
        a % c == 0,
    ensures
        a % (2 * c) == 0 || a % (2 * c) == c,
{
    lemma_fundamental_div_mod(a, c);
    let q = a / c;
    lemma_fundamental_div_mod(q, 2);
    lemma_mod_bound(q, 2);
    let h = q / 2;
    let s = q % 2;
    if s == 0 {
        assert(a == h * (2 * c) + 0) by (nonlinear_arith)
            requires
                a == c * q,
                q == 2 * h,
        ;
        lemma_fundamental_div_mod_converse(a, 2 * c, h, 0);
    } else {
        assert(a == h * (2 * c) + c) by (nonlinear_arith)
            requires
                a == c * q,
                q == 2 * h + 1,
        ;
        lemma_fundamental_div_mod_converse(a, 2 * c, h, c);
    }
}

/// Offsets that stay within the divisor do not wrap the remainder.
proof fn lemma_mod_offset(a: int, d: int, m: int)
    requires
        m >= 1,
        a >= 0,
        0 <= d,
        a % m + d < m,
    ensures
        (a + d) % m == a % m + d,
{
    lemma_fundamental_div_mod(a, m);
    lemma_mod_bound(a, m);
    let q = a / m;
    assert(a + d == q * m + (a % m + d)) by (nonlinear_arith)
        requires
            a == m * q + a % m,
    ;
    lemma_fundamental_div_mod_converse(a + d, m, q, a % m + d);
}

/// Where the start of the most recently loaded chunk lies: on a chunk
/// boundary, less than one chunk below `loaded`.
proof fn lemma_chunk_floor(loaded: int, c: int)
    requires
        c >= 1,
        loaded >= 1,
    ensures
        (((loaded - 1) / c) * c) % c == 0,
        loaded - c <= ((loaded - 1) / c) * c < loaded,
        loaded % c == 0 ==> ((loaded - 1) / c) * c == loaded - c,
{
    lemma_fundamental_div_mod(loaded - 1, c);
    lemma_mod_bound(loaded - 1, c);
    let q = (loaded - 1) / c;
    let r = (loaded - 1) % c;
    assert(q * c == loaded - 1 - r) by (nonlinear_arith)
        requires
            loaded - 1 == c * q + r,
    ;
    lemma_fundamental_div_mod_converse(q * c, c, q, 0);
    if loaded % c == 0 {
        lemma_fundamental_div_mod(loaded, c);
        let bigq = loaded / c;
        assert(loaded - 1 == (bigq - 1) * c + (c - 1)) by (nonlinear_arith)
            requires
                loaded == c * bigq,
        ;
        lemma_fundamental_div_mod_converse(loaded - 1, c, bigq - 1, c - 1);
        assert((bigq - 1) * c == loaded - c) by (nonlinear_arith)
            requires
                loaded == c * bigq,
        ;
    }
}

/// Strictly between two adjacent multiples of `c` no further multiple lies.
proof fn lemma_gap_not_multiple(x: int, lcs: int, c: int)
    requires
        c >= 1,
        lcs >= 0,
        lcs % c == 0,
        lcs < x < lcs + c,
    ensures
        x % c != 0,
{
    lemma_fundamental_div_mod(lcs, c);
    let q = lcs / c;
    assert(x == q * c + (x - lcs)) by (nonlinear_arith)
        requires
            lcs == c * q,
    ;
    lemma_fundamental_div_mod_converse(x, c, q, x - lcs);
}

/// Two adjacent stream offsets can both be chunk boundaries only when the
/// chunk size is one.
proof fn lemma_consecutive_multiples(a: int, c: int)
    requires
        c >= 1,
        a >= 0,
        a % c == 0,
        (a + 1) % c == 0,
    ensures
        c == 1,
{
    if c > 1 {
        lemma_fundamental_div_mod(a, c);
        let q = a / c;
        assert(a + 1 == q * c + 1) by (nonlinear_arith)
            requires
                a == c * q,
        ;
        lemma_fundamental_div_mod_converse(a + 1, c, q, 1);
    }
}

/// After a load of `n` bytes onto a chunk boundary, the most recently loaded
/// chunk starts exactly at that boundary.
proof fn lemma_chunk_floor_after_load(loaded: int, n: int, c: int)
    requires
        c >= 1,
        loaded >= 0,
        loaded % c == 0,
        1 <= n <= c,
    ensures
        ((loaded + n - 1) / c) * c == loaded,
{
    lemma_fundamental_div_mod(loaded, c);
    let q = loaded / c;
    assert(loaded + n - 1 == q * c + (n - 1)) by (nonlinear_arith)
        requires
            loaded == c * q,
    ;
    lemma_fundamental_div_mod_converse(loaded + n - 1, c, q, n - 1);
    assert(q * c == loaded) by (nonlinear_arith)
        requires
            loaded == c * q,
    ;
}

/// A stream offset less than one chunk below a half boundary maps into the
/// other half of the circular buffer.
proof fn lemma_prev_window(j: int, loaded: int, c: int)
    requires
        c >= 1,
        0 <= j < loaded,
        loaded - j <= c,
        loaded % (2 * c) == 0 || loaded % (2 * c) == c,
    ensures
        loaded % (2 * c) == 0 ==> j % (2 * c) == 2 * c - (loaded - j),
        loaded % (2 * c) == c ==> j % (2 * c) == c - (loaded - j),
{
    let cap = 2 * c;
    lemma_fundamental_div_mod(loaded, cap);
    let q = loaded / cap;
    let p = loaded % cap;
    let e = loaded - j;
    if p == 0 {
        assert(j == (q - 1) * cap + (cap - e)) by (nonlinear_arith)
            requires
                loaded == cap * q,
                e == loaded - j,
        ;
        lemma_fundamental_div_mod_converse(j, cap, q - 1, cap - e);
    } else {
        assert(j == q * cap + (c - e)) by (nonlinear_arith)
            requires
                loaded == cap * q + c,
                e == loaded - j,
        ;
        lemma_fundamental_div_mod_converse(j, cap, q, c - e);
    }
}

} // verus!
