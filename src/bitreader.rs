use vstd::prelude::*;

verus! {

/// The little-endian 32-bit word stored at byte offset `i` of `b`.
pub open spec fn le_word(b: Seq<u8>, i: int) -> u32 {
    (b[i] as int + b[i + 1] as int * 0x100 + b[i + 2] as int * 0x1_0000 + b[i + 3] as int
        * 0x100_0000) as u32
}

/// Whether the word at byte offset `c` is a framing word that the reader steps over.
pub open spec fn skips_word_at(skip_period: u32, c: int) -> bool {
    skip_period != 0 && ((c / 4) + 1) % (skip_period as int) == 0
}

/// The words that successive pulls deliver, starting with the cursor at byte `c`.
/// A pull needs four bytes; a framing word, when one is due, is read and discarded first.
pub open spec fn stream_words(input: Seq<u8>, skip_period: u32, c: int) -> Seq<u32>
    decreases input.len() - c,
{
    if c < 0 || input.len() - c < 4 {
        Seq::empty()
    } else {
        let s = if skips_word_at(skip_period, c) {
            c + 4
        } else {
            c
        };
        if input.len() - s < 4 {
            Seq::empty()
        } else {
            seq![le_word(input, s)] + stream_words(input, skip_period, s + 4)
        }
    }
}

/// Word `k` of the stream; past the end of the input the stream is zeros.
pub open spec fn word_of(w: Seq<u32>, k: int) -> u32 {
    if 0 <= k < w.len() {
        w[k]
    } else {
        0
    }
}

/// Two words side by side, `u` on the most significant side.
pub open spec fn cat(u: u32, v: u32) -> u64 {
    ((u as u64) << 32u64) | (v as u64)
}

/// The 32 bits of the stream that start at bit `p` (MSB-first within each word).
pub open spec fn window(w: Seq<u32>, p: nat) -> u32 {
    let j = (p / 32) as int;
    let o = p % 32;
    (cat(word_of(w, j), word_of(w, j + 1)) >> ((32 - o) as u64)) as u32
}

/// The `n` bits of the stream that start at bit `p`, right-justified.
pub open spec fn bits_at(w: Seq<u32>, p: nat, n: nat) -> u32 {
    window(w, p) >> ((32 - n) as u32)
}

/// How many words a reader without framing has pulled once `p` bits are consumed: the word
/// under the current bit and the one after it.
pub open spec fn pulled_at(p: nat) -> nat {
    if p % 32 == 0 {
        p / 32 + 1
    } else {
        p / 32 + 2
    }
}

/// Whether a reader without framing has taken every whole word of `input` once `p` bits
/// are consumed (and no bytes are left over).
pub open spec fn ends_at(input: Seq<u8>, p: nat) -> bool {
    let taken = if pulled_at(p) < input.len() / 4 {
        pulled_at(p)
    } else {
        input.len() / 4
    };
    4 * taken == input.len()
}

proof fn lemma_words_unframed(input: Seq<u8>, c: int)
    requires
        0 <= c <= input.len(),
    ensures
        stream_words(input, 0, c).len() == (input.len() - c) / 4,
    decreases input.len() - c,
{
    if input.len() - c >= 4 {
        lemma_words_unframed(input, c + 4);
    }
}

/// MSB-first bit reader over a buffer of little-endian 32-bit words.
pub struct BitReader {
    input: Vec<u8>,
    cursor: usize,
    skip_period: u32,
    head: u32,
    buffer: u32,
    live: u8,
    pulled: Ghost<nat>,
    taken: Ghost<nat>,
    consumed: Ghost<nat>,
}

proof fn lemma_drop_within(u: u32, v: u32, a: u64, n: u64)
    requires
        32 <= a <= 64,
        1 <= n < 32,
        a - n >= 32,
    ensures
        (((cat(u, v) >> ((a - 32) as u64)) as u32) << (n as u32)) | ((((v as u64) << ((64 - a) as u64))
            as u32) >> ((32 - n) as u32)) == (cat(u, v) >> ((a - n - 32) as u64)) as u32,
        (((v as u64) << ((64 - a) as u64)) as u32) << (n as u32) == ((v as u64) << ((64 - (a - n))
            as u64)) as u32,
{
    assert((((cat(u, v) >> ((a - 32) as u64)) as u32) << (n as u32)) | ((((v as u64) << ((64 - a)
        as u64)) as u32) >> ((32 - n) as u32)) == (cat(u, v) >> ((a - n - 32) as u64)) as u32)
        by (bit_vector)
        requires
            32 <= a <= 64,
            1 <= n < 32,
            a - n >= 32,
    ;
    assert((((v as u64) << ((64 - a) as u64)) as u32) << (n as u32) == ((v as u64) << ((64 - (a
        - n)) as u64)) as u32) by (bit_vector)
        requires
            32 <= a <= 64,
            1 <= n < 32,
            a - n >= 32,
    ;
}

proof fn lemma_drop_whole(u: u32, v: u32)
    ensures
        ((v as u64) << 0u64) as u32 == (cat(u, v) >> 0u64) as u32,
        ((v as u64) << 32u64) as u32 == 0,
{
    assert(((v as u64) << 0u64) as u32 == (cat(u, v) >> 0u64) as u32) by (bit_vector);
    assert(((v as u64) << 32u64) as u32 == 0) by (bit_vector);
}

proof fn lemma_drop_refill(u: u32, v: u32, w: u32, a: u64, n: u64)
    requires
        32 <= a <= 64,
        1 <= n <= 32,
        a - n < 32,
    ensures
        ((if n == 32 {
            0u32
        } else {
            ((cat(u, v) >> ((a - 32) as u64)) as u32) << (n as u32)
        }) | ((((v as u64) << ((64 - a) as u64)) as u32) >> ((32 - n) as u32)) | (w >> ((a - n)
            as u32))) == (cat(v, w) >> ((a - n) as u64)) as u32,
        (if a - n > 0 {
            w << ((32 - (a - n)) as u32)
        } else {
            ((v as u64) << ((64 - a) as u64)) as u32
        }) == ((w as u64) << ((64 - (a - n + 32)) as u64)) as u32,
{
    assert(((if n == 32 {
        0u32
    } else {
        ((cat(u, v) >> ((a - 32) as u64)) as u32) << (n as u32)
    }) | ((((v as u64) << ((64 - a) as u64)) as u32) >> ((32 - n) as u32)) | (w >> ((a - n)
        as u32))) == (cat(v, w) >> ((a - n) as u64)) as u32) by (bit_vector)
        requires
            32 <= a <= 64,
            1 <= n <= 32,
            a - n < 32,
    ;
    assert((if a - n > 0 {
        w << ((32 - (a - n)) as u32)
    } else {
        ((v as u64) << ((64 - a) as u64)) as u32
    }) == ((w as u64) << ((64 - (a - n + 32)) as u64)) as u32) by (bit_vector)
        requires
            32 <= a <= 64,
            1 <= n <= 32,
            a - n < 32,
    ;
}

proof fn lemma_window_of_registers(w: Seq<u32>, t: nat, a: nat)
    requires
        32 <= a <= 64,
        32 * t >= a,
    ensures
        window(w, (32 * t - a) as nat) == (cat(word_of(w, t - 2), word_of(w, t - 1)) >> ((a
            - 32) as u64)) as u32,
{
    let p = (32 * t - a) as nat;
    if a == 32 {
        assert(p / 32 == t - 1 && p % 32 == 0);
        let x = word_of(w, t - 2);
        let y = word_of(w, t - 1);
        let z = word_of(w, t as int);
        assert((cat(y, z) >> 32u64) as u32 == (cat(x, y) >> 0u64) as u32) by (bit_vector);
    } else {
        assert(p / 32 == t - 2 && p % 32 == 64 - a);
    }
}

impl BitReader {
    /// The words this reader delivers, in order.
    pub closed spec fn stream(&self) -> Seq<u32> {
        stream_words(self.input@, self.skip_period, 0)
    }

    /// The number of bits consumed so far.
    pub closed spec fn position(&self) -> nat {
        self.consumed@
    }

    /// The number of input bytes the cursor has moved past.
    pub closed spec fn cursor_bytes(&self) -> nat {
        self.cursor as nat
    }

    /// The input buffer.
    pub closed spec fn input_bytes(&self) -> Seq<u8> {
        self.input@
    }

    /// The framing period, in words.
    pub closed spec fn period(&self) -> u32 {
        self.skip_period
    }

    /// The delivered words are those of the input and framing period.
    pub proof fn lemma_stream(&self)
        ensures
            self.stream() == stream_words(self.input_bytes(), self.period(), 0),
    {
    }

    pub closed spec fn wf(&self) -> bool {
        let w = self.stream();
        let t = self.pulled@;
        let a = self.live as nat;
        &&& 32 <= a <= 63
        &&& 32 * t >= a
        &&& (self.skip_period == 0 ==> self.cursor == 4 * self.taken@)
        &&& self.consumed@ == 32 * t - a
        &&& self.head == (cat(word_of(w, t - 2), word_of(w, t - 1)) >> ((a - 32) as u64)) as u32
        &&& self.buffer == ((word_of(w, t - 1) as u64) << ((64 - a) as u64)) as u32
        &&& self.taken@ <= w.len()
        &&& self.taken@ <= t
        &&& (self.taken@ < t ==> self.taken@ == w.len())
        &&& self.cursor <= self.input@.len()
        &&& stream_words(self.input@, self.skip_period, self.cursor as int) =~= w.skip(
            self.taken@ as int,
        )
    }

    /// Starts a reader at bit 0 of `input`; `skip_period` is the framing period in words (0: none).
    pub fn new(input: Vec<u8>, skip_period: u32) -> (r: BitReader)
        ensures
            r.wf(),
            r.position() == 0,
            r.input_bytes() == input@,
            r.period() == skip_period,
            r.stream() == stream_words(input@, skip_period, 0),
    {
        let mut r = BitReader {
            input,
            cursor: 0,
            skip_period,
            head: 0,
            buffer: 0,
            live: 32,
            pulled: Ghost(0),
            taken: Ghost(0),
            consumed: Ghost(0),
        };
        assert(stream_words(r.input@, r.skip_period, 0) =~= r.stream().skip(0));
        let (w, _) = r.pull_byte();
        r.head = w;
        r.consumed = Ghost(0);
        proof {
            let s = r.stream();
            let x = word_of(s, -1);
            let y = word_of(s, 0);
            assert((cat(x, y) >> 0u64) as u32 == y) by (bit_vector);
            assert(((y as u64) << 32u64) as u32 == 0) by (bit_vector);
        }
        r
    }

    /// Reads the little-endian word at byte offset `at`.
    fn word_at(&self, at: usize) -> (r: u32)
        requires
            at + 4 <= self.input@.len(),
        ensures
            r == le_word(self.input@, at as int),
    {
        assert(self.input@.len() == self.input.len());
        let b0 = self.input[at] as u32;
        let b1 = self.input[at + 1] as u32;
        let b2 = self.input[at + 2] as u32;
        let b3 = self.input[at + 3] as u32;
        b0 + b1 * 0x100 + b2 * 0x1_0000 + b3 * 0x100_0000
    }

    /// Takes the next word of the stream; once the input holds fewer than four bytes it
    /// yields a zero word and `false` (no bits).
    fn pull_byte(&mut self) -> (r: (u32, bool))
        requires
            old(self).taken@ <= old(self).stream().len(),
            old(self).taken@ <= old(self).pulled@,
            old(self).taken@ < old(self).pulled@ ==> old(self).taken@ == old(self).stream().len(),
            old(self).cursor <= old(self).input@.len(),
            stream_words(old(self).input@, old(self).skip_period, old(self).cursor as int)
                =~= old(self).stream().skip(old(self).taken@ as int),
            old(self).skip_period == 0 ==> old(self).cursor == 4 * old(self).taken@,
        ensures
            final(self).skip_period == 0 ==> final(self).cursor == 4 * final(self).taken@,
            final(self).input@ == old(self).input@,
            final(self).skip_period == old(self).skip_period,
            final(self).head == old(self).head,
            final(self).buffer == old(self).buffer,
            final(self).live == old(self).live,
            final(self).consumed == old(self).consumed,
            final(self).pulled@ == old(self).pulled@ + 1,
            final(self).cursor >= old(self).cursor,
            r.0 == word_of(old(self).stream(), old(self).pulled@ as int),
            r.1 == (old(self).pulled@ < old(self).stream().len()),
            final(self).taken@ <= final(self).stream().len(),
            final(self).taken@ <= final(self).pulled@,
            final(self).taken@ < final(self).pulled@
                ==> final(self).taken@ == final(self).stream().len(),
            final(self).cursor <= final(self).input@.len(),
            stream_words(final(self).input@, final(self).skip_period, final(self).cursor as int)
                =~= final(self).stream().skip(final(self).taken@ as int),
    {
        let ghost w = self.stream();
        let ghost c = self.cursor as int;
        self.pulled = Ghost(self.pulled@ + 1);
        let len = self.input.len();
        if len - self.cursor >= 4 {
            if self.skip_period != 0 && ((self.cursor / 4) as u64 + 1) % (self.skip_period as u64)
                == 0 {
                self.cursor = self.cursor + 4;
            }
            if len - self.cursor >= 4 {
                let v = self.word_at(self.cursor);
                self.cursor = self.cursor + 4;
                proof {
                    let rest = stream_words(self.input@, self.skip_period, c);
                    assert(rest =~= seq![v] + stream_words(
                        self.input@,
                        self.skip_period,
                        self.cursor as int,
                    ));
                    assert(rest[0] == w[self.taken@ as int]);
                    assert(self.taken@ == old(self).pulled@);
                    assert(w.skip(self.taken@ as int + 1) =~= rest.skip(1));
                    self.taken = Ghost(self.taken@ + 1);
                }
                return (v, true);
            } else {
                assert(stream_words(self.input@, self.skip_period, c).len() == 0);
            }
        } else {
            assert(stream_words(self.input@, self.skip_period, c).len() == 0);
        }
        (0, false)
    }

    /// The next `n` bits of the stream, right-justified; zeros past the end of the input.
    pub fn read_bits(&self, n: u8) -> (r: u32)
        requires
            self.wf(),
            1 <= n <= 32,
        ensures
            r == bits_at(self.stream(), self.position(), n as nat),
    {
        proof {
            lemma_window_of_registers(self.stream(), self.pulled@, self.live as nat);
        }
        self.head >> (32 - n as u32)
    }

    /// Whether the cursor has reached the end of the input.
    pub fn at_end(&self) -> (r: bool)
        requires
            self.wf(),
        ensures
            r == (self.cursor_bytes() == self.input_bytes().len()),
            self.period() == 0 ==> r == ends_at(self.input_bytes(), self.position()),
    {
        proof {
            if self.skip_period == 0 {
                lemma_words_unframed(self.input@, 0);
                let p = self.consumed@;
                let t = self.pulled@;
                let a = self.live as int;
                if p % 32 == 0 {
                    assert(a == 32);
                } else {
                    assert(a == 64 - p % 32);
                }
                assert(t == pulled_at(p));
            }
        }
        self.cursor == self.input.len()
    }

    /// Consumes `n` bits.
    pub fn drop_bits(&mut self, n: u8)
        requires
            old(self).wf(),
            n <= 32,
        ensures
            final(self).wf(),
            final(self).position() == old(self).position() + n,
            final(self).stream() == old(self).stream(),
            final(self).input_bytes() == old(self).input_bytes(),
            final(self).period() == old(self).period(),
            final(self).cursor_bytes() >= old(self).cursor_bytes(),
    {
        if n == 0 {
            return ;
        }
        let ghost w = self.stream();
        let ghost t = self.pulled@;
        let ghost u = word_of(w, t - 2);
        let ghost v = word_of(w, t - 1);
        let remaining: u8 = self.live - n;
        if remaining >= 32 {
            proof {
                if n < 32 {
                    lemma_drop_within(u, v, self.live as u64, n as u64);
                } else {
                    lemma_drop_whole(u, v);
                }
            }
            if n == 32 {
                self.head = self.buffer;
                self.buffer = 0;
            } else {
                self.head = (self.head << n as u32) | (self.buffer >> (32 - n as u32));
                self.buffer = self.buffer << n as u32;
            }
            self.live = remaining;
            self.consumed = Ghost(self.consumed@ + n as nat);
        } else {
            let (x, _) = self.pull_byte();
            proof {
                lemma_drop_refill(u, v, x, old(self).live as u64, n as u64);
                assert(x == word_of(w, t as int));
            }
            if n == 32 {
                self.head = 0;
            } else {
                self.head = self.head << n as u32;
            }
            self.head = self.head | (self.buffer >> (32 - n as u32)) | (x >> remaining as u32);
            if remaining > 0 {
                self.buffer = x << (32 - remaining as u32);
            }
            self.live = remaining + 32;
            self.consumed = Ghost(self.consumed@ + n as nat);
            assert(self.pulled@ == t + 1);
        }
    }
}

} // verus!
