//! A stream turned into codewords, whose bits are handed out frame by frame.
use crate::bitstream;
use crate::envelope;
use crate::envelope::EnvelopeError;
use crate::ldpc;
use crate::ldpc::{LdpcCode, LdpcEncodeScratch};
use crate::util;
use vstd::prelude::*;

verus! {

/// The bytes of a stream that codeword `c` carries.
pub open spec fn stream_block(stream: Seq<u8>, size: int, c: int) -> Seq<u8> {
    stream.subrange(c * size, util::lesser(c * size + size, stream.len() as int))
}

/// The bits of codeword `c`.
pub open spec fn coded_block(code: &LdpcCode, stream: Seq<u8>, size: int, c: int) -> Seq<u8> {
    ldpc::codeword_of(
        code,
        bitstream::unpacked(envelope::padded(stream_block(stream, size, c), size as nat)),
    )
}

/// The bits of the first `n` codewords.
pub open spec fn coded_stream(code: &LdpcCode, stream: Seq<u8>, size: int, n: nat) -> Seq<u8>
    decreases n,
{
    if n == 0 {
        Seq::empty()
    } else {
        coded_stream(code, stream, size, (n - 1) as nat) + coded_block(code, stream, size, n - 1)
    }
}

/// `cap` bits from place `from` on, zeros behind the end.
pub open spec fn bits_from(coded: Seq<u8>, from: int, cap: nat) -> Seq<u8> {
    Seq::new(
        cap,
        |i: int|
            if from + i < coded.len() {
                coded[from + i]
            } else {
                0
            },
    )
}

/// Turns a stream into codewords and hands their bits out.
pub struct StreamCoder {
    code: LdpcCode,
    stream: Vec<u8>,
    block_bytes: usize,
    codewords: usize,
    made: usize,
    scratch: LdpcEncodeScratch,
    off: usize,
}

impl StreamCoder {
    pub closed spec fn wf(&self) -> bool {
        &&& self.code.wf()
        &&& self.code.n > 0
        &&& envelope::payload_capacity(self.code.k) == Ok::<usize, EnvelopeError>(self.block_bytes)
        &&& self.codewords == util::ceil_div(self.stream@.len(), self.block_bytes as nat)
        &&& self.made <= self.codewords
        &&& self.off <= self.code.n
        &&& self.scratch.out@.len() == self.code.n
        &&& if self.made == 0 {
            self.off == self.code.n
        } else {
            self.scratch.out@ == coded_block(
                &self.code,
                self.stream@,
                self.block_bytes as int,
                self.made - 1,
            )
        }
    }

    /// All bits that are handed out.
    pub closed spec fn all_bits(&self) -> Seq<u8> {
        coded_stream(
            &self.code,
            self.stream@,
            self.block_bytes as int,
            util::ceil_div(self.stream@.len(), self.block_bytes as nat),
        )
    }

    /// How many bits have been handed out.
    pub closed spec fn sent(&self) -> int {
        (self.made - 1) * self.code.n + self.off
    }

    /// Starts on a stream.
    pub fn new(code: LdpcCode, stream: Vec<u8>) -> (r: Result<Self, EnvelopeError>)
        requires
            code.wf(),
        ensures
            match r {
                Ok(c) => {
                    let size = envelope::payload_capacity(code.k)->Ok_0;
                    &&& envelope::payload_capacity(code.k) is Ok
                    &&& c.wf()
                    &&& c.sent() == 0
                    &&& c.all_bits() == coded_stream(
                        &code,
                        stream@,
                        size as int,
                        util::ceil_div(stream@.len(), size as nat),
                    )
                },
                Err(e) => envelope::payload_capacity(code.k) == Err::<usize, EnvelopeError>(e),
            },
    {
        match envelope::ldpc_user_payload_bytes(&code) {
            Ok(block_bytes) => {
                let codewords: usize = util::div_ceil(stream.len(), block_bytes);
                let scratch: LdpcEncodeScratch = LdpcEncodeScratch::for_code(&code);
                let off: usize = code.n;
                let c: StreamCoder = StreamCoder {
                    code,
                    stream,
                    block_bytes,
                    codewords,
                    made: 0,
                    scratch,
                    off,
                };
                assert(c.sent() == 0) by (nonlinear_arith)
                    requires
                        c.sent() == (0 - 1) * c.code.n + c.code.n,
                ;
                Ok(c)
            },
            Err(e) => Err(e),
        }
    }

    /// Makes the next codeword.
    fn make_next(&mut self)
        requires
            old(self).wf(),
            old(self).made < old(self).codewords,
        ensures
            final(self).wf(),
            final(self).code == old(self).code,
            final(self).stream == old(self).stream,
            final(self).block_bytes == old(self).block_bytes,
            final(self).codewords == old(self).codewords,
            final(self).made == old(self).made + 1,
            final(self).off == 0,
    {
        let size: usize = self.block_bytes;
        let len: usize = self.stream.len();
        proof {
            lemma_block_starts(len as nat, size as nat, self.made as int);
        }
        let from: usize = self.made * size;
        let to: usize = if len - from < size {
            len
        } else {
            from + size
        };
        let payload: Vec<u8> = util::copy_range(self.stream.as_slice(), from, to);
        assert(payload@ == stream_block(self.stream@, size as int, self.made as int));
        let mut block: Vec<u8> = Vec::new();
        let _ = envelope::pack_cw_info_block_into(&self.code, payload.as_slice(), &mut block);
        let info: Vec<u8> = bitstream::bytes_to_bits_msb(block.as_slice());
        let _ = self.code.encode_with_scratch(info.as_slice(), &mut self.scratch);
        proof {
            ldpc::law_one_codeword(&self.code, info@, self.scratch.out@);
        }
        self.made = self.made + 1;
        self.off = 0;
    }

    /// The next `cap` bits, with zeros behind the last.
    pub fn next_frame_bits(&mut self, cap: usize) -> (bits: Vec<u8>)
        requires
            old(self).wf(),
        ensures
            final(self).wf(),
            final(self).all_bits() == old(self).all_bits(),
            bits@ == bits_from(old(self).all_bits(), old(self).sent(), cap as nat),
            final(self).sent() == util::lesser(
                old(self).sent() + cap,
                old(self).all_bits().len() as int,
            ),
    {
        let mut bits: Vec<u8> = Vec::with_capacity(cap);
        let ghost all = self.all_bits();
        let ghost start = self.sent();
        proof {
            self.lemma_position();
        }
        while bits.len() < cap
            invariant
                bits.len() <= cap,
                self.wf(),
                all == self.all_bits(),
                start == old(self).sent(),
                all == old(self).all_bits(),
                0 <= start <= all.len(),
                self.sent() == util::lesser(start + bits.len(), all.len() as int),
                bits@ == bits_from(all, start, bits.len() as nat),
            decreases cap - bits.len(),
        {
            let ghost before = bits@;
            if self.off >= self.code.n && self.made < self.codewords {
                let ghost n = self.code.n as int;
                let ghost m = self.made as int;
                self.make_next();
                assert((m - 1) * n + n == m * n) by (nonlinear_arith);
            }
            proof {
                self.lemma_position();
            }
            if self.off < self.code.n {
                let b: u8 = self.scratch.out[self.off];
                bits.push(b);
                self.off = self.off + 1;
            } else {
                bits.push(0);
            }
            assert(bits@ =~= bits_from(all, start, (before.len() + 1) as nat));
        }
        bits
    }

    /// Where the coder stands in all its bits.
    proof fn lemma_position(&self)
        requires
            self.wf(),
        ensures
            0 <= self.sent() <= self.all_bits().len(),
            self.off < self.code.n ==> self.sent() < self.all_bits().len() && self.all_bits()[self.sent()]
                == self.scratch.out@[self.off as int],
            self.off == self.code.n && self.made == self.codewords ==> self.sent()
                == self.all_bits().len(),
    {
        let n = self.code.n as int;
        let size = self.block_bytes as int;
        lemma_coded_stream(&self.code, self.stream@, size, self.codewords as nat);
        let (m, c) = (self.made as int, self.codewords as int);
        assert(m * n == (m - 1) * n + n && m * n <= c * n && 0 <= m * n) by (nonlinear_arith)
            requires
                0 <= m <= c,
                n >= 0,
        ;
        if self.made > 0 {
            assert(0 <= (m - 1) * n) by (nonlinear_arith)
                requires
                    m >= 1,
                    n >= 0,
            ;
            if self.off < self.code.n {
                lemma_coded_at(
                    &self.code,
                    self.stream@,
                    size,
                    self.codewords as nat,
                    m - 1,
                    self.off as int,
                );
            }
        }
    }
}

/// A block below the count of blocks starts inside the stream.
pub proof fn lemma_block_starts(len: nat, size: nat, c: int)
    requires
        size > 0,
        0 <= c < util::ceil_div(len, size),
    ensures
        0 <= c * size < len,
        c + 1 < util::ceil_div(len, size) ==> c * size + size < len,
        c + 1 == util::ceil_div(len, size) ==> len <= c * size + size,
{
    vstd::arithmetic::div_mod::lemma_fundamental_div_mod(len as int, size as int);
    let q = len as int / size as int;
    let r = len as int % size as int;
    assert(len == size * q + r);
    assert(0 <= c * size) by (nonlinear_arith)
        requires
            c >= 0,
            size > 0,
    ;
    if r == 0 {
        assert(c * size + size <= size * q) by (nonlinear_arith)
            requires
                c + 1 <= q,
                size > 0,
        ;
        if c + 1 < q {
            assert(c * size + size < size * q) by (nonlinear_arith)
                requires
                    c + 1 < q,
                    size > 0,
            ;
        } else {
            assert(c * size + size == size * q) by (nonlinear_arith)
                requires
                    c + 1 == q,
            ;
        }
    } else {
        assert(c * size <= size * q) by (nonlinear_arith)
            requires
                c <= q,
                size > 0,
        ;
        if c + 1 < q + 1 {
            assert(c * size + size <= size * q) by (nonlinear_arith)
                requires
                    c + 1 <= q,
                    size > 0,
            ;
        } else {
            assert(c * size == size * q) by (nonlinear_arith)
                requires
                    c == q,
            ;
        }
    }
}

/// Every codeword has the length of the code.
proof fn lemma_coded_block(code: &LdpcCode, stream: Seq<u8>, size: int, c: int)
    requires
        code.wf(),
    ensures
        coded_block(code, stream, size, c).len() == code.n,
        ldpc::encodes(
            code,
            bitstream::unpacked(envelope::padded(stream_block(stream, size, c), size as nat)),
            coded_block(code, stream, size, c),
        ),
{
    let info = bitstream::unpacked(
        envelope::padded(stream_block(stream, size, c), size as nat),
    );
    code.law_codeword_exists(info);
}

proof fn lemma_coded_stream(code: &LdpcCode, stream: Seq<u8>, size: int, n: nat)
    requires
        code.wf(),
    ensures
        coded_stream(code, stream, size, n).len() == n * code.n,
    decreases n,
{
    if n == 0 {
        assert(0 * code.n == 0) by (nonlinear_arith);
    } else {
        lemma_coded_stream(code, stream, size, (n - 1) as nat);
        lemma_coded_block(code, stream, size, n - 1);
        assert(n * code.n == (n - 1) * code.n + code.n) by (nonlinear_arith);
    }
}

/// A coded stream is made of bits.
pub proof fn lemma_coded_are_bits(code: &LdpcCode, stream: Seq<u8>, size: int, n: nat)
    requires
        code.wf(),
    ensures
        bitstream::are_bits(coded_stream(code, stream, size, n)),
    decreases n,
{
    if n > 0 {
        let m = (n - 1) as nat;
        lemma_coded_are_bits(code, stream, size, m);
        lemma_coded_block(code, stream, size, m as int);
        let before = coded_stream(code, stream, size, m);
        let block = coded_block(code, stream, size, m as int);
        let padded = envelope::padded(stream_block(stream, size, m as int), size as nat);
        bitstream::lemma_unpacked_are_bits(padded);
        let info = bitstream::unpacked(padded);
        let all = coded_stream(code, stream, size, n);
        assert forall|i: int| 0 <= i < all.len() implies (#[trigger] all[i] == 0 || all[i] == 1) by {
            if i < before.len() {
                assert(all[i] == before[i]);
            } else {
                let j = i - before.len();
                assert(all[i] == block[j]);
                if j < code.k && j < info.len() {
                    assert(block[j] == info[j]);
                }
            }
        }
    }
}

/// Codeword `c` stands at its place in the coded stream.
pub proof fn lemma_coded_at(code: &LdpcCode, stream: Seq<u8>, size: int, n: nat, c: int, i: int)
    requires
        code.wf(),
        0 <= c < n,
        0 <= i < code.n,
    ensures
        0 <= c * code.n + i < coded_stream(code, stream, size, n).len(),
        coded_stream(code, stream, size, n)[c * code.n + i] == coded_block(
            code,
            stream,
            size,
            c,
        )[i],
    decreases n,
{
    let m = (n - 1) as nat;
    lemma_coded_stream(code, stream, size, n);
    lemma_coded_stream(code, stream, size, m);
    lemma_coded_block(code, stream, size, m as int);
    assert(n * code.n == m * code.n + code.n) by (nonlinear_arith)
        requires
            n == m + 1,
    ;
    assert(0 <= c * code.n) by (nonlinear_arith)
        requires
            c >= 0,
            code.n >= 0,
    ;
    if c < m {
        assert(c * code.n + code.n <= m * code.n) by (nonlinear_arith)
            requires
                c + 1 <= m,
                code.n >= 0,
        ;
        lemma_coded_at(code, stream, size, m, c, i);
    }
}

} // verus!
