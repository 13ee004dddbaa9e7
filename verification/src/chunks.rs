//! Which chunks of a stream have been decoded, and their bytes.
use crate::bytes;
use crate::checksum;
use crate::session;
use crate::util;
use vstd::prelude::*;

verus! {

/// The CRC-32 of a single decoded chunk, for early-stop detection. It does not enter the protocol.
pub fn chunk_crc32(data: &[u8]) -> (r: u32)
    ensures
        r == checksum::crc32_of(data@),
{
    checksum::crc32_bytes(data)
}

/// Tracks which source chunks have converged during decoding.
pub struct ChunkTracker {
    chunk_bytes: usize,
    total_chunks: usize,
    converged: Vec<bool>,
    output: Vec<u8>,
}

/// How many chunks a number of bytes makes.
pub open spec fn chunks_of(len: nat, chunk_bytes: nat) -> nat {
    if len == 0 {
        0
    } else {
        util::ceil_div(len, chunk_bytes)
    }
}

/// How many of the first `n` chunks have converged.
pub open spec fn count_true(flags: Seq<bool>, n: nat) -> nat
    decreases n,
{
    if n == 0 {
        0
    } else {
        count_true(flags, (n - 1) as nat) + if flags[n - 1] {
            1nat
        } else {
            0nat
        }
    }
}

/// The output with a chunk's bytes written over it: as many as the chunk has and the data give.
pub open spec fn with_chunk(output: Seq<u8>, chunk_bytes: int, idx: int, data: Seq<u8>) -> Seq<u8> {
    Seq::new(
        output.len(),
        |i: int|
            if idx * chunk_bytes <= i < idx * chunk_bytes + chunk_bytes && i - idx * chunk_bytes
                < data.len() {
                data[i - idx * chunk_bytes]
            } else {
                output[i]
            },
    )
}

impl ChunkTracker {
    pub closed spec fn chunk_size(&self) -> nat {
        self.chunk_bytes as nat
    }

    /// Whether each chunk has converged.
    pub closed spec fn flags(&self) -> Seq<bool> {
        self.converged@
    }

    /// The bytes gathered so far.
    pub closed spec fn bytes(&self) -> Seq<u8> {
        self.output@
    }

    pub closed spec fn counts_agree(&self) -> bool {
        self.total_chunks == self.converged@.len()
    }

    pub open spec fn wf(&self) -> bool {
        &&& self.counts_agree()
        &&& self.bytes().len() > 0 ==> self.chunk_size() > 0
        &&& self.bytes().len() <= usize::MAX
        &&& self.flags().len() == chunks_of(self.bytes().len(), self.chunk_size())
    }

    /// Create a new tracker. `total_source_len` is the full systematic byte length.
    pub fn new(chunk_bytes: usize, total_source_len: usize) -> (t: Self)
        requires
            total_source_len > 0 ==> chunk_bytes > 0,
        ensures
            t.wf(),
            t.chunk_size() == chunk_bytes,
            t.bytes() == util::constant(total_source_len as nat, 0),
            t.flags() == Seq::new(
                chunks_of(total_source_len as nat, chunk_bytes as nat),
                |i: int| false,
            ),
    {
        let total_chunks: usize = if total_source_len == 0 {
            0
        } else {
            util::div_ceil(total_source_len, chunk_bytes)
        };
        let converged: Vec<bool> = vec![false; total_chunks];
        assert(converged@ =~= Seq::new(total_chunks as nat, |i: int| false));
        ChunkTracker {
            chunk_bytes,
            total_chunks,
            converged,
            output: util::filled(total_source_len, 0),
        }
    }

    /// Mark chunk `chunk_idx` as converged and write its data into the output buffer.
    /// Returns `true` if this was a *new* convergence (first time for this chunk).
    pub fn try_commit_chunk(&mut self, chunk_idx: usize, chunk_data: &[u8]) -> (new: bool)
        requires
            old(self).wf(),
        ensures
            final(self).wf(),
            final(self).chunk_size() == old(self).chunk_size(),
            chunk_idx >= old(self).flags().len() ==> !new && final(self).flags() == old(
                self,
            ).flags() && final(self).bytes() == old(self).bytes(),
            chunk_idx < old(self).flags().len() ==> {
                &&& new == !old(self).flags()[chunk_idx as int]
                &&& final(self).flags() == old(self).flags().update(chunk_idx as int, true)
                &&& final(self).bytes() == with_chunk(
                    old(self).bytes(),
                    old(self).chunk_size() as int,
                    chunk_idx as int,
                    chunk_data@,
                )
            },
    {
        if chunk_idx >= self.total_chunks {
            return false;
        }
        let was_new: bool = !self.converged[chunk_idx];
        self.converged.set(chunk_idx, true);
        let len: usize = self.output.len();
        let cb: usize = self.chunk_bytes;
        proof {
            lemma_chunk_start(len as nat, cb as nat, chunk_idx as int);
        }
        let start: usize = chunk_idx * cb;
        let room: usize = util::min_usize(cb, len - start);
        let copy_len: usize = util::min_usize(room, chunk_data.len());
        let ghost before = self.output@;
        let ghost want = with_chunk(before, cb as int, chunk_idx as int, chunk_data@);
        let mut i: usize = 0;
        while i < copy_len
            invariant
                i <= copy_len,
                copy_len <= chunk_data@.len(),
                start + copy_len <= self.output@.len(),
                self.output@.len() == before.len(),
                self.output.len() == self.output@.len(),
                self.chunk_bytes == old(self).chunk_bytes,
                self.total_chunks == old(self).total_chunks,
                self.converged@ == old(self).converged@.update(chunk_idx as int, true),
                forall|k: int|
                    0 <= k < self.output@.len() ==> #[trigger] self.output@[k] == if start <= k
                        < start + i {
                        chunk_data@[k - start]
                    } else {
                        before[k]
                    },
            decreases copy_len - i,
        {
            self.output.set(start + i, chunk_data[i]);
            i = i + 1;
        }
        assert(self.output@ =~= want);
        was_new
    }

    /// Returns `true` when every chunk has converged.
    pub fn all_converged(&self) -> (r: bool)
        ensures
            r == forall|i: int| 0 <= i < self.flags().len() ==> #[trigger] self.flags()[i],
    {
        let mut i: usize = 0;
        while i < self.converged.len()
            invariant
                i <= self.converged@.len(),
                forall|k: int| 0 <= k < i ==> #[trigger] self.converged@[k],
            decreases self.converged@.len() - i,
        {
            if !self.converged[i] {
                assert(!self.flags()[i as int]);
                return false;
            }
            i = i + 1;
        }
        true
    }

    /// Index of the first chunk that has not yet converged (for window sliding / reclaim).
    pub fn first_unconverged(&self) -> (r: Option<usize>)
        ensures
            match r {
                Some(i) => i < self.flags().len() && !self.flags()[i as int] && forall|k: int|
                    0 <= k < i ==> #[trigger] self.flags()[k],
                None => forall|k: int| 0 <= k < self.flags().len() ==> #[trigger] self.flags()[k],
            },
    {
        let mut i: usize = 0;
        while i < self.converged.len()
            invariant
                i <= self.converged@.len(),
                forall|k: int| 0 <= k < i ==> #[trigger] self.converged@[k],
            decreases self.converged@.len() - i,
        {
            if !self.converged[i] {
                return Some(i);
            }
            i = i + 1;
        }
        None
    }

    /// Read-only access to the accumulated output bytes.
    pub fn output_bytes(&self) -> (r: &[u8])
        ensures
            r@ == self.bytes(),
    {
        self.output.as_slice()
    }

    /// Number of chunks that have converged so far.
    pub fn converged_count(&self) -> (r: usize)
        ensures
            r == count_true(self.flags(), self.flags().len()),
    {
        let mut n: usize = 0;
        let mut i: usize = 0;
        while i < self.converged.len()
            invariant
                i <= self.converged@.len(),
                n <= i,
                n == count_true(self.converged@, i as nat),
            decreases self.converged@.len() - i,
        {
            if self.converged[i] {
                n = n + 1;
            }
            i = i + 1;
        }
        n
    }

    /// Total number of chunks being tracked.
    pub fn total_chunks(&self) -> (r: usize)
        requires
            self.wf(),
        ensures
            r == self.flags().len(),
    {
        self.total_chunks
    }
}

/// A chunk starts inside the data.
proof fn lemma_chunk_start(len: nat, chunk_bytes: nat, idx: int)
    requires
        0 <= idx < chunks_of(len, chunk_bytes),
        len > 0 ==> chunk_bytes > 0,
    ensures
        0 <= idx * chunk_bytes < len,
{
    let q = len / chunk_bytes;
    assert(len == chunk_bytes * q + len % chunk_bytes) by {
        vstd::arithmetic::div_mod::lemma_fundamental_div_mod(len as int, chunk_bytes as int);
    }
    assert(0 <= idx * chunk_bytes) by (nonlinear_arith)
        requires
            0 <= idx,
            0 <= chunk_bytes,
    ;
    if len % chunk_bytes == 0 {
        assert(idx * chunk_bytes < chunk_bytes * q) by (nonlinear_arith)
            requires
                idx < q,
                chunk_bytes > 0,
        ;
    } else {
        assert(idx * chunk_bytes <= chunk_bytes * q) by (nonlinear_arith)
            requires
                idx <= q,
                chunk_bytes > 0,
        ;
    }
}

/// Every byte belongs to a chunk.
proof fn lemma_byte_in_chunk(len: nat, chunk_bytes: nat, i: int)
    requires
        0 <= i < len,
        chunk_bytes > 0,
    ensures
        0 <= i / (chunk_bytes as int) < chunks_of(len, chunk_bytes),
        i / (chunk_bytes as int) * chunk_bytes <= i < i / (chunk_bytes as int) * chunk_bytes
            + chunk_bytes,
{
    let c = chunk_bytes as int;
    vstd::arithmetic::div_mod::lemma_fundamental_div_mod(i, c);
    vstd::arithmetic::div_mod::lemma_fundamental_div_mod(len as int, c);
    let (a, b) = (i / c, len as int / c);
    assert(c * a == a * c) by (nonlinear_arith);
    assert(0 <= a <= b && (len as int % c == 0 ==> a < b)) by (nonlinear_arith)
        requires
            i == c * a + i % c,
            len == c * b + len as int % c,
            0 <= i % c < c,
            0 <= len as int % c < c,
            0 <= i < len,
            c > 0,
    ;
}

/// Where the data of a decoded stream start: behind the copies of its metadata, if it has any.
pub open spec fn data_start(sys: Seq<u8>, r_meta: nat) -> nat {
    match session::recovered_meta(sys, r_meta) {
        Some(m) => util::lesser(
            session::payload_start(m, r_meta) as int,
            sys.len() as int,
        ) as nat,
        None => 0,
    }
}

/// Commit all chunks from decoded systematic bytes into a [`ChunkTracker`].
///
/// In single-pass decoding every chunk is treated as converged; future
/// multi-pass decoders can refine convergence per-chunk.
pub fn commit_chunks_from_decoded(
    sys_bytes: &[u8],
    chunk_bytes: usize,
    r_meta: usize,
) -> (t: ChunkTracker)
    requires
        session::payload_start_fits(sys_bytes@, r_meta as nat),
        data_start(sys_bytes@, r_meta as nat) < sys_bytes@.len() ==> chunk_bytes > 0,
    ensures
        t.wf(),
        t.chunk_size() == chunk_bytes,
        t.bytes() == sys_bytes@.skip(data_start(sys_bytes@, r_meta as nat) as int),
        forall|i: int| 0 <= i < t.flags().len() ==> #[trigger] t.flags()[i],
{
    let ghost sys = sys_bytes@;
    let start: usize = match session::recover_meta_from_prefix(sys_bytes, r_meta) {
        Some(m) => {
            assert(session::payload_start(m@, r_meta as nat) <= usize::MAX);
            util::min_usize(m.meta_len * r_meta, sys_bytes.len())
        },
        None => 0,
    };
    let data: Vec<u8> = util::copy_range(sys_bytes, start, sys_bytes.len());
    let ghost d = data@;
    let ghost len = d.len();
    let ghost cb = chunk_bytes as nat;
    assert(d =~= sys.skip(start as int));
    let mut tracker: ChunkTracker = ChunkTracker::new(chunk_bytes, data.len());
    let total: usize = tracker.total_chunks();
    let mut idx: usize = 0;
    while idx < total
        invariant
            idx <= total,
            d == data@,
            len == d.len(),
            cb == chunk_bytes,
            len > 0 ==> chunk_bytes > 0,
            total == chunks_of(len, cb),
            tracker.wf(),
            tracker.chunk_size() == cb,
            tracker.bytes().len() == len,
            tracker.flags().len() == total,
            forall|i: int| 0 <= i < idx ==> #[trigger] tracker.flags()[i],
            forall|i: int| 0 <= i < len && i < idx * cb ==> #[trigger] tracker.bytes()[i] == d[i],
        decreases total - idx,
    {
        proof {
            lemma_chunk_start(len, cb, idx as int);
            assert((idx + 1) * cb == idx * cb + cb) by (nonlinear_arith);
        }
        let from: usize = idx * chunk_bytes;
        let to: usize = if data.len() - from < chunk_bytes {
            data.len()
        } else {
            from + chunk_bytes
        };
        let ghost before = tracker;
        let piece: &[u8] = &data.as_slice()[from..to];
        let _ = tracker.try_commit_chunk(idx, piece);
        proof {
            assert forall|i: int| 0 <= i < len && i < (idx + 1) * cb implies #[trigger] tracker.bytes()[i]
                == d[i] by {
                if i < idx * cb {
                    assert(before.bytes()[i] == d[i]);
                } else {
                    assert(piece@[i - from] == d[i]);
                }
            }
        }
        idx = idx + 1;
    }
    proof {
        assert forall|i: int| 0 <= i < len implies tracker.bytes()[i] == d[i] by {
            lemma_byte_in_chunk(len, cb, i);
            let a = i / (cb as int);
            assert(a * cb + cb <= total * cb) by (nonlinear_arith)
                requires
                    a + 1 <= total,
                    cb >= 0,
            ;
        }
        assert(tracker.bytes() =~= d);
    }
    tracker
}

proof fn lemma_count_true(flags: Seq<bool>, n: nat)
    requires
        n <= flags.len(),
    ensures
        count_true(flags, n) <= n,
        count_true(flags, n) == n <==> forall|i: int| 0 <= i < n ==> #[trigger] flags[i],
    decreases n,
{
    if n > 0 {
        lemma_count_true(flags, (n - 1) as nat);
        if forall|i: int| 0 <= i < n - 1 ==> #[trigger] flags[i] {
            if flags[n - 1] {
                assert forall|i: int| 0 <= i < n implies #[trigger] flags[i] by {}
            }
        }
    }
}

/// All chunks have converged exactly where as many have as there are.
pub proof fn law_all_converged_when_count_is_full(t: ChunkTracker)
    ensures
        count_true(t.flags(), t.flags().len()) <= t.flags().len(),
        count_true(t.flags(), t.flags().len()) == t.flags().len() <==> forall|i: int|
            0 <= i < t.flags().len() ==> #[trigger] t.flags()[i],
{
    lemma_count_true(t.flags(), t.flags().len());
}

/// Committing a chunk again with the same data changes nothing.
pub proof fn law_commit_is_idempotent(
    flags: Seq<bool>,
    output: Seq<u8>,
    chunk_bytes: int,
    idx: int,
    data: Seq<u8>,
)
    requires
        0 <= idx < flags.len(),
    ensures
        with_chunk(with_chunk(output, chunk_bytes, idx, data), chunk_bytes, idx, data)
            == with_chunk(output, chunk_bytes, idx, data),
        flags.update(idx, true).update(idx, true) == flags.update(idx, true),
{
    assert(with_chunk(with_chunk(output, chunk_bytes, idx, data), chunk_bytes, idx, data)
        =~= with_chunk(output, chunk_bytes, idx, data));
    assert(flags.update(idx, true).update(idx, true) =~= flags.update(idx, true));
}

/// What is committed of a stream that was strengthened with its metadata is the file, and what the
/// stream holds behind it.
pub proof fn law_committed_bytes_are_the_file(
    profile: u8,
    file: Seq<u8>,
    hash: Seq<u8>,
    rest: Seq<u8>,
    r_meta: nat,
)
    requires
        0 < file.len() <= u64::MAX,
        hash.len() == 32,
        r_meta > 0,
    ensures
        ({
            let copies = session::repeated(
                session::meta_record(profile, file.len() as u64, hash),
                r_meta,
            );
            let sys = copies + file + rest;
            &&& data_start(sys, r_meta) == copies.len()
            &&& sys.skip(data_start(sys, r_meta) as int) == file + rest
        }),
{
    let rec = session::meta_record(profile, file.len() as u64, hash);
    let copies = session::repeated(rec, r_meta);
    let sys = copies + file + rest;
    session::law_strengthened_payload_is_the_file(profile, file, hash, rest, r_meta);
    assert(rec.len() == 46) by {
        bytes::lemma_le_bytes(file.len() as nat, 8);
    }
    session::lemma_repeated_len(rec, r_meta);
    assert(sys.skip(copies.len() as int) =~= file + rest);
}

/// The payload that is taken from a stream is what its committed bytes start with.
pub proof fn law_payload_starts_the_committed_bytes(
    sys: Seq<u8>,
    r_meta: nat,
    best_effort: bool,
    payload: Seq<u8>,
)
    requires
        session::is_payload(payload, sys, r_meta, best_effort),
    ensures
        payload.len() <= sys.skip(data_start(sys, r_meta) as int).len(),
        sys.skip(data_start(sys, r_meta) as int).take(payload.len() as int) == payload,
{
    assert(sys.skip(data_start(sys, r_meta) as int).take(payload.len() as int) =~= payload);
}

} // verus!
