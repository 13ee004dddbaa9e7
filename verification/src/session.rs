//! The stream behind the slots: its metadata, its chunks and its payload.
use crate::bytes;
use crate::checksum;
use crate::params::{META_MAGIC, META_VERSION, META_VERSION_LEGACY_CRC32};
use crate::util;
use vstd::prelude::*;

verus! {

pub const META_LEN_SHA256: usize = 46;

pub const META_LEN_LEGACY_CRC32: usize = 18;

pub const META_LEN_CURRENT: usize = 46;

/// The checksum of a file that the metadata carry.
#[derive(Clone, Copy, Debug, PartialEq, Eq, Hash)]
pub enum FileIntegrity {
    Sha256([u8; 32]),
    LegacyCrc32(u32),
}

#[derive(Clone, Copy, Debug, PartialEq, Eq, Hash)]
pub struct StreamMeta {
    pub profile: u8,
    pub file_len: u64,
    pub file_integrity: FileIntegrity,
    pub meta_len: usize,
}

/// A checksum as a mathematical value.
pub enum Integrity {
    Sha256(Seq<u8>),
    LegacyCrc32(u32),
}

/// Metadata as a mathematical value.
pub struct Meta {
    pub profile: u8,
    pub file_len: u64,
    pub integrity: Integrity,
    pub meta_len: nat,
}

impl View for FileIntegrity {
    type V = Integrity;

    open spec fn view(&self) -> Integrity {
        match self {
            FileIntegrity::Sha256(h) => Integrity::Sha256(h@),
            FileIntegrity::LegacyCrc32(c) => Integrity::LegacyCrc32(*c),
        }
    }
}

impl View for StreamMeta {
    type V = Meta;

    open spec fn view(&self) -> Meta {
        Meta {
            profile: self.profile,
            file_len: self.file_len,
            integrity: self.file_integrity@,
            meta_len: self.meta_len as nat,
        }
    }
}

/// `F2V7`.
pub open spec fn magic() -> Seq<u8> {
    seq![0x46u8, 0x32, 0x56, 0x37]
}

/// The record of a file that is identified by its SHA-256.
pub open spec fn meta_record(profile: u8, file_len: u64, hash: Seq<u8>) -> Seq<u8> {
    magic() + seq![8u8, profile] + bytes::le_bytes(file_len as nat, 8) + hash
}

/// The metadata that a record holds, if it is one. What follows a record is ignored.
pub open spec fn parsed_meta(data: Seq<u8>) -> Option<Meta> {
    if data.len() < 18 || data.subrange(0, 4) != magic() {
        None
    } else {
        let profile = data[5];
        let file_len = bytes::le_value(data.subrange(6, 14)) as u64;
        if data[4] == 8 {
            if data.len() < 46 {
                None
            } else {
                Some(
                    Meta {
                        profile,
                        file_len,
                        integrity: Integrity::Sha256(data.subrange(14, 46)),
                        meta_len: 46,
                    },
                )
            }
        } else if data[4] == 7 {
            Some(
                Meta {
                    profile,
                    file_len,
                    integrity: Integrity::LegacyCrc32(
                        bytes::le_value(data.subrange(14, 18)) as u32,
                    ),
                    meta_len: 18,
                },
            )
        } else {
            None
        }
    }
}

/// The record of the metadata.
pub fn build_meta_bytes(meta: &StreamMeta) -> (out: Vec<u8>)
    requires
        meta.file_integrity is Sha256,
    ensures
        out@ == meta_record(meta.profile, meta.file_len, meta.file_integrity->Sha256_0@),
        out@.len() == META_LEN_SHA256,
{
    let mut out: Vec<u8> = Vec::with_capacity(META_LEN_SHA256);
    match meta.file_integrity {
        FileIntegrity::Sha256(hash) => {
            out.push(META_MAGIC[0]);
            out.push(META_MAGIC[1]);
            out.push(META_MAGIC[2]);
            out.push(META_MAGIC[3]);
            out.push(META_VERSION);
            out.push(meta.profile);
            proof {
                bytes::lemma_le_bytes(meta.file_len as nat, 8);
            }
            bytes::push_le(&mut out, meta.file_len, 8);
            util::append_all(&mut out, hash.as_slice());
            assert(out@ =~= meta_record(meta.profile, meta.file_len, hash@));
        },
        FileIntegrity::LegacyCrc32(_) => {},
    }
    out
}

/// Reads a metadata record.
pub fn parse_meta_bytes(data: &[u8]) -> (r: Option<StreamMeta>)
    ensures
        match r {
            Some(m) => parsed_meta(data@) == Some(m@),
            None => parsed_meta(data@) is None,
        },
{
    if data.len() < META_LEN_LEGACY_CRC32 {
        return None;
    }
    if data[0] != META_MAGIC[0] || data[1] != META_MAGIC[1] || data[2] != META_MAGIC[2] || data[3]
        != META_MAGIC[3] {
        proof {
            let s = data@.subrange(0, 4);
            assert(s[0] == data@[0] && s[1] == data@[1] && s[2] == data@[2] && s[3] == data@[3]);
            assert(magic()[0] == 0x46 && magic()[1] == 0x32 && magic()[2] == 0x56 && magic()[3]
                == 0x37);
        }
        return None;
    }
    assert(data@.subrange(0, 4) =~= magic());
    let version: u8 = data[4];
    let profile: u8 = data[5];
    let file_len: u64 = bytes::read_le(data, 6, 8);
    if version == META_VERSION {
        if data.len() < META_LEN_SHA256 {
            return None;
        }
        let mut hash: [u8; 32] = [0u8;32];
        let mut i: usize = 0;
        while i < 32
            invariant
                i <= 32,
                data@.len() >= 46,
                forall|k: int| 0 <= k < i ==> #[trigger] hash@[k] == data@[14 + k],
            decreases 32 - i,
        {
            hash[i] = data[14 + i];
            i = i + 1;
        }
        assert(hash@ =~= data@.subrange(14, 46));
        Some(
            StreamMeta {
                profile,
                file_len,
                file_integrity: FileIntegrity::Sha256(hash),
                meta_len: META_LEN_SHA256,
            },
        )
    } else if version == META_VERSION_LEGACY_CRC32 {
        let crc: u64 = bytes::read_le(data, 14, 4);
        proof {
            bytes::lemma_le_value(data@.subrange(14, 18));
            bytes::lemma_spans();
        }
        Some(
            StreamMeta {
                profile,
                file_len,
                file_integrity: FileIntegrity::LegacyCrc32(crc as u32),
                meta_len: META_LEN_LEGACY_CRC32,
            },
        )
    } else {
        None
    }
}

/// A record that is built is read back.
pub proof fn law_parse_undoes_build(profile: u8, file_len: u64, hash: Seq<u8>, rest: Seq<u8>)
    requires
        hash.len() == 32,
    ensures
        parsed_meta(meta_record(profile, file_len, hash) + rest) == Some(
            Meta { profile, file_len, integrity: Integrity::Sha256(hash), meta_len: 46 },
        ),
{
    let data = meta_record(profile, file_len, hash) + rest;
    bytes::lemma_le_bytes(file_len as nat, 8);
    bytes::lemma_spans();
    assert(data.subrange(0, 4) =~= magic());
    assert(data[4] == 8 && data[5] == profile);
    assert(data.subrange(6, 14) =~= bytes::le_bytes(file_len as nat, 8));
    assert(data.subrange(14, 46) =~= hash);
}

/// `n` copies of some bytes, one after another.
pub open spec fn repeated(s: Seq<u8>, n: nat) -> Seq<u8>
    decreases n,
{
    if n == 0 {
        Seq::empty()
    } else {
        repeated(s, (n - 1) as nat) + s
    }
}

/// The metadata `r_meta` times, then the data.
pub fn prefix_strengthen(meta: &[u8], data: &[u8], r_meta: usize) -> (out: Vec<u8>)
    requires
        meta.len() * r_meta + data.len() <= usize::MAX,
    ensures
        out@ == repeated(meta@, r_meta as nat) + data@,
{
    let mut out: Vec<u8> = Vec::with_capacity(meta.len() * r_meta + data.len());
    let mut i: usize = 0;
    while i < r_meta
        invariant
            i <= r_meta,
            out@ == repeated(meta@, i as nat),
        decreases r_meta - i,
    {
        util::append_all(&mut out, meta);
        i = i + 1;
    }
    util::append_all(&mut out, data);
    out
}

/// Copy `i` of a prefix of records of one length.
pub open spec fn copy_at(sys: Seq<u8>, meta_len: int, i: int) -> Seq<u8> {
    sys.subrange(i * meta_len, i * meta_len + meta_len)
}

/// What copy `i` votes for: its metadata, where they are of that length and of a file that is not
/// empty.
pub open spec fn vote_of(sys: Seq<u8>, meta_len: int, i: int) -> Option<Meta> {
    match parsed_meta(copy_at(sys, meta_len, i)) {
        Some(m) if m.file_len > 0 && m.meta_len == meta_len => Some(m),
        _ => None,
    }
}

/// How many whole copies there are.
pub open spec fn copies_in(sys: Seq<u8>, r_meta: nat, meta_len: nat) -> nat {
    if meta_len == 0 {
        r_meta
    } else {
        util::lesser(r_meta as int, (sys.len() / meta_len) as int) as nat
    }
}

/// How many of the first `n` copies vote for `m`.
pub open spec fn votes_for(sys: Seq<u8>, meta_len: int, m: Meta, n: nat) -> nat
    decreases n,
{
    if n == 0 {
        0
    } else {
        votes_for(sys, meta_len, m, (n - 1) as nat) + if vote_of(sys, meta_len, n - 1) == Some(m) {
            1nat
        } else {
            0nat
        }
    }
}

/// The votes that the vote of copy `i` has when it is counted.
pub open spec fn running_votes(sys: Seq<u8>, meta_len: int, i: int) -> nat {
    match vote_of(sys, meta_len, i) {
        Some(m) => votes_for(sys, meta_len, m, (i + 1) as nat),
        None => 0,
    }
}

/// With copy `i` of the first `n` its metadata are the first to have as many votes as any have.
pub open spec fn is_winner(sys: Seq<u8>, meta_len: int, n: nat, i: int) -> bool {
    &&& 0 <= i < n
    &&& vote_of(sys, meta_len, i) is Some
    &&& forall|j: int|
        0 <= j < n ==> #[trigger] running_votes(sys, meta_len, j) <= running_votes(
            sys,
            meta_len,
            i,
        )
    &&& forall|j: int|
        0 <= j < i ==> #[trigger] running_votes(sys, meta_len, j) < running_votes(sys, meta_len, i)
}

/// The metadata that most copies of one length carry; of equals those that got there first.
pub open spec fn elected(sys: Seq<u8>, r_meta: nat, meta_len: nat) -> Option<Meta> {
    let n = copies_in(sys, r_meta, meta_len);
    if exists|i: int| is_winner(sys, meta_len as int, n, i) {
        vote_of(
            sys,
            meta_len as int,
            choose|i: int| is_winner(sys, meta_len as int, n, i),
        )
    } else {
        None
    }
}

/// The metadata of a stream: those of the current length, or else those of the older one.
pub open spec fn recovered_meta(sys: Seq<u8>, r_meta: nat) -> Option<Meta> {
    match elected(sys, r_meta, 46) {
        Some(m) => Some(m),
        None => elected(sys, r_meta, 18),
    }
}

proof fn lemma_winner_unique(sys: Seq<u8>, meta_len: int, n: nat, i: int, j: int)
    requires
        is_winner(sys, meta_len, n, i),
        is_winner(sys, meta_len, n, j),
    ensures
        i == j,
{
    assert(running_votes(sys, meta_len, i) <= running_votes(sys, meta_len, j));
    assert(running_votes(sys, meta_len, j) <= running_votes(sys, meta_len, i));
}

fn same_bytes_32(a: &[u8; 32], b: &[u8; 32]) -> (r: bool)
    ensures
        r == (a@ == b@),
{
    let mut i: usize = 0;
    while i < 32
        invariant
            i <= 32,
            forall|k: int| 0 <= k < i ==> a@[k] == b@[k],
        decreases 32 - i,
    {
        if a[i] != b[i] {
            assert(a@[i as int] != b@[i as int]);
            return false;
        }
        i = i + 1;
    }
    assert(a@ =~= b@);
    true
}

/// Whether two checksums are the same.
pub fn same_integrity(a: &FileIntegrity, b: &FileIntegrity) -> (r: bool)
    ensures
        r == (a@ == b@),
{
    match a {
        FileIntegrity::Sha256(x) => match b {
            FileIntegrity::Sha256(y) => same_bytes_32(x, y),
            FileIntegrity::LegacyCrc32(_) => false,
        },
        FileIntegrity::LegacyCrc32(x) => match b {
            FileIntegrity::Sha256(_) => false,
            FileIntegrity::LegacyCrc32(y) => *x == *y,
        },
    }
}

/// Whether two records hold the same metadata.
pub fn same_meta(a: &StreamMeta, b: &StreamMeta) -> (r: bool)
    ensures
        r == (a@ == b@),
{
    a.profile == b.profile && a.file_len == b.file_len && a.meta_len == b.meta_len && same_integrity(
        &a.file_integrity,
        &b.file_integrity,
    )
}

proof fn lemma_no_votes(sys: Seq<u8>, meta_len: int, m: Meta, n: nat)
    requires
        forall|j: int| 0 <= j < n ==> #[trigger] vote_of(sys, meta_len, j) != Some(m),
    ensures
        votes_for(sys, meta_len, m, n) == 0,
    decreases n,
{
    if n > 0 {
        lemma_no_votes(sys, meta_len, m, (n - 1) as nat);
        assert(vote_of(sys, meta_len, n - 1) != Some(m));
    }
}

proof fn lemma_votes_bounded(sys: Seq<u8>, meta_len: int, m: Meta, n: nat)
    ensures
        votes_for(sys, meta_len, m, n) <= n,
    decreases n,
{
    if n > 0 {
        lemma_votes_bounded(sys, meta_len, m, (n - 1) as nat);
    }
}

/// The metadata that have been voted for, each once, and their votes.
struct Tally {
    metas: Vec<StreamMeta>,
    counts: Vec<usize>,
}

/// The tally holds the votes of the first `n` copies.
spec fn tallies(t: Tally, sys: Seq<u8>, meta_len: int, n: nat) -> bool {
    &&& t.metas@.len() == t.counts@.len()
    &&& forall|q: int|
        0 <= q < t.metas@.len() ==> #[trigger] t.counts@[q] == votes_for(
            sys,
            meta_len,
            t.metas@[q]@,
            n,
        )
    &&& forall|q: int, p: int|
        0 <= q < p < t.metas@.len() ==> #[trigger] t.metas@[q]@ != #[trigger] t.metas@[p]@
    &&& forall|j: int|
        0 <= j < n && vote_of(sys, meta_len, j) is Some ==> exists|q: int|
            0 <= q < t.metas@.len() && #[trigger] t.metas@[q]@ == (#[trigger] vote_of(
                sys,
                meta_len,
                j,
            ))->0
}

/// Counts one more vote and says how many its metadata have now.
fn count_vote(t: &mut Tally, meta: StreamMeta, sys: Ghost<Seq<u8>>, meta_len: Ghost<int>, n: Ghost<nat>) -> (count: usize)
    requires
        tallies(*old(t), sys@, meta_len@, n@),
        vote_of(sys@, meta_len@, n@ as int) == Some(meta@),
        n@ < usize::MAX,
    ensures
        tallies(*final(t), sys@, meta_len@, n@ + 1),
        count == running_votes(sys@, meta_len@, n@ as int),
{
    let ghost t0 = *t;
    let ghost s = sys@;
    let ghost ml = meta_len@;
    let mut q: usize = 0;
    while q < t.metas.len() && !same_meta(&t.metas[q], &meta)
        invariant
            q <= t.metas@.len(),
            *t == t0,
            forall|p: int| 0 <= p < q ==> (#[trigger] t0.metas@[p])@ != meta@,
        decreases t.metas@.len() - q,
    {
        q = q + 1;
    }
    if q < t.metas.len() {
        let c: usize = t.counts[q];
        proof {
            lemma_votes_bounded(s, ml, meta@, n@);
            assert(t0.metas@[q as int]@ == meta@);
        }
        t.counts.set(q, c + 1);
        proof {
            assert forall|p: int| 0 <= p < t.metas@.len() implies #[trigger] t.counts@[p]
                == votes_for(s, ml, t.metas@[p]@, n@ + 1) by {
                assert(t0.counts@[p] == votes_for(s, ml, t0.metas@[p]@, n@));
                if p < q {
                    assert(t0.metas@[p]@ != t0.metas@[q as int]@);
                } else if p > q {
                    assert(t0.metas@[q as int]@ != t0.metas@[p]@);
                }
            }
            assert forall|j: int|
                0 <= j < n@ + 1 && vote_of(s, ml, j) is Some implies exists|p: int|
                0 <= p < t.metas@.len() && #[trigger] t.metas@[p]@ == (#[trigger] vote_of(
                    s,
                    ml,
                    j,
                ))->0 by {
                if j == n@ {
                    assert(t.metas@[q as int]@ == vote_of(s, ml, j)->0);
                } else {
                    let p = choose|p: int|
                        0 <= p < t0.metas@.len() && #[trigger] t0.metas@[p]@ == vote_of(
                            s,
                            ml,
                            j,
                        )->0;
                    assert(t.metas@[p]@ == vote_of(s, ml, j)->0);
                }
            }
        }
        c + 1
    } else {
        proof {
            assert forall|j: int| 0 <= j < n@ implies #[trigger] vote_of(s, ml, j) != Some(meta@) by {
                if vote_of(s, ml, j) == Some(meta@) {
                    let p = choose|p: int|
                        0 <= p < t0.metas@.len() && #[trigger] t0.metas@[p]@ == vote_of(
                            s,
                            ml,
                            j,
                        )->0;
                    assert(t0.metas@[p]@ == meta@);
                }
            }
            lemma_no_votes(s, ml, meta@, n@);
        }
        t.metas.push(meta);
        t.counts.push(1);
        proof {
            let last = t0.metas@.len() as int;
            assert forall|p: int| 0 <= p < t.metas@.len() implies #[trigger] t.counts@[p]
                == votes_for(s, ml, t.metas@[p]@, n@ + 1) by {
                if p < last {
                    assert(t0.counts@[p] == votes_for(s, ml, t0.metas@[p]@, n@));
                    assert(t0.metas@[p]@ != meta@);
                }
            }
            assert forall|a: int, b: int| 0 <= a < b < t.metas@.len() implies #[trigger] t.metas@[a]@
                != #[trigger] t.metas@[b]@ by {
                if b < last {
                    assert(t0.metas@[a]@ != t0.metas@[b]@);
                } else {
                    assert(t0.metas@[a]@ != meta@);
                }
            }
            assert forall|j: int|
                0 <= j < n@ + 1 && vote_of(s, ml, j) is Some implies exists|p: int|
                0 <= p < t.metas@.len() && #[trigger] t.metas@[p]@ == (#[trigger] vote_of(
                    s,
                    ml,
                    j,
                ))->0 by {
                if j == n@ {
                    assert(t.metas@[last]@ == vote_of(s, ml, j)->0);
                } else {
                    let p = choose|p: int|
                        0 <= p < t0.metas@.len() && #[trigger] t0.metas@[p]@ == vote_of(
                            s,
                            ml,
                            j,
                        )->0;
                    assert(t.metas@[p]@ == vote_of(s, ml, j)->0);
                }
            }
        }
        1
    }
}

/// The metadata that most of the copies of one length carry.
pub fn recover_meta_from_prefix_with_len(
    sys_bytes: &[u8],
    r_meta: usize,
    meta_len: usize,
) -> (r: Option<StreamMeta>)
    ensures
        match r {
            Some(m) => elected(sys_bytes@, r_meta as nat, meta_len as nat) == Some(m@),
            None => elected(sys_bytes@, r_meta as nat, meta_len as nat) is None,
        },
        meta_len == 0 ==> r is None,
{
    let ghost s = sys_bytes@;
    let ghost ml = meta_len as int;
    if meta_len == 0 {
        assert forall|i: int| !is_winner(s, 0, r_meta as nat, i) by {
            assert(copy_at(s, 0, i).len() == 0);
        }
        return None;
    }
    let whole: usize = sys_bytes.len() / meta_len;
    let n: usize = util::min_usize(r_meta, whole);
    let mut t: Tally = Tally { metas: Vec::new(), counts: Vec::new() };
    let mut best: Option<StreamMeta> = None;
    let mut best_count: usize = 0;
    let ghost mut at: int = 0;
    let mut i: usize = 0;
    while i < n
        invariant
            i <= n <= whole,
            meta_len > 0,
            s == sys_bytes@,
            ml == meta_len,
            whole == sys_bytes@.len() / (meta_len as nat),
            tallies(t, s, ml, i as nat),
            best is Some ==> is_winner(s, ml, i as nat, at),
            best is Some ==> best_count == running_votes(s, ml, at),
            best is Some ==> vote_of(s, ml, at) == Some(best->0@),
            best is None ==> best_count == 0,
            best is None ==> forall|j: int|
                0 <= j < i ==> (#[trigger] vote_of(s, ml, j)) is None,
        decreases n - i,
    {
        assert(i * meta_len + meta_len <= sys_bytes.len()) by (nonlinear_arith)
            requires
                i + 1 <= whole,
                whole == sys_bytes.len() / meta_len,
                meta_len > 0,
        ;
        assert(0 <= i * meta_len) by (nonlinear_arith);
        let start: usize = i * meta_len;
        let copy: &[u8] = &sys_bytes[start..start + meta_len];
        assert(copy@ =~= copy_at(s, ml, i as int));
        let mut vote: Option<StreamMeta> = None;
        if let Some(m) = parse_meta_bytes(copy) {
            if m.file_len > 0 && m.meta_len == meta_len {
                vote = Some(m);
            }
        }
        let ghost t0 = t;
        match vote {
            Some(m) => {
                let count: usize = count_vote(&mut t, m, Ghost(s), Ghost(ml), Ghost(i as nat));
                if count > best_count {
                    best = Some(m);
                    best_count = count;
                    proof {
                        assert(running_votes(s, ml, i as int) == count);
                        at = i as int;
                    }
                }
            },
            None => {
                proof {
                    lemma_tally_skips(t0, s, ml, i as nat);
                }
            },
        }
        proof {
            if let Some(m) = best {
                assert forall|j: int| 0 <= j < i + 1 implies #[trigger] running_votes(s, ml, j)
                    <= running_votes(s, ml, at) by {
                    if j < i {
                        assert(running_votes(s, ml, j) <= best_count);
                    } else {
                        assert(j == i);
                    }
                }
                assert(is_winner(s, ml, (i + 1) as nat, at));
            } else {
                assert(vote_of(s, ml, i as int) is None);
            }
        }
        i = i + 1;
    }
    proof {
        match best {
            Some(m) => {
                let w = choose|w: int| is_winner(s, ml, n as nat, w);
                assert(is_winner(s, ml, n as nat, at));
                lemma_winner_unique(s, ml, n as nat, at, w);
            },
            None => {
                assert forall|w: int| !is_winner(s, ml, n as nat, w) by {
                    if 0 <= w < n {
                        assert(vote_of(s, ml, w) is None);
                    }
                }
            },
        }
    }
    best
}

proof fn lemma_tally_skips(t: Tally, sys: Seq<u8>, meta_len: int, n: nat)
    requires
        tallies(t, sys, meta_len, n),
        vote_of(sys, meta_len, n as int) is None,
    ensures
        tallies(t, sys, meta_len, n + 1),
{
    assert forall|q: int| 0 <= q < t.metas@.len() implies #[trigger] t.counts@[q] == votes_for(
        sys,
        meta_len,
        t.metas@[q]@,
        n + 1,
    ) by {
        assert(t.counts@[q] == votes_for(sys, meta_len, t.metas@[q]@, n));
    }
}

/// The metadata of a stream that starts with `r_meta` copies of them.
pub fn recover_meta_from_prefix(sys_bytes: &[u8], r_meta: usize) -> (r: Option<StreamMeta>)
    ensures
        match r {
            Some(m) => recovered_meta(sys_bytes@, r_meta as nat) == Some(m@),
            None => recovered_meta(sys_bytes@, r_meta as nat) is None,
        },
{
    match recover_meta_from_prefix_with_len(sys_bytes, r_meta, META_LEN_SHA256) {
        Some(m) => Some(m),
        None => recover_meta_from_prefix_with_len(sys_bytes, r_meta, META_LEN_LEGACY_CRC32),
    }
}

/// Where a file's payload stands in a stream.
pub open spec fn payload_start(m: Meta, r_meta: nat) -> nat {
    m.meta_len * r_meta
}

/// The place where the payload of a stream starts, if it has metadata, can be counted.
pub open spec fn payload_start_fits(sys: Seq<u8>, r_meta: nat) -> bool {
    recovered_meta(sys, r_meta) matches Some(m) ==> payload_start(m, r_meta) <= usize::MAX
}

/// Why a stream gives no payload.
#[derive(Clone, Copy, Debug, PartialEq, Eq)]
pub enum PayloadError {
    MetaNotRecovered,
    LengthOverflow,
    TooShort { need: usize, got: usize },
    HashMismatch { expected: FileIntegrity, got: FileIntegrity },
}

/// The metadata of a stream and the place of its payload.
pub fn locate_payload(sys_bytes: &[u8], r_meta: usize) -> (r: Result<
    (StreamMeta, usize, usize),
    PayloadError,
>)
    requires
        payload_start_fits(sys_bytes@, r_meta as nat),
    ensures
        match recovered_meta(sys_bytes@, r_meta as nat) {
            None => r == Err::<(StreamMeta, usize, usize), PayloadError>(
                PayloadError::MetaNotRecovered,
            ),
            Some(m) => {
                let start = payload_start(m, r_meta as nat);
                let end = start + (m.file_len as usize);
                if end > usize::MAX {
                    r == Err::<(StreamMeta, usize, usize), PayloadError>(
                        PayloadError::LengthOverflow,
                    )
                } else if end > sys_bytes@.len() {
                    r == Err::<(StreamMeta, usize, usize), PayloadError>(
                        PayloadError::TooShort {
                            need: end as usize,
                            got: sys_bytes@.len() as usize,
                        },
                    )
                } else {
                    r is Ok && r->Ok_0.0@ == m && r->Ok_0.1 == start && r->Ok_0.2 == end
                }
            },
        },
{
    let meta: StreamMeta = match recover_meta_from_prefix(sys_bytes, r_meta) {
        Some(m) => m,
        None => {
            return Err(PayloadError::MetaNotRecovered);
        },
    };
    assert(payload_start(meta@, r_meta as nat) <= usize::MAX);
    let start: usize = meta.meta_len * r_meta;
    let len: usize = meta.file_len as usize;
    let end: usize = match start.checked_add(len) {
        Some(e) => e,
        None => {
            return Err(PayloadError::LengthOverflow);
        },
    };
    if end > sys_bytes.len() {
        return Err(PayloadError::TooShort { need: end, got: sys_bytes.len() });
    }
    Ok((meta, start, end))
}

/// Metadata that are recovered have one of the two lengths.
pub proof fn lemma_recovered_len(sys: Seq<u8>, r_meta: nat)
    ensures
        recovered_meta(sys, r_meta) is Some ==> {
            let n = recovered_meta(sys, r_meta)->0.meta_len;
            n == 46 || n == 18
        },
{
    let a = copies_in(sys, r_meta, 46);
    let b = copies_in(sys, r_meta, 18);
    if exists|i: int| is_winner(sys, 46, a, i) {
        let i = choose|i: int| is_winner(sys, 46, a, i);
        assert(vote_of(sys, 46, i) is Some);
    } else if exists|i: int| is_winner(sys, 18, b, i) {
        let i = choose|i: int| is_winner(sys, 18, b, i);
        assert(vote_of(sys, 18, i) is Some);
    }
}

/// The checksum that a payload has, of the kind that is expected.
pub open spec fn integrity_of(payload: Seq<u8>, expected: Integrity) -> Integrity {
    match expected {
        Integrity::Sha256(_) => Integrity::Sha256(checksum::sha256_of(payload)@),
        Integrity::LegacyCrc32(_) => Integrity::LegacyCrc32(checksum::crc32_of(payload)),
    }
}

/// The checksum of a payload, of the kind that is expected.
pub fn compute_integrity(payload: &[u8], expected: &FileIntegrity) -> (r: FileIntegrity)
    ensures
        r@ == integrity_of(payload@, expected@),
{
    match expected {
        FileIntegrity::Sha256(_) => FileIntegrity::Sha256(checksum::sha256_bytes(payload)),
        FileIntegrity::LegacyCrc32(_) => FileIntegrity::LegacyCrc32(
            checksum::crc32_bytes(payload),
        ),
    }
}

/// Lets a payload pass whose checksum is the expected one. At best effort any other passes too.
pub fn accept_payload(
    payload: Vec<u8>,
    expected: FileIntegrity,
    got: FileIntegrity,
    best_effort: bool,
) -> (r: Result<Vec<u8>, PayloadError>)
    ensures
        match r {
            Ok(p) => p@ == payload@ && (best_effort || expected@ == got@),
            Err(e) => !best_effort && expected@ != got@ && e == (PayloadError::HashMismatch {
                expected,
                got,
            }),
        },
{
    if best_effort || same_integrity(&expected, &got) {
        Ok(payload)
    } else {
        Err(PayloadError::HashMismatch { expected, got })
    }
}

/// The payload of a stream.
pub open spec fn is_payload(payload: Seq<u8>, sys: Seq<u8>, r_meta: nat, best_effort: bool) -> bool {
    match recovered_meta(sys, r_meta) {
        None => false,
        Some(m) => {
            let start = payload_start(m, r_meta);
            let end = start + (m.file_len as usize);
            &&& end <= usize::MAX
            &&& end <= sys.len()
            &&& payload == sys.subrange(start as int, end as int)
            &&& best_effort || integrity_of(payload, m.integrity) == m.integrity
        },
    }
}

/// The reason why a stream gives no payload.
pub open spec fn is_payload_fault(e: PayloadError, sys: Seq<u8>, r_meta: nat, best_effort: bool) -> bool {
    match recovered_meta(sys, r_meta) {
        None => e == PayloadError::MetaNotRecovered,
        Some(m) => {
            let start = payload_start(m, r_meta);
            let end = start + (m.file_len as usize);
            if end > usize::MAX {
                e == PayloadError::LengthOverflow
            } else if end > sys.len() {
                e == (PayloadError::TooShort { need: end as usize, got: sys.len() as usize })
            } else {
                let got = integrity_of(sys.subrange(start as int, end as int), m.integrity);
                &&& !best_effort
                &&& got != m.integrity
                &&& e matches PayloadError::HashMismatch { expected: x, got: y } && x@
                    == m.integrity && y@ == got
            }
        },
    }
}

/// The payload of a stream, checked against the checksum of its metadata.
pub fn extract_verified_payload(
    sys_bytes: &[u8],
    r_meta: usize,
    best_effort: bool,
) -> (r: Result<Vec<u8>, PayloadError>)
    requires
        payload_start_fits(sys_bytes@, r_meta as nat),
    ensures
        match r {
            Ok(p) => is_payload(p@, sys_bytes@, r_meta as nat, best_effort),
            Err(e) => is_payload_fault(e, sys_bytes@, r_meta as nat, best_effort),
        },
{
    let (meta, start, end): (StreamMeta, usize, usize) = match locate_payload(sys_bytes, r_meta) {
        Ok(x) => x,
        Err(e) => {
            return Err(e);
        },
    };
    let payload: Vec<u8> = util::copy_range(sys_bytes, start, end);
    let got: FileIntegrity = compute_integrity(payload.as_slice(), &meta.file_integrity);
    accept_payload(payload, meta.file_integrity, got, best_effort)
}

/// The hexadecimal text of a checksum.
pub open spec fn integrity_text(i: Integrity) -> Seq<char> {
    match i {
        Integrity::Sha256(h) => bytes::hex_of(h),
        Integrity::LegacyCrc32(c) => bytes::hex_of(bytes::be_bytes(c as nat, 4)),
    }
}

pub fn hash_to_hex(hash: &FileIntegrity) -> (text: String)
    ensures
        text@ == integrity_text(hash@),
{
    match hash {
        FileIntegrity::Sha256(h) => bytes::to_hex(h.as_slice()),
        FileIntegrity::LegacyCrc32(c) => {
            let b: Vec<u8> = bytes::to_be(*c as u64, 4);
            bytes::to_hex(b.as_slice())
        },
    }
}

proof fn lemma_winner_exists(sys: Seq<u8>, meta_len: int, n: nat, j: int)
    requires
        0 <= j < n,
        vote_of(sys, meta_len, j) is Some,
    ensures
        exists|i: int| is_winner(sys, meta_len, n, i),
    decreases n,
{
    let last = n - 1;
    if exists|q: int| 0 <= q < last && (#[trigger] vote_of(sys, meta_len, q)) is Some {
        let q = choose|q: int| 0 <= q < last && (#[trigger] vote_of(sys, meta_len, q)) is Some;
        let before = last as nat;
        lemma_winner_exists(sys, meta_len, before, q);
        let w = choose|w: int| is_winner(sys, meta_len, before, w);
        if running_votes(sys, meta_len, last) > running_votes(sys, meta_len, w) {
            assert forall|i: int| 0 <= i < last implies #[trigger] running_votes(sys, meta_len, i)
                < running_votes(sys, meta_len, last) by {
                assert(running_votes(sys, meta_len, i) <= running_votes(sys, meta_len, w));
            }
            assert(is_winner(sys, meta_len, n, last));
        } else {
            assert(is_winner(sys, meta_len, n, w));
        }
    } else {
        assert(j == last);
        assert forall|i: int| 0 <= i < last implies #[trigger] running_votes(sys, meta_len, i)
            < running_votes(sys, meta_len, last) by {
            assert(vote_of(sys, meta_len, i) is None);
        }
        assert(is_winner(sys, meta_len, n, last));
    }
}

/// The last copy that votes for `m` sees all the votes that `m` gets.
proof fn lemma_last_vote(sys: Seq<u8>, meta_len: int, m: Meta, n: nat) -> (j: int)
    requires
        votes_for(sys, meta_len, m, n) > 0,
    ensures
        0 <= j < n,
        vote_of(sys, meta_len, j) == Some(m),
        running_votes(sys, meta_len, j) == votes_for(sys, meta_len, m, n),
    decreases n,
{
    if vote_of(sys, meta_len, n - 1) == Some(m) {
        n - 1
    } else {
        lemma_last_vote(sys, meta_len, m, (n - 1) as nat)
    }
}

proof fn lemma_votes_grow(sys: Seq<u8>, meta_len: int, m: Meta, i: nat, n: nat)
    requires
        i <= n,
    ensures
        votes_for(sys, meta_len, m, i) <= votes_for(sys, meta_len, m, n),
    decreases n,
{
    if i < n {
        lemma_votes_grow(sys, meta_len, m, i, (n - 1) as nat);
    }
}

proof fn lemma_votes_shared(sys: Seq<u8>, meta_len: int, a: Meta, b: Meta, n: nat)
    requires
        a != b,
    ensures
        votes_for(sys, meta_len, a, n) + votes_for(sys, meta_len, b, n) <= n,
    decreases n,
{
    if n > 0 {
        lemma_votes_shared(sys, meta_len, a, b, (n - 1) as nat);
    }
}

/// Metadata that more than half of the copies carry are elected.
pub proof fn law_majority_is_elected(sys: Seq<u8>, r_meta: nat, meta_len: nat, m: Meta)
    requires
        votes_for(sys, meta_len as int, m, copies_in(sys, r_meta, meta_len)) * 2 > copies_in(
            sys,
            r_meta,
            meta_len,
        ),
    ensures
        elected(sys, r_meta, meta_len) == Some(m),
{
    let n = copies_in(sys, r_meta, meta_len);
    let ml = meta_len as int;
    let j = lemma_last_vote(sys, ml, m, n);
    lemma_winner_exists(sys, ml, n, j);
    let w = choose|w: int| is_winner(sys, ml, n, w);
    assert(running_votes(sys, ml, j) <= running_votes(sys, ml, w));
    let other = vote_of(sys, ml, w)->0;
    lemma_votes_grow(sys, ml, other, (w + 1) as nat, n);
    if other != m {
        lemma_votes_shared(sys, ml, m, other, n);
    }
}

/// Metadata other than those of the first copy are recovered only where two later copies carry them.
pub proof fn lemma_outvotes_first(sys: Seq<u8>, r_meta: nat, first: Meta, m: Meta) -> (r: (int, int))
    requires
        copies_in(sys, r_meta, 46) > 0,
        vote_of(sys, 46, 0) == Some(first),
        recovered_meta(sys, r_meta) == Some(m),
        m != first,
    ensures
        1 <= r.0 < r.1 < copies_in(sys, r_meta, 46),
        vote_of(sys, 46, r.0) == Some(m),
        vote_of(sys, 46, r.1) == Some(m),
{
    let n = copies_in(sys, r_meta, 46);
    lemma_winner_exists(sys, 46, n, 0);
    let w = choose|w: int| is_winner(sys, 46, n, w);
    assert(vote_of(sys, 46, w) == Some(m));
    assert(running_votes(sys, 46, 0) == 1) by {
        reveal_with_fuel(votes_for, 2);
    }
    assert(running_votes(sys, 46, 0) < running_votes(sys, 46, w));
    let j = lemma_last_vote(sys, 46, m, w as nat);
    (j, w)
}

/// Every copy of a strengthened stream is the record.
pub proof fn lemma_repeated(s: Seq<u8>, n: nat, i: int, rest: Seq<u8>)
    requires
        0 <= i < n,
    ensures
        repeated(s, n).len() == n * s.len(),
        copy_at(repeated(s, n) + rest, s.len() as int, i) == s,
    decreases n,
{
    let l = s.len() as int;
    let before = repeated(s, (n - 1) as nat);
    lemma_repeated_len(s, (n - 1) as nat);
    lemma_repeated_len(s, n);
    if i == n - 1 {
        assert(copy_at(repeated(s, n) + rest, l, i) =~= s);
    } else {
        lemma_repeated(s, (n - 1) as nat, i, s + rest);
        assert(before + (s + rest) =~= repeated(s, n) + rest);
    }
}

pub proof fn lemma_repeated_len(s: Seq<u8>, n: nat)
    ensures
        repeated(s, n).len() == n * s.len(),
    decreases n,
{
    if n > 0 {
        lemma_repeated_len(s, (n - 1) as nat);
        assert(n * s.len() == (n - 1) * s.len() + s.len()) by (nonlinear_arith)
            requires
                n >= 1,
        ;
    } else {
        assert(0 * s.len() == 0) by (nonlinear_arith);
    }
}

proof fn lemma_unanimous(sys: Seq<u8>, meta_len: int, m: Meta, n: nat)
    requires
        forall|i: int| 0 <= i < n ==> #[trigger] vote_of(sys, meta_len, i) == Some(m),
    ensures
        votes_for(sys, meta_len, m, n) == n,
    decreases n,
{
    if n > 0 {
        lemma_unanimous(sys, meta_len, m, (n - 1) as nat);
        assert(vote_of(sys, meta_len, n - 1) == Some(m));
    }
}

/// Metadata that a stream is strengthened with are recovered from it.
pub proof fn law_strengthened_meta_is_recovered(
    profile: u8,
    file_len: u64,
    hash: Seq<u8>,
    data: Seq<u8>,
    r_meta: nat,
)
    requires
        hash.len() == 32,
        file_len > 0,
        r_meta > 0,
    ensures
        recovered_meta(repeated(meta_record(profile, file_len, hash), r_meta) + data, r_meta)
            == Some(Meta { profile, file_len, integrity: Integrity::Sha256(hash), meta_len: 46 }),
{
    let rec = meta_record(profile, file_len, hash);
    let sys = repeated(rec, r_meta) + data;
    let m = Meta { profile, file_len, integrity: Integrity::Sha256(hash), meta_len: 46 };
    bytes::lemma_le_bytes(file_len as nat, 8);
    assert(rec.len() == 46);
    lemma_repeated_len(rec, r_meta);
    let n = copies_in(sys, r_meta, 46);
    assert(n == r_meta);
    law_parse_undoes_build(profile, file_len, hash, Seq::empty());
    assert(rec + Seq::<u8>::empty() =~= rec);
    assert forall|i: int| 0 <= i < n implies #[trigger] vote_of(sys, 46, i) == Some(m) by {
        lemma_repeated(rec, r_meta, i, data);
    }
    lemma_unanimous(sys, 46, m, n);
    law_majority_is_elected(sys, r_meta, 46, m);
}

proof fn lemma_middle(a: Seq<u8>, b: Seq<u8>, c: Seq<u8>)
    ensures
        (a + b + c).subrange(a.len() as int, (a.len() + b.len()) as int) == b,
{
    assert((a + b + c).subrange(a.len() as int, (a.len() + b.len()) as int) =~= b);
}

/// The payload of a strengthened stream is the file, and its checksum fits where it is the one in
/// the metadata.
pub proof fn law_strengthened_payload_is_the_file(
    profile: u8,
    data: Seq<u8>,
    hash: Seq<u8>,
    rest: Seq<u8>,
    r_meta: nat,
)
    requires
        0 < data.len() <= u64::MAX,
        hash.len() == 32,
        r_meta > 0,
    ensures
        ({
            let sys = repeated(meta_record(profile, data.len() as u64, hash), r_meta) + data + rest;
            let m = Meta {
                profile,
                file_len: data.len() as u64,
                integrity: Integrity::Sha256(hash),
                meta_len: 46,
            };
            let start = payload_start(m, r_meta) as int;
            &&& recovered_meta(sys, r_meta) == Some(m)
            &&& start + data.len() <= sys.len()
            &&& sys.subrange(start, start + data.len()) == data
            &&& hash == checksum::sha256_of(data)@ ==> integrity_of(data, m.integrity)
                == m.integrity
        }),
{
    let rec = meta_record(profile, data.len() as u64, hash);
    let pre = repeated(rec, r_meta);
    law_strengthened_meta_is_recovered(profile, data.len() as u64, hash, data + rest, r_meta);
    assert(pre + (data + rest) == pre + data + rest) by {
        assert(pre + (data + rest) =~= pre + data + rest);
    }
    assert(rec.len() == 46) by {
        bytes::lemma_le_bytes(data.len() as nat, 8);
    }
    assert(pre.len() == 46 * r_meta) by {
        lemma_repeated_len(rec, r_meta);
    }
    lemma_middle(pre, data, rest);
}

/// Metadata are read from a record of one of two forms and from nothing else: `F2V7`, then 8 or 7,
/// the profile, the length of the file from its lowest byte on, and the digest of the file or its
/// checksum, likewise from its lowest byte on.
pub proof fn law_record_forms(data: Seq<u8>, m: Meta)
    requires
        parsed_meta(data) == Some(m),
    ensures
        data[0] == 'F' as u8 && data[1] == '2' as u8 && data[2] == 'V' as u8 && data[3] == '7' as u8,
        data[5] == m.profile,
        bytes::le_value(data.subrange(6, 14)) == m.file_len,
        match m.integrity {
            Integrity::Sha256(h) => data[4] == 8 && m.meta_len == 46 && data.len() >= 46 && h
                == data.subrange(14, 46) && data.take(46) == meta_record(m.profile, m.file_len, h),
            Integrity::LegacyCrc32(c) => data[4] == 7 && m.meta_len == 18 && data.len() >= 18
                && bytes::le_value(data.subrange(14, 18)) == c,
        },
{
    let mark = data.subrange(0, 4);
    assert(mark[0] == data[0] && mark[1] == data[1] && mark[2] == data[2] && mark[3] == data[3]);
    let len = data.subrange(6, 14);
    bytes::lemma_le_value(len);
    bytes::lemma_le_value(data.subrange(14, 18));
    bytes::lemma_spans();
    if m.integrity is Sha256 {
        let h = data.subrange(14, 46);
        let made = meta_record(m.profile, m.file_len, h);
        bytes::lemma_le_bytes(m.file_len as nat, 8);
        assert(bytes::le_bytes(m.file_len as nat, 8) == len);
        assert(data.take(46) =~= made) by {
            assert forall|i: int| 0 <= i < 46 implies data[i] == made[i] by {
                if 6 <= i < 14 {
                    assert(data[i] == len[i - 6]);
                } else if 14 <= i {
                    assert(data[i] == h[i - 14]);
                }
            }
        }
    }
}

/// A record of the older form, whatever follows it, is read.
pub proof fn law_older_record_is_read(profile: u8, file_len: u64, crc: u32, rest: Seq<u8>)
    ensures
        parsed_meta(
            seq!['F' as u8, '2' as u8, 'V' as u8, '7' as u8, 7u8, profile] + bytes::le_bytes(
                file_len as nat,
                8,
            ) + bytes::le_bytes(crc as nat, 4) + rest,
        ) == Some(
            Meta { profile, file_len, integrity: Integrity::LegacyCrc32(crc), meta_len: 18 },
        ),
{
    let data = seq!['F' as u8, '2' as u8, 'V' as u8, '7' as u8, 7u8, profile] + bytes::le_bytes(
        file_len as nat,
        8,
    ) + bytes::le_bytes(crc as nat, 4) + rest;
    bytes::lemma_le_bytes(file_len as nat, 8);
    bytes::lemma_le_bytes(crc as nat, 4);
    bytes::lemma_spans();
    assert(data.subrange(0, 4) =~= magic());
    assert(data.subrange(6, 14) =~= bytes::le_bytes(file_len as nat, 8));
    assert(data.subrange(14, 18) =~= bytes::le_bytes(crc as nat, 4));
}

/// The copies that metadata are looked for in are whole, and no more than were written: as many as
/// the stream has room for.
pub proof fn law_copies_are_whole(sys: Seq<u8>, r_meta: nat, meta_len: nat)
    requires
        meta_len > 0,
    ensures
        copies_in(sys, r_meta, meta_len) <= r_meta,
        copies_in(sys, r_meta, meta_len) * meta_len <= sys.len(),
        copies_in(sys, r_meta, meta_len) < r_meta ==> (copies_in(sys, r_meta, meta_len) + 1)
            * meta_len > sys.len(),
{
    let (n, b) = (sys.len() as int, meta_len as int);
    vstd::arithmetic::div_mod::lemma_fundamental_div_mod(n, b);
    vstd::arithmetic::div_mod::lemma_mod_bound(n, b);
    let q = n / b;
    let c = copies_in(sys, r_meta, meta_len);
    assert(c * b <= q * b && q * b == b * q && (q + 1) * b == q * b + b) by (nonlinear_arith)
        requires
            c <= q,
            b > 0,
    ;
}

/// A payload that is taken without forbearance has the checksum that its metadata say; with it, the
/// same payload is taken too.
pub proof fn law_taken_payload_is_checked(payload: Seq<u8>, sys: Seq<u8>, r_meta: nat)
    requires
        is_payload(payload, sys, r_meta, false),
    ensures
        is_payload(payload, sys, r_meta, true),
        recovered_meta(sys, r_meta) matches Some(m) && payload.len() == m.file_len as usize && (
        match m.integrity {
            Integrity::Sha256(h) => checksum::sha256_of(payload)@ == h,
            Integrity::LegacyCrc32(c) => checksum::crc32_of(payload) == c,
        }),
{
}

/// Where any copy can be read metadata are elected: some that no others have more votes than. Copies
/// of an empty file have no vote.
pub proof fn law_most_votes_win(sys: Seq<u8>, r_meta: nat, meta_len: nat, i: int, other: Meta)
    requires
        0 <= i < copies_in(sys, r_meta, meta_len),
        parsed_meta(copy_at(sys, meta_len as int, i)) matches Some(v) && v.file_len > 0
            && v.meta_len == meta_len,
    ensures
        elected(sys, r_meta, meta_len) matches Some(m) && m.file_len > 0 && votes_for(
            sys,
            meta_len as int,
            other,
            copies_in(sys, r_meta, meta_len),
        ) <= votes_for(sys, meta_len as int, m, copies_in(sys, r_meta, meta_len)),
{
    let n = copies_in(sys, r_meta, meta_len);
    let ml = meta_len as int;
    lemma_winner_exists(sys, ml, n, i);
    let w = choose|w: int| is_winner(sys, ml, n, w);
    let m = vote_of(sys, ml, w)->0;
    lemma_votes_grow(sys, ml, m, (w + 1) as nat, n);
    if votes_for(sys, ml, other, n) > 0 {
        let j = lemma_last_vote(sys, ml, other, n);
        assert(running_votes(sys, ml, j) <= running_votes(sys, ml, w));
    }
}

/// Each copy that carries some metadata is one vote for them and no vote for others.
pub proof fn law_each_copy_is_one_vote(sys: Seq<u8>, meta_len: int, m: Meta, n: nat)
    ensures
        votes_for(sys, meta_len, m, n) <= n,
        votes_for(sys, meta_len, m, n) == n <==> forall|i: int|
            0 <= i < n ==> #[trigger] vote_of(sys, meta_len, i) == Some(m),
        votes_for(sys, meta_len, m, n) == 0 <==> forall|i: int|
            0 <= i < n ==> #[trigger] vote_of(sys, meta_len, i) != Some(m),
    decreases n,
{
    if n > 0 {
        law_each_copy_is_one_vote(sys, meta_len, m, (n - 1) as nat);
        let last = vote_of(sys, meta_len, n - 1) == Some(m);
        assert(last || !last);
    }
}

/// The record of a file in the older form.
pub open spec fn older_record(profile: u8, file_len: u64, crc: u32) -> Seq<u8> {
    seq!['F' as u8, '2' as u8, 'V' as u8, '7' as u8, 7u8, profile] + bytes::le_bytes(
        file_len as nat,
        8,
    ) + bytes::le_bytes(crc as nat, 4)
}

/// Metadata of the older form that a stream starts with are recovered, where none of the newer form
/// are found, and the payload starts behind their copies.
pub proof fn law_older_meta_is_recovered(
    profile: u8,
    file_len: u64,
    crc: u32,
    data: Seq<u8>,
    r_meta: nat,
)
    requires
        file_len > 0,
        r_meta > 0,
        elected(repeated(older_record(profile, file_len, crc), r_meta) + data, r_meta, 46) is None,
    ensures
        recovered_meta(repeated(older_record(profile, file_len, crc), r_meta) + data, r_meta)
            == Some(
            Meta { profile, file_len, integrity: Integrity::LegacyCrc32(crc), meta_len: 18 },
        ),
        repeated(older_record(profile, file_len, crc), r_meta).len() == payload_start(
            Meta { profile, file_len, integrity: Integrity::LegacyCrc32(crc), meta_len: 18 },
            r_meta,
        ),
{
    let rec = older_record(profile, file_len, crc);
    let sys = repeated(rec, r_meta) + data;
    let m = Meta { profile, file_len, integrity: Integrity::LegacyCrc32(crc), meta_len: 18 };
    bytes::lemma_le_bytes(file_len as nat, 8);
    bytes::lemma_le_bytes(crc as nat, 4);
    assert(rec.len() == 18);
    lemma_repeated_len(rec, r_meta);
    let n = copies_in(sys, r_meta, 18);
    assert(n == r_meta);
    law_older_record_is_read(profile, file_len, crc, Seq::empty());
    assert(rec + Seq::<u8>::empty() =~= rec);
    assert forall|i: int| 0 <= i < n implies #[trigger] vote_of(sys, 18, i) == Some(m) by {
        lemma_repeated(rec, r_meta, i, data);
    }
    lemma_unanimous(sys, 18, m, n);
    law_majority_is_elected(sys, r_meta, 18, m);
}

} // verus!
