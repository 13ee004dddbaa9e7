//! Soft bits of frames put in the order of the frames and cut into codewords.
use std::collections::BTreeMap;
use vstd::prelude::*;

verus! {

/// The soft bits of one codeword, as bit patterns of single-precision numbers.
pub struct LlrCodeword {
    pub values: Vec<u32>,
}

impl LlrCodeword {
    pub fn as_slice(&self) -> (r: &[u32])
        ensures
            r@ == self.values@,
    {
        self.values.as_slice()
    }
}

pub struct LlrAssembler {
    ldpc_n: usize,
    pending_frame_llrs: BTreeMap<u32, Vec<u32>>,
    channel_llrs: Vec<u32>,
    consume_off: usize,
    next_frame_seq: Option<u32>,
}

/// What an assembler holds: frames that wait for earlier ones, soft bits that wait to be taken, and
/// the frame that is expected next.
pub struct Assembly {
    pub codeword_len: nat,
    pub waiting: Map<u32, Seq<u32>>,
    pub ready: Seq<u32>,
    pub expected: Option<u32>,
}

/// The frame number behind a frame number.
pub open spec fn frame_after(seq: u32) -> u32 {
    seq.wrapping_add(1)
}

/// The assembly after the frames that are next in order have been taken in, at most `fuel` of them.
pub open spec fn drained(a: Assembly, fuel: nat) -> Assembly
    decreases fuel,
{
    match a.expected {
        Some(seq) if fuel > 0 && a.waiting.dom().contains(seq) => drained(
            Assembly {
                waiting: a.waiting.remove(seq),
                ready: a.ready + a.waiting[seq],
                expected: Some(frame_after(seq)),
                ..a
            },
            (fuel - 1) as nat,
        ),
        _ => a,
    }
}

/// The assembly with one more frame: the first frame sets which one is expected, and of two frames
/// of one number the first stays as long as it waits.
pub open spec fn with_frame(a: Assembly, frame_idx: u32, llr: Seq<u32>) -> Assembly {
    Assembly {
        waiting: if a.waiting.dom().contains(frame_idx) {
            a.waiting
        } else {
            a.waiting.insert(frame_idx, llr)
        },
        expected: match a.expected {
            Some(s) => Some(s),
            None => Some(frame_idx),
        },
        ..a
    }
}

impl LlrAssembler {
    pub closed spec fn offsets_wf(&self) -> bool {
        &&& self.consume_off <= self.channel_llrs@.len()
        &&& self.pending_frame_llrs@.dom().finite()
    }

    pub closed spec fn wf(&self) -> bool {
        self.offsets_wf()
    }

    pub closed spec fn view(&self) -> Assembly {
        Assembly {
            codeword_len: self.ldpc_n as nat,
            waiting: self.pending_frame_llrs@.map_values(|v: Vec<u32>| v@),
            ready: self.channel_llrs@.skip(self.consume_off as int),
            expected: self.next_frame_seq,
        }
    }

    pub fn new(ldpc_n: usize) -> (a: Self)
        ensures
            a.wf(),
            a@.codeword_len == ldpc_n,
            a@.waiting == Map::<u32, Seq<u32>>::empty(),
            a@.ready == Seq::<u32>::empty(),
            a@.expected is None,
    {
        let a: LlrAssembler = LlrAssembler {
            ldpc_n,
            pending_frame_llrs: BTreeMap::new(),
            channel_llrs: Vec::new(),
            consume_off: 0,
            next_frame_seq: None,
        };
        proof {
            assert(a@.waiting =~= Map::<u32, Seq<u32>>::empty());
            assert(a@.ready =~= Seq::<u32>::empty());
        }
        a
    }

    pub fn next_expected_frame(&self) -> (r: Option<u32>)
        ensures
            r == self@.expected,
    {
        self.next_frame_seq
    }

    pub fn available_llr_len(&self) -> (n: usize)
        requires
            self.wf(),
        ensures
            n == self@.ready.len(),
    {
        self.channel_llrs.len() - self.consume_off
    }

    /// Takes the next codeword out of the soft bits that are ready.
    pub fn next_codeword(&mut self) -> (r: Option<LlrCodeword>)
        requires
            old(self).wf(),
        ensures
            final(self).wf(),
            match r {
                Some(w) => {
                    let n = old(self)@.codeword_len as int;
                    &&& n <= old(self)@.ready.len()
                    &&& w.values@ == old(self)@.ready.take(n)
                    &&& final(self)@ == (Assembly { ready: old(self)@.ready.skip(n), ..old(self)@ })
                },
                None => old(self)@.ready.len() < old(self)@.codeword_len && final(self)@ == old(
                    self,
                )@,
            },
    {
        if self.available_llr_len() < self.ldpc_n {
            return None;
        }
        assert(self@.ready.len() == self.channel_llrs.len() - self.consume_off);
        let start: usize = self.consume_off;
        let end: usize = start + self.ldpc_n;
        let ghost all = self.channel_llrs@;
        let mut values: Vec<u32> = Vec::with_capacity(self.ldpc_n);
        let mut i: usize = start;
        while i < end
            invariant
                start <= i <= end <= all.len(),
                all == self.channel_llrs@,
                *self == *old(self),
                values@ == all.subrange(start as int, i as int),
            decreases end - i,
        {
            values.push(self.channel_llrs[i]);
            assert(all.subrange(start as int, i + 1) =~= all.subrange(start as int, i as int).push(
                all[i as int],
            ));
            i = i + 1;
        }
        self.consume_off = end;
        proof {
            let a = old(self)@;
            assert(values@ =~= a.ready.take(a.codeword_len as int));
            assert(self@.ready =~= a.ready.skip(a.codeword_len as int));
        }
        let ghost cut = self@;
        if end / 8 >= self.ldpc_n && end >= self.channel_llrs.len() - end {
            let mut rest: Vec<u32> = Vec::with_capacity(self.channel_llrs.len() - end);
            let mut j: usize = end;
            while j < self.channel_llrs.len()
                invariant
                    end <= j <= all.len(),
                    all == self.channel_llrs@,
                    self.consume_off == end,
                    self@ == cut,
                    self.pending_frame_llrs@.dom().finite(),
                    rest@ == all.subrange(end as int, j as int),
                decreases all.len() - j,
            {
                rest.push(self.channel_llrs[j]);
                assert(all.subrange(end as int, j + 1) =~= all.subrange(end as int, j as int).push(
                    all[j as int],
                ));
                j = j + 1;
            }
            self.channel_llrs = rest;
            self.consume_off = 0;
            assert(self@.ready =~= cut.ready);
        }
        Some(LlrCodeword { values })
    }

    /// Takes the soft bits of a frame in, and after them those of the frames that waited for it.
    pub fn append_frame_llr(&mut self, frame_idx: u32, llr: Vec<u32>)
        requires
            old(self).wf(),
        ensures
            final(self).wf(),
            ({
                let a = with_frame(old(self)@, frame_idx, llr@);
                final(self)@ == drained(a, a.waiting.dom().len())
            }),
    {
        if self.next_frame_seq.is_none() {
            self.next_frame_seq = Some(frame_idx);
        }
        if !self.pending_frame_llrs.contains_key(&frame_idx) {
            self.pending_frame_llrs.insert(frame_idx, llr);
        }
        proof {
            let a = with_frame(old(self)@, frame_idx, llr@);
            assert(self@.waiting =~= a.waiting);
            assert(self@ == a);
        }
        self.drain_in_order();
    }

    fn drain_in_order(&mut self)
        requires
            old(self).wf(),
        ensures
            final(self).wf(),
            final(self)@ == drained(old(self)@, old(self)@.waiting.dom().len()),
    {
        let ghost target = drained(self@, self@.waiting.dom().len());
        let mut open: bool = true;
        while open
            invariant
                self.wf(),
                open ==> target == drained(self@, self@.waiting.dom().len()),
                !open ==> target == self@,
            decreases self@.waiting.dom().len(),
                    if open {
                        1int
                    } else {
                        0int
                    },
        {
            let ghost a = self@;
            let ghost pending = self.pending_frame_llrs@;
            assert(a.waiting.dom() =~= pending.dom());
            match self.next_frame_seq {
                Some(seq) => match self.pending_frame_llrs.remove(&seq) {
                    Some(v) => {
                        let ghost before = self.channel_llrs@;
                        let mut i: usize = 0;
                        while i < v.len()
                            invariant
                                i <= v@.len(),
                                self.channel_llrs@ == before + v@.take(i as int),
                                self.consume_off <= before.len(),
                                self.pending_frame_llrs@ == pending.remove(seq),
                                self.next_frame_seq == Some(seq),
                                self.ldpc_n as nat == a.codeword_len,
                                before.skip(self.consume_off as int) == a.ready,
                            decreases v@.len() - i,
                        {
                            self.channel_llrs.push(v[i]);
                            assert(v@.take(i + 1) =~= v@.take(i as int).push(v@[i as int]));
                            i = i + 1;
                        }
                        self.next_frame_seq = Some(seq.wrapping_add(1));
                        proof {
                            assert(v@.take(i as int) =~= v@);
                            assert(pending.dom().contains(seq));
                            assert(a.waiting[seq] == v@);
                            let next = Assembly {
                                waiting: a.waiting.remove(seq),
                                ready: a.ready + a.waiting[seq],
                                expected: Some(frame_after(seq)),
                                ..a
                            };
                            assert(self@.waiting =~= next.waiting);
                            assert(self@.ready =~= next.ready);
                            assert(self@ == next);
                            assert(next.waiting.dom() =~= a.waiting.dom().remove(seq));
                        }
                    },
                    None => {
                        proof {
                            assert(!pending.dom().contains(seq));
                            assert(self.pending_frame_llrs@ =~= pending);
                            assert(self@ == a);
                        }
                        open = false;
                    },
                },
                None => {
                    open = false;
                },
            }
        }
    }
}

/// The soft bits of `n` frames one after another, from the frame numbered `first` on.
pub open spec fn frames_joined(frames: Seq<Seq<u32>>, n: nat) -> Seq<u32>
    decreases n,
{
    if n == 0 {
        Seq::empty()
    } else {
        frames_joined(frames, (n - 1) as nat) + frames[n - 1]
    }
}

/// Frames that are there in a row come out in their order, whenever each of them arrived: what is
/// drained starts with the frame that is expected and goes on to the first that is missing.
pub proof fn law_drained_in_order(a: Assembly, frames: Seq<Seq<u32>>, first: u32, fuel: nat)
    requires
        a.expected == Some(first),
        first + frames.len() <= u32::MAX,
        frames.len() <= fuel,
        forall|i: int|
            0 <= i < frames.len() ==> a.waiting.dom().contains(#[trigger] nth_frame(first, i))
                && a.waiting[nth_frame(first, i)] == frames[i],
        !a.waiting.dom().contains(nth_frame(first, frames.len() as int)),
    ensures
        drained(a, fuel).ready == a.ready + frames_joined(frames, frames.len()),
        drained(a, fuel).expected == Some(nth_frame(first, frames.len() as int)),
    decreases frames.len(),
{
    if frames.len() == 0 {
        assert(nth_frame(first, 0) == first);
        assert(a.ready + frames_joined(frames, 0) =~= a.ready);
    } else {
        assert(nth_frame(first, 0) == first);
        let next = Assembly {
            waiting: a.waiting.remove(first),
            ready: a.ready + a.waiting[first],
            expected: Some(frame_after(first)),
            ..a
        };
        let rest = frames.skip(1);
        assert forall|i: int| 0 <= i < rest.len() implies next.waiting.dom().contains(
            #[trigger] nth_frame(frame_after(first), i),
        ) && next.waiting[nth_frame(frame_after(first), i)] == rest[i] by {
            assert(nth_frame(frame_after(first), i) == nth_frame(first, i + 1));
        }
        assert(nth_frame(frame_after(first), rest.len() as int) == nth_frame(
            first,
            frames.len() as int,
        ));
        law_drained_in_order(next, rest, frame_after(first), (fuel - 1) as nat);
        lemma_joined_front(frames, frames.len());
        assert(a.ready + frames_joined(frames, frames.len()) =~= a.ready + frames[0]
            + frames_joined(rest, rest.len()));
    }
}

/// The frame number `i` behind another.
pub open spec fn nth_frame(first: u32, i: int) -> u32 {
    (first + i) as u32
}

proof fn lemma_joined_front(frames: Seq<Seq<u32>>, n: nat)
    requires
        0 < n <= frames.len(),
    ensures
        frames_joined(frames, n) == frames[0] + frames_joined(frames.skip(1), (n - 1) as nat),
    decreases n,
{
    let rest = frames.skip(1);
    if n == 1 {
        assert(frames_joined(frames, 0) + frames[0] =~= frames[0]);
        assert(frames[0] + frames_joined(rest, 0) =~= frames[0]);
    } else {
        lemma_joined_front(frames, (n - 1) as nat);
        assert(frames[n - 1] == rest[n - 2]);
        assert(frames[0] + frames_joined(rest, (n - 2) as nat) + rest[n - 2] =~= frames[0]
            + frames_joined(rest, (n - 1) as nat));
    }
}

/// Of two frames of one number the first stays, and frames of different numbers do not touch each
/// other: in whichever order they come, both wait.
pub proof fn law_first_frame_stays(a: Assembly, i: u32, j: u32, x: Seq<u32>, y: Seq<u32>)
    requires
        !a.waiting.dom().contains(i),
        !a.waiting.dom().contains(j),
        a.expected is Some,
    ensures
        with_frame(with_frame(a, i, x), i, y) == with_frame(a, i, x),
        with_frame(a, i, x).waiting.dom().contains(i) && with_frame(a, i, x).waiting[i] == x,
        with_frame(a, i, x).expected == a.expected,
        with_frame(a, i, x).ready == a.ready,
        i != j ==> with_frame(with_frame(a, i, x), j, y) == with_frame(with_frame(a, j, y), i, x),
{
    if i != j {
        assert(with_frame(with_frame(a, i, x), j, y).waiting =~= with_frame(
            with_frame(a, j, y),
            i,
            x,
        ).waiting);
    }
}

/// The frame that comes first is the first that is expected.
pub proof fn law_reception_starts_with_the_first_frame(a: Assembly, i: u32, x: Seq<u32>)
    requires
        a.expected is None,
    ensures
        with_frame(a, i, x).expected == Some(i),
{
}

} // verus!
