//! The stateful 64-bit snowflake allocator: packs
//! `[timestamp_delta:42][node_id:10][sequence:12]`, advances a rolling
//! per-instance sequence, and blocks when a millisecond exhausts all
//! 4096 sequence values so that no two ids can collide.

use crate::digits::all_digits;
use crate::digits::dec_chars;
use crate::digits::dec_parse;
use crate::digits::dec_render;
use crate::digits::dec_val;
use crate::errors::PikaError;
use vstd::prelude::*;
use vstd::string::StrSliceExecFns;
use vstd::utf8::encode_utf8;

verus! {

/// The timestamp delta must fit in 42 bits.
pub const MAX_TIMESTAMP_DELTA: u64 = 0x400_0000_0000;

/// The snowflake bit layout, stated arithmetically so that ordering
/// facts follow from ordinary integer reasoning.
pub open spec fn spec_pack(delta: u64, node_id: u32, seq: u32) -> u64
    recommends
        delta < MAX_TIMESTAMP_DELTA,
        node_id < 1024,
        seq < 4096,
{
    (delta * 0x40_0000 + node_id * 0x1000 + seq) as u64
}

/// Packs the three snowflake fields into one 64-bit id.
fn pack(delta: u64, node_id: u32, seq: u32) -> (id: u64)
    requires
        delta < MAX_TIMESTAMP_DELTA,
        node_id < 1024,
        seq < 4096,
    ensures
        id == spec_pack(delta, node_id, seq),
{
    let n: u64 = node_id as u64;
    let s: u64 = seq as u64;
    let id: u64 = (delta << 22u64) | (n << 12u64) | s;
    proof {
        assert((delta << 22u64) | (n << 12u64) | s == delta * 0x40_0000 + n * 0x1000 + s)
            by (bit_vector)
            requires
                delta < 0x400_0000_0000u64,
                n < 1024u64,
                s < 4096u64,
        ;
    }
    id
}

/// The three fields read back from an id, as shift-free arithmetic.
pub open spec fn spec_delta_of(id: u64) -> u64 {
    id / 0x40_0000
}

pub open spec fn spec_node_of(id: u64) -> u64 {
    (id / 0x1000) % 0x400
}

pub open spec fn spec_seq_of(id: u64) -> u64 {
    id % 0x1000
}

/// Packing and unpacking invert each other.
pub proof fn lemma_unpack_pack(delta: u64, node_id: u32, seq: u32)
    by (bit_vector)
    requires
        delta < 0x400_0000_0000u64,
        node_id < 1024u32,
        seq < 4096u32,
    ensures
        ((delta * 0x40_0000 + node_id * 0x1000 + seq) as u64) / 0x40_0000 == delta,
        (((delta * 0x40_0000 + node_id * 0x1000 + seq) as u64) / 0x1000) % 0x400 == node_id,
        ((delta * 0x40_0000 + node_id * 0x1000 + seq) as u64) % 0x1000 == seq,
{
}

/// The generator: epoch and node id are fixed at construction, the
/// sequence is a rolling counter over all calls, and the exhaustion
/// field remembers the millisecond whose run of 4096 ids was used up.
#[derive(Clone, Debug)]
pub struct Snowflake {
    pub epoch: u64,
    pub node_id: u32,
    pub seq: u32,
    pub last_sequence_exhaustion: u64,
}

/// A decoded snowflake, all fields read back from the 64-bit id.
#[derive(Clone, Copy, Debug, PartialEq, Eq, Structural)]
pub struct DecodedSnowflake {
    pub id: u64,
    pub timestamp: u64,
    pub node_id: u32,
    pub seq: u64,
    pub epoch: u64,
}

impl Snowflake {
    /// The structural invariant: the sequence stays in `[0, 4095]` and
    /// the node id in `[0, 1023]`.
    pub open spec fn wf(self) -> bool {
        self.seq < 4096 && self.node_id < 1024
    }

    /// A requested millisecond can be stamped: not before the epoch, and
    /// its delta fits the 42-bit field.
    pub open spec fn in_range(self, ts: u64) -> bool {
        self.epoch <= ts && ts - self.epoch < MAX_TIMESTAMP_DELTA
    }

    /// The call must block: the sequence has just wrapped and the clock
    /// still reads the millisecond whose run was exhausted (or an
    /// earlier one).
    pub open spec fn wait_needed(self, ts: u64) -> bool {
        self.seq == 0 && ts <= self.last_sequence_exhaustion
    }

    /// The id issued when the generator proceeds at an effective
    /// millisecond.
    pub open spec fn step_id(self, effective_ms: u64) -> u64
        recommends
            self.wf(),
            self.in_range(effective_ms),
    {
        spec_pack((effective_ms - self.epoch) as u64, self.node_id, self.seq)
    }

    /// The state after issuing: the sequence advances modulo 4096, and a
    /// wrap records the millisecond that exhausted the run.
    pub open spec fn step_state(self, effective_ms: u64) -> Snowflake {
        Snowflake {
            seq: if self.seq >= 4095 {
                0
            } else {
                (self.seq + 1) as u32
            },
            last_sequence_exhaustion: if self.seq >= 4095 {
                effective_ms
            } else {
                self.last_sequence_exhaustion
            },
            ..self
        }
    }

    /// The whole outcome of one allocation that was asked for
    /// millisecond `ts` and proceeded at effective millisecond `e`.
    pub open spec fn alloc_post(
        pre: Snowflake,
        e: u64,
        r: Result<u64, PikaError>,
        post: Snowflake,
    ) -> bool {
        if pre.in_range(e) {
            r == Ok::<u64, PikaError>(pre.step_id(e)) && post == pre.step_state(e)
        } else {
            r == Err::<u64, PikaError>(PikaError::TimestampOverflow) && post == pre
        }
    }

    /// Makes a generator for an epoch and a node id; a node id above
    /// 1023 is reduced modulo 1024, as the 10-bit field requires.
    pub fn new_with_nodeid(epoch: u64, node_id: u32) -> (r: Self)
        ensures
            r.wf(),
            r.epoch == epoch,
            r.node_id == node_id % 1024,
            r.seq == 0,
            r.last_sequence_exhaustion == 0,
    {
        Snowflake { epoch, node_id: node_id % 1024, seq: 0, last_sequence_exhaustion: 0 }
    }

    /// Allocates one id for the requested millisecond. A request before
    /// the epoch fails with `ClockRegression`; a delta beyond 42 bits
    /// with `TimestampOverflow`. When the previous run of 4096 ids was
    /// exhausted in this very millisecond the call blocks until the
    /// clock passes it, and proceeds with the clock's new value.
    pub(crate) fn alloc_at(&mut self, now_ms: u64) -> (r: Result<u64, PikaError>)
        requires
            old(self).wf(),
        ensures
            final(self).wf(),
            now_ms < old(self).epoch ==> r == Err::<u64, PikaError>(PikaError::ClockRegression)
                && *final(self) == *old(self),
            now_ms >= old(self).epoch && !old(self).in_range(now_ms) ==> r == Err::<
                u64,
                PikaError,
            >(PikaError::TimestampOverflow) && *final(self) == *old(self),
            old(self).in_range(now_ms) && !old(self).wait_needed(now_ms) ==> r == Ok::<
                u64,
                PikaError,
            >(old(self).step_id(now_ms)) && *final(self) == old(self).step_state(now_ms),
            old(self).in_range(now_ms) && old(self).wait_needed(now_ms) ==> exists|e: u64|
                e > old(self).last_sequence_exhaustion && #[trigger] Self::alloc_post(
                    *old(self),
                    e,
                    r,
                    *final(self),
                ),
    {
        if now_ms < self.epoch {
            return Err(PikaError::ClockRegression);
        }
        if now_ms - self.epoch >= MAX_TIMESTAMP_DELTA {
            return Err(PikaError::TimestampOverflow);
        }
        let mut effective = now_ms;
        if self.seq == 0 && now_ms <= self.last_sequence_exhaustion {
            effective = crate::utils::wait_until_after(self.last_sequence_exhaustion);
            if effective - self.epoch >= MAX_TIMESTAMP_DELTA {
                proof {
                    assert(Self::alloc_post(*old(self), effective, Err::<u64, PikaError>(
                        PikaError::TimestampOverflow,
                    ), *old(self)));
                }
                return Err(PikaError::TimestampOverflow);
            }
        }
        let delta = effective - self.epoch;
        let id = pack(delta, self.node_id, self.seq);
        if self.seq >= 4095 {
            self.seq = 0;
            self.last_sequence_exhaustion = effective;
        } else {
            self.seq = self.seq + 1;
        }
        proof {
            assert(Self::alloc_post(*old(self), effective, Ok::<u64, PikaError>(id), *self));
        }
        Ok(id)
    }

    /// The outcome of one allocation rendered as decimal text.
    pub open spec fn gen_text_post(
        pre: Snowflake,
        now_ms: u64,
        r: Result<String, PikaError>,
        post: Snowflake,
    ) -> bool {
        &&& (now_ms < pre.epoch ==> r == Err::<String, PikaError>(PikaError::ClockRegression)
            && post == pre)
        &&& (now_ms >= pre.epoch && !pre.in_range(now_ms) ==> r == Err::<String, PikaError>(
            PikaError::TimestampOverflow,
        ) && post == pre)
        &&& (pre.in_range(now_ms) && !pre.wait_needed(now_ms) ==> (r matches Ok(s) && s@
            == dec_chars(pre.step_id(now_ms) as nat)) && post == pre.step_state(now_ms))
        &&& (pre.in_range(now_ms) && pre.wait_needed(now_ms) ==> exists|e: u64|
            #![trigger pre.step_id(e)]
            e > pre.last_sequence_exhaustion && if pre.in_range(e) {
                (r matches Ok(s) && s@ == dec_chars(pre.step_id(e) as nat)) && post
                    == pre.step_state(e)
            } else {
                r == Err::<String, PikaError>(PikaError::TimestampOverflow) && post == pre
            })
    }

    /// Allocates one id for the given millisecond and returns it as
    /// decimal text.
    pub fn gen_with_ts(&mut self, timestamp: u64) -> (r: Result<String, PikaError>)
        requires
            old(self).wf(),
        ensures
            final(self).wf(),
            Self::gen_text_post(*old(self), timestamp, r, *final(self)),
    {
        let id = match self.alloc_at(timestamp) {
            Ok(id) => id,
            Err(e) => {
                return Err(e);
            },
        };
        let digits = dec_render(id);
        proof {
            crate::digits::lemma_dec_round_trip(id as nat);
        }
        let text = crate::utils::ascii_to_string(digits);
        proof {
            assert(text@ =~= dec_chars(id as nat));
        }
        Ok(text)
    }

    /// Allocates one id for the current moment of the process clock.
    /// What the clock read is reflected in the outcome.
    pub fn gen(&mut self) -> (r: Result<String, PikaError>)
        requires
            old(self).wf(),
        ensures
            final(self).wf(),
            exists|now_ms: u64| #[trigger] Self::gen_text_post(*old(self), now_ms, r, *final(self)),
    {
        let now = crate::utils::now_timestamp();
        let r = self.gen_with_ts(now);
        proof {
            assert(Self::gen_text_post(*old(self), now, r, *self));
        }
        r
    }

    /// Decodes a decimal snowflake string: fails with `MalformedPayload`
    /// on anything but a decimal number whose timestamp fits beside this
    /// generator's epoch.
    pub fn decode(&self, sf: &str) -> (r: Result<DecodedSnowflake, PikaError>)
        ensures
            ({
                let bs = encode_utf8(sf@);
                let ok = bs.len() > 0 && all_digits(bs) && dec_val(bs) < 0x1_0000_0000_0000_0000
                    && spec_delta_of(dec_val(bs) as u64) + self.epoch <= u64::MAX;
                &&& (r is Ok) == ok
                &&& !ok ==> r == Err::<DecodedSnowflake, PikaError>(PikaError::MalformedPayload)
                &&& (r matches Ok(d) ==> {
                    let id = dec_val(bs) as u64;
                    &&& d.id == id
                    &&& d.timestamp == spec_delta_of(id) + self.epoch
                    &&& d.node_id == spec_node_of(id)
                    &&& d.seq == spec_seq_of(id)
                    &&& d.epoch == self.epoch
                })
            }),
    {
        let bytes: Vec<u8> = sf.as_bytes_vec();
        let id = match dec_parse(&bytes) {
            Some(v) => v,
            None => {
                return Err(PikaError::MalformedPayload);
            },
        };
        let delta = id >> 22u64;
        let node = ((id >> 12u64) & 0x3ff) as u32;
        let seq = id & 0xfff;
        proof {
            assert(id >> 22u64 == id / 0x40_0000 && (id >> 12u64) & 0x3ff == (id / 0x1000) % 0x400
                && id & 0xfff == id % 0x1000
                && (id >> 12u64) & 0x3ff < 1024 && id & 0xfff < 4096) by (bit_vector);
        }
        if delta > u64::MAX - self.epoch {
            return Err(PikaError::MalformedPayload);
        }
        let timestamp = delta + self.epoch;
        Ok(DecodedSnowflake { id, timestamp, node_id: node, seq, epoch: self.epoch })
    }
}

/// The state after a number of allocations at one frozen millisecond.
pub open spec fn run_state(s0: Snowflake, ts: u64, k: nat) -> Snowflake
    decreases k,
{
    if k == 0 {
        s0
    } else {
        run_state(s0, ts, (k - 1) as nat).step_state(ts)
    }
}

/// The sequence wraps at 4096 within one millisecond: from a fresh run,
/// 4096 allocations under a frozen clock are issued without blocking and
/// carry sequence fields 0 through 4095 in order; the allocation after
/// them finds the run exhausted and must block.
pub proof fn lemma_sequence_wrap(s0: Snowflake, ts: u64, k: nat)
    requires
        s0.wf(),
        s0.seq == 0,
        s0.in_range(ts),
        ts > s0.last_sequence_exhaustion,
        k < 4096,
    ensures
        run_state(s0, ts, k).wf(),
        run_state(s0, ts, k).epoch == s0.epoch && run_state(s0, ts, k).node_id == s0.node_id,
        run_state(s0, ts, k).seq == k,
        !run_state(s0, ts, k).wait_needed(ts),
        spec_seq_of(run_state(s0, ts, k).step_id(ts)) == k,
        k == 4095 ==> run_state(s0, ts, 4096).seq == 0 && run_state(s0, ts, 4096).wait_needed(ts),
    decreases k,
{
    if k > 0 {
        lemma_sequence_wrap(s0, ts, (k - 1) as nat);
    }
    let s = run_state(s0, ts, k);
    lemma_unpack_pack((ts - s.epoch) as u64, s.node_id, s.seq);
    if k == 4095 {
        assert(run_state(s0, ts, 4096) == s.step_state(ts));
    }
}

/// Ids of one generator are strictly increasing as 64-bit integers when
/// the effective clock readings do not decrease: the ordering property
/// of snowflakes, assuming no clock regression.
pub proof fn lemma_monotonic_ids(pre: Snowflake, e1: u64, e2: u64)
    requires
        pre.wf(),
        pre.in_range(e1),
        pre.in_range(e2),
        e2 >= e1,
        !pre.step_state(e1).wait_needed(e2),
    ensures
        pre.step_state(e1).step_id(e2) > pre.step_id(e1),
{
    let mid = pre.step_state(e1);
    let d1 = (e1 - pre.epoch) as u64;
    let d2 = (e2 - pre.epoch) as u64;
    if e2 == e1 {
        assert(pre.seq < 4095);
        assert(mid.seq == pre.seq + 1);
        assert(mid.step_id(e2) == d1 * 0x40_0000 + pre.node_id * 0x1000 + pre.seq + 1);
    } else {
        assert(d2 * 0x40_0000 >= d1 * 0x40_0000 + 0x40_0000) by (nonlinear_arith)
            requires
                d2 >= d1 + 1,
        ;
        assert(mid.node_id * 0x1000 + mid.seq < 0x40_0000);
        assert(pre.step_id(e1) == d1 * 0x40_0000 + pre.node_id * 0x1000 + pre.seq);
        assert(mid.step_id(e2) == d2 * 0x40_0000 + mid.node_id * 0x1000 + mid.seq);
    }
}

} // verus!
