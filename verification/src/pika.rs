//! The registry and codec of the textual ids: symbolic prefixes mapped
//! to a generation policy (plain or secure), ids produced as
//! `prefix_payload` with a base64-encoded payload, and the exact inverse
//! that reads an id back into its parts.
//!
//! An id splits at its first `_`: prefixes never hold `_` and the
//! payload is one base64 blob, so the first separator is unambiguous.

use crate::base64::b64_chars;
use crate::base64::b64_decode;
use crate::digits::all_digits;
use crate::digits::dec_bytes;
use crate::digits::dec_val;
use crate::errors::PikaError;
use crate::snowflake::spec_delta_of;
use crate::snowflake::spec_seq_of;
use crate::snowflake::Snowflake;
use vstd::prelude::*;
use vstd::string::StrSliceExecFns;
use vstd::string::StringExecFns;

verus! {

/// The default epoch: 2022-01-01T00:00:00Z in Unix milliseconds.
pub const DEFAULT_EPOCH: u64 = 1_640_995_200_000;

/// A registered prefix with its generation policy.
#[derive(Clone, Debug)]
pub struct PrefixRecord {
    pub prefix: String,
    pub description: Option<String>,
    pub secure: bool,
}

/// An id read back into its parts. `node_id` and `epoch` are those of
/// the registry that deconstructed the id; the timestamp and sequence
/// come from the id itself.
#[derive(Debug)]
pub struct DecodedPika {
    pub prefix: String,
    pub tail: String,
    pub snowflake: u64,
    pub node_id: u32,
    pub timestamp: u64,
    pub epoch: u64,
    pub seq: u64,
    pub version: i8,
    pub prefix_record: PrefixRecord,
}

/// The registry: the prefix records, the registry-wide epoch and node
/// id, and the one generator whose counters every allocation shares.
#[derive(Clone, Debug)]
pub struct Pika {
    pub prefixes: Vec<PrefixRecord>,
    pub epoch: u64,
    pub node_id: u32,
    pub disable_lowercase: Option<bool>,
    pub snowflake: Snowflake,
}

/// Construction options; a `None` falls back to the default epoch and
/// to a node id derived from the host's network hardware.
pub struct InitOptions {
    pub epoch: Option<u64>,
    pub node_id: Option<u32>,
    pub disable_lowercase: Option<bool>,
}

/// A prefix character: ASCII letters and digits only, so a prefix can
/// never hold the `_` separator.
pub open spec fn is_valid_prefix_char(c: char) -> bool {
    ('A' <= c && c <= 'Z') || ('a' <= c && c <= 'z') || ('0' <= c && c <= '9')
}

/// A valid prefix: 1 to 32 ASCII alphanumeric characters.
pub open spec fn is_valid_prefix(p: Seq<char>) -> bool {
    1 <= p.len() <= 32 && forall|i: int| 0 <= i < p.len() ==> is_valid_prefix_char(#[trigger] p[i])
}

/// The first index holding a record of this exact prefix.
pub open spec fn find_prefix(records: Seq<PrefixRecord>, p: Seq<char>) -> Option<int>
    decreases records.len(),
{
    if records.len() == 0 {
        None
    } else if records[0].prefix@ == p {
        Some(0int)
    } else {
        match find_prefix(records.drop_first(), p) {
            Some(i) => Some(i + 1),
            None => None,
        }
    }
}

/// What `find_prefix` finds: the first exact match, if any.
pub proof fn lemma_find_prefix(records: Seq<PrefixRecord>, p: Seq<char>)
    ensures
        (find_prefix(records, p) is None) <==> (forall|k: int|
            0 <= k < records.len() ==> (#[trigger] records[k].prefix)@ != p),
        find_prefix(records, p) matches Some(i) ==> 0 <= i < records.len()
            && records[i].prefix@ == p && (forall|k: int|
            0 <= k < i ==> (#[trigger] records[k].prefix)@ != p),
    decreases records.len(),
{
    if records.len() > 0 {
        let t = records.drop_first();
        lemma_find_prefix(t, p);
        assert(forall|k: int| 0 <= k < t.len() ==> #[trigger] t[k] == records[k + 1]);
        if records[0].prefix@ != p {
            if let Some(j) = find_prefix(t, p) {
                assert(find_prefix(records, p) == Some(j + 1));
                assert(records[j + 1].prefix@ == p);
                assert forall|k: int| 0 <= k < j + 1 implies (#[trigger] records[k].prefix)@
                    != p by {
                    if k > 0 {
                        assert(t[k - 1] == records[k]);
                    }
                }
            } else {
                assert forall|k: int| 0 <= k < records.len() implies (
                #[trigger] records[k].prefix)@ != p by {
                    if k > 0 {
                        assert(t[k - 1] == records[k]);
                    }
                }
            }
        }
        if forall|k: int| 0 <= k < records.len() ==> (#[trigger] records[k].prefix)@ != p {
            assert forall|k: int| 0 <= k < t.len() implies (#[trigger] t[k].prefix)@ != p by {
                assert(t[k] == records[k + 1]);
            }
            assert(find_prefix(t, p) is None);
        }
    }
}

/// The first match stands where a match stands with none before it.
pub proof fn lemma_find_prefix_at(records: Seq<PrefixRecord>, p: Seq<char>, i: int)
    requires
        0 <= i < records.len(),
        records[i].prefix@ == p,
        forall|k: int| 0 <= k < i ==> (#[trigger] records[k].prefix)@ != p,
    ensures
        find_prefix(records, p) == Some(i),
    decreases records.len(),
{
    if i > 0 {
        let t = records.drop_first();
        assert(forall|k: int| 0 <= k < t.len() ==> #[trigger] t[k] == records[k + 1]);
        lemma_find_prefix_at(t, p, i - 1);
    }
}

/// The first index holding this character.
pub open spec fn find_char(s: Seq<char>, c: char) -> Option<int>
    decreases s.len(),
{
    if s.len() == 0 {
        None
    } else if s[0] == c {
        Some(0int)
    } else {
        match find_char(s.drop_first(), c) {
            Some(i) => Some(i + 1),
            None => None,
        }
    }
}

/// What `find_char` finds: the first occurrence, if any.
pub proof fn lemma_find_char(s: Seq<char>, c: char)
    ensures
        (find_char(s, c) is None) <==> (forall|k: int| 0 <= k < s.len() ==> s[k] != c),
        find_char(s, c) matches Some(i) ==> 0 <= i < s.len() && s[i] == c && (forall|k: int|
            0 <= k < i ==> s[k] != c),
    decreases s.len(),
{
    if s.len() > 0 {
        let t = s.drop_first();
        lemma_find_char(t, c);
        assert(forall|k: int| 0 <= k < t.len() ==> #[trigger] t[k] == s[k + 1]);
        if s[0] != c {
            if let Some(j) = find_char(t, c) {
                assert(find_char(s, c) == Some(j + 1));
                assert forall|k: int| 0 <= k < j + 1 implies s[k] != c by {
                    if k > 0 {
                        assert(t[k - 1] == s[k]);
                    }
                }
            } else {
                assert forall|k: int| 0 <= k < s.len() implies s[k] != c by {
                    if k > 0 {
                        assert(t[k - 1] == s[k]);
                    }
                }
            }
        }
        if forall|k: int| 0 <= k < s.len() ==> s[k] != c {
            assert forall|k: int| 0 <= k < t.len() implies t[k] != c by {
                assert(t[k] == s[k + 1]);
            }
            assert(find_char(t, c) is None);
        }
    }
}

/// The first occurrence stands where the character stands with none of
/// it before.
pub proof fn lemma_find_char_at(s: Seq<char>, c: char, i: int)
    requires
        0 <= i < s.len(),
        s[i] == c,
        forall|k: int| 0 <= k < i ==> s[k] != c,
    ensures
        find_char(s, c) == Some(i),
    decreases s.len(),
{
    if i > 0 {
        let t = s.drop_first();
        assert(forall|k: int| 0 <= k < t.len() ==> #[trigger] t[k] == s[k + 1]);
        lemma_find_char_at(t, c, i - 1);
    }
}

/// Whether a prefix is well formed.
fn check_prefix(p: &str) -> (r: bool)
    ensures
        r == is_valid_prefix(p@),
{
    let n = p.unicode_len();
    if n == 0 || n > 32 {
        return false;
    }
    let mut i: usize = 0;
    while i < n
        invariant
            i <= n,
            n == p@.len(),
            1 <= n <= 32,
            forall|k: int| 0 <= k < i ==> is_valid_prefix_char(#[trigger] p@[k]),
        decreases n - i,
    {
        let c = p.get_char(i);
        if !(('A' <= c && c <= 'Z') || ('a' <= c && c <= 'z') || ('0' <= c && c <= '9')) {
            proof {
                assert(!is_valid_prefix_char(p@[i as int]));
            }
            return false;
        }
        i = i + 1;
    }
    true
}

/// Whether two strings hold the same characters.
fn str_eq(a: &str, b: &str) -> (r: bool)
    ensures
        r == (a@ == b@),
{
    let na = a.unicode_len();
    let nb = b.unicode_len();
    if na != nb {
        return false;
    }
    let mut i: usize = 0;
    while i < na
        invariant
            i <= na,
            na == a@.len(),
            na == b@.len(),
            forall|k: int| 0 <= k < i ==> a@[k] == b@[k],
        decreases na - i,
    {
        if a.get_char(i) != b.get_char(i) {
            return false;
        }
        i = i + 1;
    }
    proof {
        assert(a@ =~= b@);
    }
    true
}

/// Finds the first occurrence of a character in a string.
fn find_char_at(s: &str, c: char) -> (r: Option<usize>)
    ensures
        (r is Some) == (find_char(s@, c) is Some),
        r matches Some(i) ==> find_char(s@, c) == Some(i as int),
{
    let n = s.unicode_len();
    let mut i: usize = 0;
    while i < n
        invariant
            i <= n,
            n == s@.len(),
            forall|k: int| 0 <= k < i ==> s@[k] != c,
        decreases n - i,
    {
        if s.get_char(i) == c {
            proof {
                lemma_find_char_at(s@, c, i as int);
            }
            return Some(i);
        }
        i = i + 1;
    }
    proof {
        lemma_find_char(s@, c);
    }
    None
}

/// Finds the first record registered under this exact prefix.
fn find_record(records: &Vec<PrefixRecord>, p: &str) -> (r: Option<usize>)
    ensures
        (r is Some) == (find_prefix(records@, p@) is Some),
        r matches Some(i) ==> find_prefix(records@, p@) == Some(i as int),
{
    let mut i: usize = 0;
    while i < records.len()
        invariant
            i <= records@.len(),
            forall|k: int| 0 <= k < i ==> (#[trigger] records@[k].prefix)@ != p@,
        decreases records@.len() - i,
    {
        if str_eq(records[i].prefix.as_str(), p) {
            proof {
                lemma_find_prefix_at(records@, p@, i as int);
            }
            return Some(i);
        }
        i = i + 1;
    }
    proof {
        lemma_find_prefix(records@, p@);
    }
    None
}

/// An exact copy of a record.
fn dup_record(r: &PrefixRecord) -> (d: PrefixRecord)
    ensures
        d == *r,
{
    let description = match &r.description {
        Some(s) => Some(s.clone()),
        None => None,
    };
    PrefixRecord { prefix: r.prefix.clone(), description, secure: r.secure }
}

impl Pika {
    /// Derives a node id from the host's first MAC address, reduced
    /// modulo 1024; a host without one yields 0. The low ten bits of
    /// the 48-bit address are its last byte and the low two bits of the
    /// byte before it.
    pub fn compute_node_id() -> (r: u32)
        ensures
            r < 1024,
    {
        match crate::utils::host_mac() {
            Some(m) => {
                let b = m.bytes();
                ((b[4] as u32) % 4) * 256 + (b[5] as u32)
            },
            None => 0,
        }
    }

    /// Builds a registry over the given records. The records are stored
    /// as handed in; `register` is the validating way to add one. A
    /// node id override above 1023 is reduced modulo 1024.
    pub fn new(prefixes: Vec<PrefixRecord>, options: &InitOptions) -> (r: Self)
        ensures
            r.prefixes == prefixes,
            r.epoch == (match options.epoch {
                Some(e) => e,
                None => DEFAULT_EPOCH,
            }),
            (match options.node_id {
                Some(n) => r.node_id == n % 1024,
                None => r.node_id < 1024,
            }),
            r.disable_lowercase == options.disable_lowercase,
            r.snowflake.wf(),
            r.snowflake.epoch == r.epoch,
            r.snowflake.node_id == r.node_id,
            r.snowflake.seq == 0,
            r.snowflake.last_sequence_exhaustion == 0,
    {
        let epoch = match options.epoch {
            Some(e) => e,
            None => DEFAULT_EPOCH,
        };
        let node_id = match options.node_id {
            Some(n) => n % 1024,
            None => Self::compute_node_id(),
        };
        Pika {
            prefixes,
            epoch,
            node_id,
            disable_lowercase: options.disable_lowercase,
            snowflake: Snowflake::new_with_nodeid(epoch, node_id),
        }
    }

    /// Adds a record: fails with `InvalidPrefixFormat` on a malformed
    /// prefix and with `DuplicatePrefix` on one already registered.
    pub fn register(&mut self, record: PrefixRecord) -> (r: Result<(), PikaError>)
        ensures
            !is_valid_prefix(record.prefix@) ==> r == Err::<(), PikaError>(
                PikaError::InvalidPrefixFormat,
            ) && *final(self) == *old(self),
            is_valid_prefix(record.prefix@) && (find_prefix(old(self).prefixes@, record.prefix@)
                is Some) ==> r == Err::<(), PikaError>(PikaError::DuplicatePrefix) && *final(self)
                == *old(self),
            is_valid_prefix(record.prefix@) && (find_prefix(old(self).prefixes@, record.prefix@)
                is None) ==> r == Ok::<(), PikaError>(()) && final(self).prefixes@ == old(
                self,
            ).prefixes@.push(record) && final(self).epoch == old(self).epoch && final(self).node_id
                == old(self).node_id && final(self).snowflake == old(self).snowflake,
    {
        if !check_prefix(record.prefix.as_str()) {
            return Err(PikaError::InvalidPrefixFormat);
        }
        if find_record(&self.prefixes, record.prefix.as_str()).is_some() {
            return Err(PikaError::DuplicatePrefix);
        }
        self.prefixes.push(record);
        Ok(())
    }
}

/// How many times a byte occurs.
pub open spec fn count_byte(s: Seq<u8>, x: u8) -> nat
    decreases s.len(),
{
    if s.len() == 0 {
        0
    } else if s.last() == x {
        count_byte(s.drop_last(), x) + 1
    } else {
        count_byte(s.drop_last(), x)
    }
}

/// The bytes after the last occurrence; the whole sequence when there
/// is none.
pub open spec fn after_last(s: Seq<u8>, x: u8) -> Seq<u8>
    decreases s.len(),
{
    if s.len() == 0 {
        s
    } else if s.last() == x {
        Seq::empty()
    } else {
        after_last(s.drop_last(), x).push(s.last())
    }
}

/// Where the last occurrence stands, the suffix after it is what
/// `after_last` names.
pub proof fn lemma_after_last(s: Seq<u8>, x: u8, li: int)
    requires
        0 <= li < s.len(),
        s[li] == x,
        forall|k: int| li < k < s.len() ==> s[k] != x,
    ensures
        after_last(s, x) == s.subrange(li + 1, s.len() as int),
    decreases s.len(),
{
    if li == s.len() - 1 {
        assert(after_last(s, x) =~= s.subrange(li + 1, s.len() as int));
    } else {
        let t = s.drop_last();
        assert(forall|k: int| 0 <= k < t.len() ==> t[k] == s[k]);
        lemma_after_last(t, x, li);
        assert(t.subrange(li + 1, t.len() as int) =~= s.subrange(li + 1, s.len() - 1));
        assert(after_last(s, x) =~= s.subrange(li + 1, s.len() as int));
    }
}

/// A sequence without the byte has count zero, and the other way round.
pub proof fn lemma_count_byte_zero(s: Seq<u8>, x: u8)
    ensures
        count_byte(s, x) == 0 <==> (forall|i: int| 0 <= i < s.len() ==> s[i] != x),
    decreases s.len(),
{
    if s.len() > 0 {
        lemma_count_byte_zero(s.drop_last(), x);
        assert(forall|i: int| 0 <= i < s.len() - 1 ==> s.drop_last()[i] == s[i]);
        if count_byte(s, x) == 0 {
            assert forall|i: int| 0 <= i < s.len() implies s[i] != x by {
                if i < s.len() - 1 {
                    assert(s.drop_last()[i] == s[i]);
                }
            }
        }
    }
}

/// The decimal part of a decoded payload: the whole payload for a plain
/// policy; for a secure policy the segment after the last separator,
/// present only when the three-segment secure shape is there.
pub open spec fn payload_snowflake(secure: bool, payload: Seq<u8>) -> Option<Seq<u8>> {
    if secure {
        if count_byte(payload, 95) < 2 {
            None
        } else {
            Some(after_last(payload, 95))
        }
    } else {
        Some(payload)
    }
}

/// The pre-encoding payload of a plain id: the snowflake as decimal
/// digits.
pub open spec fn plain_payload(id: u64) -> Seq<u8> {
    dec_bytes(id as nat)
}

/// The pre-encoding payload of a secure id: sixteen random bytes as
/// hex, the fixed marker `s`, and the snowflake decimal, joined by `_`.
pub open spec fn secure_payload(rb: Seq<u8>, id: u64) -> Seq<u8> {
    crate::digits::hex_bytes(rb) + seq![95u8, 115u8, 95u8] + dec_bytes(id as nat)
}

/// The id text: prefix, `_`, and the unpadded base64 of the payload.
pub open spec fn id_text(prefix: Seq<char>, payload: Seq<u8>) -> Seq<char> {
    prefix + seq!['_'] + b64_chars(payload)
}

/// What an issued id's text looks like for a policy: for a secure
/// policy some sixteen random bytes stand inside it.
pub open spec fn ok_text(secure: bool, prefix: Seq<char>, id: u64, s: Seq<char>) -> bool {
    if secure {
        exists|rb: Seq<u8>| rb.len() == 16 && s == id_text(prefix, secure_payload(rb, id))
    } else {
        s == id_text(prefix, plain_payload(id))
    }
}

/// The whole outcome of one `gen` call asked for millisecond `now_ms`.
pub open spec fn gen_post(
    pre: Pika,
    now_ms: u64,
    prefix: Seq<char>,
    r: Result<String, PikaError>,
    post: Pika,
) -> bool {
    &&& (!is_valid_prefix(prefix) ==> r == Err::<String, PikaError>(PikaError::InvalidPrefixFormat)
        && post == pre)
    &&& (is_valid_prefix(prefix) && (find_prefix(pre.prefixes@, prefix) is None) ==> r == Err::<
        String,
        PikaError,
    >(PikaError::UnknownPrefix) && post == pre)
    &&& (is_valid_prefix(prefix) && (find_prefix(pre.prefixes@, prefix) is Some) ==> {
        let ri = find_prefix(pre.prefixes@, prefix)->Some_0;
        let sf = pre.snowflake;
        let sec = pre.prefixes@[ri].secure;
        &&& (now_ms < sf.epoch ==> r == Err::<String, PikaError>(PikaError::ClockRegression)
            && post == pre)
        &&& (now_ms >= sf.epoch && !sf.in_range(now_ms) ==> r == Err::<String, PikaError>(
            PikaError::TimestampOverflow,
        ) && post == pre)
        &&& (sf.in_range(now_ms) && !sf.wait_needed(now_ms) ==> (r matches Ok(s) && ok_text(
            sec,
            prefix,
            sf.step_id(now_ms),
            s@,
        )) && post == Pika { snowflake: sf.step_state(now_ms), ..pre })
        &&& (sf.in_range(now_ms) && sf.wait_needed(now_ms) ==> exists|e: u64|
            #![trigger sf.step_id(e)]
            e > sf.last_sequence_exhaustion && if sf.in_range(e) {
                (r matches Ok(s) && ok_text(sec, prefix, sf.step_id(e), s@)) && post == Pika {
                    snowflake: sf.step_state(e),
                    ..pre
                }
            } else {
                r == Err::<String, PikaError>(PikaError::TimestampOverflow) && post == pre
            })
    })
}

/// An id read back, at the level of the mathematical model.
pub struct DecodedModel {
    pub prefix: Seq<char>,
    pub tail: Seq<char>,
    pub snowflake: u64,
    pub node_id: u32,
    pub timestamp: u64,
    pub epoch: u64,
    pub seq: u64,
    pub record_idx: int,
}

/// What deconstructing an id yields: split at the first `_`, look the
/// prefix up, decode the payload, take its decimal part by the policy,
/// parse it, and unpack the snowflake against the registry's epoch.
pub open spec fn spec_deconstruct(
    records: Seq<PrefixRecord>,
    epoch: u64,
    node_id: u32,
    id: Seq<char>,
) -> Result<DecodedModel, PikaError> {
    match find_char(id, '_') {
        None => Err(PikaError::MalformedPayload),
        Some(si) => {
            let prefix = id.take(si);
            let tail = id.skip(si + 1);
            match find_prefix(records, prefix) {
                None => Err(PikaError::UnknownPrefix),
                Some(ri) => match b64_decode(tail) {
                    None => Err(PikaError::MalformedPayload),
                    Some(payload) => match payload_snowflake(records[ri].secure, payload) {
                        None => Err(PikaError::MalformedPayload),
                        Some(digits) => if !(digits.len() > 0 && all_digits(digits) && dec_val(
                            digits,
                        ) < 0x1_0000_0000_0000_0000) {
                            Err(PikaError::MalformedPayload)
                        } else {
                            let sfid = dec_val(digits) as u64;
                            if spec_delta_of(sfid) + epoch > u64::MAX {
                                Err(PikaError::MalformedPayload)
                            } else {
                                Ok(
                                    DecodedModel {
                                        prefix,
                                        tail,
                                        snowflake: sfid,
                                        node_id,
                                        timestamp: (spec_delta_of(sfid) + epoch) as u64,
                                        epoch,
                                        seq: spec_seq_of(sfid),
                                        record_idx: ri,
                                    },
                                )
                            }
                        },
                    },
                },
            }
        },
    }
}

/// Takes the decimal segment out of a secure payload: the bytes after
/// the last `_`, present only when at least two separators stand there.
fn split_secure(payload: &Vec<u8>) -> (r: Option<Vec<u8>>)
    ensures
        (r is Some) == (payload_snowflake(true, payload@) is Some),
        r matches Some(v) ==> Some(v@) == payload_snowflake(true, payload@),
{
    let n = payload.len();
    let mut cnt: usize = 0;
    let mut li: usize = 0;
    let mut has = false;
    let mut i: usize = 0;
    proof {
        assert(payload@.take(0) =~= Seq::<u8>::empty());
    }
    while i < n
        invariant
            i <= n,
            n == payload@.len(),
            cnt == count_byte(payload@.take(i as int), 95),
            cnt <= i,
            has == (cnt > 0),
            has ==> (li < i && payload@[li as int] == 95 && forall|k: int|
                li < k < i ==> payload@[k] != 95),
        decreases n - i,
    {
        proof {
            assert(payload@.take(i + 1).drop_last() =~= payload@.take(i as int));
            assert(payload@.take(i + 1).last() == payload@[i as int]);
        }
        if payload[i] == 95 {
            cnt = cnt + 1;
            li = i;
            has = true;
        }
        i = i + 1;
    }
    proof {
        assert(payload@.take(n as int) =~= payload@);
    }
    if cnt < 2 {
        return None;
    }
    let mut out: Vec<u8> = Vec::new();
    let mut j: usize = li + 1;
    proof {
        assert(out@ =~= payload@.subrange(li + 1, li + 1));
    }
    while j < n
        invariant
            li + 1 <= j <= n,
            n == payload@.len(),
            out@ == payload@.subrange(li + 1, j as int),
        decreases n - j,
    {
        out.push(payload[j]);
        proof {
            assert(out@ =~= payload@.subrange(li + 1, j + 1));
        }
        j = j + 1;
    }
    proof {
        lemma_after_last(payload@, 95, li as int);
    }
    Some(out)
}

impl Pika {
    /// Issues one id under a registered prefix, for the given
    /// millisecond: validates the prefix, looks its policy up, allocates
    /// a snowflake (blocking if this millisecond's run is exhausted),
    /// builds the payload the policy asks for, and returns
    /// `prefix_payload` with the payload base64-encoded without padding.
    #[verifier::rlimit(60)]
    #[verifier::loop_isolation(false)]
    pub fn gen_at(&mut self, prefix: &str, now_ms: u64) -> (r: Result<String, PikaError>)
        requires
            old(self).snowflake.wf(),
        ensures
            final(self).snowflake.wf(),
            gen_post(*old(self), now_ms, prefix@, r, *final(self)),
    {
        if !check_prefix(prefix) {
            return Err(PikaError::InvalidPrefixFormat);
        }
        let ri = match find_record(&self.prefixes, prefix) {
            Some(i) => i,
            None => {
                return Err(PikaError::UnknownPrefix);
            },
        };
        proof {
            lemma_find_prefix(self.prefixes@, prefix@);
        }
        let secure = self.prefixes[ri].secure;
        let ghost pre = *old(self);
        let res = self.snowflake.alloc_at(now_ms);
        let id = match res {
            Ok(id) => id,
            Err(e2) => {
                proof {
                    if pre.snowflake.in_range(now_ms) && pre.snowflake.wait_needed(now_ms) {
                        let ew = choose|ew: u64|
                            ew > pre.snowflake.last_sequence_exhaustion
                                && #[trigger] Snowflake::alloc_post(
                                pre.snowflake,
                                ew,
                                res,
                                self.snowflake,
                            );
                        assert(!pre.snowflake.in_range(ew));
                        // name the witness's id so the postcondition's
                        // existential finds it
                        let w = pre.snowflake.step_id(ew);
                    }
                    assert(gen_post(pre, now_ms, prefix@, Err::<String, PikaError>(e2), *self));
                }
                return Err(e2);
            },
        };
        let ghost mut ew: u64 = 0;
        proof {
            if pre.snowflake.in_range(now_ms) && pre.snowflake.wait_needed(now_ms) {
                ew = choose|e: u64|
                    e > pre.snowflake.last_sequence_exhaustion && #[trigger] Snowflake::alloc_post(
                        pre.snowflake,
                        e,
                        res,
                        self.snowflake,
                    );
                assert(pre.snowflake.in_range(ew));
                assert(id == pre.snowflake.step_id(ew));
                assert(self.snowflake == pre.snowflake.step_state(ew));
                assert(ew > pre.snowflake.last_sequence_exhaustion);
            }
        }
        let mut payload: Vec<u8>;
        if secure {
            let mut rb: Vec<u8> = Vec::new();
            let mut k: usize = 0;
            while k < 16
                invariant
                    k <= 16,
                    rb@.len() == k,
                decreases 16 - k,
            {
                let b: u8 = rand::random();
                rb.push(b);
                k = k + 1;
            }
            let mut p = crate::digits::hex_render(&rb);
            p.push(95);
            p.push(115);
            p.push(95);
            let mut d = crate::digits::dec_render(id);
            p.append(&mut d);
            proof {
                assert(p@ =~= secure_payload(rb@, id));
            }
            payload = p;
        } else {
            payload = crate::digits::dec_render(id);
        }
        let codes = crate::base64::encode_codes_unpadded(&payload);
        let tailtext = crate::utils::ascii_to_string(codes);
        let mut s = prefix.to_owned();
        s.append("_");
        s.append(tailtext.as_str());
        proof {
            reveal_strlit("_");
            assert("_"@ =~= seq!['_']);
            assert(tailtext@ =~= b64_chars(payload@));
            assert(s@ =~= id_text(prefix@, payload@));
            if secure {
                assert(ok_text(true, prefix@, id, s@));
            }
            if pre.snowflake.in_range(now_ms) && pre.snowflake.wait_needed(now_ms) {
                // name the witness's id so the postcondition's existential
                // finds it
                let w = pre.snowflake.step_id(ew);
                assert(ok_text(secure, prefix@, pre.snowflake.step_id(ew), s@));
            }
            assert(gen_post(pre, now_ms, prefix@, Ok::<String, PikaError>(s), *self));
        }
        Ok(s)
    }

    /// Issues one id under a registered prefix, for the current moment
    /// of the process clock.
    pub fn gen(&mut self, prefix: &str) -> (r: Result<String, PikaError>)
        requires
            old(self).snowflake.wf(),
        ensures
            final(self).snowflake.wf(),
            exists|now_ms: u64| #[trigger] gen_post(*old(self), now_ms, prefix@, r, *final(self)),
    {
        let now = crate::utils::now_timestamp();
        let r = self.gen_at(prefix, now);
        proof {
            assert(gen_post(*old(self), now, prefix@, r, *self));
        }
        r
    }

    /// Reads an id back: the exact inverse of `gen_at` for ids this
    /// registry issued, and a total function with explicit errors on
    /// everything else.
    pub fn deconstruct(&self, id: &str) -> (r: Result<DecodedPika, PikaError>)
        ensures
            ({
                let m = spec_deconstruct(self.prefixes@, self.epoch, self.node_id, id@);
                &&& (r is Ok) == (m is Ok)
                &&& (m matches Err(e) ==> r == Err::<DecodedPika, PikaError>(e))
                &&& (m matches Ok(d) ==> r matches Ok(p) && p.prefix@ == d.prefix && p.tail@
                    == d.tail && p.snowflake == d.snowflake && p.node_id == d.node_id && p.timestamp
                    == d.timestamp && p.epoch == d.epoch && p.seq == d.seq && p.version == 1 && 0
                    <= d.record_idx < self.prefixes@.len() && p.prefix_record
                    == self.prefixes@[d.record_idx])
            }),
    {
        let si = match find_char_at(id, '_') {
            Some(i) => i,
            None => {
                return Err(PikaError::MalformedPayload);
            },
        };
        let n = id.unicode_len();
        proof {
            lemma_find_char(id@, '_');
        }
        let prefix_s = id.substring_char(0, si);
        let tail_s = id.substring_char(si + 1, n);
        proof {
            assert(prefix_s@ =~= id@.take(si as int));
            assert(tail_s@ =~= id@.skip(si + 1));
        }
        let ri = match find_record(&self.prefixes, prefix_s) {
            Some(i) => i,
            None => {
                return Err(PikaError::UnknownPrefix);
            },
        };
        proof {
            lemma_find_prefix(self.prefixes@, prefix_s@);
        }
        let payload = match crate::base64::base64_decode(tail_s) {
            Some(v) => v,
            None => {
                return Err(PikaError::MalformedPayload);
            },
        };
        let secure = self.prefixes[ri].secure;
        let digits: Vec<u8> = if secure {
            match split_secure(&payload) {
                Some(v) => v,
                None => {
                    return Err(PikaError::MalformedPayload);
                },
            }
        } else {
            payload
        };
        let sfid = match crate::digits::dec_parse(&digits) {
            Some(v) => v,
            None => {
                return Err(PikaError::MalformedPayload);
            },
        };
        let delta = sfid >> 22u64;
        proof {
            assert(sfid >> 22u64 == sfid / 0x40_0000 && sfid & 0xfff == sfid % 0x1000)
                by (bit_vector);
        }
        if delta > u64::MAX - self.epoch {
            return Err(PikaError::MalformedPayload);
        }
        let timestamp = delta + self.epoch;
        let seqv = sfid & 0xfff;
        let rec = dup_record(&self.prefixes[ri]);
        Ok(
            DecodedPika {
                prefix: prefix_s.to_owned(),
                tail: tail_s.to_owned(),
                snowflake: sfid,
                node_id: self.node_id,
                timestamp,
                epoch: self.epoch,
                seq: seqv,
                version: 1,
                prefix_record: rec,
            },
        )
    }
}

/// A generated plain id deconstructs back to what produced it: the
/// prefix, the registry's node id and epoch, and the exact sequence and
/// timestamp of the allocation that issued the id.
pub proof fn lemma_generate_deconstruct(p: Pika, prefix: Seq<char>, e: u64)
    requires
        p.snowflake.wf(),
        p.snowflake.in_range(e),
        p.snowflake.epoch == p.epoch,
        is_valid_prefix(prefix),
        find_prefix(p.prefixes@, prefix) is Some,
        !p.prefixes@[find_prefix(p.prefixes@, prefix)->Some_0].secure,
    ensures
        ({
            let ri = find_prefix(p.prefixes@, prefix)->Some_0;
            let id = p.snowflake.step_id(e);
            spec_deconstruct(p.prefixes@, p.epoch, p.node_id, id_text(prefix, plain_payload(id)))
                == Ok::<DecodedModel, PikaError>(
                DecodedModel {
                    prefix,
                    tail: b64_chars(plain_payload(id)),
                    snowflake: id,
                    node_id: p.node_id,
                    timestamp: e,
                    epoch: p.epoch,
                    seq: p.snowflake.seq as u64,
                    record_idx: ri,
                },
            )
        }),
{
    let ri = find_prefix(p.prefixes@, prefix)->Some_0;
    let id = p.snowflake.step_id(e);
    let payload = plain_payload(id);
    let vals = crate::base64::b64_vals(payload);
    let chars = b64_chars(payload);
    let text = id_text(prefix, payload);
    crate::digits::lemma_dec_round_trip(id as nat);
    crate::base64::lemma_b64_vals_bound(payload);
    assert(text[prefix.len() as int] == '_');
    assert forall|k: int| 0 <= k < prefix.len() implies text[k] != '_' by {
        assert(text[k] == prefix[k]);
        assert(is_valid_prefix_char(prefix[k]));
    }
    assert forall|k: int| prefix.len() + 1 <= k < text.len() implies text[k] != '_' by {
        assert(text[k] == chars[k - prefix.len() - 1]);
        let v = vals[k - prefix.len() - 1];
        assert(chars[k - prefix.len() - 1] == crate::base64::b64_code(v) as char);
        crate::base64::lemma_code_char(v);
    }
    lemma_find_char_at(text, '_', prefix.len() as int);
    assert(text.take(prefix.len() as int) =~= prefix);
    assert(text.skip(prefix.len() as int + 1) =~= chars);
    crate::base64::lemma_b64_chars_round_trip(payload);
    crate::snowflake::lemma_unpack_pack(
        (e - p.epoch) as u64,
        p.snowflake.node_id,
        p.snowflake.seq,
    );
    assert(spec_delta_of(id) == e - p.epoch);
    assert(spec_seq_of(id) == p.snowflake.seq);
    assert(dec_val(payload) == id as nat);
}

/// Counts split over concatenation.
pub proof fn lemma_count_byte_concat(a: Seq<u8>, b: Seq<u8>, x: u8)
    ensures
        count_byte(a + b, x) == count_byte(a, x) + count_byte(b, x),
    decreases b.len(),
{
    if b.len() == 0 {
        assert(a + b =~= a);
    } else {
        assert((a + b).drop_last() =~= a + b.drop_last());
        assert((a + b).last() == b.last());
        lemma_count_byte_concat(a, b.drop_last(), x);
    }
}

/// A generated secure id deconstructs back the same way, whatever the
/// sixteen random bytes were: the entropy and the marker are discarded
/// and the decimal segment after the last separator is the snowflake.
pub proof fn lemma_generate_deconstruct_secure(p: Pika, prefix: Seq<char>, e: u64, rb: Seq<u8>)
    requires
        p.snowflake.wf(),
        p.snowflake.in_range(e),
        p.snowflake.epoch == p.epoch,
        is_valid_prefix(prefix),
        find_prefix(p.prefixes@, prefix) is Some,
        p.prefixes@[find_prefix(p.prefixes@, prefix)->Some_0].secure,
        rb.len() == 16,
    ensures
        ({
            let ri = find_prefix(p.prefixes@, prefix)->Some_0;
            let id = p.snowflake.step_id(e);
            spec_deconstruct(p.prefixes@, p.epoch, p.node_id, id_text(prefix, secure_payload(rb, id)))
                == Ok::<DecodedModel, PikaError>(
                DecodedModel {
                    prefix,
                    tail: b64_chars(secure_payload(rb, id)),
                    snowflake: id,
                    node_id: p.node_id,
                    timestamp: e,
                    epoch: p.epoch,
                    seq: p.snowflake.seq as u64,
                    record_idx: ri,
                },
            )
        }),
{
    let ri = find_prefix(p.prefixes@, prefix)->Some_0;
    let id = p.snowflake.step_id(e);
    let payload = secure_payload(rb, id);
    let hex = crate::digits::hex_bytes(rb);
    let marker = seq![95u8, 115u8, 95u8];
    let dec = dec_bytes(id as nat);
    let vals = crate::base64::b64_vals(payload);
    let chars = b64_chars(payload);
    let text = id_text(prefix, payload);
    crate::digits::lemma_hex_bytes_shape(rb);
    crate::digits::lemma_dec_round_trip(id as nat);
    crate::base64::lemma_b64_vals_bound(payload);
    assert(text[prefix.len() as int] == '_');
    assert forall|k: int| 0 <= k < prefix.len() implies text[k] != '_' by {
        assert(text[k] == prefix[k]);
        assert(is_valid_prefix_char(prefix[k]));
    }
    assert forall|k: int| prefix.len() + 1 <= k < text.len() implies text[k] != '_' by {
        assert(text[k] == chars[k - prefix.len() - 1]);
        let v = vals[k - prefix.len() - 1];
        assert(chars[k - prefix.len() - 1] == crate::base64::b64_code(v) as char);
        crate::base64::lemma_code_char(v);
    }
    lemma_find_char_at(text, '_', prefix.len() as int);
    assert(text.take(prefix.len() as int) =~= prefix);
    assert(text.skip(prefix.len() as int + 1) =~= chars);
    crate::base64::lemma_b64_chars_round_trip(payload);
    // the payload holds exactly the two separators of the marker
    assert(payload =~= (hex + marker) + dec);
    lemma_count_byte_concat(hex + marker, dec, 95);
    lemma_count_byte_concat(hex, marker, 95);
    lemma_count_byte_zero(hex, 95);
    lemma_count_byte_zero(dec, 95);
    assert(count_byte(marker, 95) == 2) by {
        assert(marker.drop_last() =~= seq![95u8, 115u8]);
        assert(seq![95u8, 115u8].drop_last() =~= seq![95u8]);
        assert(seq![95u8].drop_last() =~= Seq::<u8>::empty());
        assert(count_byte(Seq::<u8>::empty(), 95) == 0);
        assert(count_byte(seq![95u8], 95) == 1);
        assert(count_byte(seq![95u8, 115u8], 95) == 1);
    }
    assert(count_byte(payload, 95) == 2);
    // the last separator stands right before the decimal segment
    assert(payload[34] == 95);
    assert forall|k: int| 34 < k < payload.len() implies payload[k] != 95 by {
        assert(payload[k] == dec[k - 35]);
        assert(crate::digits::is_digit(dec[k - 35]));
    }
    lemma_after_last(payload, 95, 34);
    assert(payload.subrange(35, payload.len() as int) =~= dec);
    crate::snowflake::lemma_unpack_pack(
        (e - p.epoch) as u64,
        p.snowflake.node_id,
        p.snowflake.seq,
    );
    assert(spec_delta_of(id) == e - p.epoch);
    assert(spec_seq_of(id) == p.snowflake.seq);
    assert(dec_val(dec) == id as nat);
}

} // verus!
