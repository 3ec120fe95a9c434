//! Executing `SET` and `GET` against a shard.

use vstd::prelude::*;
use crate::bytes_util::slice_to_vec8;
use crate::command_execute::checked_expiration_timestamp_ms;
use crate::command_execute::bytes_to_i64_fast;
use crate::command_execute::deadline_of;
use crate::command_execute::fmt_i64;
use crate::command_execute::i64_relaxed_text_val;
use crate::command_execute::parse_int_from_bytes;
use crate::db::eviction::MemoryCacheNode;
use crate::db::eviction::live_entry;
use crate::error::Frame;
use crate::error::FrameV;
use crate::error::GetCommand;
use crate::error::KvError;
use crate::error::SetCommand;
use crate::error::Expiration;
use crate::types::Element;
use crate::types::ElementV;
use crate::types::EntryV;
use crate::types::Value;
use crate::types::ValueEntry;
use crate::types::ValueV;
use crate::types::entry_cost;

verus! {

broadcast use vstd::std_specs::vec::group_vec_axioms, vstd::seq::group_seq_axioms;

/// The `+OK` payload.
pub open spec fn ok_payload() -> Seq<u8> {
    seq![79u8, 75u8]
}

/// What a `SET` stores: the value bytes, re-encoded as an integer when
/// they read as one, under the computed deadline.
pub open spec fn set_entry(value: Seq<u8>, expires_at: Option<u64>) -> EntryV {
    let data = match i64_relaxed_text_val(value) {
        Some(i) => ValueV::Simple(ElementV::Int(i)),
        None => ValueV::Simple(ElementV::Str(value)),
    };
    EntryV { data, expires_at, data_size: entry_cost(data) }
}

/// The deadline a `SET`'s expiration option names, when it names one.
pub open spec fn set_deadline(exp: Option<Expiration>, now_ms: u64) -> Option<u64> {
    match exp {
        None => None,
        Some(e) => Some(deadline_of(e, now_ms) as u64),
    }
}

/// Does the deadline fit the clock's 64 bits?
pub open spec fn deadline_fits(exp: Option<Expiration>, now_ms: u64) -> bool {
    exp matches Some(e) ==> deadline_of(e, now_ms) <= u64::MAX
}

impl SetCommand {
    /// The entry this command stores, with the value transcoded and the
    /// deadline made absolute; `None` when the deadline does not fit
    /// the clock's 64 bits.
    pub fn build_entry(&self, now_ms: u64) -> (r: Option<ValueEntry>)
        ensures
            match r {
                Some(v) => deadline_fits(self.expiration, now_ms) && v@ == set_entry(
                    self.value@,
                    set_deadline(self.expiration, now_ms),
                ),
                None => !deadline_fits(self.expiration, now_ms),
            },
    {
        let time_expire: Option<u64> = match &self.expiration {
            None => None,
            Some(expire) => match checked_expiration_timestamp_ms(expire, now_ms) {
                Some(deadline) => Some(deadline),
                None => {
                    return None;
                },
            },
        };
        let value_obj = match bytes_to_i64_fast(&self.value) {
            Some(i) => ValueEntry::new(Value::Simple(Element::Int(i)), time_expire),
            None => ValueEntry::new(
                Value::Simple(Element::Str(slice_to_vec8(self.value.as_slice()))),
                time_expire,
            ),
        };
        Some(value_obj)
    }

    /// Write this command's entry into the shard. A deadline past the
    /// clock's range is refused as a protocol error and changes nothing.
    pub fn execute(&self, shard: &mut MemoryCacheNode, now_ms: u64) -> (r: Result<
        Frame,
        KvError,
    >)
        requires
            old(shard).wf(),
        ensures
            final(shard).wf(),
            if deadline_fits(self.expiration, now_ms) {
                &&& r matches Ok(f)
                &&& r matches Ok(f) ==> f@ == FrameV::Simple(ok_payload())
                &&& final(shard).map_view() == old(shard).map_view().insert(
                    self.key@,
                    set_entry(self.value@, set_deadline(self.expiration, now_ms)),
                )
            } else {
                &&& r matches Err(e) && (r matches Err(e) ==> (e matches KvError::ProtocolError(
                    m,
                ) && m@ == crate::command_exchange::string::shape_error_msg()))
                &&& *final(shard) == *old(shard)
            },
    {
        let value_obj = match self.build_entry(now_ms) {
            Some(entry) => entry,
            None => {
                return Err(crate::command_exchange::string::shape_error());
            },
        };
        let key = slice_to_vec8(self.key.as_slice());
        shard.insert(key, value_obj);
        let ok: [u8; 2] = [79, 75];
        let f = Frame::Simple(slice_to_vec8(ok.as_slice()));
        proof {
            assert(f@ == FrameV::Simple(ok_payload())) by {
                assert(ok@ =~= ok_payload());
            }
        }
        Ok(f)
    }
}

/// The frame a live entry answers a read with: the stored bytes on a
/// string, the canonical decimal text on an integer.
pub open spec fn hit_response(e: EntryV) -> FrameV {
    match e.data {
        ValueV::Simple(ElementV::Str(b)) => FrameV::Bulk(b),
        ValueV::Simple(ElementV::Int(i)) => FrameV::Bulk(fmt_i64(i)),
        _ => FrameV::Null,
    }
}

/// What a `GET` answers: null on a miss or a dead entry, the live
/// entry's reply otherwise.
pub open spec fn get_response(m: Map<Seq<u8>, EntryV>, key: Seq<u8>, now_ms: u64) -> FrameV {
    match live_entry(m, key, now_ms) {
        None => FrameV::Null,
        Some(e) => hit_response(e),
    }
}

/// Render a live entry's reply frame.
pub fn entry_reply(entry: &ValueEntry) -> (r: Frame)
    ensures
        r@ == hit_response(entry@),
{
    match &entry.data {
        Value::Simple(Element::Str(b)) => Frame::Bulk(slice_to_vec8(b.as_slice())),
        Value::Simple(Element::Int(i)) => Frame::Bulk(parse_int_from_bytes(*i)),
        _ => Frame::Null,
    }
}

/// The encoding canonicalization law: when a `SET` stores bytes that
/// read as a 64-bit integer, a later `GET` that finds the entry alive
/// answers the canonical decimal text of that integer — leading zeros
/// and sign spellings are gone.
pub proof fn lemma_encoding_canonicalization(
    m: Map<Seq<u8>, EntryV>,
    key: Seq<u8>,
    value: Seq<u8>,
    expires_at: Option<u64>,
    i: i64,
    get_now_ms: u64,
)
    requires
        i64_relaxed_text_val(value) == Some(i),
        !(expires_at matches Some(d) && get_now_ms > d),
    ensures
        get_response(m.insert(key, set_entry(value, expires_at)), key, get_now_ms)
            == FrameV::Bulk(fmt_i64(i)),
{
}

/// The lazy-expiry law: once an entry's deadline has passed, every
/// later `GET` answers null — the key reads as absent from then on,
/// whether or not the sweeper has already dropped it.
pub proof fn lemma_ttl_lazy_expiry(
    m: Map<Seq<u8>, EntryV>,
    key: Seq<u8>,
    t1_ms: u64,
    t2_ms: u64,
)
    requires
        m.dom().contains(key),
        crate::db::eviction::entry_expired(m[key], t1_ms),
        t1_ms <= t2_ms,
    ensures
        live_entry(m, key, t2_ms) is None,
        get_response(m, key, t2_ms) == FrameV::Null,
        get_response(m.remove(key), key, t2_ms) == FrameV::Null,
{
}

impl GetCommand {
    /// Read this command's key from the shard, under a read guard:
    /// nothing changes, a dead entry reads as absent.
    pub fn execute(&self, shard: &MemoryCacheNode, now_ms: u64) -> (r: Result<Frame, KvError>)
        requires
            shard.wf(),
        ensures
            r matches Ok(f) && (r matches Ok(f) ==> f@ == get_response(
                shard.map_view(),
                self.key@,
                now_ms,
            )),
    {
        match shard.select_read(&self.key, now_ms) {
            None => Ok(Frame::Null),
            Some(entry) => Ok(entry_reply(entry)),
        }
    }
}

} // verus!
