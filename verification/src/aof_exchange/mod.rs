//! Building append-only-log records out of executed commands.
//!
//! Only mutating commands are logged. Relative expirations are
//! rewritten to the absolute `PXAT` form at log time, so replay on any
//! clock reproduces the same deadlines; an `EXAT` the client gave is
//! already absolute and is kept as it came.

use vstd::prelude::*;
use crate::bytes_util::slice_to_vec8;
use crate::command_execute::dec_digits;
use crate::command_execute::deadline_of;
use crate::command_execute::fmt_i64;
use crate::db::eviction::ChangeOp;
use crate::db::eviction::LuaCacheNode;
use crate::types::Element;
use crate::types::ElementV;
use crate::types::EntryV;
use crate::types::Value;
use crate::types::ValueV;
use crate::error::SetCommand;
use crate::error::vecs_view;
use crate::command_exchange::kw_exat;
use crate::command_exchange::kw_nx;
use crate::command_exchange::kw_pxat;
use crate::command_exchange::kw_set;
use crate::command_exchange::kw_xx;
use crate::error::Command;
use crate::error::Expiration;
use crate::error::FrameV;
use crate::error::SetCondition;

pub mod string;

verus! {


/// The bytes a stored simple value re-serializes to as a `SET` value.
pub open spec fn entry_value_bytes(e: EntryV) -> Seq<u8> {
    match e.data {
        ValueV::Simple(ElementV::Str(b)) => b,
        ValueV::Simple(ElementV::Int(i)) => fmt_i64(i),
        _ => Seq::empty(),
    }
}

/// A stored deadline as the absolute expiration option it is logged
/// with.
pub open spec fn entry_expiration(e: EntryV) -> Option<Expiration> {
    match e.expires_at {
        Some(d) => Some(Expiration::PXAT(d)),
        None => None,
    }
}

/// The records a committed write-buffer leaves, slot by slot: one
/// materialized `SET` per updated key holding a simple value.
pub open spec fn differ_records(s: Seq<(Vec<u8>, ChangeOp)>, now_ms: u64) -> Seq<Seq<u8>>
    decreases s.len(),
{
    if s.len() == 0 {
        Seq::empty()
    } else {
        let head = differ_records(s.drop_last(), now_ms);
        match s.last().1 {
            ChangeOp::Update(v) => if v.data is Simple {
                head.push(
                    crate::core_execute::sp_ser(
                        aof_set_record(
                            s.last().0@,
                            entry_value_bytes(v@),
                            entry_expiration(v@),
                            None,
                            now_ms,
                        ),
                    ),
                )
            } else {
                head
            },
            ChangeOp::Delete => head,
        }
    }
}

impl LuaCacheNode {
    /// The log records this write-buffer leaves when it commits: one
    /// materialized `SET` per updated key, the deadline in absolute
    /// `PXAT` form, so replay rebuilds the committed state without the
    /// script runtime. The command set has no delete, so a tombstone —
    /// which no `call` can produce — has no record; likewise a
    /// container value has no `SET` form.
    #[verifier::loop_isolation(false)]
    pub fn aof_records(&self, now_ms: u64) -> (r: Vec<Vec<u8>>)
        ensures
            vecs_view(r@) == differ_records(self.differ_map@, now_ms),
    {
        let mut out: Vec<Vec<u8>> = Vec::new();
        let n = self.differ_map.len();
        let mut i: usize = 0;
        proof {
            assert(self.differ_map@.subrange(0, 0) =~= Seq::<(Vec<u8>, ChangeOp)>::empty());
            assert(vecs_view(out@) =~= differ_records(self.differ_map@.subrange(0, 0), now_ms));
        }
        while i < n
            invariant
                i <= n,
                vecs_view(out@) == differ_records(self.differ_map@.subrange(0, i as int), now_ms),
            decreases n - i,
        {
            let ghost pre = self.differ_map@.subrange(0, i as int);
            let ghost post = self.differ_map@.subrange(0, i + 1 as int);
            proof {
                assert(post.drop_last() =~= pre);
                assert(post.last() == self.differ_map@[i as int]);
            }
            let ghost preout = vecs_view(out@);
            match &self.differ_map[i].1 {
                ChangeOp::Update(entry) => {
                    match &entry.data {
                        Value::Simple(element) => {
                            let value = match element {
                                Element::Str(b) => slice_to_vec8(b.as_slice()),
                                Element::Int(x) => crate::command_execute::parse_int_from_bytes(
                                    *x,
                                ),
                            };
                            let expiration = match entry.expires_at {
                                Some(deadline) => Some(Expiration::PXAT(deadline)),
                                None => None,
                            };
                            let record_cmd = SetCommand {
                                key: slice_to_vec8(self.differ_map[i].0.as_slice()),
                                value,
                                expiration,
                                condition: None,
                            };
                            let record = record_cmd.execute_aof(now_ms);
                            out.push(record);
                            proof {
                                assert(vecs_view(out@) =~= preout.push(record@));
                                assert(record_cmd.value@ == entry_value_bytes(entry@));
                                assert(vecs_view(out@) =~= differ_records(post, now_ms));
                            }
                        },
                        _ => {
                            proof {
                                assert(vecs_view(out@) =~= differ_records(post, now_ms));
                            }
                        },
                    }
                },
                ChangeOp::Delete => {
                    proof {
                        assert(vecs_view(out@) =~= differ_records(post, now_ms));
                    }
                },
            }
            i = i + 1;
        }
        proof {
            assert(self.differ_map@.subrange(0, n as int) =~= self.differ_map@);
        }
        out
    }
}

/// The expiration frames of a logged `SET`: nothing, the client's own
/// `EXAT`, or the computed absolute `PXAT`.
pub open spec fn exp_frames(exp: Option<Expiration>, now_ms: u64) -> Seq<FrameV> {
    match exp {
        None => Seq::empty(),
        Some(e) => match e {
            Expiration::EXAT(s) => seq![
                FrameV::Bulk(kw_exat()),
                FrameV::Bulk(dec_digits(s as nat)),
            ],
            _ => seq![
                FrameV::Bulk(kw_pxat()),
                FrameV::Bulk(dec_digits(deadline_of(e, now_ms) as nat)),
            ],
        },
    }
}

/// The condition frames of a logged `SET`, preserved verbatim.
pub open spec fn cond_frames(cond: Option<SetCondition>) -> Seq<FrameV> {
    match cond {
        None => Seq::empty(),
        Some(SetCondition::NX) => seq![FrameV::Bulk(kw_nx())],
        Some(SetCondition::XX) => seq![FrameV::Bulk(kw_xx())],
    }
}

/// The whole log record of a `SET`, as a frame.
pub open spec fn aof_set_record(
    key: Seq<u8>,
    value: Seq<u8>,
    exp: Option<Expiration>,
    cond: Option<SetCondition>,
    now_ms: u64,
) -> FrameV {
    FrameV::Array(
        seq![FrameV::Bulk(kw_set()), FrameV::Bulk(key), FrameV::Bulk(value)] + exp_frames(
            exp,
            now_ms,
        ) + cond_frames(cond),
    )
}

impl Command {
    /// The serialized log record this command leaves behind: one for a
    /// `SET`, nothing for anything else.
    pub fn exe_aof_command(&self, now_ms: u64) -> (r: Option<Vec<u8>>)
        requires
            self matches Command::SetCmd(c) ==> crate::command_execute::string::deadline_fits(
                c.expiration,
                now_ms,
            ),
        ensures
            match self {
                Command::SetCmd(c) => r matches Some(bytes) && (r matches Some(bytes)
                    ==> bytes@ == crate::core_execute::sp_ser(
                    aof_set_record(c.key@, c.value@, c.expiration, c.condition, now_ms),
                )),
                _ => r is None,
            },
    {
        match self {
            Command::SetCmd(set_command) => Some(set_command.execute_aof(now_ms)),
            _ => None,
        }
    }
}

/// Relies on `itoa::Buffer::format::<u64>`: the canonical decimal text of
/// the integer.
#[verifier::external_body]
pub fn parse_int_from_bytes(i: u64) -> (r: Vec<u8>)
    ensures
        r@ == dec_digits(i as nat),
{
    let mut buffer = itoa::Buffer::new();
    let printed = buffer.format(i);
    printed.as_bytes().to_vec()
}

/// The decimal text of an absolute deadline: `now_ms + expire_time`.
pub fn exchange_absolute_time(expire_time: u64, now_ms: u64) -> (r: Vec<u8>)
    requires
        expire_time + now_ms <= u64::MAX,
    ensures
        r@ == dec_digits((now_ms + expire_time) as nat),
{
    parse_int_from_bytes(now_ms + expire_time)
}

} // verus!
