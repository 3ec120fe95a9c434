//! Shaping `SET` and `GET` out of their argument frames.

use vstd::prelude::*;
use crate::bytes_util::ascii_upper;
use crate::bytes_util::bytes_eq_slice;
use crate::bytes_util::slice_to_vec8;
use crate::bytes_util::upper_seq;
use crate::command_exchange::bulk_of;
use crate::command_exchange::kw_ex;
use crate::command_exchange::kw_exat;
use crate::command_exchange::kw_get;
use crate::command_exchange::kw_nx;
use crate::command_exchange::kw_px;
use crate::command_exchange::kw_pxat;
use crate::command_exchange::kw_set;
use crate::command_exchange::kw_xx;
use crate::command_exchange::sp_command;
use crate::command_exchange::sp_set_opts;
use crate::command_execute::parse_i64_text;
use crate::error::Command;
use crate::error::Frame;
use crate::error::FrameV;
use crate::error::GetCommand;
use crate::error::KvError;
use crate::error::SetCommand;
use crate::error::SetCondition;
use crate::error::Expiration;
use crate::error::frames_view;
use crate::error::lemma_frames_view_index;

verus! {

broadcast use vstd::std_specs::vec::group_vec_axioms, vstd::seq::group_seq_axioms;

/// The note a badly shaped command is refused with.
pub open spec fn shape_error_msg() -> Seq<u8> {
    seq![98u8, 97u8, 100u8, 32u8, 99u8, 111u8, 109u8, 109u8, 97u8, 110u8, 100u8]
}

/// A protocol error for a badly shaped command.
pub(crate) fn shape_error() -> (r: KvError)
    ensures
        r is ProtocolError,
        r matches KvError::ProtocolError(m) && (r matches KvError::ProtocolError(m) ==> m@
            == shape_error_msg()),
{
    let text: [u8; 11] = [
        'b' as u8,
        'a' as u8,
        'd' as u8,
        ' ' as u8,
        'c' as u8,
        'o' as u8,
        'm' as u8,
        'm' as u8,
        'a' as u8,
        'n' as u8,
        'd' as u8,
    ];
    let r = KvError::ProtocolError(slice_to_vec8(text.as_slice()));
    proof {
        assert(text@ =~= shape_error_msg());
    }
    r
}

impl SetCommand {
    /// Shape a `SET` out of `items`, the whole command frame.
    #[verifier::loop_isolation(false)]
    pub fn exchange(items: &Vec<Frame>) -> (r: Result<Command, KvError>)
        requires
            items@.len() >= 3,
            frames_view(items@)[0] is Bulk,
            upper_seq(bulk_of(frames_view(items@)[0])) == kw_set(),
        ensures
            match r {
                Ok(cmd) => sp_command(FrameV::Array(frames_view(items@))) == Ok::<_, ()>(cmd@),
                Err(e) => sp_command(FrameV::Array(frames_view(items@))) is Err && e
                    is ProtocolError,
            },
    {
        let ghost fv = frames_view(items@);
        proof {
            lemma_frames_view_index(items@);
        }
        let key = match &items[1] {
            Frame::Bulk(b) => slice_to_vec8(b.as_slice()),
            _ => {
                return Err(shape_error());
            },
        };
        let value = match &items[2] {
            Frame::Bulk(b) => slice_to_vec8(b.as_slice()),
            _ => {
                return Err(shape_error());
            },
        };
        let mut expiration: Option<Expiration> = None;
        let mut condition: Option<SetCondition> = None;
        let n = items.len();
        let mut cur: usize = 3;
        let kw_nx_b: [u8; 2] = [78, 88];
        let kw_xx_b: [u8; 2] = [88, 88];
        let kw_ex_b: [u8; 2] = [69, 88];
        let kw_px_b: [u8; 2] = [80, 88];
        let kw_exat_b: [u8; 4] = [69, 88, 65, 84];
        let kw_pxat_b: [u8; 4] = [80, 88, 65, 84];
        proof {
            assert(kw_nx_b@ =~= kw_nx());
            assert(kw_xx_b@ =~= kw_xx());
            assert(kw_ex_b@ =~= kw_ex());
            assert(kw_px_b@ =~= kw_px());
            assert(kw_exat_b@ =~= kw_exat());
            assert(kw_pxat_b@ =~= kw_pxat());
        }
        while cur < n
            invariant
                3 <= cur,
                sp_set_opts(fv, 3, None, None) == sp_set_opts(
                    fv,
                    cur as int,
                    expiration,
                    condition,
                ),
            decreases n - cur,
        {
            let opt = match &items[cur] {
                Frame::Bulk(b) => ascii_upper(b),
                _ => {
                    return Err(shape_error());
                },
            };
            if bytes_eq_slice(&opt, kw_nx_b.as_slice()) {
                if condition.is_some() {
                    return Err(shape_error());
                }
                condition = Some(SetCondition::NX);
                cur = cur + 1;
            } else if bytes_eq_slice(&opt, kw_xx_b.as_slice()) {
                if condition.is_some() {
                    return Err(shape_error());
                }
                condition = Some(SetCondition::XX);
                cur = cur + 1;
            } else if bytes_eq_slice(&opt, kw_ex_b.as_slice()) || bytes_eq_slice(
                &opt,
                kw_px_b.as_slice(),
            ) || bytes_eq_slice(&opt, kw_exat_b.as_slice()) || bytes_eq_slice(
                &opt,
                kw_pxat_b.as_slice(),
            ) {
                if cur + 1 >= n {
                    return Err(shape_error());
                }
                let t = match &items[cur + 1] {
                    Frame::Bulk(b) => match parse_i64_text(b.as_slice()) {
                        Some(t) => t,
                        None => {
                            return Err(shape_error());
                        },
                    },
                    _ => {
                        return Err(shape_error());
                    },
                };
                if t <= 0 {
                    return Err(shape_error());
                }
                if bytes_eq_slice(&opt, kw_ex_b.as_slice()) {
                    expiration = Some(Expiration::EX(t as u64));
                } else if bytes_eq_slice(&opt, kw_px_b.as_slice()) {
                    expiration = Some(Expiration::PX(t as u64));
                } else if bytes_eq_slice(&opt, kw_exat_b.as_slice()) {
                    expiration = Some(Expiration::EXAT(t as u64));
                } else {
                    expiration = Some(Expiration::PXAT(t as u64));
                }
                cur = cur + 2;
            } else {
                return Err(shape_error());
            }
        }
        let cmd = Command::SetCmd(SetCommand { key, value, expiration, condition });
        proof {
            assert(sp_set_opts(fv, cur as int, expiration, condition) == Ok::<_, ()>(
                (expiration, condition),
            ));
        }
        Ok(cmd)
    }
}

impl GetCommand {
    /// Shape a `GET` out of `items`, the whole command frame.
    pub fn exchange(items: &Vec<Frame>) -> (r: Result<Command, KvError>)
        requires
            items@.len() == 2,
            frames_view(items@)[0] is Bulk,
            upper_seq(bulk_of(frames_view(items@)[0])) == kw_get(),
        ensures
            match r {
                Ok(cmd) => sp_command(FrameV::Array(frames_view(items@))) == Ok::<_, ()>(cmd@),
                Err(e) => sp_command(FrameV::Array(frames_view(items@))) is Err && e
                    is ProtocolError,
            },
    {
        proof {
            lemma_frames_view_index(items@);
        }
        match &items[1] {
            Frame::Bulk(b) => Ok(Command::Get(GetCommand { key: slice_to_vec8(b.as_slice()) })),
            _ => Err(shape_error()),
        }
    }
}

} // verus!
