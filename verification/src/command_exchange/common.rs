//! Shaping `PING`, `EVAL`, and unknown commands.

use vstd::prelude::*;
use crate::bytes_util::slice_to_vec8;
use crate::bytes_util::upper_seq;
use crate::command_exchange::all_bulks;
use crate::command_exchange::bulk_of;
use crate::command_exchange::bulk_payloads;
use crate::command_exchange::kw_eval;
use crate::command_exchange::kw_get;
use crate::command_exchange::kw_ping;
use crate::command_exchange::kw_set;
use crate::command_exchange::sp_command;
use crate::command_exchange::string::shape_error;
use crate::core_explain::parse_decimal;
use crate::error::Command;
use crate::error::EvalCommand;
use crate::error::Frame;
use crate::error::FrameV;
use crate::error::KvError;
use crate::error::PingCommand;
use crate::error::UnimplementCommand;
use crate::error::frames_view;
use crate::error::lemma_frames_view_index;
use crate::error::vecs_view;

verus! {

broadcast use vstd::std_specs::vec::group_vec_axioms, vstd::seq::group_seq_axioms;

impl PingCommand {
    /// Shape a `PING` out of `items`, the whole command frame.
    pub fn exchange(items: &Vec<Frame>) -> (r: Result<Command, KvError>)
        requires
            items@.len() >= 1,
            frames_view(items@)[0] is Bulk,
            upper_seq(bulk_of(frames_view(items@)[0])) == kw_ping(),
        ensures
            match r {
                Ok(cmd) => sp_command(FrameV::Array(frames_view(items@))) == Ok::<_, ()>(cmd@),
                Err(e) => sp_command(FrameV::Array(frames_view(items@))) is Err && e
                    is ProtocolError,
            },
    {
        proof {
            lemma_frames_view_index(items@);
        }
        if items.len() == 1 {
            Ok(Command::Ping(PingCommand { value: None }))
        } else if items.len() == 2 {
            match &items[1] {
                Frame::Bulk(b) => Ok(
                    Command::Ping(PingCommand { value: Some(slice_to_vec8(b.as_slice())) }),
                ),
                _ => Err(shape_error()),
            }
        } else {
            Err(shape_error())
        }
    }
}

impl UnimplementCommand {
    /// Shape an unknown command: keep its upper-cased name and its bulk
    /// arguments.
    #[verifier::loop_isolation(false)]
    pub fn exchange(items: &Vec<Frame>, command_name: Vec<u8>) -> (r: Result<Command, KvError>)
        requires
            items@.len() >= 1,
            frames_view(items@)[0] is Bulk,
            command_name@ == upper_seq(bulk_of(frames_view(items@)[0])),
            command_name@ != kw_get(),
            command_name@ != kw_set(),
            command_name@ != kw_ping(),
            command_name@ != kw_eval(),
        ensures
            match r {
                Ok(cmd) => sp_command(FrameV::Array(frames_view(items@))) == Ok::<_, ()>(cmd@),
                Err(e) => sp_command(FrameV::Array(frames_view(items@))) is Err && e
                    is ProtocolError,
            },
    {
        let ghost fv = frames_view(items@);
        proof {
            lemma_frames_view_index(items@);
        }
        let n = items.len();
        let mut args: Vec<Vec<u8>> = Vec::new();
        let mut i: usize = 1;
        while i < n
            invariant
                1 <= i <= n,
                args@.len() == i - 1,
                forall|j: int| 1 <= j < i ==> fv[j] is Bulk,
                forall|j: int| 0 <= j < i - 1 ==> args@[j]@ == bulk_of(fv[j + 1]),
            decreases n - i,
        {
            match &items[i] {
                Frame::Bulk(b) => {
                    args.push(slice_to_vec8(b.as_slice()));
                },
                _ => {
                    return Err(shape_error());
                },
            }
            i = i + 1;
        }
        proof {
            assert(all_bulks(fv, 1));
            assert(vecs_view(args@) =~= bulk_payloads(fv, 1));
        }
        Ok(Command::Unimplement(UnimplementCommand { command: command_name, args }))
    }
}

impl EvalCommand {
    /// Shape an `EVAL`: the script, the declared key count, that many
    /// keys, and the remaining arguments — all bulks.
    #[verifier::loop_isolation(false)]
    pub fn exchange(items: &Vec<Frame>) -> (r: Result<Command, KvError>)
        requires
            items@.len() >= 1,
            frames_view(items@)[0] is Bulk,
            upper_seq(bulk_of(frames_view(items@)[0])) == kw_eval(),
        ensures
            match r {
                Ok(cmd) => sp_command(FrameV::Array(frames_view(items@))) == Ok::<_, ()>(cmd@),
                Err(e) => sp_command(FrameV::Array(frames_view(items@))) is Err && e
                    is ProtocolError,
            },
    {
        let ghost fv = frames_view(items@);
        proof {
            lemma_frames_view_index(items@);
        }
        let n = items.len();
        if n < 3 {
            return Err(shape_error());
        }
        let script = match &items[1] {
            Frame::Bulk(b) => slice_to_vec8(b.as_slice()),
            _ => {
                return Err(shape_error());
            },
        };
        let numkeys = match &items[2] {
            Frame::Bulk(b) => match parse_decimal(b.as_slice()) {
                Ok(v) => v,
                Err(e) => {
                    return Err(e);
                },
            },
            _ => {
                return Err(shape_error());
            },
        };
        if numkeys > n - 3 {
            return Err(shape_error());
        }
        let mut keys: Vec<Vec<u8>> = Vec::new();
        let mut args: Vec<Vec<u8>> = Vec::new();
        let mut i: usize = 3;
        while i < n
            invariant
                3 <= i <= n,
                numkeys <= n - 3,
                keys@.len() == if i - 3 < numkeys {
                    i - 3
                } else {
                    numkeys as int
                },
                args@.len() == if i - 3 < numkeys {
                    0
                } else {
                    i - 3 - numkeys
                },
                forall|j: int| 3 <= j < i ==> fv[j] is Bulk,
                forall|j: int| 0 <= j < keys@.len() ==> keys@[j]@ == bulk_of(fv[j + 3]),
                forall|j: int|
                    0 <= j < args@.len() ==> args@[j]@ == bulk_of(fv[j + 3 + numkeys]),
            decreases n - i,
        {
            match &items[i] {
                Frame::Bulk(b) => {
                    if i - 3 < numkeys {
                        keys.push(slice_to_vec8(b.as_slice()));
                    } else {
                        args.push(slice_to_vec8(b.as_slice()));
                    }
                },
                _ => {
                    return Err(shape_error());
                },
            }
            i = i + 1;
        }
        proof {
            assert(all_bulks(fv, 3));
            assert(vecs_view(keys@) =~= bulk_payloads(fv, 3).subrange(
                0,
                crate::command_execute::dec_val(bulk_of(fv[2])),
            ));
            assert(vecs_view(args@) =~= bulk_payloads(fv, 3 + numkeys));
        }
        Ok(Command::EvalCommand(EvalCommand { script, keys, args }))
    }
}

} // verus!
