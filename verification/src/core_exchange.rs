//! Dispatching a decoded frame to the command it names.

use vstd::prelude::*;
use crate::bytes_util::ascii_upper;
use crate::bytes_util::bytes_eq_slice;
use crate::command_exchange::kw_eval;
use crate::command_exchange::kw_get;
use crate::command_exchange::kw_ping;
use crate::command_exchange::kw_set;
use crate::command_exchange::sp_command;
use crate::command_exchange::string::shape_error;
use crate::error::Command;
use crate::error::EvalCommand;
use crate::error::Frame;
use crate::error::GetCommand;
use crate::error::KvError;
use crate::error::PingCommand;
use crate::error::SetCommand;
use crate::error::UnimplementCommand;
use crate::error::lemma_frames_view_index;

verus! {

broadcast use vstd::std_specs::vec::group_vec_axioms, vstd::seq::group_seq_axioms;

impl Command {
    /// Read the typed command a frame names. Succeeds exactly on frames
    /// whose shape `sp_command` accepts, and returns that command.
    pub fn from_frame(frame: Frame) -> (r: Result<Command, KvError>)
        ensures
            match r {
                Ok(cmd) => sp_command(frame@) == Ok::<_, ()>(cmd@),
                Err(e) => sp_command(frame@) is Err && e is ProtocolError,
            },
    {
        let items = match frame {
            Frame::Array(items) => items,
            _ => {
                return Err(shape_error());
            },
        };
        proof {
            lemma_frames_view_index(items@);
        }
        if items.len() == 0 {
            return Err(shape_error());
        }
        let name = match &items[0] {
            Frame::Bulk(b) => ascii_upper(b),
            _ => {
                return Err(shape_error());
            },
        };
        let kw_get_b: [u8; 3] = [71, 69, 84];
        let kw_set_b: [u8; 3] = [83, 69, 84];
        let kw_ping_b: [u8; 4] = [80, 73, 78, 71];
        let kw_eval_b: [u8; 4] = [69, 86, 65, 76];
        proof {
            assert(kw_get_b@ =~= kw_get());
            assert(kw_set_b@ =~= kw_set());
            assert(kw_ping_b@ =~= kw_ping());
            assert(kw_eval_b@ =~= kw_eval());
        }
        if bytes_eq_slice(&name, kw_get_b.as_slice()) {
            if items.len() != 2 {
                return Err(shape_error());
            }
            GetCommand::exchange(&items)
        } else if bytes_eq_slice(&name, kw_set_b.as_slice()) {
            if items.len() < 3 {
                return Err(shape_error());
            }
            SetCommand::exchange(&items)
        } else if bytes_eq_slice(&name, kw_ping_b.as_slice()) {
            PingCommand::exchange(&items)
        } else if bytes_eq_slice(&name, kw_eval_b.as_slice()) {
            EvalCommand::exchange(&items)
        } else {
            UnimplementCommand::exchange(&items, name)
        }
    }
}

} // verus!
