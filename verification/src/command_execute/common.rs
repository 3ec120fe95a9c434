//! Executing `PING` and unknown commands.

use vstd::prelude::*;
use crate::bytes_util::push_all;
use crate::bytes_util::slice_to_vec8;
use crate::error::Frame;
use crate::error::FrameV;
use crate::error::KvError;
use crate::error::PingCommand;
use crate::error::UnimplementCommand;

verus! {

broadcast use vstd::std_specs::vec::group_vec_axioms, vstd::seq::group_seq_axioms;

/// The `+PONG` payload.
pub open spec fn pong_payload() -> Seq<u8> {
    seq![80u8, 79u8, 78u8, 71u8]
}

/// The text of the unknown-command error: `ERR unknown command '<name>'`.
pub open spec fn unknown_command_msg(name: Seq<u8>) -> Seq<u8> {
    seq![
        69u8, 82u8, 82u8, 32u8, 117u8, 110u8, 107u8, 110u8, 111u8, 119u8, 110u8, 32u8, 99u8,
        111u8, 109u8, 109u8, 97u8, 110u8, 100u8, 32u8, 39u8,
    ] + name + seq![39u8]
}

impl PingCommand {
    /// Echo the argument as a bulk, or answer `+PONG`.
    pub fn execute(&self) -> (r: Result<Frame, KvError>)
        ensures
            r matches Ok(f) && (r matches Ok(f) ==> f@ == (match self.value {
                Some(v) => FrameV::Bulk(v@),
                None => FrameV::Simple(pong_payload()),
            })),
    {
        match &self.value {
            Some(value) => Ok(Frame::Bulk(slice_to_vec8(value.as_slice()))),
            None => {
                let pong: [u8; 4] = [80, 79, 78, 71];
                let f = Frame::Simple(slice_to_vec8(pong.as_slice()));
                proof {
                    assert(pong@ =~= pong_payload());
                }
                Ok(f)
            },
        }
    }
}

impl UnimplementCommand {
    /// Answer the unknown-command error, naming the command.
    pub fn execute(&self) -> (r: Result<Frame, KvError>)
        ensures
            r matches Ok(f) && (r matches Ok(f) ==> f@ == FrameV::Error(
                unknown_command_msg(self.command@),
            )),
    {
        let prefix: [u8; 21] = [
            69, 82, 82, 32, 117, 110, 107, 110, 111, 119, 110, 32, 99, 111, 109, 109, 97, 110,
            100, 32, 39,
        ];
        let mut msg = slice_to_vec8(prefix.as_slice());
        push_all(&mut msg, self.command.as_slice());
        msg.push(39);
        proof {
            assert(msg@ =~= unknown_command_msg(self.command@));
        }
        Ok(Frame::Error(msg))
    }
}

} // verus!
