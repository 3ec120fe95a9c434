//! Error kind, wire frames, and the typed commands of the store.

use vstd::prelude::*;

verus! {

broadcast use vstd::std_specs::vec::group_vec_axioms, vstd::seq::group_seq_axioms;

/// Errors surfaced by the store. Every error that reaches a client is
/// rendered as an error frame whose text begins with `ERR`.
#[derive(Debug)]
pub enum KvError {
    /// Malformed bytes, bad length, a missing CRLF, a bad command shape.
    ProtocolError(Vec<u8>),
    /// The peer closed the connection in the middle of a frame.
    UnexpectedEof,
    /// A recognized but unsupported command.
    Unimplement,
}

/// A frame of the wire protocol. Text payloads are kept as raw bytes so the
/// codec contracts are byte-exact.
#[derive(Debug)]
pub enum Frame {
    Simple(Vec<u8>),
    Bulk(Vec<u8>),
    Array(Vec<Frame>),
    Integer(i64),
    Null,
    Error(Vec<u8>),
}

/// The mathematical shape of a frame: sequences instead of vectors.
pub enum FrameV {
    Simple(Seq<u8>),
    Bulk(Seq<u8>),
    Array(Seq<FrameV>),
    Integer(i64),
    Null,
    Error(Seq<u8>),
}

/// The view of a frame, spelled out as a recursive function.
pub open spec fn frame_view(f: Frame) -> FrameV
    decreases f,
{
    match f {
        Frame::Simple(s) => FrameV::Simple(s@),
        Frame::Bulk(b) => FrameV::Bulk(b@),
        Frame::Array(items) => FrameV::Array(frames_view(items@)),
        Frame::Integer(n) => FrameV::Integer(n),
        Frame::Null => FrameV::Null,
        Frame::Error(e) => FrameV::Error(e@),
    }
}

/// The views of a sequence of frames, element by element.
pub open spec fn frames_view(s: Seq<Frame>) -> Seq<FrameV>
    decreases s,
{
    if s.len() == 0 {
        Seq::empty()
    } else {
        frames_view(s.drop_last()).push(frame_view(s.last()))
    }
}

/// `frames_view` is an element-wise map.
pub proof fn lemma_frames_view_index(s: Seq<Frame>)
    ensures
        frames_view(s).len() == s.len(),
        forall|i: int| 0 <= i < s.len() ==> frames_view(s)[i] == frame_view(#[trigger] s[i]),
    decreases s,
{
    if s.len() > 0 {
        lemma_frames_view_index(s.drop_last());
        assert forall|i: int| 0 <= i < s.len() implies frames_view(s)[i] == frame_view(
            #[trigger] s[i],
        ) by {
            if i < s.len() - 1 {
                assert(s.drop_last()[i] == s[i]);
            } else {
                assert(s.last() == s[i]);
            }
        }
    }
}

impl View for Frame {
    type V = FrameV;

    open spec fn view(&self) -> FrameV {
        frame_view(*self)
    }
}

/// A client request after validation of its shape.
#[derive(Debug)]
pub enum Command {
    SetCmd(SetCommand),
    Get(GetCommand),
    Ping(PingCommand),
    Unimplement(UnimplementCommand),
    EvalCommand(EvalCommand),
}

/// `SET key value [EX s | PX ms | EXAT s | PXAT ms] [NX | XX]`.
#[derive(Debug)]
pub struct SetCommand {
    pub key: Vec<u8>,
    pub value: Vec<u8>,
    pub expiration: Option<Expiration>,
    pub condition: Option<SetCondition>,
}

/// `GET key`.
#[derive(Debug)]
pub struct GetCommand {
    pub key: Vec<u8>,
}

/// `PING [msg]`.
#[derive(Debug)]
pub struct PingCommand {
    pub value: Option<Vec<u8>>,
}

/// Any command name the store does not recognize.
#[derive(Debug)]
pub struct UnimplementCommand {
    pub command: Vec<u8>,
    pub args: Vec<Vec<u8>>,
}

/// `EVAL script numkeys key... arg...`.
#[derive(Debug)]
pub struct EvalCommand {
    pub script: Vec<u8>,
    pub keys: Vec<Vec<u8>>,
    pub args: Vec<Vec<u8>>,
}

/// The mathematical shape of a command.
pub enum CommandV {
    SetCmd(SetCommandV),
    Get(Seq<u8>),
    Ping(Option<Seq<u8>>),
    Unimplement(Seq<u8>, Seq<Seq<u8>>),
    EvalCommand(EvalCommandV),
}

/// The mathematical shape of a `SET`.
pub struct SetCommandV {
    pub key: Seq<u8>,
    pub value: Seq<u8>,
    pub expiration: Option<Expiration>,
    pub condition: Option<SetCondition>,
}

/// The mathematical shape of an `EVAL`.
pub struct EvalCommandV {
    pub script: Seq<u8>,
    pub keys: Seq<Seq<u8>>,
    pub args: Seq<Seq<u8>>,
}

/// The views of a run of byte vectors.
pub open spec fn vecs_view(s: Seq<Vec<u8>>) -> Seq<Seq<u8>> {
    Seq::new(s.len(), |i: int| s[i]@)
}

impl View for Command {
    type V = CommandV;

    open spec fn view(&self) -> CommandV {
        match self {
            Command::SetCmd(c) => CommandV::SetCmd(
                SetCommandV {
                    key: c.key@,
                    value: c.value@,
                    expiration: c.expiration,
                    condition: c.condition,
                },
            ),
            Command::Get(c) => CommandV::Get(c.key@),
            Command::Ping(c) => CommandV::Ping(
                match &c.value {
                    Some(v) => Some(v@),
                    None => None,
                },
            ),
            Command::Unimplement(c) => CommandV::Unimplement(c.command@, vecs_view(c.args@)),
            Command::EvalCommand(c) => CommandV::EvalCommand(
                EvalCommandV {
                    script: c.script@,
                    keys: vecs_view(c.keys@),
                    args: vecs_view(c.args@),
                },
            ),
        }
    }
}

/// An expiration option of `SET`. `EX`/`EXAT` are in seconds,
/// `PX`/`PXAT` in milliseconds; the `AT` forms are absolute.
#[derive(Debug)]
pub enum Expiration {
    EX(u64),
    PX(u64),
    EXAT(u64),
    PXAT(u64),
}

/// The write condition of `SET`: only-if-absent or only-if-present.
#[derive(Debug)]
pub enum SetCondition {
    NX,
    XX,
}

/// Whether an execution path emits append-only-log records. Replay runs
/// with emission disabled so it never re-logs what it reads.
#[derive(Debug)]
pub enum IsAof {
    Yes,
    No,
}

} // verus!
