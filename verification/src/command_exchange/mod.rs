//! Turning a decoded array frame into a typed command.
//!
//! `sp_command` is the mathematical shape check: it accepts exactly the
//! frames that name a command with well-shaped arguments, and says which
//! command. The executable conversion is proved to agree with it.

use vstd::prelude::*;
use crate::bytes_util::upper_seq;
use crate::command_execute::i64_text_val;
use crate::error::CommandV;
use crate::error::EvalCommandV;
use crate::error::Expiration;
use crate::error::FrameV;
use crate::error::SetCommandV;
use crate::error::SetCondition;

pub mod common;
pub mod string;

verus! {

/// The upper-cased name bytes of the commands and options.
pub open spec fn kw_get() -> Seq<u8> {
    seq![71u8, 69u8, 84u8]
}

pub open spec fn kw_set() -> Seq<u8> {
    seq![83u8, 69u8, 84u8]
}

pub open spec fn kw_ping() -> Seq<u8> {
    seq![80u8, 73u8, 78u8, 71u8]
}

pub open spec fn kw_eval() -> Seq<u8> {
    seq![69u8, 86u8, 65u8, 76u8]
}

pub open spec fn kw_ex() -> Seq<u8> {
    seq![69u8, 88u8]
}

pub open spec fn kw_px() -> Seq<u8> {
    seq![80u8, 88u8]
}

pub open spec fn kw_exat() -> Seq<u8> {
    seq![69u8, 88u8, 65u8, 84u8]
}

pub open spec fn kw_pxat() -> Seq<u8> {
    seq![80u8, 88u8, 65u8, 84u8]
}

pub open spec fn kw_nx() -> Seq<u8> {
    seq![78u8, 88u8]
}

pub open spec fn kw_xx() -> Seq<u8> {
    seq![88u8, 88u8]
}

/// The bulk payload of a frame.
pub open spec fn bulk_of(f: FrameV) -> Seq<u8> {
    f->Bulk_0
}

/// Walk the trailing options of a `SET`: expirations must be positive
/// integers, and only one of `NX`/`XX` may appear.
pub open spec fn sp_set_opts(
    items: Seq<FrameV>,
    idx: int,
    exp: Option<Expiration>,
    cond: Option<SetCondition>,
) -> Result<(Option<Expiration>, Option<SetCondition>), ()>
    decreases items.len() - idx,
{
    if idx >= items.len() {
        Ok((exp, cond))
    } else if !(items[idx] is Bulk) {
        Err(())
    } else {
        let u = upper_seq(bulk_of(items[idx]));
        if u == kw_nx() {
            if cond is Some {
                Err(())
            } else {
                sp_set_opts(items, idx + 1, exp, Some(SetCondition::NX))
            }
        } else if u == kw_xx() {
            if cond is Some {
                Err(())
            } else {
                sp_set_opts(items, idx + 1, exp, Some(SetCondition::XX))
            }
        } else if u == kw_ex() || u == kw_px() || u == kw_exat() || u == kw_pxat() {
            if idx + 1 >= items.len() || !(items[idx + 1] is Bulk) {
                Err(())
            } else {
                match i64_text_val(bulk_of(items[idx + 1])) {
                    None => Err(()),
                    Some(t) => if t <= 0 {
                        Err(())
                    } else {
                        let e = if u == kw_ex() {
                            Expiration::EX(t as u64)
                        } else if u == kw_px() {
                            Expiration::PX(t as u64)
                        } else if u == kw_exat() {
                            Expiration::EXAT(t as u64)
                        } else {
                            Expiration::PXAT(t as u64)
                        };
                        sp_set_opts(items, idx + 2, Some(e), cond)
                    },
                }
            }
        } else {
            Err(())
        }
    }
}

/// Are `items[from..]` all bulk frames?
pub open spec fn all_bulks(items: Seq<FrameV>, from: int) -> bool {
    forall|i: int| from <= i < items.len() ==> (#[trigger] items[i]) is Bulk
}

/// The bulk payloads of `items[from..]`.
pub open spec fn bulk_payloads(items: Seq<FrameV>, from: int) -> Seq<Seq<u8>> {
    Seq::new(
        if items.len() >= from {
            (items.len() - from) as nat
        } else {
            0
        },
        |i: int| bulk_of(items[from + i]),
    )
}

/// Which command a frame names, if its shape is sound. Command names
/// are case-insensitive; an unrecognized name is still a command — the
/// `Unimplement` one — as long as its arguments are bulks.
pub open spec fn sp_command(f: FrameV) -> Result<CommandV, ()> {
    if !(f is Array) {
        Err(())
    } else {
        let items = f->Array_0;
        if items.len() == 0 {
            Err(())
        } else if !(items[0] is Bulk) {
            Err(())
        } else {
            let name = upper_seq(bulk_of(items[0]));
            if name == kw_get() {
                if items.len() == 2 && items[1] is Bulk {
                    Ok(CommandV::Get(bulk_of(items[1])))
                } else {
                    Err(())
                }
            } else if name == kw_set() {
                if items.len() < 3 || !(items[1] is Bulk) || !(items[2] is Bulk) {
                    Err(())
                } else {
                    match sp_set_opts(items, 3, None, None) {
                        Err(()) => Err(()),
                        Ok((exp, cond)) => Ok(
                            CommandV::SetCmd(
                                SetCommandV {
                                    key: bulk_of(items[1]),
                                    value: bulk_of(items[2]),
                                    expiration: exp,
                                    condition: cond,
                                },
                            ),
                        ),
                    }
                }
            } else if name == kw_ping() {
                if items.len() == 1 {
                    Ok(CommandV::Ping(None))
                } else if items.len() == 2 && items[1] is Bulk {
                    Ok(CommandV::Ping(Some(bulk_of(items[1]))))
                } else {
                    Err(())
                }
            } else if name == kw_eval() {
                if items.len() < 3 || !(items[1] is Bulk) || !(items[2] is Bulk) {
                    Err(())
                } else {
                    let nk = bulk_of(items[2]);
                    if !(nk.len() >= 1 && crate::command_execute::all_digits(nk)
                        && crate::command_execute::dec_val(nk) <= usize::MAX) {
                        Err(())
                    } else {
                        let numkeys = crate::command_execute::dec_val(nk);
                        if items.len() < 3 + numkeys || !all_bulks(items, 3) {
                            Err(())
                        } else {
                            Ok(
                                CommandV::EvalCommand(
                                    EvalCommandV {
                                        script: bulk_of(items[1]),
                                        keys: bulk_payloads(items, 3).subrange(0, numkeys),
                                        args: bulk_payloads(items, 3 + numkeys),
                                    },
                                ),
                            )
                        }
                    }
                }
            } else {
                if all_bulks(items, 1) {
                    Ok(CommandV::Unimplement(name, bulk_payloads(items, 1)))
                } else {
                    Err(())
                }
            }
        }
    }
}

} // verus!
