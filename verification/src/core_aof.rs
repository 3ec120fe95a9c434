//! Cold-start replay of the append-only log, and the round-trip law
//! that justifies it.

use vstd::prelude::*;
use crate::command_execute::dec_digits;
use crate::command_execute::dec_val;
use crate::command_execute::deadline_of;
use crate::command_execute::i64_text_val;
use crate::command_execute::lemma_dec_digits;
use crate::command_execute::string::set_deadline;
use crate::command_execute::string::set_entry;
use crate::command_exchange::bulk_of;
use crate::command_exchange::kw_eval;
use crate::command_exchange::kw_exat;
use crate::command_exchange::kw_get;
use crate::command_exchange::kw_nx;
use crate::command_exchange::kw_ping;
use crate::command_exchange::kw_px;
use crate::command_exchange::kw_ex;
use crate::command_exchange::kw_pxat;
use crate::command_exchange::kw_set;
use crate::command_exchange::kw_xx;
use crate::command_exchange::sp_command;
use crate::command_exchange::sp_set_opts;
use crate::aof_exchange::aof_set_record;
use crate::aof_exchange::cond_frames;
use crate::aof_exchange::exp_frames;
use crate::bytes_util::upper_seq;
use crate::core_execute::cmd_frame_fits;
use crate::core_execute::db_flat;
use crate::core_execute::execute_command;
use crate::core_execute::lemma_flat_after_set;
use crate::core_execute::lemma_flat_unchanged;
use crate::core_execute::lemma_wire_round_trip;
use crate::core_execute::sp_ser;
use crate::core_explain::ParseStep;
use crate::core_explain::parse_frame_from_cursor;
use crate::core_explain::sp_parse;
use crate::db::Db;
use crate::error::Command;
use crate::error::CommandV;
use crate::error::Expiration;
use crate::error::FrameV;
use crate::error::KvError;
use crate::error::SetCommandV;
use crate::error::SetCondition;

verus! {

broadcast use vstd::std_specs::vec::group_vec_axioms, vstd::seq::group_seq_axioms;

/// Stream the log through the frame decoder and re-execute each
/// complete frame against database 0, with log emission off. Returns
/// how many bytes were consumed: the caller moves the unconsumed tail
/// to the front of its buffer and reads on. A malformed frame or a
/// frame that names no valid command is fatal — the log is presumed
/// trustworthy.
pub fn explain_execute_aofcommand(db: &mut Db, data: &[u8], now_ms: u64) -> (r: Result<
    usize,
    KvError,
>)
    requires
        old(db).store.wf(),
    ensures
        final(db).store.wf(),
        match r {
            Ok(consumed) => {
                &&& consumed <= data@.len()
                &&& sp_parse(data@.skip(consumed as int)) is More
                &&& replay_model(data@, db_flat(old(db).store, 0), now_ms) == replay_model(
                    data@.skip(consumed as int),
                    db_flat(final(db).store, 0),
                    now_ms,
                )
            },
            Err(e) => e is ProtocolError && replay_model(
                data@,
                db_flat(old(db).store, 0),
                now_ms,
            ) is None,
        },
{
    let n = data.len();
    let mut pos: usize = 0;
    proof {
        assert(data@.skip(0) =~= data@);
    }
    while pos < n
        invariant
            pos <= n,
            n == data@.len(),
            db.store.wf(),
            replay_model(data@.skip(pos as int), db_flat(db.store, 0), now_ms) == replay_model(
                data@,
                db_flat(old(db).store, 0),
                now_ms,
            ),
        decreases n - pos,
    {
        match parse_frame_from_cursor(data, pos) {
            Err(_) => {
                proof {
                    assert(replay_model(data@.skip(pos as int), db_flat(db.store, 0), now_ms)
                        is None);
                }
                return Err(crate::command_exchange::string::shape_error());
            },
            Ok(None) => {
                return Ok(pos);
            },
            Ok(Some((frame, np))) => {
                let ghost fv = frame@;
                match Command::from_frame(frame) {
                    Err(e) => {
                        proof {
                            let s_cur = data@.skip(pos as int);
                            assert(sp_parse(s_cur) == ParseStep::Good(fv, np - pos));
                            assert(sp_command(fv) is Err);
                            assert(replay_model(s_cur, db_flat(db.store, 0), now_ms) is None);
                        }
                        return Err(e);
                    },
                    Ok(command) => {
                        let ghost pre_pos = pos as int;
                        let ghost pre_flat = db_flat(db.store, 0);
                        let ghost pre_store = db.store;
                        let _ = execute_command(&command, db, now_ms);
                        proof {
                            let s_cur = data@.skip(pre_pos);
                            let c = np - pre_pos;
                            assert(sp_parse(s_cur) == ParseStep::Good(fv, c));
                            assert(s_cur.skip(c) =~= data@.skip(np as int));
                            assert(sp_command(fv) == Ok::<_, ()>(command@));
                            match &command {
                                Command::SetCmd(set) => {
                                    if crate::command_execute::string::deadline_fits(
                                        set.expiration,
                                        now_ms,
                                    ) {
                                        lemma_flat_after_set(
                                            pre_store,
                                            db.store,
                                            0,
                                            set.key@,
                                            set.value@,
                                            set.expiration,
                                            now_ms,
                                        );
                                    } else {
                                        lemma_flat_unchanged(pre_store, db.store, 0);
                                    }
                                },
                                _ => {
                                    lemma_flat_unchanged(pre_store, db.store, 0);
                                },
                            }
                            assert(replay_model(s_cur, pre_flat, now_ms) == replay_model(
                                data@.skip(np as int),
                                db_flat(db.store, 0),
                                now_ms,
                            ));
                        }
                        pos = np;
                    },
                }
            },
        }
    }
    proof {
        assert(data@.skip(pos as int) =~= Seq::<u8>::empty());
    }
    Ok(pos)
}

/// Ten to the `k`.
pub open spec fn pow10(k: nat) -> nat
    decreases k,
{
    if k == 0 {
        1
    } else {
        10 * pow10((k - 1) as nat)
    }
}

/// A number below `10^k` prints in at most `k` digits.
proof fn lemma_dec_digits_len(n: nat, k: nat)
    requires
        k >= 1,
        n < pow10(k),
    ensures
        dec_digits(n).len() <= k,
    decreases k,
{
    if n < 10 {
    } else {
        assert(k >= 2) by {
            reveal_with_fuel(pow10, 2);
            if k == 1 {
                assert(pow10(1) == 10);
            }
        }
        assert(n / 10 < pow10((k - 1) as nat)) by (nonlinear_arith)
            requires
                n < pow10(k),
                pow10(k) == 10 * pow10((k - 1) as nat),
                n >= 10,
        ;
        lemma_dec_digits_len(n / 10, (k - 1) as nat);
    }
}

/// Any 64-bit count prints in at most twenty digits.
pub proof fn lemma_dec_digits_len_u64(n: nat)
    requires
        n <= u64::MAX,
    ensures
        dec_digits(n).len() <= 20,
{
    reveal_with_fuel(pow10, 21);
    assert(n < pow10(20));
    lemma_dec_digits_len(n, 20);
}

/// Upper-casing leaves a string of digits and upper-case letters alone.
proof fn lemma_upper_fixed(s: Seq<u8>)
    requires
        forall|i: int| 0 <= i < s.len() ==> !(97 <= #[trigger] s[i] <= 122),
    ensures
        upper_seq(s) == s,
{
    assert(upper_seq(s) =~= s);
}

/// The expiration a logged `SET` carries: the client's own absolute
/// second deadline, or the computed absolute millisecond deadline.
pub open spec fn absolutize(exp: Option<Expiration>, now_ms: u64) -> Option<Expiration> {
    match exp {
        None => None,
        Some(e) => match e {
            Expiration::EXAT(s) => Some(Expiration::EXAT(s)),
            _ => Some(Expiration::PXAT(deadline_of(e, now_ms) as u64)),
        },
    }
}

/// A logged `SET` can be replayed exactly: its deadline fits the clock,
/// is positive, and prints as a signed 64-bit integer.
pub open spec fn replayable(exp: Option<Expiration>, now_ms: u64) -> bool {
    match exp {
        None => true,
        Some(e) => {
            &&& 0 < deadline_of(e, now_ms) <= u64::MAX
            &&& (e matches Expiration::EXAT(s) ==> 0 < s <= i64::MAX)
            &&& (!(e is EXAT) ==> deadline_of(e, now_ms) <= i64::MAX)
        },
    }
}

/// The append-only-log round-trip law, for the one mutating command.
///
/// The record a successful `SET` leaves behind (i) decodes from the log
/// byte stream back to exactly itself, whatever bytes follow it;
/// (ii) names a valid `SET` on the same key and value, with the same
/// condition flags and the deadline rewritten to its absolute form; and
/// (iii) executing that command at any later clock stores an entry
/// equal to the one the original stored. Records are appended in
/// execution order and replay re-executes them in log order, so a log
/// replayed on an empty keyspace rebuilds, record by record, the same
/// mapping the original run built.
pub proof fn lemma_aof_round_trip(
    key: Seq<u8>,
    value: Seq<u8>,
    exp: Option<Expiration>,
    cond: Option<SetCondition>,
    now_ms: u64,
    replay_now_ms: u64,
    tail: Seq<u8>,
)
    requires
        replayable(exp, now_ms),
        key.len() <= usize::MAX,
        value.len() <= usize::MAX,
    ensures
        ({
            let rec = aof_set_record(key, value, exp, cond, now_ms);
            &&& sp_parse(sp_ser(rec) + tail) == ParseStep::Good(rec, sp_ser(rec).len() as int)
            &&& sp_command(rec) == Ok::<_, ()>(
                CommandV::SetCmd(
                    SetCommandV {
                        key,
                        value,
                        expiration: absolutize(exp, now_ms),
                        condition: cond,
                    },
                ),
            )
            &&& set_entry(value, set_deadline(absolutize(exp, now_ms), replay_now_ms))
                == set_entry(value, set_deadline(exp, now_ms))
        }),
{
    let rec = aof_set_record(key, value, exp, cond, now_ms);
    let items = seq![FrameV::Bulk(kw_set()), FrameV::Bulk(key), FrameV::Bulk(value)]
        + exp_frames(exp, now_ms) + cond_frames(cond);
    assert(rec == FrameV::Array(items));

    // Every element is a bulk that fits in memory.
    assert(cmd_frame_fits(rec)) by {
        assert forall|i: int|
            0 <= i < items.len() implies crate::core_execute::bulk_fits(#[trigger] items[i]) by {
            if i >= 3 {
                match exp {
                    None => {},
                    Some(e) => {
                        if i == 4 {
                            match e {
                                Expiration::EXAT(s) => {
                                    lemma_dec_digits_len_u64(s as nat);
                                },
                                _ => {
                                    lemma_dec_digits_len_u64(deadline_of(e, now_ms) as nat);
                                },
                            }
                        }
                    },
                }
            }
        }
    }
    lemma_wire_round_trip(rec, tail);

    // The record parses back to a SET with the absolute deadline.
    assert(sp_command(rec) == Ok::<_, ()>(
        CommandV::SetCmd(
            SetCommandV { key, value, expiration: absolutize(exp, now_ms), condition: cond },
        ),
    )) by {
        let name = upper_seq(bulk_of(items[0]));
        assert(bulk_of(items[0]) == kw_set());
        lemma_upper_fixed(kw_set());
        assert(name == kw_set());
        assert(name != kw_get()) by {
            assert(kw_set()[0] != kw_get()[0]);
        }
        assert(name != kw_ping()) by {
            assert(kw_set().len() != kw_ping().len());
        }
        assert(name != kw_eval()) by {
            assert(kw_set().len() != kw_eval().len());
        }
        assert(items.subrange(3, items.len() as int) =~= exp_frames(exp, now_ms)
            + cond_frames(cond));
        lemma_set_opts_parse(items, exp, cond, now_ms);
    }

    // Replaying at any clock stores the same deadline, so the same entry.
    assert(set_deadline(absolutize(exp, now_ms), replay_now_ms) == set_deadline(exp, now_ms))
        by {
        match exp {
            None => {},
            Some(e) => match e {
                Expiration::EXAT(s) => {},
                _ => {},
            },
        }
    }
}

/// One mutating command as the log remembers it: what was set, with
/// which options, and what the cached clock read at execution time.
pub struct LoggedSet {
    pub key: Seq<u8>,
    pub value: Seq<u8>,
    pub expiration: Option<Expiration>,
    pub condition: Option<SetCondition>,
    pub now_ms: u64,
}

/// The record frame of one logged command.
pub open spec fn logged_record(c: LoggedSet) -> FrameV {
    aof_set_record(c.key, c.value, c.expiration, c.condition, c.now_ms)
}

/// The whole log: every record's bytes, in execution order.
pub open spec fn log_bytes(l: Seq<LoggedSet>) -> Seq<u8>
    decreases l.len(),
{
    if l.len() == 0 {
        Seq::empty()
    } else {
        sp_ser(logged_record(l[0])) + log_bytes(l.drop_first())
    }
}

/// The mapping the original run built: each command's entry under its
/// key, deadlines fixed by the clock at its own execution time.
pub open spec fn apply_log(m: Map<Seq<u8>, crate::types::EntryV>, l: Seq<LoggedSet>) -> Map<
    Seq<u8>,
    crate::types::EntryV,
>
    decreases l.len(),
{
    if l.len() == 0 {
        m
    } else {
        apply_log(
            m.insert(l[0].key, set_entry(l[0].value, set_deadline(l[0].expiration, l[0].now_ms))),
            l.drop_first(),
        )
    }
}

/// The mathematical replayer: decode one frame after another, shape
/// each as a command, and apply every `SET` at the replay clock.
/// `None` means the bytes are not a clean log.
pub open spec fn replay_model(
    s: Seq<u8>,
    m: Map<Seq<u8>, crate::types::EntryV>,
    replay_now_ms: u64,
) -> Option<Map<Seq<u8>, crate::types::EntryV>>
    decreases s.len(),
{
    if s.len() == 0 {
        Some(m)
    } else {
        match sp_parse(s) {
            ParseStep::Good(f, c) => {
                if 0 < c <= s.len() {
                    match sp_command(f) {
                        Ok(cmd) => match cmd {
                            CommandV::SetCmd(sc) => {
                                if crate::command_execute::string::deadline_fits(
                                    sc.expiration,
                                    replay_now_ms,
                                ) {
                                    replay_model(
                                        s.skip(c),
                                        m.insert(
                                            sc.key,
                                            set_entry(
                                                sc.value,
                                                set_deadline(sc.expiration, replay_now_ms),
                                            ),
                                        ),
                                        replay_now_ms,
                                    )
                                } else {
                                    replay_model(s.skip(c), m, replay_now_ms)
                                }
                            },
                            _ => replay_model(s.skip(c), m, replay_now_ms),
                        },
                        Err(()) => None,
                    }
                } else {
                    None
                }
            },
            _ => None,
        }
    }
}

/// Every command of the log can be replayed exactly.
pub open spec fn log_replayable(l: Seq<LoggedSet>) -> bool {
    forall|i: int|
        0 <= i < l.len() ==> {
            &&& replayable((#[trigger] l[i]).expiration, l[i].now_ms)
            &&& l[i].key.len() <= usize::MAX
            &&& l[i].value.len() <= usize::MAX
        }
}

/// The append-only-log round-trip law for whole runs: for any sequence
/// of successful mutating commands, replaying the byte concatenation of
/// their records — on any starting mapping, at any later clock — ends
/// in exactly the mapping the original run built. Keys route to shards
/// as a function of the key alone, so equal mappings mean equal shards.
pub proof fn lemma_log_round_trip(
    l: Seq<LoggedSet>,
    m: Map<Seq<u8>, crate::types::EntryV>,
    replay_now_ms: u64,
)
    requires
        log_replayable(l),
    ensures
        replay_model(log_bytes(l), m, replay_now_ms) == Some(apply_log(m, l)),
    decreases l.len(),
{
    if l.len() == 0 {
        assert(log_bytes(l) =~= Seq::<u8>::empty());
    } else {
        let first = l[0];
        let rest = l.drop_first();
        let rec = logged_record(first);
        let rest_bytes = log_bytes(rest);
        let s = log_bytes(l);
        assert(s == sp_ser(rec) + rest_bytes);
        lemma_aof_round_trip(
            first.key,
            first.value,
            first.expiration,
            first.condition,
            first.now_ms,
            replay_now_ms,
            rest_bytes,
        );
        assert(sp_parse(s) == ParseStep::Good(rec, sp_ser(rec).len() as int));
        let c = sp_ser(rec).len() as int;
        assert(0 < c <= s.len()) by {
            assert(sp_ser(rec).len() > 0);
        }
        assert(s.skip(c) =~= rest_bytes);
        let sc = SetCommandV {
            key: first.key,
            value: first.value,
            expiration: absolutize(first.expiration, first.now_ms),
            condition: first.condition,
        };
        assert(sp_command(rec) == Ok::<_, ()>(CommandV::SetCmd(sc)));
        assert(crate::command_execute::string::deadline_fits(sc.expiration, replay_now_ms)) by {
            match first.expiration {
                None => {},
                Some(e) => match e {
                    Expiration::EXAT(sec) => {},
                    _ => {},
                },
            }
        }
        assert(set_entry(sc.value, set_deadline(sc.expiration, replay_now_ms)) == set_entry(
            first.value,
            set_deadline(first.expiration, first.now_ms),
        ));
        assert(log_replayable(rest)) by {
            assert(forall|i: int| 0 <= i < rest.len() ==> rest[i] == #[trigger] l[i + 1]);
        }
        lemma_log_round_trip(
            rest,
            m.insert(
                first.key,
                set_entry(first.value, set_deadline(first.expiration, first.now_ms)),
            ),
            replay_now_ms,
        );
    }
}

/// The capstone: a run of the replayer that consumed a whole log of
/// `l`'s records — leaving nothing but an empty tail — ends with
/// exactly the mapping the original run built, whatever the replay
/// clock reads.
pub proof fn lemma_complete_replay(
    l: Seq<LoggedSet>,
    m0: Map<Seq<u8>, crate::types::EntryV>,
    mf: Map<Seq<u8>, crate::types::EntryV>,
    replay_now_ms: u64,
)
    requires
        log_replayable(l),
        replay_model(log_bytes(l), m0, replay_now_ms) == replay_model(
            Seq::<u8>::empty(),
            mf,
            replay_now_ms,
        ),
    ensures
        mf == apply_log(m0, l),
{
    lemma_log_round_trip(l, m0, replay_now_ms);
    assert(replay_model(Seq::<u8>::empty(), mf, replay_now_ms) == Some(mf));
}

/// The option frames of a logged `SET` parse back to its absolute

/// expiration and its verbatim condition.
proof fn lemma_set_opts_parse(
    items: Seq<FrameV>,
    exp: Option<Expiration>,
    cond: Option<SetCondition>,
    now_ms: u64,
)
    requires
        replayable(exp, now_ms),
        items.len() >= 3,
        items.subrange(3, items.len() as int) == exp_frames(exp, now_ms) + cond_frames(cond),
    ensures
        sp_set_opts(items, 3, None, None) == Ok::<_, ()>(
            (absolutize(exp, now_ms), cond),
        ),
{
    let suffix = items.subrange(3, items.len() as int);
    assert(suffix.len() == items.len() - 3);
    assert(suffix.len() == exp_frames(exp, now_ms).len() + cond_frames(cond).len());
    match exp {
        None => {
            assert(exp_frames(exp, now_ms) =~= Seq::<FrameV>::empty());
            assert(items.subrange(3, items.len() as int) =~= cond_frames(cond));
            lemma_cond_opts_parse(items, cond, 3, None);
        },
        Some(e) => {
            let kw = if e is EXAT {
                kw_exat()
            } else {
                kw_pxat()
            };
            let d: u64 = if e is EXAT {
                e->EXAT_0
            } else {
                deadline_of(e, now_ms) as u64
            };
            assert(exp_frames(exp, now_ms) =~= seq![
                FrameV::Bulk(kw),
                FrameV::Bulk(dec_digits(d as nat)),
            ]);
            assert(suffix[0] == items[3]);
            assert(suffix[1] == items[4]);
            assert(items[3] == FrameV::Bulk(kw));
            assert(items[4] == FrameV::Bulk(dec_digits(d as nat)));
            lemma_upper_fixed(kw);
            assert(upper_seq(bulk_of(items[3])) == kw);
            assert(kw != kw_nx()) by {
                assert(kw.len() != kw_nx().len());
            }
            assert(kw != kw_xx()) by {
                assert(kw.len() != kw_xx().len());
            }
            assert(kw != kw_ex()) by {
                assert(kw.len() != kw_ex().len());
            }
            assert(kw != kw_px()) by {
                assert(kw.len() != kw_px().len());
            }
            assert(kw_exat() != kw_pxat()) by {
                assert(kw_exat()[0] != kw_pxat()[0]);
            }
            // The deadline text reads back as the same number.
            lemma_dec_digits(d as nat);
            let ds = dec_digits(d as nat);
            assert(i64_text_val(ds) == Some(d as i64)) by {
                assert(ds[0] != 45) by {
                    assert(crate::command_execute::is_digit(ds[0]));
                }
                assert(!(ds.len() >= 2 && ds[0] == 45));
                assert(0 <= dec_val(ds) <= i64::MAX);
            }
            assert(d > 0 && d <= i64::MAX);
            let parsed = if e is EXAT {
                Expiration::EXAT(d)
            } else {
                Expiration::PXAT(d)
            };
            assert(sp_set_opts(items, 3, None, None) == sp_set_opts(
                items,
                5,
                Some(parsed),
                None,
            ));
            assert(Some(parsed) == absolutize(exp, now_ms));
            assert(items.subrange(5, items.len() as int) =~= cond_frames(cond)) by {
                assert forall|i: int|
                    0 <= i < items.len() - 5 implies items.subrange(5, items.len() as int)[i]
                        == cond_frames(cond)[i] by {
                    assert(items.subrange(5, items.len() as int)[i] == items[i + 5]);
                    assert(suffix[i + 2] == items[i + 5]);
                    assert(suffix[i + 2] == (exp_frames(exp, now_ms) + cond_frames(cond))[i
                        + 2]);
                }
            }
            lemma_cond_opts_parse(items, cond, 5, Some(parsed));
        },
    }
}

/// The condition frames of a logged `SET` parse back verbatim.
proof fn lemma_cond_opts_parse(
    items: Seq<FrameV>,
    cond: Option<SetCondition>,
    at: int,
    exp_sofar: Option<Expiration>,
)
    requires
        0 <= at <= items.len(),
        items.subrange(at, items.len() as int) == cond_frames(cond),
    ensures
        sp_set_opts(items, at, exp_sofar, None) == Ok::<_, ()>((exp_sofar, cond)),
{
    match cond {
        None => {
            assert(items.len() == at);
        },
        Some(c) => {
            let kw = match c {
                SetCondition::NX => kw_nx(),
                SetCondition::XX => kw_xx(),
            };
            assert(cond_frames(cond) =~= seq![FrameV::Bulk(kw)]);
            assert(items.subrange(at, items.len() as int).len() == 1);
            assert(items.len() == at + 1);
            assert(items[at] == FrameV::Bulk(kw)) by {
                assert(items.subrange(at, items.len() as int)[0] == items[at]);
            }
            lemma_upper_fixed(kw);
            assert(kw_nx() != kw_xx()) by {
                assert(kw_nx()[0] != kw_xx()[0]);
            }
            assert(sp_set_opts(items, at, exp_sofar, None) == sp_set_opts(
                items,
                at + 1,
                exp_sofar,
                Some(c),
            ));
        },
    }
}

} // verus!
