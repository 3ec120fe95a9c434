//! The compute side of a connection: take buffered bytes, execute every
//! complete command, and hand back the responses, the log records, and
//! how much of the buffer was consumed. The socket, the select loop,
//! and the shutdown signal live outside the library.

use vstd::prelude::*;
use crate::aof_exchange::aof_set_record;
use crate::command_exchange::sp_command;
use crate::command_execute::string::deadline_fits;
use crate::command_execute::string::get_response;
use crate::command_execute::string::ok_payload;
use crate::command_execute::string::set_deadline;
use crate::command_execute::string::set_entry;
use crate::command_execute::common::pong_payload;
use crate::command_execute::common::unknown_command_msg;
use crate::context::ConnectionState;
use crate::core_execute::db_flat;
use crate::core_execute::err_prefix_v;
use crate::core_execute::execute_command_normal;
use crate::core_execute::lemma_flat_after_set;
use crate::core_execute::lemma_flat_unchanged;
use crate::core_execute::script_unavailable_msg;
use crate::core_execute::sp_ser;
use crate::core_explain::ParseStep;
use crate::core_explain::parse_frame_from_cursor;
use crate::core_explain::sp_parse;
use crate::core_explain::crlf_at;
use crate::core_explain::sp_find_crlf;
use crate::core_explain::lemma_sp_find_crlf_props;
use crate::db::Db;
use crate::error::Command;
use crate::error::CommandV;
use crate::error::FrameV;
use crate::error::IsAof;
use crate::error::KvError;
use crate::error::vecs_view;
use crate::types::EntryV;

verus! {

broadcast use vstd::std_specs::vec::group_vec_axioms, vstd::seq::group_seq_axioms;


/// The frame one command is answered with, over the flat mapping.
pub open spec fn serve_response(m: Map<Seq<u8>, EntryV>, cmd: CommandV, now_ms: u64) -> FrameV {
    match cmd {
        CommandV::SetCmd(sc) => if deadline_fits(sc.expiration, now_ms) {
            FrameV::Simple(ok_payload())
        } else {
            FrameV::Error(err_prefix_v() + crate::command_exchange::string::shape_error_msg())
        },
        CommandV::Get(k) => get_response(m, k, now_ms),
        CommandV::Ping(p) => match p {
            Some(v) => FrameV::Bulk(v),
            None => FrameV::Simple(pong_payload()),
        },
        CommandV::Unimplement(name, _) => FrameV::Error(unknown_command_msg(name)),
        CommandV::EvalCommand(_) => FrameV::Error(script_unavailable_msg()),
    }
}

/// The flat mapping after one command.
pub open spec fn serve_next(m: Map<Seq<u8>, EntryV>, cmd: CommandV, now_ms: u64) -> Map<
    Seq<u8>,
    EntryV,
> {
    match cmd {
        CommandV::SetCmd(sc) => if deadline_fits(sc.expiration, now_ms) {
            m.insert(sc.key, set_entry(sc.value, set_deadline(sc.expiration, now_ms)))
        } else {
            m
        },
        _ => m,
    }
}

/// The log record one command leaves, if any.
pub open spec fn serve_record(cmd: CommandV, now_ms: u64) -> Option<Seq<u8>> {
    match cmd {
        CommandV::SetCmd(sc) => if deadline_fits(sc.expiration, now_ms) {
            Some(sp_ser(aof_set_record(sc.key, sc.value, sc.expiration, sc.condition, now_ms)))
        } else {
            None
        },
        _ => None,
    }
}

/// Where the connection loop stops reading: the bytes are a proper
/// prefix of a frame, a malformed frame, or a complete frame that
/// names no valid command.
pub open spec fn serve_blocked(s: Seq<u8>) -> bool {
    match sp_parse(s) {
        ParseStep::More => true,
        ParseStep::Bad => true,
        ParseStep::Good(f, c) => !(0 < c <= s.len()) || sp_command(f) is Err,
    }
}

/// The mathematical connection loop: decode frame after frame, answer
/// and apply each command, and stop at the first blocked tail — an
/// incomplete, malformed, or invalid frame. What was executed before
/// the stop stays executed, answered, and logged.
pub open spec fn serve_model(s: Seq<u8>, m: Map<Seq<u8>, EntryV>, now_ms: u64) -> (
    Seq<Seq<u8>>,
    Seq<Seq<u8>>,
    Map<Seq<u8>, EntryV>,
)
    decreases s.len(),
{
    if s.len() == 0 {
        (Seq::empty(), Seq::empty(), m)
    } else {
        match sp_parse(s) {
            ParseStep::Good(f, c) => {
                if 0 < c <= s.len() {
                    match sp_command(f) {
                        Ok(cmd) => {
                            let out = serve_model(s.skip(c), serve_next(m, cmd, now_ms), now_ms);
                            (
                                seq![sp_ser(serve_response(m, cmd, now_ms))] + out.0,
                                match serve_record(cmd, now_ms) {
                                    Some(rec) => seq![rec] + out.1,
                                    None => out.1,
                                },
                                out.2,
                            )
                        },
                        Err(()) => (Seq::empty(), Seq::empty(), m),
                    }
                } else {
                    (Seq::empty(), Seq::empty(), m)
                }
            },
            _ => (Seq::empty(), Seq::empty(), m),
        }
    }
}

/// Decode and execute every complete command in `buf`.
///
/// `Ok` hands back the serialized responses in order, the log records
/// the commands left, and how many bytes were consumed; the unconsumed
/// tail is blocked — incomplete, malformed, or an invalid command —
/// and everything executed before the stop is answered and logged, so
/// the keyspace and the log never diverge. `Err` comes only when the
/// blockage sits at the very front and it is an error (not mere
/// incompleteness): nothing was executed, the caller answers the error
/// frame and resynchronizes.
pub fn explain_execute_command(
    db: &mut Db,
    state: &ConnectionState,
    buf: &[u8],
    now_ms: u64,
) -> (r: Result<(Vec<Vec<u8>>, Vec<Vec<u8>>, usize), KvError>)
    requires
        old(db).store.wf(),
        state.selected_db < crate::db::NUM_DATABASES,
    ensures
        final(db).store.wf(),
        match r {
            Ok(out) => {
                &&& out.2 <= buf@.len()
                &&& serve_blocked(buf@.skip(out.2 as int))
                &&& serve_model(buf@, db_flat(old(db).store, state.selected_db as int), now_ms)
                    == (
                    vecs_view(out.0@),
                    vecs_view(out.1@),
                    db_flat(final(db).store, state.selected_db as int),
                )
            },
            Err(e) => {
                &&& e is ProtocolError
                &&& !(sp_parse(buf@) is More)
                &&& serve_blocked(buf@)
                &&& crate::core_execute::maps_unchanged(old(db).store, final(db).store)
            },
        },
{
    let ghost dbi = state.selected_db as int;
    let ghost flat0 = db_flat(old(db).store, dbi);
    let n = buf.len();
    let mut responses: Vec<Vec<u8>> = Vec::new();
    let mut records: Vec<Vec<u8>> = Vec::new();
    let mut pos: usize = 0;
    proof {
        assert(buf@.skip(0) =~= buf@);
        assert(vecs_view(responses@) =~= Seq::<Seq<u8>>::empty());
        assert(vecs_view(records@) =~= Seq::<Seq<u8>>::empty());
        lemma_serve_prefix_trivial(buf@, flat0, now_ms);
    }
    while pos < n
        invariant
            pos <= n,
            n == buf@.len(),
            db.store.wf(),
            state.selected_db < crate::db::NUM_DATABASES,
            dbi == state.selected_db as int,
            flat0 == db_flat(old(db).store, dbi),
            serve_model(buf@, flat0, now_ms) == ({
                let out = serve_model(buf@.skip(pos as int), db_flat(db.store, dbi), now_ms);
                (vecs_view(responses@) + out.0, vecs_view(records@) + out.1, out.2)
            }),
            pos == 0 ==> *db == *old(db) && responses@.len() == 0 && records@.len() == 0,
        decreases n - pos,
    {
        match parse_frame_from_cursor(buf, pos) {
            Err(e) => {
                proof {
                    lemma_serve_stop(buf@, pos as int, db_flat(db.store, dbi), now_ms);
                    assert(vecs_view(responses@) + Seq::<Seq<u8>>::empty() =~= vecs_view(
                        responses@,
                    ));
                    assert(vecs_view(records@) + Seq::<Seq<u8>>::empty() =~= vecs_view(
                        records@,
                    ));
                }
                if pos == 0 {
                    proof {
                        assert(buf@.skip(0) =~= buf@);
                        assert(crate::core_execute::maps_unchanged(old(db).store, db.store));
                    }
                    return Err(e);
                }
                return Ok((responses, records, pos));
            },
            Ok(None) => {
                proof {
                    lemma_serve_stop(buf@, pos as int, db_flat(db.store, dbi), now_ms);
                    assert(vecs_view(responses@) + Seq::<Seq<u8>>::empty() =~= vecs_view(
                        responses@,
                    ));
                    assert(vecs_view(records@) + Seq::<Seq<u8>>::empty() =~= vecs_view(
                        records@,
                    ));
                }
                return Ok((responses, records, pos));
            },
            Ok(Some((frame, np))) => {
                let ghost fv = frame@;
                match Command::from_frame(frame) {
                    Err(e) => {
                        proof {
                            assert(sp_parse(buf@.skip(pos as int)) == ParseStep::Good(
                                fv,
                                np - pos,
                            ));
                            assert(sp_command(fv) is Err);
                            lemma_serve_stop(buf@, pos as int, db_flat(db.store, dbi), now_ms);
                            assert(vecs_view(responses@) + Seq::<Seq<u8>>::empty()
                                =~= vecs_view(responses@));
                            assert(vecs_view(records@) + Seq::<Seq<u8>>::empty() =~= vecs_view(
                                records@,
                            ));
                        }
                        if pos == 0 {
                            proof {
                                assert(buf@.skip(0) =~= buf@);
                                assert(crate::core_execute::maps_unchanged(
                                    old(db).store,
                                    db.store,
                                ));
                            }
                            return Err(e);
                        }
                        return Ok((responses, records, pos));
                    },
                    Ok(command) => {
                        let ghost pre_pos = pos as int;
                        let ghost pre_flat = db_flat(db.store, dbi);
                        let ghost pre_store = db.store;
                        let ghost pre_responses = vecs_view(responses@);
                        let ghost pre_records = vecs_view(records@);
                        let (response, record) = execute_command_normal(
                            db,
                            state,
                            &command,
                            now_ms,
                            IsAof::Yes,
                        );
                        let ghost resp_v = response@;
                        responses.push(response.serialize());
                        let ghost had_record = record is Some;
                        match record {
                            Some(bytes) => {
                                records.push(bytes);
                            },
                            None => {
                            },
                        }
                        proof {
                            let s_cur = buf@.skip(pre_pos);
                            let c = np - pre_pos;
                            assert(sp_parse(s_cur) == ParseStep::Good(fv, c));
                            assert(s_cur.skip(c) =~= buf@.skip(np as int));
                            assert(sp_command(fv) == Ok::<_, ()>(command@));
                            match &command {
                                Command::SetCmd(set) => {
                                    if deadline_fits(set.expiration, now_ms) {
                                        lemma_flat_after_set(
                                            pre_store,
                                            db.store,
                                            dbi,
                                            set.key@,
                                            set.value@,
                                            set.expiration,
                                            now_ms,
                                        );
                                    } else {
                                        lemma_flat_unchanged(pre_store, db.store, dbi);
                                    }
                                },
                                Command::Get(get) => {
                                    lemma_flat_unchanged(pre_store, db.store, dbi);
                                    assert(get_response(pre_flat, get.key@, now_ms)
                                        == get_response(
                                        pre_store.shard_map(
                                            dbi,
                                            crate::db::eviction::shard_of(get.key@),
                                        ),
                                        get.key@,
                                        now_ms,
                                    )) by {
                                        let sm = pre_store.shard_map(
                                            dbi,
                                            crate::db::eviction::shard_of(get.key@),
                                        );
                                        assert(pre_flat.dom().contains(get.key@)
                                            <==> sm.dom().contains(get.key@));
                                        if sm.dom().contains(get.key@) {
                                            assert(pre_flat[get.key@] == sm[get.key@]);
                                        }
                                    }
                                },
                                _ => {
                                    lemma_flat_unchanged(pre_store, db.store, dbi);
                                },
                            }
                            assert(serve_next(pre_flat, command@, now_ms) == db_flat(
                                db.store,
                                dbi,
                            ));
                            assert(resp_v == serve_response(pre_flat, command@, now_ms));
                            assert(vecs_view(responses@) =~= pre_responses + seq![
                                sp_ser(resp_v),
                            ]);
                            if had_record {
                                assert(serve_record(command@, now_ms) matches Some(rec)
                                    && vecs_view(records@) =~= pre_records + seq![rec]);
                            } else {
                                assert(serve_record(command@, now_ms) is None);
                                assert(vecs_view(records@) =~= pre_records);
                            }
                            lemma_serve_shift(
                                buf@,
                                pre_pos,
                                np as int,
                                pre_flat,
                                db_flat(db.store, dbi),
                                command@,
                                fv,
                                now_ms,
                                flat0,
                                pre_responses,
                                pre_records,
                                vecs_view(responses@),
                                vecs_view(records@),
                            );
                        }
                        pos = np;
                    },
                }
            },
        }
    }
    proof {
        assert(buf@.skip(pos as int) =~= Seq::<u8>::empty());
        assert(vecs_view(responses@) + Seq::<Seq<u8>>::empty() =~= vecs_view(responses@));
        assert(vecs_view(records@) + Seq::<Seq<u8>>::empty() =~= vecs_view(records@));
    }
    Ok((responses, records, pos))
}

/// The model applied over an empty ledger prefix changes nothing.
proof fn lemma_serve_prefix_trivial(s: Seq<u8>, m: Map<Seq<u8>, EntryV>, now_ms: u64)
    ensures
        serve_model(s, m, now_ms) == ({
            let out = serve_model(s, m, now_ms);
            (
                Seq::<Seq<u8>>::empty() + out.0,
                Seq::<Seq<u8>>::empty() + out.1,
                out.2,
            )
        }),
{
    let out = serve_model(s, m, now_ms);
    assert(Seq::<Seq<u8>>::empty() + out.0 =~= out.0);
    assert(Seq::<Seq<u8>>::empty() + out.1 =~= out.1);
}

/// At a blocked tail, the model stops with what it has.
proof fn lemma_serve_stop(s: Seq<u8>, pos: int, m: Map<Seq<u8>, EntryV>, now_ms: u64)
    requires
        0 <= pos <= s.len(),
        serve_blocked(s.skip(pos)),
    ensures
        serve_model(s.skip(pos), m, now_ms) == (
            Seq::<Seq<u8>>::empty(),
            Seq::<Seq<u8>>::empty(),
            m,
        ),
{
    if s.skip(pos).len() == 0 {
    }
}

/// One executed command moves the model's ledger by one response, at
/// most one record, and one state step.
#[verifier::spinoff_prover]
proof fn lemma_serve_shift(
    s: Seq<u8>,
    pos: int,
    np: int,
    m_pre: Map<Seq<u8>, EntryV>,
    m_post: Map<Seq<u8>, EntryV>,
    cmd: CommandV,
    fv: FrameV,
    now_ms: u64,
    flat0: Map<Seq<u8>, EntryV>,
    resp_pre: Seq<Seq<u8>>,
    rec_pre: Seq<Seq<u8>>,
    resp_post: Seq<Seq<u8>>,
    rec_post: Seq<Seq<u8>>,
)
    requires
        0 <= pos < np <= s.len(),
        sp_parse(s.skip(pos)) == ParseStep::Good(fv, np - pos),
        sp_command(fv) == Ok::<_, ()>(cmd),
        m_post == serve_next(m_pre, cmd, now_ms),
        resp_post == resp_pre + seq![sp_ser(serve_response(m_pre, cmd, now_ms))],
        rec_post == (match serve_record(cmd, now_ms) {
            Some(rec) => rec_pre + seq![rec],
            None => rec_pre,
        }),
        serve_model(s, flat0, now_ms) == ({
            let out = serve_model(s.skip(pos), m_pre, now_ms);
            (resp_pre + out.0, rec_pre + out.1, out.2)
        }),
    ensures
        serve_model(s, flat0, now_ms) == ({
            let out = serve_model(s.skip(np), m_post, now_ms);
            (resp_post + out.0, rec_post + out.1, out.2)
        }),
{
    let s_cur = s.skip(pos);
    let c = np - pos;
    assert(s_cur.skip(c) =~= s.skip(np));
    assert(s_cur.len() > 0);
    let out = serve_model(s.skip(np), m_post, now_ms);
    assert(serve_model(s_cur, m_pre, now_ms) == (
        seq![sp_ser(serve_response(m_pre, cmd, now_ms))] + out.0,
        match serve_record(cmd, now_ms) {
            Some(rec) => seq![rec] + out.1,
            None => out.1,
        },
        out.2,
    ));
    assert(resp_pre + (seq![sp_ser(serve_response(m_pre, cmd, now_ms))] + out.0) =~= resp_post
        + out.0);
    match serve_record(cmd, now_ms) {
        Some(rec) => {
            assert(rec_pre + (seq![rec] + out.1) =~= rec_post + out.1);
        },
        None => {
        },
    }
}

/// The first CRLF of the buffer, if any: the split point of inline
/// lines.
pub fn find_crlf_idiomatic(buf: &[u8]) -> (r: Option<usize>)
    ensures
        match r {
            Some(i) => sp_find_crlf(buf@, 0) == Some(i as int),
            None => sp_find_crlf(buf@, 0) is None,
        },
{
    let n = buf.len();
    if n < 2 {
        proof {
            lemma_sp_find_crlf_props(buf@, 0);
            if sp_find_crlf(buf@, 0) is Some {
                let j = sp_find_crlf(buf@, 0)->0;
                assert(crlf_at(buf@, j));
            }
        }
        return None;
    }
    let mut i: usize = 0;
    while i + 1 < n
        invariant
            i + 1 <= n,
            n == buf@.len(),
            forall|k: int| 0 <= k < i ==> !crlf_at(buf@, k),
        decreases n - i,
    {
        if buf[i] == 13 && buf[i + 1] == 10 {
            proof {
                assert(crlf_at(buf@, i as int));
                crate::core_execute::lemma_sp_find_first(buf@, 0, i as int);
            }
            return Some(i);
        }
        assert(!crlf_at(buf@, i as int));
        i = i + 1;
    }
    proof {
        lemma_sp_find_crlf_props(buf@, 0);
        if sp_find_crlf(buf@, 0) is Some {
            let j = sp_find_crlf(buf@, 0)->0;
            assert(crlf_at(buf@, j));
        }
    }
    None
}

/// The next array marker at or after `from`: where the connection can
/// resynchronize after a malformed command.
pub fn find_array_marker(buf: &[u8], from: usize) -> (r: Option<usize>)
    requires
        from <= buf@.len(),
    ensures
        match r {
            Some(i) => from <= i < buf@.len() && buf@[i as int] == 42 && forall|k: int|
                from <= k < i ==> buf@[k] != 42,
            None => forall|k: int| from <= k < buf@.len() ==> buf@[k] != 42,
        },
{
    let n = buf.len();
    let mut i: usize = from;
    while i < n
        invariant
            from <= i <= n,
            n == buf@.len(),
            forall|k: int| from <= k < i ==> buf@[k] != 42,
        decreases n - i,
    {
        if buf[i] == 42 {
            return Some(i);
        }
        i = i + 1;
    }
    None
}

} // verus!
