//! The wire-frame serializer, and its agreement with the decoder.

use vstd::prelude::*;
use crate::bytes_util::push_all;
use crate::command_execute::all_digits;
use crate::command_execute::dec_digits;
use crate::command_execute::fmt_i64;
use crate::command_execute::lemma_dec_digits;
use crate::error::Command;
use crate::error::Frame;
use crate::error::KvError;
use crate::error::FrameV;
use crate::error::frames_view;
use crate::error::lemma_frames_view_index;
use crate::core_explain::ElemsStep;
use crate::core_explain::ParseStep;
use crate::core_explain::crlf_at;
use crate::core_explain::sp_find_crlf;
use crate::core_explain::sp_parse;
use crate::core_explain::sp_parse_elems;

verus! {

broadcast use vstd::std_specs::vec::group_vec_axioms, vstd::seq::group_seq_axioms;

/// The two framing bytes that end every line.
pub open spec fn crlf() -> Seq<u8> {
    seq![13u8, 10u8]
}

/// The canonical wire bytes of a frame.
pub open spec fn sp_ser(f: FrameV) -> Seq<u8>
    decreases f,
{
    match f {
        FrameV::Simple(s) => seq![43u8] + s + crlf(),
        FrameV::Error(e) => seq![45u8] + e + crlf(),
        FrameV::Integer(i) => seq![58u8] + fmt_i64(i) + crlf(),
        FrameV::Null => seq![36u8, 45u8, 49u8, 13u8, 10u8],
        FrameV::Bulk(b) => seq![36u8] + dec_digits(b.len()) + crlf() + b + crlf(),
        FrameV::Array(items) => seq![42u8] + dec_digits(items.len()) + crlf() + sp_ser_all(items),
    }
}

/// The wire bytes of a run of frames, in order.
pub open spec fn sp_ser_all(items: Seq<FrameV>) -> Seq<u8>
    decreases items,
{
    if items.len() == 0 {
        Seq::empty()
    } else {
        sp_ser_all(items.drop_last()) + sp_ser(items.last())
    }
}

/// Push the canonical decimal text of `n` onto `out`.
fn push_decimal_len(out: &mut Vec<u8>, n: usize)
    ensures
        final(out)@ == old(out)@ + dec_digits(n as nat),
{
    let digits = crate::aof_exchange::parse_int_from_bytes(n as u64);
    push_all(out, digits.as_slice());
}

/// Push a CRLF onto `out`.
fn push_crlf(out: &mut Vec<u8>)
    ensures
        final(out)@ == old(out)@ + crlf(),
{
    out.push(13);
    out.push(10);
    assert(out@ =~= old(out)@ + crlf());
}

impl Frame {
    /// Serialize this frame into its canonical wire bytes.
    #[verifier::loop_isolation(false)]
    pub fn serialize(&self) -> (r: Vec<u8>)
        ensures
            r@ == sp_ser(self@),
        decreases *self,
    {
        match self {
            Frame::Simple(s) => {
                let mut out: Vec<u8> = Vec::new();
                out.push(43);
                assert(out@ =~= seq![43u8]);
                push_all(&mut out, s.as_slice());
                push_crlf(&mut out);
                assert(out@ =~= seq![43u8] + s@ + crlf());
                out
            },
            Frame::Error(e) => {
                let mut out: Vec<u8> = Vec::new();
                out.push(45);
                assert(out@ =~= seq![45u8]);
                push_all(&mut out, e.as_slice());
                push_crlf(&mut out);
                assert(out@ =~= seq![45u8] + e@ + crlf());
                out
            },
            Frame::Integer(i) => {
                let mut out: Vec<u8> = Vec::new();
                out.push(58);
                assert(out@ =~= seq![58u8]);
                let digits = crate::command_execute::parse_int_from_bytes(*i);
                push_all(&mut out, digits.as_slice());
                push_crlf(&mut out);
                assert(out@ =~= seq![58u8] + fmt_i64(*i) + crlf());
                out
            },
            Frame::Null => {
                let mut out: Vec<u8> = Vec::new();
                out.push(36);
                out.push(45);
                out.push(49);
                out.push(13);
                out.push(10);
                assert(out@ =~= seq![36u8, 45u8, 49u8, 13u8, 10u8]);
                out
            },
            Frame::Bulk(b) => {
                let mut out: Vec<u8> = Vec::new();
                out.push(36);
                assert(out@ =~= seq![36u8]);
                push_decimal_len(&mut out, b.len());
                push_crlf(&mut out);
                push_all(&mut out, b.as_slice());
                push_crlf(&mut out);
                assert(out@ =~= seq![36u8] + dec_digits(b@.len()) + crlf() + b@ + crlf());
                out
            },
            Frame::Array(items) => {
                let mut out: Vec<u8> = Vec::new();
                out.push(42);
                assert(out@ =~= seq![42u8]);
                push_decimal_len(&mut out, items.len());
                push_crlf(&mut out);
                let ghost fv = frames_view(items@);
                let ghost header = seq![42u8] + dec_digits(items@.len() as nat) + crlf();
                assert(out@ =~= header);
                proof {
                    lemma_frames_view_index(items@);
                }
                let n = items.len();
                let mut j: usize = 0;
                while j < n
                    invariant
                        j <= n,
                        n == items@.len(),
                        fv == frames_view(items@),
                        fv.len() == n,
                        forall|k: int| 0 <= k < n ==> fv[k] == frame_view_of(items@, k),
                        out@ == header + sp_ser_all(fv.subrange(0, j as int)),
                    decreases n - j,
                {
                    let piece = items[j].serialize();
                    push_all(&mut out, piece.as_slice());
                    proof {
                        let pre = fv.subrange(0, j as int);
                        let post = fv.subrange(0, j + 1 as int);
                        assert(post.drop_last() =~= pre);
                        assert(post.last() == fv[j as int]);
                        assert(sp_ser_all(post) == sp_ser_all(pre) + sp_ser(fv[j as int]));
                        assert(piece@ == sp_ser(fv[j as int]));
                        assert(out@ =~= header + sp_ser_all(post));
                    }
                    j = j + 1;
                }
                proof {
                    assert(fv.subrange(0, n as int) =~= fv);
                }
                out
            },
        }
    }
}

/// A helper to name `frame_view` of an element inside quantifiers.
pub open spec fn frame_view_of(items: Seq<Frame>, k: int) -> FrameV {
    crate::error::frame_view(items[k])
}

/// A frame of the command class: an array whose elements are all bulks,
/// small enough to exist in memory.
pub open spec fn bulk_fits(f: FrameV) -> bool {
    f matches FrameV::Bulk(b) && b.len() <= usize::MAX
}

pub open spec fn cmd_frame_fits(f: FrameV) -> bool {
    &&& f matches FrameV::Array(items)
    &&& f matches FrameV::Array(items) ==> items.len() <= usize::MAX && (forall|i: int|
        0 <= i < items.len() ==> bulk_fits(#[trigger] items[i]))
}

/// If `j` holds the first CRLF at or after `i`, the search finds it.
pub proof fn lemma_sp_find_first(s: Seq<u8>, i: int, j: int)
    requires
        0 <= i <= j,
        crlf_at(s, j),
        forall|k: int| i <= k < j ==> !crlf_at(s, k),
    ensures
        sp_find_crlf(s, i) == Some(j),
    decreases j - i,
{
    if i < j {
        assert(!crlf_at(s, i));
        lemma_sp_find_first(s, i + 1, j);
    }
}

/// Decoding the serialization of a bulk yields that bulk and consumes
/// exactly its bytes, whatever follows.
proof fn lemma_bulk_round_trip(b: Seq<u8>, tail: Seq<u8>)
    requires
        b.len() <= usize::MAX,
    ensures
        sp_parse(sp_ser(FrameV::Bulk(b)) + tail) == ParseStep::Good(
            FrameV::Bulk(b),
            sp_ser(FrameV::Bulk(b)).len() as int,
        ),
{
    let d = dec_digits(b.len());
    lemma_dec_digits(b.len());
    let enc = sp_ser(FrameV::Bulk(b));
    let s = enc + tail;
    let j = 1 + d.len() as int;
    let n = b.len() as int;
    assert(enc == seq![36u8] + d + crlf() + b + crlf());
    assert(s.len() == 1 + d.len() + 2 + b.len() + 2 + tail.len());
    assert(s[0] == 36);
    assert forall|k: int| 1 <= k < j implies s[k] == d[k - 1] by {}
    assert forall|k: int| 0 <= k < j implies !crlf_at(s, k) by {
        if k >= 1 {
            assert(is_digit_byte(d[k - 1])) by {
                assert(all_digits(d));
            }
        }
    }
    assert(s[j] == 13);
    assert(s[j + 1] == 10);
    assert(crlf_at(s, j));
    lemma_sp_find_first(s, 0, j);
    assert(s.subrange(1, j) =~= d);
    assert(s[j + 2 + n] == 13);
    assert(s[j + 2 + n + 1] == 10);
    assert(s.subrange(j + 2, j + 2 + n) =~= b);
    assert(sp_parse(s) == ParseStep::Good(FrameV::Bulk(b), j + 2 + n + 2));
}

/// A digit seen as a plain predicate, to steer triggers.
spec fn is_digit_byte(x: u8) -> bool {
    48 <= x <= 57
}

/// `sp_ser_all` can be split at the front as well.
proof fn lemma_sp_ser_all_first(items: Seq<FrameV>)
    requires
        items.len() > 0,
    ensures
        sp_ser_all(items) == sp_ser(items[0]) + sp_ser_all(items.drop_first()),
    decreases items.len(),
{
    if items.len() == 1 {
        assert(items.drop_last() =~= Seq::<FrameV>::empty());
        assert(items.drop_first() =~= Seq::<FrameV>::empty());
        assert(items.last() == items[0]);
        assert(sp_ser_all(items) =~= sp_ser(items[0]) + sp_ser_all(items.drop_first()));
    } else {
        let body = items.drop_last();
        lemma_sp_ser_all_first(body);
        assert(body[0] == items[0]);
        assert(body.drop_first() =~= items.drop_first().drop_last());
        assert(items.drop_first().last() == items.last());
        assert(sp_ser_all(items.drop_first()) == sp_ser_all(items.drop_first().drop_last())
            + sp_ser(items.last()));
        assert(sp_ser_all(items) =~= sp_ser(items[0]) + sp_ser_all(items.drop_first()));
    }
}

/// Decoding the concatenated serializations of `k` bulks yields those `k`
/// frames and consumes exactly their bytes.
proof fn lemma_elems_round_trip(items: Seq<FrameV>, tail: Seq<u8>)
    requires
        forall|i: int| 0 <= i < items.len() ==> bulk_fits(#[trigger] items[i]),
    ensures
        sp_parse_elems(sp_ser_all(items) + tail, items.len()) == ElemsStep::Good(
            items,
            sp_ser_all(items).len() as int,
        ),
    decreases items.len(),
{
    if items.len() == 0 {
        assert(sp_ser_all(items) =~= Seq::<u8>::empty());
        assert(sp_ser_all(items) + tail =~= tail);
        assert(sp_parse_elems(tail, 0) == ElemsStep::Good(Seq::<FrameV>::empty(), 0));
        assert(items =~= Seq::<FrameV>::empty());
    } else {
        let first = items[0];
        let rest = items.drop_first();
        lemma_sp_ser_all_first(items);
        let s = sp_ser_all(items) + tail;
        let b = first->Bulk_0;
        assert(bulk_fits(first));
        assert(first == FrameV::Bulk(b));
        let c0 = sp_ser(first).len() as int;
        assert(s =~= sp_ser(first) + (sp_ser_all(rest) + tail));
        lemma_bulk_round_trip(b, sp_ser_all(rest) + tail);
        assert(sp_parse(s) == ParseStep::Good(first, c0));
        assert(c0 >= 5);
        assert(c0 <= s.len());
        assert(s.skip(c0) =~= sp_ser_all(rest) + tail);
        assert(forall|i: int| 0 <= i < rest.len() ==> bulk_fits(#[trigger] rest[i])) by {
            assert(forall|i: int| 0 <= i < rest.len() ==> rest[i] == #[trigger] items[i + 1]);
        }
        lemma_elems_round_trip(rest, tail);
        assert(sp_parse_elems(s.skip(c0), (items.len() - 1) as nat) == ElemsStep::Good(
            rest,
            sp_ser_all(rest).len() as int,
        ));
        assert(seq![first] + rest =~= items);
        assert(sp_parse_elems(s, items.len()) == ElemsStep::Good(
            items,
            c0 + sp_ser_all(rest).len(),
        ));
        assert(sp_ser_all(items).len() == c0 + sp_ser_all(rest).len());
    }
}

/// The four bytes every error text opens with: `ERR `.
pub open spec fn err_prefix_v() -> Seq<u8> {
    seq![69u8, 82u8, 82u8, 32u8]
}

/// The error-frame text of an error value: `ERR <note>`.
pub open spec fn kv_error_frame(e: KvError) -> FrameV {
    match e {
        KvError::ProtocolError(m) => FrameV::Error(err_prefix_v() + m@),
        KvError::UnexpectedEof => FrameV::Error(
            seq![
                69u8, 82u8, 82u8, 32u8, 117u8, 110u8, 101u8, 120u8, 112u8, 101u8, 99u8, 116u8,
                101u8, 100u8, 32u8, 101u8, 110u8, 100u8, 32u8, 111u8, 102u8, 32u8, 105u8,
                110u8, 112u8, 117u8, 116u8,
            ],
        ),
        KvError::Unimplement => FrameV::Error(
            seq![
                69u8, 82u8, 82u8, 32u8, 117u8, 110u8, 105u8, 109u8, 112u8, 108u8, 101u8,
                109u8, 101u8, 110u8, 116u8, 101u8, 100u8,
            ],
        ),
    }
}

/// Render an error as the error frame a client sees.
pub fn error_frame(e: KvError) -> (r: Frame)
    ensures
        r@ == kv_error_frame(e),
{
    match e {
        KvError::ProtocolError(m) => {
            let prefix: [u8; 4] = [69, 82, 82, 32];
            let mut text = crate::bytes_util::slice_to_vec8(prefix.as_slice());
            push_all(&mut text, m.as_slice());
            proof {
                assert(text@ =~= err_prefix_v() + m@);
            }
            Frame::Error(text)
        },
        KvError::UnexpectedEof => {
            let text: [u8; 27] = [
                69, 82, 82, 32, 117, 110, 101, 120, 112, 101, 99, 116, 101, 100, 32, 101, 110,
                100, 32, 111, 102, 32, 105, 110, 112, 117, 116,
            ];
            let f = Frame::Error(crate::bytes_util::slice_to_vec8(text.as_slice()));
            proof {
                assert(f@ =~= kv_error_frame(KvError::UnexpectedEof));
            }
            f
        },
        KvError::Unimplement => {
            let text: [u8; 17] = [
                69, 82, 82, 32, 117, 110, 105, 109, 112, 108, 101, 109, 101, 110, 116, 101,
                100,
            ];
            let f = Frame::Error(crate::bytes_util::slice_to_vec8(text.as_slice()));
            proof {
                assert(f@ =~= kv_error_frame(KvError::Unimplement));
            }
            f
        },
    }
}

/// The error a direct `EVAL` answers: scripts run on the worker pool,
/// which the process wires up around the library.
pub open spec fn script_unavailable_msg() -> Seq<u8> {
    seq![
        69u8, 82u8, 82u8, 32u8, 115u8, 99u8, 114u8, 105u8, 112u8, 116u8, 32u8, 101u8, 110u8,
        103u8, 105u8, 110u8, 101u8, 32u8, 117u8, 110u8, 97u8, 118u8, 97u8, 105u8, 108u8, 97u8,
        98u8, 108u8, 101u8,
    ]
}

/// No shard's mapping moved.
pub open spec fn maps_unchanged(pre: crate::db::Storage, post: crate::db::Storage) -> bool {
    forall|d: int, s: int|
        0 <= d < crate::db::NUM_DATABASES && 0 <= s < crate::db::eviction::NUM_SHARDS
            ==> #[trigger] post.shard_map(d, s) == pre.shard_map(d, s)
}

/// The shard `(d, s)` after a `SET` in database `dbi`: the one shard
/// the key routes to takes the entry, every other one is as it was.
pub open spec fn set_shard_after(
    pre: crate::db::Storage,
    dbi: int,
    key: Seq<u8>,
    value: Seq<u8>,
    exp: Option<crate::error::Expiration>,
    now_ms: u64,
    d: int,
    s: int,
) -> Map<Seq<u8>, crate::types::EntryV> {
    if d == dbi && s == crate::db::eviction::shard_of(key) {
        pre.shard_map(d, s).insert(
            key,
            crate::command_execute::string::set_entry(
                value,
                crate::command_execute::string::set_deadline(exp, now_ms),
            ),
        )
    } else {
        pre.shard_map(d, s)
    }
}

/// A `SET` of `key` to `value` landed in its shard of database `dbi`;
/// every other shard of the keyspace is as it was.
pub open spec fn set_applied(
    pre: crate::db::Storage,
    post: crate::db::Storage,
    dbi: int,
    key: Seq<u8>,
    value: Seq<u8>,
    exp: Option<crate::error::Expiration>,
    now_ms: u64,
) -> bool {
    forall|d: int, s: int|
        0 <= d < crate::db::NUM_DATABASES && 0 <= s < crate::db::eviction::NUM_SHARDS
            ==> #[trigger] post.shard_map(d, s) == set_shard_after(
            pre,
            dbi,
            key,
            value,
            exp,
            now_ms,
            d,
            s,
        )
}

/// What one executed command did: the response it answered, the log
/// record it left, and how the keyspace moved.
pub open spec fn normal_effect(
    pre: crate::db::Storage,
    post: crate::db::Storage,
    dbi: int,
    cmd: Command,
    now_ms: u64,
    is_aof: crate::error::IsAof,
    resp: Frame,
    aof: Option<Vec<u8>>,
) -> bool {
    match cmd {
        Command::Get(g) => {
            &&& maps_unchanged(pre, post)
            &&& resp@ == crate::command_execute::string::get_response(
                pre.shard_map(dbi, crate::db::eviction::shard_of(g.key@)),
                g.key@,
                now_ms,
            )
            &&& aof is None
        },
        Command::SetCmd(c) => {
            if crate::command_execute::string::deadline_fits(c.expiration, now_ms) {
                &&& resp@ == FrameV::Simple(crate::command_execute::string::ok_payload())
                &&& set_applied(pre, post, dbi, c.key@, c.value@, c.expiration, now_ms)
                &&& match is_aof {
                    crate::error::IsAof::Yes => aof matches Some(bytes) && (aof matches Some(
                        bytes,
                    ) ==> bytes@ == sp_ser(
                        crate::aof_exchange::aof_set_record(
                            c.key@,
                            c.value@,
                            c.expiration,
                            c.condition,
                            now_ms,
                        ),
                    )),
                    crate::error::IsAof::No => aof is None,
                }
            } else {
                &&& maps_unchanged(pre, post)
                &&& resp@ == FrameV::Error(
                    err_prefix_v() + crate::command_exchange::string::shape_error_msg(),
                )
                &&& aof is None
            }
        },
        Command::Ping(p) => {
            &&& maps_unchanged(pre, post)
            &&& resp@ == (match p.value {
                Some(v) => FrameV::Bulk(v@),
                None => FrameV::Simple(crate::command_execute::common::pong_payload()),
            })
            &&& aof is None
        },
        Command::Unimplement(u) => {
            &&& maps_unchanged(pre, post)
            &&& resp@ == FrameV::Error(
                crate::command_execute::common::unknown_command_msg(u.command@),
            )
            &&& aof is None
        },
        Command::EvalCommand(_) => {
            &&& maps_unchanged(pre, post)
            &&& resp@ == FrameV::Error(script_unavailable_msg())
            &&& aof is None
        },
    }
}

/// One database as one flat mapping: each key read out of the shard
/// it routes to. Routing is a function of the key alone, so this
/// mapping determines the shard contents and the other way round.
pub open spec fn db_flat(st: crate::db::Storage, d: int) -> Map<Seq<u8>, crate::types::EntryV> {
    Map::new(
        |k: Seq<u8>| st.shard_map(d, crate::db::eviction::shard_of(k)).dom().contains(k),
        |k: Seq<u8>| st.shard_map(d, crate::db::eviction::shard_of(k))[k],
    )
}

/// A `SET` in database `dbi` moves its flat mapping by one insert.
pub proof fn lemma_flat_after_set(
    pre: crate::db::Storage,
    post: crate::db::Storage,
    dbi: int,
    key: Seq<u8>,
    value: Seq<u8>,
    exp: Option<crate::error::Expiration>,
    now_ms: u64,
)
    requires
        0 <= dbi < crate::db::NUM_DATABASES,
        set_applied(pre, post, dbi, key, value, exp, now_ms),
    ensures
        db_flat(post, dbi) == db_flat(pre, dbi).insert(
            key,
            crate::command_execute::string::set_entry(
                value,
                crate::command_execute::string::set_deadline(exp, now_ms),
            ),
        ),
{
    let entry = crate::command_execute::string::set_entry(
        value,
        crate::command_execute::string::set_deadline(exp, now_ms),
    );
    assert forall|k: Seq<u8>| true implies {
        &&& db_flat(post, dbi).dom().contains(k) <==> db_flat(pre, dbi).insert(
            key,
            entry,
        ).dom().contains(k)
        &&& db_flat(post, dbi).dom().contains(k) ==> db_flat(post, dbi)[k] == db_flat(
            pre,
            dbi,
        ).insert(key, entry)[k]
    } by {
        let s = crate::db::eviction::shard_of(k);
        assert(0 <= s < crate::db::eviction::NUM_SHARDS);
        assert(post.shard_map(dbi, s) == set_shard_after(pre, dbi, key, value, exp, now_ms, dbi, s));
    }
    assert(db_flat(post, dbi) =~= db_flat(pre, dbi).insert(key, entry));
}

/// When no shard moved, no flat mapping moved either.
pub proof fn lemma_flat_unchanged(pre: crate::db::Storage, post: crate::db::Storage, dbi: int)
    requires
        0 <= dbi < crate::db::NUM_DATABASES,
        maps_unchanged(pre, post),
    ensures
        db_flat(post, dbi) == db_flat(pre, dbi),
{
    assert forall|k: Seq<u8>| true implies {
        &&& db_flat(post, dbi).dom().contains(k) <==> db_flat(pre, dbi).dom().contains(k)
        &&& db_flat(post, dbi).dom().contains(k) ==> db_flat(post, dbi)[k] == db_flat(pre, dbi)[k]
    } by {
        let s = crate::db::eviction::shard_of(k);
        assert(0 <= s < crate::db::eviction::NUM_SHARDS);
        assert(post.shard_map(dbi, s) == pre.shard_map(dbi, s));
    }
    assert(db_flat(post, dbi) =~= db_flat(pre, dbi));
}

/// Execute one command against the keyspace: route it to its shard,
/// apply it, and hand back the response frame and the log record the
/// command leaves when logging is on.
pub fn execute_command_normal(
    db: &mut crate::db::Db,
    state: &crate::context::ConnectionState,
    command: &Command,
    now_ms: u64,
    is_aof: crate::error::IsAof,
) -> (r: (Frame, Option<Vec<u8>>))
    requires
        old(db).store.wf(),
        state.selected_db < crate::db::NUM_DATABASES,
    ensures
        final(db).store.wf(),
        normal_effect(
            old(db).store,
            final(db).store,
            state.selected_db as int,
            *command,
            now_ms,
            is_aof,
            r.0,
            r.1,
        ),
{
    match command {
        Command::Get(get) => {
            let si = crate::db::eviction::MemoryCache::get_shard_index(&get.key);
            let shard = &db.store.store[state.selected_db].message[si];
            let frame = match get.execute(shard, now_ms) {
                Ok(f) => f,
                Err(e) => error_frame(e),
            };
            (frame, None)
        },
        Command::SetCmd(set) => {
            let ghost pre = db.store;
            let si = crate::db::eviction::MemoryCache::get_shard_index(&set.key);
            let dbi = state.selected_db;
            let shard = &mut db.store.store[dbi].message[si];
            match set.execute(shard, now_ms) {
                Ok(frame) => {
                    proof {
                        assert forall|d: int, s: int|
                            0 <= d < crate::db::NUM_DATABASES && 0 <= s
                                < crate::db::eviction::NUM_SHARDS implies #[trigger] db.store.shard_map(
                            d,
                            s,
                        ) == set_shard_after(
                            pre,
                            dbi as int,
                            set.key@,
                            set.value@,
                            set.expiration,
                            now_ms,
                            d,
                            s,
                        ) by {
                        }
                    }
                    let record = match is_aof {
                        crate::error::IsAof::Yes => set.execute_aof(now_ms),
                        crate::error::IsAof::No => {
                            return (frame, None);
                        },
                    };
                    (frame, Some(record))
                },
                Err(e) => {
                    proof {
                        assert forall|d: int, s: int|
                            0 <= d < crate::db::NUM_DATABASES && 0 <= s
                                < crate::db::eviction::NUM_SHARDS implies #[trigger] db.store.shard_map(
                            d,
                            s,
                        ) == pre.shard_map(d, s) by {
                        }
                    }
                    (error_frame(e), None)
                },
            }
        },
        Command::Ping(ping) => {
            let frame = match ping.execute() {
                Ok(f) => f,
                Err(e) => error_frame(e),
            };
            (frame, None)
        },
        Command::Unimplement(unimplement) => {
            let frame = match unimplement.execute() {
                Ok(f) => f,
                Err(e) => error_frame(e),
            };
            (frame, None)
        },
        Command::EvalCommand(_) => {
            let text: [u8; 29] = [
                69, 82, 82, 32, 115, 99, 114, 105, 112, 116, 32, 101, 110, 103, 105, 110, 101,
                32, 117, 110, 97, 118, 97, 105, 108, 97, 98, 108, 101,
            ];
            let f = Frame::Error(crate::bytes_util::slice_to_vec8(text.as_slice()));
            proof {
                assert(f@ =~= FrameV::Error(script_unavailable_msg()));
            }
            (f, None)
        },
    }
}

/// Execute a replayed command: database 0, log emission off.
pub fn execute_command(command: &Command, db: &mut crate::db::Db, now_ms: u64) -> (r: Frame)
    requires
        old(db).store.wf(),
    ensures
        final(db).store.wf(),
        normal_effect(
            old(db).store,
            final(db).store,
            0,
            *command,
            now_ms,
            crate::error::IsAof::No,
            r,
            None,
        ),
{
    let state = crate::context::ConnectionState::new_default();
    let (frame, _record) = execute_command_normal(
        db,
        &state,
        command,
        now_ms,
        crate::error::IsAof::No,
    );
    frame
}

/// The codec agreement law: a frame of the command class — an array of
/// bulk strings, as every request and every log record is — decodes from
/// its own serialization back to itself, consuming exactly its bytes,
/// whatever bytes follow it in the buffer.
pub proof fn lemma_wire_round_trip(f: FrameV, tail: Seq<u8>)
    requires
        cmd_frame_fits(f),
    ensures
        sp_parse(sp_ser(f) + tail) == ParseStep::Good(f, sp_ser(f).len() as int),
{
    let items = f->Array_0;
    assert(f == FrameV::Array(items));
    let d = dec_digits(items.len());
    lemma_dec_digits(items.len());
    let enc = sp_ser(f);
    let s = enc + tail;
    let j = 1 + d.len() as int;
    assert(enc == seq![42u8] + d + crlf() + sp_ser_all(items));
    assert(s[0] == 42);
    assert forall|k: int| 1 <= k < j implies s[k] == d[k - 1] by {}
    assert forall|k: int| 0 <= k < j implies !crlf_at(s, k) by {
        if k >= 1 {
            assert(is_digit_byte(d[k - 1])) by {
                assert(all_digits(d));
            }
        }
    }
    assert(s[j] == 13);
    assert(s[j + 1] == 10);
    assert(crlf_at(s, j));
    lemma_sp_find_first(s, 0, j);
    assert(s.subrange(1, j) =~= d);
    assert(s.skip(j + 2) =~= sp_ser_all(items) + tail);
    lemma_elems_round_trip(items, tail);
    assert(sp_parse(s) == ParseStep::Good(
        FrameV::Array(items),
        j + 2 + sp_ser_all(items).len(),
    ));
    assert(enc.len() == j + 2 + sp_ser_all(items).len());
}

} // verus!
