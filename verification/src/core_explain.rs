//! The wire-frame decoder.
//!
//! `sp_parse` is the mathematical decoder: given a byte sequence it either
//! rejects it (`Bad`), asks for more bytes (`More`), or yields the first
//! frame and the count of bytes it occupies (`Good`). The executable
//! decoder is proved to agree with it exactly; an incomplete prefix never
//! consumes anything.

use vstd::prelude::*;
use crate::bytes_util::copy_range;
use crate::bytes_util::slice_to_vec8;
use crate::command_execute::all_digits;
use crate::command_execute::dec_val;
use crate::error::Frame;
use crate::error::FrameV;
use crate::error::KvError;
use crate::error::frames_view;

verus! {

/// Is there a CRLF pair at index `k`?
pub open spec fn crlf_at(s: Seq<u8>, k: int) -> bool {
    0 <= k && k + 1 < s.len() && s[k] == 13 && s[k + 1] == 10
}

/// The first index `>= i` holding a CRLF pair, if any.
pub open spec fn sp_find_crlf(s: Seq<u8>, i: int) -> Option<int>
    decreases s.len() - i,
{
    if i < 0 || i + 1 >= s.len() {
        None
    } else if s[i] == 13 && s[i + 1] == 10 {
        Some(i)
    } else {
        sp_find_crlf(s, i + 1)
    }
}

/// What `sp_find_crlf` returns is the first CRLF at or after `i`.
pub proof fn lemma_sp_find_crlf_props(s: Seq<u8>, i: int)
    requires
        0 <= i,
    ensures
        match sp_find_crlf(s, i) {
            Some(j) => i <= j && crlf_at(s, j) && forall|k: int| i <= k < j ==> !crlf_at(s, k),
            None => forall|k: int| i <= k ==> !crlf_at(s, k),
        },
    decreases s.len() - i,
{
    if i + 1 >= s.len() {
    } else if s[i] == 13 && s[i + 1] == 10 {
    } else {
        lemma_sp_find_crlf_props(s, i + 1);
    }
}

/// One step of the mathematical decoder.
pub enum ParseStep {
    /// The bytes cannot begin a frame.
    Bad,
    /// The bytes are a proper prefix of a frame; nothing is consumed.
    More,
    /// The first frame, and how many bytes it occupies.
    Good(FrameV, int),
}

/// The decoder's verdict on a run of array elements.
pub enum ElemsStep {
    Bad,
    More,
    Good(Seq<FrameV>, int),
}

/// Decode the first frame of `s`. Only arrays and bulks arrive on the
/// wire, so only `*` and `$` markers are accepted.
pub open spec fn sp_parse(s: Seq<u8>) -> ParseStep
    decreases s.len(), 0int,
{
    if s.len() == 0 {
        ParseStep::More
    } else if s[0] == 42 {
        match sp_find_crlf(s, 0) {
            None => ParseStep::More,
            Some(j) => {
                let line = s.subrange(1, j);
                if !(0 <= j && j + 2 <= s.len() && line.len() >= 1 && all_digits(line)
                    && dec_val(line) <= usize::MAX) {
                    ParseStep::Bad
                } else {
                    match sp_parse_elems(s.skip(j + 2), dec_val(line) as nat) {
                        ElemsStep::Bad => ParseStep::Bad,
                        ElemsStep::More => ParseStep::More,
                        ElemsStep::Good(items, c) => ParseStep::Good(
                            FrameV::Array(items),
                            j + 2 + c,
                        ),
                    }
                }
            },
        }
    } else if s[0] == 36 {
        match sp_find_crlf(s, 0) {
            None => ParseStep::More,
            Some(j) => {
                let line = s.subrange(1, j);
                if !(line.len() >= 1 && all_digits(line) && dec_val(line) <= usize::MAX) {
                    ParseStep::Bad
                } else {
                    let n = dec_val(line);
                    if s.len() < j + 2 + n + 2 {
                        ParseStep::More
                    } else if !(s[j + 2 + n] == 13 && s[j + 2 + n + 1] == 10) {
                        ParseStep::Bad
                    } else {
                        ParseStep::Good(FrameV::Bulk(s.subrange(j + 2, j + 2 + n)), j + 2 + n + 2)
                    }
                }
            },
        }
    } else {
        ParseStep::Bad
    }
}

/// Decode `k` consecutive frames from the front of `s`.
pub open spec fn sp_parse_elems(s: Seq<u8>, k: nat) -> ElemsStep
    decreases s.len(), k + 1int,
{
    if k == 0 {
        ElemsStep::Good(Seq::empty(), 0)
    } else {
        match sp_parse(s) {
            ParseStep::Bad => ElemsStep::Bad,
            ParseStep::More => ElemsStep::More,
            ParseStep::Good(f, c) => {
                if 0 < c <= s.len() {
                    match sp_parse_elems(s.skip(c), (k - 1) as nat) {
                        ElemsStep::Bad => ElemsStep::Bad,
                        ElemsStep::More => ElemsStep::More,
                        ElemsStep::Good(fs, c2) => ElemsStep::Good(seq![f] + fs, c + c2),
                    }
                } else {
                    ElemsStep::Bad
                }
            },
        }
    }
}

/// How an executable decoding outcome must relate to the mathematical one
/// for the suffix of `s` that starts at `pos`.
pub open spec fn step_matches(
    r: Result<Option<(Frame, usize)>, KvError>,
    s: Seq<u8>,
    pos: int,
) -> bool {
    match sp_parse(s.skip(pos)) {
        ParseStep::Good(fv, c) => {
            &&& r matches Ok(Some((f, np)))
            &&& r matches Ok(Some((f, np))) ==> f@ == fv && np == pos + c && pos < np <= s.len()
        },
        ParseStep::More => r matches Ok(None),
        ParseStep::Bad => r matches Err(e) && (r matches Err(e) ==> e is ProtocolError),
    }
}

/// Relies on `memchr::memmem::find`: the index of the first occurrence of
/// the two-byte needle `\r\n` in the haystack, `None` when it is absent.
#[verifier::external_body]
fn find_crlf(buf: &[u8]) -> (r: Option<usize>)
    ensures
        match r {
            Some(i) => sp_find_crlf(buf@, 0) == Some(i as int),
            None => sp_find_crlf(buf@, 0) is None,
        },
{
    memchr::memmem::find(buf, b"\r\n")
}

/// A protocol error for a malformed frame.
fn frame_protocol_error() -> (r: KvError)
    ensures
        r is ProtocolError,
{
    let text: [u8; 9] = [
        'b' as u8,
        'a' as u8,
        'd' as u8,
        ' ' as u8,
        'f' as u8,
        'r' as u8,
        'a' as u8,
        'm' as u8,
        'e' as u8,
    ];
    KvError::ProtocolError(slice_to_vec8(text.as_slice()))
}

/// Find the next CRLF at or after `pos`; `Some(j)` is an absolute index.
pub fn read_line_from_cursor(buf: &[u8], pos: usize) -> (r: Option<usize>)
    requires
        pos <= buf@.len(),
    ensures
        match r {
            Some(j) => pos <= j && j + 1 < buf@.len() && sp_find_crlf(buf@.skip(pos as int), 0)
                == Some(j - pos),
            None => sp_find_crlf(buf@.skip(pos as int), 0) is None,
        },
{
    let win: &[u8] = &buf[pos..buf.len()];
    assert(win@ =~= buf@.skip(pos as int));
    match find_crlf(win) {
        Some(i) => {
            proof {
                lemma_sp_find_crlf_props(win@, 0);
            }
            Some(pos + i)
        },
        None => None,
    }
}

/// Parse an unsigned decimal; the whole slice must be digits and the
/// value must fit in `usize`.
pub fn parse_decimal(bytes: &[u8]) -> (r: Result<usize, KvError>)
    ensures
        match r {
            Ok(v) => bytes@.len() >= 1 && all_digits(bytes@) && dec_val(bytes@) <= usize::MAX
                && v == dec_val(bytes@),
            Err(e) => !(bytes@.len() >= 1 && all_digits(bytes@) && dec_val(bytes@) <= usize::MAX)
                && e is ProtocolError,
        },
{
    proof {
        assert(bytes@.skip(0) =~= bytes@);
    }
    match crate::command_execute::parse_digits_u64(bytes, 0) {
        Some(v) => {
            if v <= usize::MAX as u64 {
                Ok(v as usize)
            } else {
                Err(frame_protocol_error())
            }
        },
        None => {
            proof {
                if bytes@.len() >= 1 && all_digits(bytes@) && dec_val(bytes@) <= usize::MAX {
                    assert(dec_val(bytes@) <= u64::MAX);
                }
            }
            Err(frame_protocol_error())
        },
    }
}

/// Decode one frame beginning at `pos`, reporting the position after it.
pub fn parse_frame_from_cursor(buf: &[u8], pos: usize) -> (r: Result<
    Option<(Frame, usize)>,
    KvError,
>)
    requires
        pos <= buf@.len(),
    ensures
        step_matches(r, buf@, pos as int),
    decreases buf@.len() - pos, 1int,
{
    if pos == buf.len() {
        assert(buf@.skip(pos as int) =~= Seq::<u8>::empty());
        return Ok(None);
    }
    let first = buf[pos];
    assert(first == buf@.skip(pos as int)[0]);
    if first == 42 {
        parse_array_from_cursor(buf, pos)
    } else if first == 36 {
        parse_bulk_string_from_cursor(buf, pos)
    } else {
        Err(frame_protocol_error())
    }
}

/// Decode an array frame beginning at `pos`.
#[verifier::loop_isolation(false)]
pub fn parse_array_from_cursor(buf: &[u8], pos: usize) -> (r: Result<
    Option<(Frame, usize)>,
    KvError,
>)
    requires
        pos < buf@.len(),
        buf@[pos as int] == 42,
    ensures
        step_matches(r, buf@, pos as int),
    decreases buf@.len() - pos, 0int,
{
    let ghost s = buf@.skip(pos as int);
    let line_end = match read_line_from_cursor(buf, pos) {
        None => {
            return Ok(None);
        },
        Some(j) => j,
    };
    let ghost jr = line_end - pos as int;
    proof {
        lemma_sp_find_crlf_props(s, 0);
        assert(jr >= 1) by {
            assert(s[0] == 42);
        }
    }
    let blen: usize = buf.len();
    let line: &[u8] = &buf[pos + 1..line_end];
    assert(line@ =~= s.subrange(1, jr));
    let n = match parse_decimal(line) {
        Err(e) => {
            return Err(e);
        },
        Ok(n) => n,
    };
    let ds = line_end + 2;
    let ghost rest0 = buf@.skip(ds as int);
    proof {
        assert(rest0 =~= s.skip(jr + 2));
    }
    let mut items: Vec<Frame> = Vec::new();
    let mut cur: usize = ds;
    let mut i: usize = 0;
    while i < n
        invariant
            pos + 3 <= ds <= cur <= buf@.len(),
            i <= n,
            s == buf@.skip(pos as int),
            rest0 == buf@.skip(ds as int),
            items@.len() == i,
            sp_parse_elems(rest0, n as nat) == (match sp_parse_elems(
                buf@.skip(cur as int),
                (n - i) as nat,
            ) {
                ElemsStep::Good(fs, c) => ElemsStep::Good(
                    frames_view(items@) + fs,
                    (cur - ds) + c,
                ),
                ElemsStep::More => ElemsStep::More,
                ElemsStep::Bad => ElemsStep::Bad,
            }),
        decreases n - i,
    {
        let ghost cur_rest = buf@.skip(cur as int);
        let ghost remaining = (n - i) as nat;
        assert(remaining >= 1);
        let step = parse_frame_from_cursor(buf, cur);
        match step {
            Err(e) => {
                assert(sp_parse_elems(cur_rest, remaining) is Bad);
                return Err(e);
            },
            Ok(None) => {
                assert(sp_parse_elems(cur_rest, remaining) is More);
                return Ok(None);
            },
            Ok(Some((f, np))) => {
                proof {
                    assert(sp_parse(cur_rest) == ParseStep::Good(f@, np - cur));
                    assert(buf@.skip(np as int) =~= cur_rest.skip(np - cur));
                    assert(frames_view(items@.push(f)) =~= frames_view(items@).push(f@)) by {
                        assert(items@.push(f).drop_last() =~= items@);
                    }
                    assert forall|fs: Seq<FrameV>|
                        frames_view(items@) + (seq![f@] + fs) =~= frames_view(items@.push(f))
                            + fs by {
                        assert(frames_view(items@.push(f)) =~= frames_view(items@).push(f@)) by {
                            assert(items@.push(f).drop_last() =~= items@);
                        }
                    }
                }
                items.push(f);
                cur = np;
                i = i + 1;
            },
        }
    }
    proof {
        assert(sp_parse_elems(buf@.skip(cur as int), 0) == ElemsStep::Good(Seq::<FrameV>::empty(), 0));
        assert(frames_view(items@) + Seq::<FrameV>::empty() =~= frames_view(items@));
        assert(sp_parse_elems(rest0, n as nat) == ElemsStep::Good(
            frames_view(items@),
            cur - ds,
        ));
        assert(sp_parse(s) == ParseStep::Good(FrameV::Array(frames_view(items@)), jr + 2 + (cur - ds)));
    }
    Ok(Some((Frame::Array(items), cur)))
}

/// Decode a bulk frame beginning at `pos`.
pub fn parse_bulk_string_from_cursor(buf: &[u8], pos: usize) -> (r: Result<
    Option<(Frame, usize)>,
    KvError,
>)
    requires
        pos < buf@.len(),
        buf@[pos as int] == 36,
    ensures
        step_matches(r, buf@, pos as int),
    decreases buf@.len() - pos, 0int,
{
    let ghost s = buf@.skip(pos as int);
    let line_end = match read_line_from_cursor(buf, pos) {
        None => {
            return Ok(None);
        },
        Some(j) => j,
    };
    let ghost jr = line_end - pos as int;
    proof {
        lemma_sp_find_crlf_props(s, 0);
        assert(jr >= 1) by {
            assert(s[0] == 36);
        }
    }
    let blen: usize = buf.len();
    let line: &[u8] = &buf[pos + 1..line_end];
    assert(line@ =~= s.subrange(1, jr));
    let n = match parse_decimal(line) {
        Err(e) => {
            return Err(e);
        },
        Ok(n) => n,
    };
    let ds = line_end + 2;
    let rem = blen - ds;
    if rem < n {
        assert(s.len() < jr + 2 + n + 2);
        return Ok(None);
    }
    if rem - n < 2 {
        assert(s.len() < jr + 2 + n + 2);
        return Ok(None);
    }
    assert(s.len() >= jr + 2 + n + 2);
    assert(s[jr + 2 + n] == buf@[ds + n as int]);
    assert(s[jr + 2 + n + 1] == buf@[ds + n + 1 as int]);
    if !(buf[ds + n] == 13 && buf[ds + n + 1] == 10) {
        return Err(frame_protocol_error());
    }
    let data = copy_range(buf, ds, ds + n);
    assert(data@ =~= s.subrange(jr + 2, jr + 2 + n));
    Ok(Some((Frame::Bulk(data), ds + n + 2)))
}

/// Decode the first complete frame of `buf`.
///
/// `Ok(Some((frame, consumed)))` hands back the frame and how many bytes
/// it occupied; `Ok(None)` means the buffer holds only a proper prefix of
/// a frame and nothing was consumed; `Err` means the bytes are malformed.
pub fn parse_frame(buf: &[u8]) -> (r: Result<Option<(Frame, usize)>, KvError>)
    ensures
        step_matches(r, buf@, 0),
{
    proof {
        assert(buf@.skip(0) =~= buf@);
    }
    parse_frame_from_cursor(buf, 0)
}

} // verus!
