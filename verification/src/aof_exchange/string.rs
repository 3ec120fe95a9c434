//! The log record of a `SET`.

use vstd::prelude::*;
use crate::aof_exchange::aof_set_record;
use crate::aof_exchange::cond_frames;
use crate::aof_exchange::exp_frames;
use crate::bytes_util::slice_to_vec8;
use crate::command_execute::calculate_expiration_timestamp_ms;
use crate::command_execute::string::deadline_fits;
use crate::command_exchange::kw_exat;
use crate::command_exchange::kw_nx;
use crate::command_exchange::kw_pxat;
use crate::command_exchange::kw_set;
use crate::command_exchange::kw_xx;
use crate::core_execute::sp_ser;
use crate::error::Expiration;
use crate::error::Frame;
use crate::error::FrameV;
use crate::error::SetCommand;
use crate::error::SetCondition;
use crate::error::frames_view;
use crate::error::lemma_frames_view_index;

verus! {

broadcast use vstd::std_specs::vec::group_vec_axioms, vstd::seq::group_seq_axioms;

impl SetCommand {
    /// Serialize this command's log record, with the deadline made
    /// absolute against the cached clock.
    pub fn execute_aof(&self, now_ms: u64) -> (r: Vec<u8>)
        requires
            deadline_fits(self.expiration, now_ms),
        ensures
            r@ == sp_ser(
                aof_set_record(self.key@, self.value@, self.expiration, self.condition, now_ms),
            ),
    {
        let ghost base = seq![
            FrameV::Bulk(kw_set()),
            FrameV::Bulk(self.key@),
            FrameV::Bulk(self.value@),
        ];
        let mut frame_vec: Vec<Frame> = Vec::new();
        let set_name: [u8; 3] = [83, 69, 84];
        let fr0 = Frame::Bulk(slice_to_vec8(set_name.as_slice()));
        let ghost g0 = fr0;
        frame_vec.push(fr0);
        let fr1 = Frame::Bulk(slice_to_vec8(self.key.as_slice()));
        let ghost g1 = fr1;
        frame_vec.push(fr1);
        let fr2 = Frame::Bulk(slice_to_vec8(self.value.as_slice()));
        let ghost g2 = fr2;
        frame_vec.push(fr2);
        proof {
            lemma_frames_view_index(frame_vec@);
            assert(frame_vec@ =~= seq![g0, g1, g2]);
            assert(frames_view(frame_vec@)[0] == crate::error::frame_view(g0));
            assert(frames_view(frame_vec@)[1] == crate::error::frame_view(g1));
            assert(frames_view(frame_vec@)[2] == crate::error::frame_view(g2));
            assert(set_name@ =~= kw_set());
            assert(frames_view(frame_vec@) =~~= base);
        }
        match &self.expiration {
            None => {
                proof {
                    assert(frames_view(frame_vec@) =~~= base + exp_frames(
                        self.expiration,
                        now_ms,
                    ));
                }
            },
            Some(expire) => match expire {
                Expiration::EXAT(sec) => {
                    let exat: [u8; 4] = [69, 88, 65, 84];
                    let fr3 = Frame::Bulk(slice_to_vec8(exat.as_slice()));
                    let ghost g3 = fr3;
                    frame_vec.push(fr3);
                    let fr4 = Frame::Bulk(crate::aof_exchange::parse_int_from_bytes(*sec));
                    let ghost g4 = fr4;
                    frame_vec.push(fr4);
                    proof {
                        lemma_frames_view_index(frame_vec@);
                        assert(frame_vec@ =~= seq![g0, g1, g2, g3, g4]);
                        assert(frames_view(frame_vec@)[3] == crate::error::frame_view(g3));
                        assert(frames_view(frame_vec@)[4] == crate::error::frame_view(g4));
                        assert(exat@ =~= kw_exat());
                        assert(frames_view(frame_vec@) =~~= base + exp_frames(
                            self.expiration,
                            now_ms,
                        ));
                    }
                },
                _ => {
                    let deadline = calculate_expiration_timestamp_ms(expire, now_ms);
                    let pxat: [u8; 4] = [80, 88, 65, 84];
                    let fr3 = Frame::Bulk(slice_to_vec8(pxat.as_slice()));
                    let ghost g3 = fr3;
                    frame_vec.push(fr3);
                    let fr4 = Frame::Bulk(crate::aof_exchange::parse_int_from_bytes(deadline));
                    let ghost g4 = fr4;
                    frame_vec.push(fr4);
                    proof {
                        lemma_frames_view_index(frame_vec@);
                        assert(frame_vec@ =~= seq![g0, g1, g2, g3, g4]);
                        assert(frames_view(frame_vec@)[3] == crate::error::frame_view(g3));
                        assert(frames_view(frame_vec@)[4] == crate::error::frame_view(g4));
                        assert(pxat@ =~= kw_pxat());
                        assert(frames_view(frame_vec@) =~~= base + exp_frames(
                            self.expiration,
                            now_ms,
                        ));
                    }
                },
            },
        }
        let ghost with_exp = base + exp_frames(self.expiration, now_ms);
        let ghost pre_cond = frame_vec@;
        match &self.condition {
            None => {
                proof {
                    assert(frames_view(frame_vec@) =~~= with_exp + cond_frames(self.condition));
                }
            },
            Some(SetCondition::NX) => {
                let nx: [u8; 2] = [78, 88];
                let frc = Frame::Bulk(slice_to_vec8(nx.as_slice()));
                let ghost gc = frc;
                frame_vec.push(frc);
                proof {
                    lemma_frames_view_index(frame_vec@);
                    lemma_frames_view_index(pre_cond);
                    assert(frames_view(pre_cond) == with_exp);
                    assert(frame_vec@ =~= pre_cond.push(gc));
                    assert forall|i: int| 0 <= i < pre_cond.len() implies frames_view(
                        frame_vec@,
                    )[i] == with_exp[i] by {
                        assert(frame_vec@[i] == pre_cond[i]);
                    }
                    assert(frames_view(frame_vec@)[pre_cond.len() as int]
                        == crate::error::frame_view(gc));
                    assert(nx@ =~= kw_nx());
                    assert(frames_view(frame_vec@) =~~= with_exp + cond_frames(self.condition));
                }
            },
            Some(SetCondition::XX) => {
                let xx: [u8; 2] = [88, 88];
                let frc = Frame::Bulk(slice_to_vec8(xx.as_slice()));
                let ghost gc = frc;
                frame_vec.push(frc);
                proof {
                    lemma_frames_view_index(frame_vec@);
                    lemma_frames_view_index(pre_cond);
                    assert(frames_view(pre_cond) == with_exp);
                    assert(frame_vec@ =~= pre_cond.push(gc));
                    assert forall|i: int| 0 <= i < pre_cond.len() implies frames_view(
                        frame_vec@,
                    )[i] == with_exp[i] by {
                        assert(frame_vec@[i] == pre_cond[i]);
                    }
                    assert(frames_view(frame_vec@)[pre_cond.len() as int]
                        == crate::error::frame_view(gc));
                    assert(xx@ =~= kw_xx());
                    assert(frames_view(frame_vec@) =~~= with_exp + cond_frames(self.condition));
                }
            },
        }
        let record = Frame::Array(frame_vec);
        record.serialize()
    }
}

} // verus!
