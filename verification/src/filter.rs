use vstd::prelude::*;

use crate::pat::pat_step;
use crate::pmt::{analyze_pmt, pmt_step};
use crate::state::{spec_ready, Splitter, SplitterModel, LENGTH_PACKET, MAX_PID};
use crate::{get_pid, spec_payload_start, spec_pid, spec_version_byte, TsStatus};

verus! {

/// The retained marks reconciled at the end of a rescan pass: every
/// nonzero mark is lowered by one, so a PID marked only by the stale
/// pass decays to dropped, and the tracked PMT PIDs themselves — which
/// no PMT section re-marks — are re-asserted so they stay retained.
pub open spec fn reconcile_pids(pids: Seq<u16>, pmt_pids: Seq<u16>) -> Seq<u16> {
    Seq::new(
        pids.len(),
        |i: int|
            {
                let d: u16 = if pids[i] > 0 {
                    (pids[i] - 1) as u16
                } else {
                    0u16
                };
                if pmt_pids[i] != 0 && d == 0 {
                    1u16
                } else {
                    d
                }
            },
    )
}

/// The counter raised by one; it saturates at the machine limit instead
/// of wrapping.
pub open spec fn spec_bump(c: int) -> int {
    if c < usize::MAX {
        c + 1
    } else {
        c
    }
}

/// The state transition and status of one rescan step on one packet of a
/// tracked PMT.
///
/// If the previous pass was complete, the pass counter and the
/// reassembly state are cleared for a full restart; the retention marks
/// of the previous pass persist, so PIDs that remain valid across a PMT
/// edit are never dropped mid-pass. The packet is then parsed with mark
/// 2; a successful parse counts towards the new pass. When the new pass
/// completes, the marks are reconciled (see [`reconcile_pids`]): a PID
/// stays retained exactly when the new pass confirmed it, it had been
/// confirmed twice, or it is a tracked PMT. The step reports
/// [`TsStatus::Success`] on completion and [`TsStatus::Null`] otherwise.
pub open spec fn rescan_step(m: SplitterModel, d: Seq<u8>) -> (SplitterModel, TsStatus) {
    let m1 = if spec_ready(m) {
        SplitterModel {
            pmt_counter: 0,
            section_remain: Seq::new(MAX_PID as nat, |i: int| 0u16),
            packet_seq: Seq::new(MAX_PID as nat, |i: int| 0u8),
            ..m
        }
    } else {
        m
    };
    let s = pmt_step(m1, d, 2u16);
    let m3 = if s.1 == TsStatus::Success || s.1 == TsStatus::Continue {
        SplitterModel { pmt_counter: spec_bump(s.0.pmt_counter), ..s.0 }
    } else {
        s.0
    };
    if spec_ready(m3) {
        (SplitterModel { pids: reconcile_pids(m3.pids, m3.pmt_pids), ..m3 }, TsStatus::Success)
    } else {
        (m3, TsStatus::Null)
    }
}

/// Re-parses one packet of a tracked PMT after a version change, or while
/// a rescan pass is incomplete. Only the first packet-sized prefix of
/// `buff` is read.
#[verifier::loop_isolation(false)]
pub fn rescan_pid(sp: &mut Splitter, buff: &[u8]) -> (r: TsStatus)
    requires
        old(sp).wf(),
        buff@.len() >= LENGTH_PACKET,
    ensures
        final(sp).wf(),
        final(sp)@ == rescan_step(old(sp)@, buff@.subrange(0, LENGTH_PACKET as int)).0,
        r == rescan_step(old(sp)@, buff@.subrange(0, LENGTH_PACKET as int)).1,
{
    let ghost m0 = sp@;
    let ghost d = buff@.subrange(0, LENGTH_PACKET as int);

    // A complete previous pass: full reassembly restart. The retention
    // marks of the previous pass persist until the new pass completes.
    if sp.pat.is_some() && sp.pmt_counter == sp.pmt_retain {
        sp.pmt_counter = 0;
        let mut c: usize = 0;
        while c < MAX_PID
            invariant
                c <= MAX_PID,
                sp.pids@ == m0.pids,
                sp.pmt_pids@ == m0.pmt_pids,
                sp@.pat == m0.pat,
                sp.pat_count == m0.pat_count,
                sp.sel@ == m0.sel,
                sp.pmt_retain == m0.pmt_retain,
                sp.pmt_counter == 0,
                sp.pmt_version.pid@ == m0.ver_pid,
                sp.pmt_version.version@ == m0.ver_val,
                sp.section_remain@.len() == MAX_PID,
                sp.packet_seq@.len() == MAX_PID,
                forall|k: int| 0 <= k < c ==> sp.section_remain@[k] == 0,
                forall|k: int| c <= k < MAX_PID ==> sp.section_remain@[k] == m0.section_remain[k],
                forall|k: int| 0 <= k < c ==> sp.packet_seq@[k] == 0,
                forall|k: int| c <= k < MAX_PID ==> sp.packet_seq@[k] == m0.packet_seq[k],
            decreases MAX_PID - c,
        {
            sp.section_remain[c] = 0;
            sp.packet_seq[c] = 0;
            c = c + 1;
        }
        proof {
            assert(sp.section_remain@ =~= Seq::new(MAX_PID as nat, |i: int| 0u16));
            assert(sp.packet_seq@ =~= Seq::new(MAX_PID as nat, |i: int| 0u8));
            assert(sp@ =~= (SplitterModel {
                pmt_counter: 0,
                section_remain: Seq::new(MAX_PID as nat, |i: int| 0u16),
                packet_seq: Seq::new(MAX_PID as nat, |i: int| 0u8),
                ..m0
            }));
        }
    }

    // Parse the packet as a rescan confirmation.
    let packet = &buff[0..LENGTH_PACKET];
    let ret = analyze_pmt(sp, packet, 2);

    // A successful or continuing parse counts towards the new pass.
    if ret == TsStatus::Success || ret == TsStatus::Continue {
        if sp.pmt_counter < usize::MAX {
            sp.pmt_counter = sp.pmt_counter + 1;
        }
    }

    // When the new pass completes, reconcile the marks.
    if sp.pat.is_some() && sp.pmt_counter == sp.pmt_retain {
        let ghost before = sp@;
        let mut c: usize = 0;
        while c < MAX_PID
            invariant
                c <= MAX_PID,
                sp.pids@.len() == MAX_PID,
                forall|k: int|
                    0 <= k < c ==> sp.pids@[k] == reconcile_pids(before.pids, before.pmt_pids)[k],
                forall|k: int| c <= k < MAX_PID ==> sp.pids@[k] == before.pids[k],
                sp.pmt_pids@ == before.pmt_pids,
                sp@.pat == before.pat,
                sp.pat_count == before.pat_count,
                sp.sel@ == before.sel,
                sp.pmt_retain == before.pmt_retain,
                sp.pmt_counter == before.pmt_counter,
                sp.pmt_version.pid@ == before.ver_pid,
                sp.pmt_version.version@ == before.ver_val,
                sp.section_remain@ == before.section_remain,
                sp.packet_seq@ == before.packet_seq,
            decreases MAX_PID - c,
        {
            let v = sp.pids[c];
            let mut next: u16 = if v > 0 {
                v - 1
            } else {
                0
            };
            if sp.pmt_pids[c] != 0 && next == 0 {
                next = 1;
            }
            sp.pids[c] = next;
            c = c + 1;
        }
        proof {
            assert(sp.pids@ =~= reconcile_pids(before.pids, before.pmt_pids));
            assert(sp@ =~= rescan_step(m0, d).0);
        }
        TsStatus::Success
    } else {
        proof {
            assert(sp@ =~= rescan_step(m0, d).0);
        }
        TsStatus::Null
    }
}

/// The state, buffer, and status after the classification pass has
/// consumed the packets of `data` from byte `index` on.
///
/// Each whole packet is classified in order: a PAT packet runs the PAT
/// analysis once (a parse error ends the pass at once); a packet of a PMT
/// selected but not yet parsed runs the first-pass PMT analysis, and on
/// success the packet's PID bytes are blanked in the buffer. The pass
/// ends with [`TsStatus::Success`] as soon as the selection is ready, and
/// with [`TsStatus::Error`] when the buffer runs out first.
pub open spec fn read_step(m: SplitterModel, data: Seq<u8>, index: int) -> (
    SplitterModel,
    Seq<u8>,
    TsStatus,
)
    decreases data.len() - index,
{
    if index < 0 || index + 188 > data.len() {
        (m, data, TsStatus::Error)
    } else {
        let pkt = data.subrange(index, index + 188);
        let pid = spec_pid(data, index);
        let pat_r = pat_step(m, pkt);
        if pid == 0 && pat_r.1 != TsStatus::Success {
            (pat_r.0, data, pat_r.1)
        } else {
            let m1 = if pid == 0 {
                pat_r.0
            } else {
                m
            };
            let first_parse = m1.pmt_pids[pid as int] == 1;
            let pr = pmt_step(m1, pkt, 1u16);
            let parsed = first_parse && pr.1 == TsStatus::Success;
            let m3 = if parsed {
                SplitterModel {
                    pmt_pids: pr.0.pmt_pids.update(pid as int, 2u16),
                    pmt_counter: spec_bump(pr.0.pmt_counter),
                    ..pr.0
                }
            } else if first_parse {
                pr.0
            } else {
                m1
            };
            let data2 = if parsed {
                data.update(index + 1, 0xffu8).update(index + 2, 0xffu8)
            } else {
                data
            };
            if spec_ready(m3) {
                (m3, data2, TsStatus::Success)
            } else {
                read_step(m3, data2, index + 188)
            }
        }
    }
}

/// Runs the classification pass over a buffer of whole packets: analyzes
/// the PAT once, runs the first-pass PMT analysis for each tracked PMT,
/// and stops as soon as the selection is ready.
///
/// Returns [`TsStatus::Success`] exactly when the selection became ready,
/// and [`TsStatus::Error`] when more packets are needed or a PAT parse
/// failed. A trailing partial packet is ignored.
#[verifier::loop_isolation(false)]
pub fn read_ts(sp: &mut Splitter, data: &mut Vec<u8>) -> (r: TsStatus)
    requires
        old(sp).wf(),
    ensures
        final(sp).wf(),
        final(sp)@ == read_step(old(sp)@, old(data)@, 0).0,
        final(data)@ == read_step(old(sp)@, old(data)@, 0).1,
        r == read_step(old(sp)@, old(data)@, 0).2,
{
    let ghost m0 = sp@;
    let ghost d0 = data@;
    let length = data.len();
    let mut index: usize = 0;
    loop
        invariant
            sp.wf(),
            index <= length,
            length == data@.len(),
            data@.len() == d0.len(),
            read_step(m0, d0, 0) == read_step(sp@, data@, index as int),
        decreases length - index,
    {
        if length < LENGTH_PACKET || index > length - LENGTH_PACKET {
            return TsStatus::Error;
        }
        let ghost m_in = sp@;
        let ghost d_in = data@;
        let ghost pkt = d_in.subrange(index as int, index + LENGTH_PACKET);
        let packet = &data.as_slice()[index..index + LENGTH_PACKET];
        let pid = get_pid(packet);
        proof {
            assert(pid == spec_pid(d_in, index as int));
        }
        if pid == 0 {
            let r1 = crate::pat::analyze_pat(sp, packet);
            if r1 != TsStatus::Success {
                return r1;
            }
        }
        if sp.pmt_pids[pid as usize] == 1 {
            let packet2 = &data.as_slice()[index..index + LENGTH_PACKET];
            let r2 = analyze_pmt(sp, packet2, 1);
            if r2 == TsStatus::Success {
                sp.pmt_pids[pid as usize] = 2;
                if sp.pmt_counter < usize::MAX {
                    sp.pmt_counter = sp.pmt_counter + 1;
                }
                data[index + 1] = 0xff;
                data[index + 2] = 0xff;
            }
        }
        if sp.pat.is_some() && sp.pmt_counter == sp.pmt_retain {
            return TsStatus::Success;
        }
        proof {
            assert(read_step(m_in, d_in, index as int) == read_step(
                sp@,
                data@,
                index + LENGTH_PACKET,
            ));
        }
        index = index + LENGTH_PACKET;
    }
}

/// Primes the PID selection from a buffer of packets without producing
/// output: the coarse classification entry point.
///
/// Returns [`TsStatus::Success`] exactly when the selection is complete
/// and filtering may begin.
pub fn split_select(sp: &mut Splitter, buff: &mut Vec<u8>) -> (r: TsStatus)
    requires
        old(sp).wf(),
    ensures
        final(sp).wf(),
        final(sp)@ == read_step(old(sp)@, old(buff)@, 0).0,
        final(buff)@ == read_step(old(sp)@, old(buff)@, 0).1,
        r == read_step(old(sp)@, old(buff)@, 0).2,
{
    read_ts(sp, buff)
}

/// The version recorded for `pid` among the first `n` tracked PMTs, or
/// `prev` where none is recorded; the last registered slot wins.
pub open spec fn ver_lookup(vp: Seq<u16>, vv: Seq<u8>, pid: u16, prev: u8, n: int) -> u8
    decreases n,
{
    if n <= 0 {
        prev
    } else if vp[n - 1] == pid {
        vv[n - 1]
    } else {
        ver_lookup(vp, vv, pid, prev, n - 1)
    }
}

/// The packet of `0xFF` filler whose continuity counter takes the place
/// of the cached PAT while no PAT has been analyzed yet.
pub open spec fn blank_packet() -> Seq<u8> {
    Seq::new(188, |i: int| 0xffu8)
}

/// The state, output buffer, and status after the filtering pass has
/// consumed the packets of `buff` from byte `index` on.
///
/// For each whole packet, in order: a PAT packet advances the
/// continuity counter and emits the cached PAT — or, while none is
/// built, a filler packet carrying the counter — in place of the
/// original; a packet of a tracked PMT whose version changed, or seen
/// while a pass is incomplete, runs one rescan step; every other packet
/// is emitted exactly when its PID is retained. `version` carries the
/// last version looked up for a tracked PMT, and `result` the status of
/// the last rescan step.
pub open spec fn split_step(
    m: SplitterModel,
    buff: Seq<u8>,
    index: int,
    version: u8,
    out: Seq<u8>,
    result: TsStatus,
) -> (SplitterModel, Seq<u8>, TsStatus)
    decreases buff.len() - index,
{
    if index < 0 || index + 188 > buff.len() {
        (m, out, result)
    } else {
        let pkt = buff.subrange(index, index + 188);
        let pid = spec_pid(buff, index);
        if pid == 0 {
            let pc2 = ((m.pat_count + 1) % 16 + 16) as u8;
            match m.pat {
                Some(p) => {
                    let p2 = p.update(3, pc2);
                    let m2 = SplitterModel { pat: Some(p2), pat_count: pc2, ..m };
                    split_step(m2, buff, index + 188, version, out + p2, result)
                },
                None => {
                    let m2 = SplitterModel { pat_count: pc2, ..m };
                    split_step(
                        m2,
                        buff,
                        index + 188,
                        version,
                        out + blank_packet().update(3, pc2),
                        result,
                    )
                },
            }
        } else {
            let on_pmt = m.pmt_pids[pid as int] != 0;
            let ps = spec_payload_start(pkt);
            let v2 = if on_pmt && ps {
                ver_lookup(m.ver_pid, m.ver_val, pid, version, m.ver_pid.len() as int)
            } else {
                version
            };
            let needs_rescan = on_pmt && ((ps && (v2 != spec_version_byte(pkt) || !spec_ready(m)))
                || (!ps && !spec_ready(m)));
            let rs = rescan_step(m, pkt);
            let m2 = if needs_rescan {
                rs.0
            } else {
                m
            };
            let res2 = if needs_rescan {
                rs.1
            } else {
                result
            };
            let out2 = if m2.pids[pid as int] != 0 {
                out + pkt
            } else {
                out
            };
            split_step(m2, buff, index + 188, v2, out2, res2)
        }
    }
}

/// Filters a buffer of whole packets into `split_buff`: PAT packets are
/// replaced by the cached rebuilt PAT with its continuity counter
/// advanced on every emission, packets of retained PIDs are copied
/// through in order, and everything else is dropped. A version change
/// on a tracked PMT triggers a rescan on the way.
///
/// Returns the status of the last rescan step the buffer triggered, or
/// [`TsStatus::Success`] when none was needed.
#[verifier::loop_isolation(false)]
#[verifier::rlimit(100)]
pub fn split_ts(sp: &mut Splitter, buff: &[u8], split_buff: &mut Vec<u8>) -> (r: TsStatus)
    requires
        old(sp).wf(),
    ensures
        final(sp).wf(),
        final(sp)@ == split_step(
            old(sp)@,
            buff@,
            0,
            0u8,
            old(split_buff)@,
            TsStatus::Success,
        ).0,
        final(split_buff)@ == split_step(
            old(sp)@,
            buff@,
            0,
            0u8,
            old(split_buff)@,
            TsStatus::Success,
        ).1,
        r == split_step(old(sp)@, buff@, 0, 0u8, old(split_buff)@, TsStatus::Success).2,
{
    let ghost m0 = sp@;
    let ghost d0 = buff@;
    let ghost out0 = split_buff@;
    let length = buff.len();
    let mut index: usize = 0;
    let mut version: u8 = 0;
    let mut result = TsStatus::Success;
    loop
        invariant
            sp.wf(),
            index <= length,
            length == buff@.len(),
            split_step(m0, d0, 0, 0u8, out0, TsStatus::Success) == split_step(
                sp@,
                buff@,
                index as int,
                version,
                split_buff@,
                result,
            ),
        decreases length - index,
    {
        if length < LENGTH_PACKET || index > length - LENGTH_PACKET {
            return result;
        }
        let ghost m_in = sp@;
        let ghost out_in = split_buff@;
        let ghost v_in = version;
        let ghost res_in = result;
        let ghost pkt = d0.subrange(index as int, index + LENGTH_PACKET);
        let pid: u16 = (buff[index + 1] % 32) as u16 * 256 + buff[index + 2] as u16;
        proof {
            assert(pid == spec_pid(d0, index as int));
        }
        if pid == 0 {
            // Advance the continuity counter and emit the cached PAT —
            // or, while none is built, a filler packet — in place of the
            // original packet.
            let pc2: u8 = ((sp.pat_count as u16 + 1) % 16) as u8 + 16;
            sp.pat_count = pc2;
            if sp.pat.is_some() {
                if let Some(p) = &mut sp.pat {
                    p[3] = pc2;
                }
                match &sp.pat {
                    Some(p) => {
                        let mut c: usize = 0;
                        while c < LENGTH_PACKET
                            invariant
                                c <= LENGTH_PACKET,
                                p@.len() == LENGTH_PACKET,
                                split_buff@ =~= out_in + p@.take(c as int),
                            decreases LENGTH_PACKET - c,
                        {
                            split_buff.push(p[c]);
                            c = c + 1;
                        }
                        proof {
                            assert(p@.take(LENGTH_PACKET as int) =~= p@);
                        }
                    },
                    None => {},
                }
            } else {
                let mut c: usize = 0;
                while c < LENGTH_PACKET
                    invariant
                        c <= LENGTH_PACKET,
                        split_buff@ =~= out_in + blank_packet().update(3, pc2).take(c as int),
                    decreases LENGTH_PACKET - c,
                {
                    if c == 3 {
                        split_buff.push(pc2);
                    } else {
                        split_buff.push(0xff);
                    }
                    c = c + 1;
                }
                proof {
                    assert(blank_packet().update(3, pc2).take(LENGTH_PACKET as int)
                        =~= blank_packet().update(3, pc2));
                }
            }
        } else {
            if sp.pmt_pids[pid as usize] != 0 {
                if (buff[index + 1] / 64) % 2 == 1 {
                    // Look up the recorded version for this PMT.
                    let mut i: usize = 0;
                    let mut v: u8 = version;
                    while i < sp.pmt_version.pid.len()
                        invariant
                            i <= sp.pmt_version.pid@.len(),
                            sp@ == m_in,
                            sp.pmt_version.pid@.len() == sp.pmt_version.version@.len(),
                            v == ver_lookup(
                                m_in.ver_pid,
                                m_in.ver_val,
                                pid,
                                version,
                                i as int,
                            ),
                        decreases sp.pmt_version.pid@.len() - i,
                    {
                        if sp.pmt_version.pid[i] == pid {
                            v = sp.pmt_version.version[i];
                        }
                        i = i + 1;
                    }
                    version = v;
                    let vb: u8 = (buff[index + 10] / 2 % 32) * 2;
                    proof {
                        assert(vb == spec_version_byte(pkt));
                    }
                    if version != vb || !(sp.pat.is_some() && sp.pmt_counter == sp.pmt_retain) {
                        let tail = &buff[index..length];
                        proof {
                            assert(tail@.subrange(0, LENGTH_PACKET as int) =~= pkt);
                        }
                        result = rescan_pid(sp, tail);
                    }
                } else {
                    if !(sp.pat.is_some() && sp.pmt_counter == sp.pmt_retain) {
                        let tail = &buff[index..length];
                        proof {
                            assert(tail@.subrange(0, LENGTH_PACKET as int) =~= pkt);
                        }
                        result = rescan_pid(sp, tail);
                    }
                }
            }
            // Emit the packet exactly when its PID is retained.
            if sp.pids[pid as usize] != 0 {
                let mut c: usize = 0;
                while c < LENGTH_PACKET
                    invariant
                        c <= LENGTH_PACKET,
                        index + LENGTH_PACKET <= buff@.len(),
                        split_buff@ =~= out_in + pkt.take(c as int),
                    decreases LENGTH_PACKET - c,
                {
                    split_buff.push(buff[index + c]);
                    c = c + 1;
                }
                proof {
                    assert(pkt.take(LENGTH_PACKET as int) =~= pkt);
                }
            }
        }
        proof {
            assert(split_step(m_in, d0, index as int, v_in, out_in, res_in) == split_step(
                sp@,
                d0,
                index + LENGTH_PACKET,
                version,
                split_buff@,
                result,
            ));
        }
        index = index + LENGTH_PACKET;
    }
}

} // verus!
