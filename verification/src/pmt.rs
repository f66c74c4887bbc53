use vstd::prelude::*;

use crate::state::{Splitter, SplitterModel, LENGTH_PACKET, MAX_PID};
use crate::{
    get_pid, spec_cc, spec_payload_start, spec_pid, spec_section_len, spec_version_byte, TsStatus,
};

verus! {

/// ECM PIDs named by the conditional-access descriptors found in the
/// program-info area. Bytes are read in (tag, length) pairs stepping by
/// two from `p` up to `n`; a pair with tag `0x09` and length at least 4
/// that fits before `n` names the 13-bit ECM PID four bytes further on.
pub open spec fn spec_ca_pids(d: Seq<u8>, p: int, n: int) -> Seq<u16>
    decreases n + 2 - p,
{
    if !(p < n && n < 188) {
        Seq::empty()
    } else {
        let rest = spec_ca_pids(d, p + 2, n);
        if d[p] == 9 && d[p + 1] >= 4 && p + 2 + d[p + 1] <= n {
            seq![((d[p + 4] as u16 * 256 + d[p + 5] as u16) % 8192) as u16] + rest
        } else {
            rest
        }
    }
}

/// One walk of the elementary-stream loop from offset `n`: the PIDs of the
/// entries whose stream type is not `0x0D`, and whether the walk stayed
/// within its retry budget (`false` reports a malformed loop).
pub open spec fn spec_es_scan(d: Seq<u8>, n: int, limit: int, retry: int, nall: int) -> (Seq<
    u16,
>, bool)
    decreases nall + 1 - retry,
{
    if n > limit {
        (Seq::empty(), true)
    } else {
        let first: Seq<u16> = if d[n] != 0x0d {
            seq![spec_pid(d, n)]
        } else {
            Seq::empty()
        };
        if retry + 1 > nall {
            (first, false)
        } else {
            let n2 = n + 5 + (d[n + 3] % 16) * 256 + d[n + 4];
            let r = spec_es_scan(d, n2, limit, retry + 1, nall);
            (first + r.0, r.1)
        }
    }
}

/// The PID table with every PID in `ps` overwritten by `mark`.
pub open spec fn mark_pids(pids: Seq<u16>, ps: Seq<u16>, mark: u16) -> Seq<u16> {
    Seq::new(
        pids.len(),
        |i: int|
            if ps.contains(i as u16) {
                mark
            } else {
                pids[i]
            },
    )
}

/// The smaller of two section byte counts.
pub open spec fn spec_min_u16(a: u16, b: u16) -> u16 {
    if a <= b {
        a
    } else {
        b
    }
}

/// The state transition and status of one PMT analysis step on one packet.
///
/// A packet that starts a section records the section length, the PMT
/// version and the PCR PID, collects the ECM PIDs of the program-info
/// area, and walks the elementary-stream loop; a continuation packet is
/// rejected unless a section is in progress and its continuity counter
/// follows the recorded one.
pub open spec fn pmt_step(m: SplitterModel, d: Seq<u8>, mark: u16) -> (SplitterModel, TsStatus) {
    let pid = spec_pid(d, 0);
    if spec_payload_start(d) {
        let slen = spec_section_len(d);
        let ver_val2 = Seq::new(
            m.ver_val.len(),
            |i: int|
                if m.ver_pid[i] == pid {
                    spec_version_byte(d)
                } else {
                    m.ver_val[i]
                },
        );
        let n0 = (d[15] % 16) * 256 + d[16] + 17;
        let nall = spec_min_u16(slen, 183);
        let scan = spec_es_scan(d, n0, nall as int, 0, nall as int);
        let marked = seq![spec_pid(d, 12)] + spec_ca_pids(d, 17, n0) + scan.0;
        let pids2 = mark_pids(m.pids, marked, mark);
        let seq2 = m.packet_seq.update(pid as int, spec_cc(d));
        if scan.1 {
            let rem = (slen - nall) as u16;
            (
                SplitterModel {
                    pids: pids2,
                    ver_val: ver_val2,
                    packet_seq: seq2,
                    section_remain: m.section_remain.update(pid as int, rem),
                    ..m
                },
                if rem > 0 {
                    TsStatus::Continue
                } else {
                    TsStatus::Success
                },
            )
        } else {
            (
                SplitterModel {
                    pids: pids2,
                    ver_val: ver_val2,
                    packet_seq: seq2,
                    section_remain: m.section_remain.update(pid as int, slen),
                    ..m
                },
                TsStatus::Error,
            )
        }
    } else {
        if m.section_remain[pid as int] == 0 {
            (m, TsStatus::Error)
        } else if spec_cc(d) != (m.packet_seq[pid as int] + 1) % 16 {
            (m, TsStatus::Error)
        } else {
            let rem0 = m.section_remain[pid as int];
            let nall = spec_min_u16(rem0, 184);
            let scan = spec_es_scan(d, 4, nall as int - 1, 0, nall as int);
            let pids2 = mark_pids(m.pids, scan.0, mark);
            let seq2 = m.packet_seq.update(pid as int, spec_cc(d));
            if scan.1 {
                let rem = (rem0 - nall) as u16;
                (
                    SplitterModel {
                        pids: pids2,
                        packet_seq: seq2,
                        section_remain: m.section_remain.update(pid as int, rem),
                        ..m
                    },
                    if rem > 0 {
                        TsStatus::Continue
                    } else {
                        TsStatus::Success
                    },
                )
            } else {
                (SplitterModel { pids: pids2, packet_seq: seq2, ..m }, TsStatus::Error)
            }
        }
    }
}

/// Marking no PID leaves the table unchanged.
pub(crate) proof fn lemma_mark_none(p0: Seq<u16>, mark: u16)
    ensures
        mark_pids(p0, Seq::empty(), mark) =~= p0,
{
}

/// Marking one more PID is one table update.
pub(crate) proof fn lemma_mark_one(p0: Seq<u16>, s: Seq<u16>, x: u16, mark: u16)
    requires
        p0.len() == MAX_PID,
        x < MAX_PID,
    ensures
        mark_pids(p0, s, mark).update(x as int, mark) =~= mark_pids(p0, s.push(x), mark),
{
    let a = mark_pids(p0, s, mark).update(x as int, mark);
    let b = mark_pids(p0, s.push(x), mark);
    assert forall|i: int| 0 <= i < MAX_PID implies a[i] == b[i] by {
        if i == x {
            assert(s.push(x)[s.len() as int] == x);
            assert(s.push(x).contains(i as u16));
        } else {
            if s.contains(i as u16) {
                let k = choose|k: int| 0 <= k < s.len() && s[k] == i as u16;
                assert(s.push(x)[k] == i as u16);
                assert(s.push(x).contains(i as u16));
            } else if s.push(x).contains(i as u16) {
                let k = choose|k: int|
                    0 <= k < s.push(x).len() && s.push(x)[k] == i as u16;
                assert(k == s.len());
                assert(i as u16 == x);
                assert(false);
            }
        }
    };
}

/// Analyzes one packet of a tracked PMT.
///
/// `mark` is the retention value written into the PID table for the PIDs
/// this PMT names: `1` during the first pass, `2` during a rescan.
/// Returns [`TsStatus::Success`] when the section is complete,
/// [`TsStatus::Continue`] when more packets are needed, and
/// [`TsStatus::Error`] on a malformed loop or a reassembly discontinuity.
/// A discontinuity leaves the whole state unchanged.
#[verifier::loop_isolation(false)]
#[verifier::rlimit(60)]
pub fn analyze_pmt(sp: &mut Splitter, data: &[u8], mark: u16) -> (r: TsStatus)
    requires
        old(sp).wf(),
        data@.len() == LENGTH_PACKET,
    ensures
        final(sp).wf(),
        final(sp)@ == pmt_step(old(sp)@, data@, mark).0,
        r == pmt_step(old(sp)@, data@, mark).1,
{
    let ghost m0 = sp@;
    let ghost d = data@;
    let pid = get_pid(data);
    let payload_offset: usize;
    let ghost mut acc_pre: Seq<u16> = Seq::empty();
    let mut es_start: usize;

    if (data[1] / 64) % 2 == 1 {
        // A new section starts in this packet.
        let slen: u16 = (data[6] % 16) as u16 * 256 + data[7] as u16;
        sp.section_remain[pid as usize] = slen;
        payload_offset = 5;

        // Record this PMT's version.
        let mut i: usize = 0;
        let vb: u8 = (data[10] / 2 % 32) * 2;
        while i < sp.pmt_version.pid.len()
            invariant
                i <= sp.pmt_version.pid.len(),
                sp.pmt_version.pid@ == m0.ver_pid,
                sp.pmt_version.version@.len() == m0.ver_val.len(),
                forall|k: int|
                    0 <= k < i ==> sp.pmt_version.version@[k] == (if m0.ver_pid[k] == pid {
                        spec_version_byte(d)
                    } else {
                        m0.ver_val[k]
                    }),
                forall|k: int|
                    i <= k < m0.ver_val.len() ==> sp.pmt_version.version@[k] == m0.ver_val[k],
                sp.pids@ == m0.pids,
                sp.pmt_pids@ == m0.pmt_pids,
                sp@.pat == m0.pat,
                sp.pat_count == m0.pat_count,
                sp.sel@ == m0.sel,
                sp.pmt_retain == m0.pmt_retain,
                sp.pmt_counter == m0.pmt_counter,
                sp.packet_seq@ == m0.packet_seq,
                sp.section_remain@ == m0.section_remain.update(pid as int, slen),
            decreases sp.pmt_version.pid.len() - i,
        {
            if sp.pmt_version.pid[i] == pid {
                sp.pmt_version.version[i] = vb;
            }
            i = i + 1;
        }
        proof {
            assert(sp.pmt_version.version@ =~= Seq::new(
                m0.ver_val.len(),
                |k: int|
                    if m0.ver_pid[k] == spec_pid(d, 0) {
                        spec_version_byte(d)
                    } else {
                        m0.ver_val[k]
                    },
            ));
        }

        // The PCR PID.
        let pcr: u16 = (data[13] % 32) as u16 * 256 + data[14] as u16;
        proof {
            lemma_mark_none(m0.pids, mark);
            lemma_mark_one(m0.pids, Seq::empty(), pcr, mark);
            assert(Seq::<u16>::empty().push(pcr) =~= seq![spec_pid(d, 12)]);
        }
        sp.pids[pcr as usize] = mark;
        proof {
            acc_pre = seq![spec_pid(d, 12)];
        }

        // ECM PIDs from the program-info descriptor area.
        let n0: usize = (data[15] % 16) as usize * 256 + data[16] as usize + 17;
        if n0 < 188 {
            let mut p: usize = 17;
            while p < n0
                invariant
                    17 <= p,
                    n0 < 188,
                    sp.pids@.len() == MAX_PID,
                    sp.pids@ =~= mark_pids(m0.pids, acc_pre, mark),
                    seq![spec_pid(d, 12)] + spec_ca_pids(d, 17, n0 as int) =~= acc_pre
                        + spec_ca_pids(d, p as int, n0 as int),
                    sp.pmt_pids@ == m0.pmt_pids,
                    sp@.pat == m0.pat,
                    sp.pat_count == m0.pat_count,
                    sp.sel@ == m0.sel,
                    sp.pmt_retain == m0.pmt_retain,
                    sp.pmt_counter == m0.pmt_counter,
                    sp.pmt_version.pid@ == m0.ver_pid,
                    sp.pmt_version.version@ == pmt_step(m0, d, mark).0.ver_val,
                    sp.packet_seq@ == m0.packet_seq,
                    sp.section_remain@ == m0.section_remain.update(pid as int, slen),
                decreases n0 + 2 - p,
            {
                let tag = data[p];
                let len = data[p + 1];
                if tag == 9 && len >= 4 && p + 2 + len as usize <= n0 {
                    let capid: u16 = (data[p + 4] as u16 * 256 + data[p + 5] as u16) % 8192;
                    proof {
                        lemma_mark_one(m0.pids, acc_pre, capid, mark);
                        assert(acc_pre.push(capid) =~= acc_pre + seq![capid]);
                        assert(spec_ca_pids(d, p as int, n0 as int) =~= seq![capid]
                            + spec_ca_pids(d, p + 2, n0 as int));
                        assert(acc_pre + spec_ca_pids(d, p as int, n0 as int) =~= (acc_pre
                            + seq![capid]) + spec_ca_pids(d, p + 2, n0 as int));
                    }
                    sp.pids[capid as usize] = mark;
                    proof {
                        acc_pre = acc_pre + seq![capid];
                    }
                }
                p = p + 2;
            }
        }
        proof {
            assert(acc_pre + Seq::<u16>::empty() =~= acc_pre);
            assert(seq![spec_pid(d, 12)] + Seq::<u16>::empty() =~= seq![spec_pid(d, 12)]);
            assert(acc_pre == seq![spec_pid(d, 12)] + spec_ca_pids(d, 17, n0 as int));
        }
        es_start = n0;
    } else {
        // A continuation packet: a section must be in progress and the
        // continuity counter must follow the recorded one.
        if sp.section_remain[pid as usize] == 0 {
            return TsStatus::Error;
        }
        if (data[3] % 16) as u16 != (sp.packet_seq[pid as usize] as u16 + 1) % 16 {
            return TsStatus::Error;
        }
        payload_offset = 4;
        es_start = 4;
        proof {
            lemma_mark_none(m0.pids, mark);
        }
    }

    let ghost mid_remain = sp.section_remain@;
    let ghost mid_ver = sp.pmt_version.version@;

    // Record the continuity counter.
    sp.packet_seq[pid as usize] = data[3] % 16;

    let mut nall: u16 = sp.section_remain[pid as usize];
    if nall > (LENGTH_PACKET - payload_offset) as u16 {
        nall = (LENGTH_PACKET - payload_offset) as u16;
    }
    let limit: usize = nall as usize + payload_offset - 5;

    // Walk the elementary-stream loop: each entry whose stream type is not
    // 0x0D contributes its PID to the marked set.
    let ghost full = spec_es_scan(d, es_start as int, limit as int, 0, nall as int);
    let ghost mut acc_es: Seq<u16> = Seq::empty();
    let mut n: usize = es_start;
    let mut retry: u16 = 0;
    proof {
        assert(acc_pre + Seq::<u16>::empty() =~= acc_pre);
        assert(Seq::<u16>::empty() + full.0 =~= full.0);
    }
    while n <= limit
        invariant
            retry <= nall,
            limit <= 183,
            sp.pids@.len() == MAX_PID,
            sp.pids@ =~= mark_pids(m0.pids, acc_pre + acc_es, mark),
            full.0 =~= acc_es + spec_es_scan(d, n as int, limit as int, retry as int, nall as int).0,
            full.1 == spec_es_scan(d, n as int, limit as int, retry as int, nall as int).1,
            sp.pmt_pids@ == m0.pmt_pids,
            sp@.pat == m0.pat,
            sp.pat_count == m0.pat_count,
            sp.sel@ == m0.sel,
            sp.pmt_retain == m0.pmt_retain,
            sp.pmt_counter == m0.pmt_counter,
            sp.pmt_version.pid@ == m0.ver_pid,
            sp.pmt_version.version@ == mid_ver,
            sp.packet_seq@ == m0.packet_seq.update(pid as int, spec_cc(d)),
            sp.section_remain@ == mid_remain,
        decreases nall - retry,
    {
        let ghost cur = spec_es_scan(d, n as int, limit as int, retry as int, nall as int);
        let ghost acc_old = acc_es;
        let stype = data[n];
        let ghost first: Seq<u16> = if stype != 0x0d {
            seq![spec_pid(d, n as int)]
        } else {
            Seq::<u16>::empty()
        };
        if stype != 0x0d {
            let epid: u16 = (data[n + 1] % 32) as u16 * 256 + data[n + 2] as u16;
            proof {
                lemma_mark_one(m0.pids, acc_pre + acc_es, epid, mark);
                assert((acc_pre + acc_old).push(epid) =~= acc_pre + (acc_old + first));
            }
            sp.pids[epid as usize] = mark;
        }
        proof {
            acc_es = acc_old + first;
            if stype == 0x0d {
                assert(acc_pre + acc_es =~= acc_pre + acc_old);
            }
            assert(sp.pids@ =~= mark_pids(m0.pids, acc_pre + acc_es, mark));
        }
        retry = retry + 1;
        if retry > nall {
            proof {
                assert(cur.0 == first && cur.1 == false);
                assert(full.0 =~= acc_old + first);
                assert(full.0 =~= acc_es);
                if spec_payload_start(d) {
                    assert(acc_pre + acc_es == seq![spec_pid(d, 12)] + spec_ca_pids(
                        d,
                        17,
                        es_start as int,
                    ) + full.0);
                } else {
                    assert(acc_pre + acc_es =~= full.0);
                }
                assert(sp@ =~= pmt_step(m0, d, mark).0);
            }
            return TsStatus::Error;
        }
        let step: usize = 5 + (data[n + 3] % 16) as usize * 256 + data[n + 4] as usize;
        proof {
            let nxt = spec_es_scan(d, n + step, limit as int, retry as int, nall as int);
            assert(cur.0 == first + nxt.0 && cur.1 == nxt.1);
            assert(acc_old + (first + nxt.0) =~= acc_es + nxt.0);
            assert(acc_es + nxt.0 =~= full.0);
        }
        n = n + step;
    }
    proof {
        assert(spec_es_scan(d, n as int, limit as int, retry as int, nall as int).0
            =~= Seq::<u16>::empty());
        assert(acc_es + Seq::<u16>::empty() =~= acc_es);
        assert(full.0 =~= acc_es);
        assert(full.1 == true);
    }

    // Consume the scanned bytes of the section.
    let rem_new: u16 = sp.section_remain[pid as usize] - nall;
    sp.section_remain[pid as usize] = rem_new;
    proof {
        if spec_payload_start(d) {
            assert(acc_pre + acc_es == seq![spec_pid(d, 12)] + spec_ca_pids(
                d,
                17,
                es_start as int,
            ) + full.0);
            assert(sp.section_remain@ =~= m0.section_remain.update(pid as int, rem_new));
        } else {
            assert(acc_pre + acc_es =~= full.0);
        }
        assert(sp@ =~= pmt_step(m0, d, mark).0);
    }
    if rem_new > 0 {
        TsStatus::Continue
    } else {
        TsStatus::Success
    }
}

} // verus!
