use vstd::prelude::*;

use crate::filter::{read_step, reconcile_pids, rescan_step, split_step, ver_lookup};
use crate::pat::{
    pat_entries, pat_malformed, pat_step, spec_entry_bytes, spec_selected_from, PatEntry,
};
use crate::pmt::{mark_pids, pmt_step, spec_ca_pids, spec_es_scan, spec_min_u16};
use crate::selection::Token;
use crate::state::{spec_ready, wf_model, SplitterModel, MAX_PID};
use crate::{
    spec_cc, spec_payload_start, spec_pid, spec_section_len, spec_version_byte, TsStatus,
};

verus! {

/// The set of PIDs that one section-start PMT packet marks: the PCR PID,
/// the ECM PIDs of its program-info area, and the elementary-stream PIDs
/// its loop names. It depends on the packet bytes alone.
pub open spec fn pmt_start_marked(d: Seq<u8>) -> Seq<u16> {
    let n0 = (d[15] % 16) * 256 + d[16] + 17;
    let nall = spec_min_u16(spec_section_len(d), 183);
    seq![spec_pid(d, 12)] + spec_ca_pids(d, 17, n0) + spec_es_scan(
        d,
        n0,
        nall as int,
        0,
        nall as int,
    ).0
}

/// With an `ALL` token in the selection, every available entry is
/// selected.
proof fn lemma_all_selects_everything(entries: Seq<PatEntry>, sel: Seq<Token>, i: int)
    requires
        0 <= i <= entries.len(),
        sel.contains(Token::All),
    ensures
        spec_selected_from(entries, sel, i) =~= entries.skip(i),
    decreases entries.len() - i,
{
    if i < entries.len() {
        let k = choose|k: int| 0 <= k < sel.len() && sel[k] == Token::All;
        assert(crate::pat::spec_token_selects(sel[k], i, entries[i], entries.len() as int));
        lemma_all_selects_everything(entries, sel, i + 1);
        assert(spec_selected_from(entries, sel, i) =~= seq![entries[i]] + entries.skip(i + 1));
        assert(seq![entries[i]] + entries.skip(i + 1) =~= entries.skip(i));
    }
}

/// Every entry the PAT scan finds lies within the section area of the
/// packet.
proof fn lemma_entries_bounds(d: Seq<u8>, cnt: int)
    requires
        13 <= cnt,
    ensures
        forall|k: int|
            0 <= k < crate::pat::pat_entries_from(d, cnt).len() ==> 13
                <= (#[trigger] crate::pat::pat_entries_from(d, cnt)[k]).off
                && crate::pat::pat_entries_from(d, cnt)[k].off + 4 <= 188,
    decreases 188 - cnt,
{
    if !(cnt < 13 || cnt + 4 > crate::pat::pat_bound(d) || cnt + 4 > 188) {
        lemma_entries_bounds(d, cnt + 4);
        let cur = crate::pat::pat_entries_from(d, cnt);
        let rest = crate::pat::pat_entries_from(d, cnt + 4);
        if spec_pid(d, cnt + 1) != 0x10 {
            assert forall|k: int|
                0 <= k < cur.len() implies 13 <= (#[trigger] cur[k]).off && cur[k].off + 4
                <= 188 by {
                if k > 0 {
                    assert(cur[k] == rest[k - 1]);
                }
            }
        }
    }
}

/// The concatenated entry bytes cover 4 bytes per entry.
proof fn lemma_entry_bytes_len(d: Seq<u8>, pos: Seq<usize>, i: int)
    requires
        0 <= i <= pos.len(),
        d.len() == 188,
        forall|k: int| 0 <= k < pos.len() ==> #[trigger] pos[k] + 4 <= 188,
    ensures
        spec_entry_bytes(d, pos, i).len() == 4 * (pos.len() - i),
    decreases pos.len() - i,
{
    if i < pos.len() {
        lemma_entry_bytes_len(d, pos, i + 1);
    }
}

/// Byte `j` of the `k`-th entry stands `4 * (k - i) + j` bytes into the
/// concatenated entry bytes.
proof fn lemma_entry_bytes_at(d: Seq<u8>, pos: Seq<usize>, i: int, k: int, j: int)
    requires
        0 <= i <= k < pos.len(),
        0 <= j < 4,
        d.len() == 188,
        forall|k2: int| 0 <= k2 < pos.len() ==> #[trigger] pos[k2] + 4 <= 188,
    ensures
        spec_entry_bytes(d, pos, i)[4 * (k - i) + j] == d[pos[k] + j],
    decreases k - i,
{
    lemma_entry_bytes_len(d, pos, i + 1);
    if k == i {
        assert(spec_entry_bytes(d, pos, i)[j] == d.subrange(pos[i] as int, pos[i] + 4)[j]);
    } else {
        lemma_entry_bytes_at(d, pos, i + 1, k, j);
        assert(spec_entry_bytes(d, pos, i)[4 * (k - i) + j] == spec_entry_bytes(d, pos, i + 1)[4 * (
        k - i) + j - 4]);
    }
}

/// Rebuilding the PAT under selection `ALL` keeps every available
/// service entry: the analysis tracks all of them, and the cached packet
/// holds each entry's 4 bytes after the header and the injected
/// network-information entry, followed by the section checksum.
///
/// The checksum clause speaks of sections that fit the packet with their
/// trailing checksum; the 4 bytes after the entries are then exactly the
/// big-endian CRC-32/MPEG-2 of the rebuilt section bytes from offset 5.
pub proof fn lemma_rebuild_all_keeps_every_entry(m: SplitterModel, d: Seq<u8>)
    requires
        wf_model(m),
        m.pat is None,
        d.len() == 188,
        !pat_malformed(d),
        m.sel.contains(Token::All),
    ensures
        pat_step(m, d).1 == TsStatus::Success,
        pat_step(m, d).0.pmt_retain == pat_entries(d).len(),
        pat_step(m, d).0.ver_pid == pat_entries(d).map_values(|e: PatEntry| e.pid),
        pat_step(m, d).0.pat is Some,
        ({
            let p = pat_step(m, d).0.pat.unwrap();
            let entries = pat_entries(d);
            &&& p.len() == 188
            &&& forall|i: int|
                0 <= i < entries.len() && 21 + 4 * i <= 188 ==> p.subrange(17 + 4 * i, 21 + 4 * i)
                    == d.subrange(#[trigger] entries[i].off as int, entries[i].off + 4)
            &&& (21 + 4 * entries.len() <= 188 ==> {
                let l = 17 + 4 * entries.len() as int;
                let crc = crate::pat::crc32_mpeg2_of(p.subrange(5, l as int));
                &&& p[l as int] == (crc / 0x1000000) as u8
                &&& p[l + 1] == ((crc / 0x10000) % 256) as u8
                &&& p[l + 2] == ((crc / 0x100) % 256) as u8
                &&& p[l + 3] == (crc % 256) as u8
            })
        }),
{
    let entries = pat_entries(d);
    lemma_all_selects_everything(entries, m.sel, 0);
    assert(entries.skip(0) =~= entries);
    let sel_entries = spec_selected_from(entries, m.sel, 0);
    assert(sel_entries == entries);
    let offs = sel_entries.map_values(|e: PatEntry| e.off);
    lemma_entries_bounds(d, 13);
    assert forall|k: int| 0 <= k < offs.len() implies #[trigger] offs[k] + 4 <= 188 by {
        assert(offs[k] == entries[k].off);
    }
    lemma_entry_bytes_len(d, offs, 0);

    let head = d.subrange(0, 13) + seq![0u8, 0u8, 0xe0u8, 0x10u8];
    let base = head + spec_entry_bytes(d, offs, 0);
    let l = base.len() as int;
    assert(l == 17 + 4 * entries.len());
    let sized = base.update(6, ((base[6] / 16) * 16 + ((l - 8) / 256) % 16) as u8).update(
        7,
        ((l - 4) % 256) as u8,
    );
    let crc = crate::pat::crc32_mpeg2_of(sized.subrange(5, l));
    let full = sized + seq![
        (crc / 0x1000000) as u8,
        ((crc / 0x10000) % 256) as u8,
        ((crc / 0x100) % 256) as u8,
        (crc % 256) as u8,
    ];
    let p = pat_step(m, d).0.pat.unwrap();
    assert(p == crate::pat::spec_rebuild_pat(d, offs));
    assert(p.len() == 188);

    assert forall|i: int|
        0 <= i < entries.len() && 21 + 4 * i <= 188 implies p.subrange(17 + 4 * i, 21 + 4 * i)
        == d.subrange(#[trigger] entries[i].off as int, entries[i].off + 4) by {
        assert(offs[i] == entries[i].off);
        lemma_entry_bytes_at(d, offs, 0, i, 0);
        lemma_entry_bytes_at(d, offs, 0, i, 1);
        lemma_entry_bytes_at(d, offs, 0, i, 2);
        lemma_entry_bytes_at(d, offs, 0, i, 3);
        assert(p[17 + 4 * i] == d[offs[i] + 0]);
        assert(p[17 + 4 * i + 1] == d[offs[i] + 1]);
        assert(p[17 + 4 * i + 2] == d[offs[i] + 2]);
        assert(p[17 + 4 * i + 3] == d[offs[i] + 3]);
        assert(p.subrange(17 + 4 * i, 21 + 4 * i) =~= d.subrange(
            entries[i].off as int,
            entries[i].off + 4,
        ));
    }

    if 21 + 4 * entries.len() <= 188 {
        assert(full.len() == l + 4 <= 188);
        assert forall|x: int| 5 <= x < l implies p[x] == sized[x] by {
            assert(full[x] == sized[x]);
        }
        assert(p.subrange(5, l) =~= sized.subrange(5, l));
        assert(p[l] == full[l] && p[l + 1] == full[l + 1] && p[l + 2] == full[l + 2] && p[l + 3]
            == full[l + 3]);
    }
}

/// A selection of only `1SEG` tracks exactly the PMT with PID `0x1FC8`,
/// whatever services the PAT lists and whichever of them comes first.
pub proof fn lemma_oneseg_selects_exactly_oneseg(m: SplitterModel, d: Seq<u8>)
    requires
        wf_model(m),
        m.pat is None,
        d.len() == 188,
        !pat_malformed(d),
        m.sel == seq![Token::OneSeg],
        forall|p: int| 0 <= p < MAX_PID ==> m.pmt_pids[p] == 0,
    ensures
        pat_step(m, d).1 == TsStatus::Success,
        forall|p: int|
            0 <= p < MAX_PID ==> ((pat_step(m, d).0.pmt_pids[p] != 0) <==> (p == 0x1FC8
                && exists|i: int|
                0 <= i < pat_entries(d).len() && #[trigger] pat_entries(d)[i].pid == 0x1FC8)),
{
    let entries = pat_entries(d);
    let sel_entries = spec_selected_from(entries, m.sel, 0);
    lemma_oneseg_filter(entries, m.sel, 0);
    let spids = sel_entries.map_values(|e: PatEntry| e.pid);
    assert forall|p: int| 0 <= p < MAX_PID implies ((pat_step(m, d).0.pmt_pids[p] != 0) <==> (p
        == 0x1FC8 && exists|i: int|
        0 <= i < entries.len() && #[trigger] entries[i].pid == 0x1FC8)) by {
        assert(pat_step(m, d).0.pmt_pids == mark_pids(m.pmt_pids, spids, 1u16));
        if spids.contains(p as u16) {
            let k = choose|k: int| 0 <= k < spids.len() && spids[k] == p as u16;
            assert(sel_entries[k].pid == p as u16);
        }
        if p == 0x1FC8 && exists|i: int|
            0 <= i < entries.len() && #[trigger] entries[i].pid == 0x1FC8 {
            let i = choose|i: int| 0 <= i < entries.len() && #[trigger] entries[i].pid == 0x1FC8;
            assert(sel_entries.contains(entries[i]));
            let k = choose|k: int| 0 <= k < sel_entries.len() && sel_entries[k] == entries[i];
            assert(spids[k] == p as u16);
            assert(spids.contains(p as u16));
        }
    }
}

/// With only a `1SEG` token, an entry is selected exactly when its PMT
/// PID is `0x1FC8`.
proof fn lemma_oneseg_filter(entries: Seq<PatEntry>, sel: Seq<Token>, i: int)
    requires
        0 <= i <= entries.len(),
        sel == seq![Token::OneSeg],
    ensures
        forall|k: int|
            0 <= k < spec_selected_from(entries, sel, i).len()
                ==> #[trigger] spec_selected_from(entries, sel, i)[k].pid == 0x1FC8
                && entries.contains(spec_selected_from(entries, sel, i)[k]),
        forall|k: int|
            i <= k < entries.len() && #[trigger] entries[k].pid == 0x1FC8 ==> spec_selected_from(
                entries,
                sel,
                i,
            ).contains(entries[k]),
    decreases entries.len() - i,
{
    if i < entries.len() {
        lemma_oneseg_filter(entries, sel, i + 1);
        let cur = spec_selected_from(entries, sel, i);
        let rest = spec_selected_from(entries, sel, i + 1);
        if crate::pat::spec_entry_selected(sel, i, entries[i], entries.len() as int) {
            let k = choose|k: int|
                0 <= k < sel.len() && crate::pat::spec_token_selects(
                    sel[k],
                    i,
                    entries[i],
                    entries.len() as int,
                );
            assert(sel[k] == Token::OneSeg);
            assert(entries[i].pid == 0x1FC8);
            assert(cur == seq![entries[i]] + rest);
            assert forall|k2: int|
                0 <= k2 < cur.len() implies (#[trigger] cur[k2]).pid == 0x1FC8 && entries.contains(
                cur[k2],
            ) by {
                if k2 == 0 {
                    assert(cur[0] == entries[i]);
                } else {
                    assert(cur[k2] == rest[k2 - 1]);
                }
            }
            assert forall|k2: int|
                i <= k2 < entries.len() && #[trigger] entries[k2].pid == 0x1FC8 implies cur.contains(
                entries[k2],
            ) by {
                if k2 == i {
                    assert(cur[0] == entries[i]);
                } else {
                    let j = choose|j: int| 0 <= j < rest.len() && rest[j] == entries[k2];
                    assert(cur[j + 1] == entries[k2]);
                }
            }
        } else {
            assert forall|k2: int|
                i <= k2 < entries.len() && #[trigger] entries[k2].pid == 0x1FC8 implies cur.contains(
                entries[k2],
            ) by {
                if k2 == i {
                    assert(crate::pat::spec_token_selects(
                        sel[0],
                        i,
                        entries[i],
                        entries.len() as int,
                    ));
                    assert(false);
                }
            }
        }
    }
}

/// Running the classification pass on an already-ready selection with no
/// first parses pending changes nothing: the PID tables, the tracked
/// PMTs, and the cached PAT stay byte-identical, and the buffer is left
/// as it was.
pub proof fn lemma_classification_idempotent(m: SplitterModel, data: Seq<u8>, index: int)
    requires
        wf_model(m),
        spec_ready(m),
        forall|p: int| 0 <= p < MAX_PID ==> m.pmt_pids[p] != 1,
    ensures
        read_step(m, data, index).0 == m,
        read_step(m, data, index).1 == data,
    decreases data.len() - index,
{
    if !(index < 0 || index + 188 > data.len()) {
        let pkt = data.subrange(index, index + 188);
        let pid = spec_pid(data, index);
        assert(pat_step(m, pkt).0 == m && pat_step(m, pkt).1 == TsStatus::Success);
        if 0 <= pid < MAX_PID {
            assert(m.pmt_pids[pid as int] != 1);
        }
    }
}

/// A continuation packet whose continuity counter does not follow the
/// recorded one, or that arrives with no section in progress, is
/// rejected as a reassembly error and leaves the whole state unchanged:
/// no PID mark, no section progress, no recorded counter moves.
pub proof fn lemma_discontinuity_rejected(m: SplitterModel, d: Seq<u8>, mark: u16)
    requires
        wf_model(m),
        d.len() == 188,
        !spec_payload_start(d),
        m.section_remain[spec_pid(d, 0) as int] == 0 || spec_cc(d) != (m.packet_seq[spec_pid(
            d,
            0,
        ) as int] + 1) % 16,
    ensures
        pmt_step(m, d, mark).1 == TsStatus::Error,
        pmt_step(m, d, mark).0 == m,
{
}

/// Wherever in a buffer a payload-start packet of a tracked PMT shows a
/// version different from the recorded one — or arrives while a pass is
/// incomplete — the filtering pass runs the rescan step on it: the rest
/// of the pass continues from exactly the rescan step's state and
/// status.
pub proof fn lemma_version_change_triggers_rescan(
    m: SplitterModel,
    buff: Seq<u8>,
    index: int,
    version: u8,
    out: Seq<u8>,
    result: TsStatus,
)
    requires
        wf_model(m),
        0 <= index,
        index + 188 <= buff.len(),
        spec_pid(buff, index) != 0,
        m.pmt_pids[spec_pid(buff, index) as int] != 0,
        spec_payload_start(buff.subrange(index, index + 188)),
        ver_lookup(m.ver_pid, m.ver_val, spec_pid(buff, index), version, m.ver_pid.len() as int)
            != spec_version_byte(buff.subrange(index, index + 188)) || !spec_ready(m),
    ensures
        ({
            let pkt = buff.subrange(index, index + 188);
            let rs = rescan_step(m, pkt);
            let v2 = ver_lookup(
                m.ver_pid,
                m.ver_val,
                spec_pid(buff, index),
                version,
                m.ver_pid.len() as int,
            );
            let out2 = if rs.0.pids[spec_pid(buff, index) as int] != 0 {
                out + pkt
            } else {
                out
            };
            split_step(m, buff, index, version, out, result) == split_step(
                rs.0,
                buff,
                index + 188,
                v2,
                out2,
                rs.1,
            )
        }),
{
}

/// A packet of a tracked PMT seen while the pass is complete and — for
/// a payload-start packet — with its version matching the recorded one
/// causes no reparse: the classification tables and the status are
/// unchanged by that packet, which is emitted exactly when its PID is
/// retained.
pub proof fn lemma_version_match_skips_rescan(
    m: SplitterModel,
    buff: Seq<u8>,
    index: int,
    version: u8,
    out: Seq<u8>,
    result: TsStatus,
)
    requires
        wf_model(m),
        0 <= index,
        index + 188 <= buff.len(),
        spec_pid(buff, index) != 0,
        m.pmt_pids[spec_pid(buff, index) as int] != 0,
        spec_ready(m),
        spec_payload_start(buff.subrange(index, index + 188)) ==> ver_lookup(
            m.ver_pid,
            m.ver_val,
            spec_pid(buff, index),
            version,
            m.ver_pid.len() as int,
        ) == spec_version_byte(buff.subrange(index, index + 188)),
    ensures
        ({
            let pkt = buff.subrange(index, index + 188);
            let v2 = if spec_payload_start(pkt) {
                ver_lookup(
                    m.ver_pid,
                    m.ver_val,
                    spec_pid(buff, index),
                    version,
                    m.ver_pid.len() as int,
                )
            } else {
                version
            };
            let out2 = if m.pids[spec_pid(buff, index) as int] != 0 {
                out + pkt
            } else {
                out
            };
            split_step(m, buff, index, version, out, result) == split_step(
                m,
                buff,
                index + 188,
                v2,
                out2,
                result,
            )
        }),
{
}

/// At the rescan step that completes a pass, every retained mark is
/// lowered by one: a PID stays retained exactly when this packet's
/// content names it, the pass had already marked it twice, or it is a
/// tracked PMT — a PID marked only by the stale pass decays to zero.
pub proof fn lemma_rescan_completion_decays_stale_pids(m: SplitterModel, d: Seq<u8>)
    requires
        wf_model(m),
        m.pat is Some,
        m.pmt_counter + 1 == m.pmt_retain,
        d.len() == 188,
        spec_payload_start(d),
        pmt_step(m, d, 2u16).1 == TsStatus::Success || pmt_step(m, d, 2u16).1
            == TsStatus::Continue,
    ensures
        rescan_step(m, d).1 == TsStatus::Success,
        forall|p: int|
            0 <= p < MAX_PID ==> ((rescan_step(m, d).0.pids[p] != 0) <==> (pmt_start_marked(
                d,
            ).contains(p as u16) || m.pids[p] >= 2 || m.pmt_pids[p] != 0)),
{
    let s = pmt_step(m, d, 2u16);
    assert(s.0.pids == mark_pids(m.pids, pmt_start_marked(d), 2u16));
    assert(rescan_step(m, d).0.pids == reconcile_pids(s.0.pids, m.pmt_pids));
    assert forall|p: int|
        0 <= p < MAX_PID implies ((rescan_step(m, d).0.pids[p] != 0) <==> (pmt_start_marked(
        d,
    ).contains(p as u16) || m.pids[p] >= 2 || m.pmt_pids[p] != 0)) by {
        assert(s.0.pids[p] == (if pmt_start_marked(d).contains(p as u16) {
            2u16
        } else {
            m.pids[p]
        }));
        let dd: u16 = if s.0.pids[p] > 0 {
            (s.0.pids[p] - 1) as u16
        } else {
            0u16
        };
        assert(reconcile_pids(s.0.pids, m.pmt_pids)[p] == (if m.pmt_pids[p] != 0 && dd == 0 {
            1u16
        } else {
            dd
        }));
    }
}

/// When a clean rescan pass over a single tracked PMT completes in one
/// packet, a PID stays retained exactly when the new PMT content names
/// it or it is a tracked PMT: every PID retained only by the stale pass
/// decays to zero.
pub proof fn lemma_rescan_reconciles(m: SplitterModel, d: Seq<u8>)
    requires
        wf_model(m),
        spec_ready(m),
        m.pmt_retain == 1,
        d.len() == 188,
        spec_payload_start(d),
        forall|p: int| 0 <= p < MAX_PID ==> #[trigger] m.pids[p] <= 1,
        ({
            let m1 = SplitterModel {
                pmt_counter: 0,
                section_remain: Seq::new(MAX_PID as nat, |i: int| 0u16),
                packet_seq: Seq::new(MAX_PID as nat, |i: int| 0u8),
                ..m
            };
            pmt_step(m1, d, 2u16).1 == TsStatus::Success
        }),
    ensures
        rescan_step(m, d).1 == TsStatus::Success,
        forall|p: int|
            0 <= p < MAX_PID ==> ((rescan_step(m, d).0.pids[p] != 0) <==> (pmt_start_marked(
                d,
            ).contains(p as u16) || m.pmt_pids[p] != 0)),
{
    let m1 = SplitterModel {
        pmt_counter: 0,
        section_remain: Seq::new(MAX_PID as nat, |i: int| 0u16),
        packet_seq: Seq::new(MAX_PID as nat, |i: int| 0u8),
        ..m
    };
    let s = pmt_step(m1, d, 2u16);
    assert(s.0.pids == mark_pids(m.pids, pmt_start_marked(d), 2u16));
    assert(s.0.pmt_counter == 0);
    assert(rescan_step(m, d).0.pids == reconcile_pids(s.0.pids, m.pmt_pids));
    assert forall|p: int|
        0 <= p < MAX_PID implies ((rescan_step(m, d).0.pids[p] != 0) <==> (pmt_start_marked(
        d,
    ).contains(p as u16) || m.pmt_pids[p] != 0)) by {
        assert(s.0.pids[p] == (if pmt_start_marked(d).contains(p as u16) {
            2u16
        } else {
            m.pids[p]
        }));
        let dd: u16 = if s.0.pids[p] > 0 {
            (s.0.pids[p] - 1) as u16
        } else {
            0u16
        };
        assert(reconcile_pids(s.0.pids, m.pmt_pids)[p] == (if m.pmt_pids[p] != 0 && dd == 0 {
            1u16
        } else {
            dd
        }));
    }
}

} // verus!
