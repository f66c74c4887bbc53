use vstd::prelude::*;

use crate::pmt::{lemma_mark_none, lemma_mark_one, mark_pids};
use crate::selection::Token;
use crate::state::{PmtVersion, Splitter, SplitterModel, LENGTH_PACKET, MAX_PID};
use crate::{spec_pid, TsStatus};

verus! {

/// The CRC-32/MPEG-2 checksum of a byte string.
pub uninterp spec fn crc32_mpeg2_of(data: Seq<u8>) -> u32;

/// Relies on `crc::Crc::<u32>::checksum` with the `CRC_32_MPEG_2`
/// algorithm from the crc catalog: the checksum is a function of the
/// bytes alone.
#[verifier::external_body]
fn crc32_mpeg2(data: &[u8]) -> (r: u32)
    ensures
        r == crc32_mpeg2_of(data@),
{
    crc::Crc::<u32>::new(&crc::CRC_32_MPEG_2).checksum(data)
}

/// One program entry of a PAT section: a service ID, the PID of the
/// service's PMT, and the byte offset of the 4-byte entry in the packet.
#[derive(Debug, Copy, Clone, PartialEq, Eq, Structural)]
pub struct PatEntry {
    pub sid: u16,
    pub pid: u16,
    pub off: usize,
}

/// How many bytes of the packet belong to the PAT section: the section
/// length field plus the 4 bytes before it, clipped to the packet.
pub open spec fn pat_bound(d: Seq<u8>) -> int {
    let size = (d[6] % 16) * 256 + d[7] + 4;
    if size <= 188 {
        size
    } else {
        188
    }
}

/// The PAT is malformed: a program entry stands at offset 13, where only
/// the network-information entry may stand.
pub open spec fn pat_malformed(d: Seq<u8>) -> bool {
    17 <= pat_bound(d) && spec_pid(d, 14) != 0x10
}

/// The program entries of the PAT section from offset `cnt` on, in order,
/// each 4 bytes, skipping network-information entries (PID `0x0010`).
pub open spec fn pat_entries_from(d: Seq<u8>, cnt: int) -> Seq<PatEntry>
    decreases 188 - cnt,
{
    if cnt < 13 || cnt + 4 > pat_bound(d) || cnt + 4 > 188 {
        Seq::empty()
    } else if spec_pid(d, cnt + 1) == 0x10 {
        pat_entries_from(d, cnt + 4)
    } else {
        seq![
            PatEntry {
                sid: (d[cnt] * 256 + d[cnt + 1]) as u16,
                pid: spec_pid(d, cnt + 1),
                off: cnt as usize,
            },
        ] + pat_entries_from(d, cnt + 4)
    }
}

/// All available program entries of a PAT packet.
pub open spec fn pat_entries(d: Seq<u8>) -> Seq<PatEntry> {
    pat_entries_from(d, 13)
}

/// Whether one selection token selects the `i`-th of `n` available
/// entries.
pub open spec fn spec_token_selects(t: Token, i: int, e: PatEntry, n: int) -> bool {
    match t {
        Token::First => i == 0,
        Token::Second => i == 1,
        Token::Third => i == 2,
        Token::OneSeg => e.pid == 0x1FC8,
        Token::All => true,
        Token::Empty => n == 1,
        Token::Sid(s) => e.sid == s,
        Token::Epg => false,
        Token::Epg1Seg => false,
        Token::Unknown => false,
    }
}

/// Whether any token of the selection selects the `i`-th of `n` entries.
pub open spec fn spec_entry_selected(sel: Seq<Token>, i: int, e: PatEntry, n: int) -> bool {
    exists|k: int| 0 <= k < sel.len() && spec_token_selects(sel[k], i, e, n)
}

/// The selected entries among `entries`, from index `i` on.
pub open spec fn spec_selected_from(entries: Seq<PatEntry>, sel: Seq<Token>, i: int) -> Seq<
    PatEntry,
>
    decreases entries.len() - i,
{
    if i < 0 || i >= entries.len() {
        Seq::empty()
    } else if spec_entry_selected(sel, i, entries[i], entries.len() as int) {
        seq![entries[i]] + spec_selected_from(entries, sel, i + 1)
    } else {
        spec_selected_from(entries, sel, i + 1)
    }
}

/// The fixed PIDs that the EPG tokens mark for retention.
pub open spec fn spec_epg_pids(sel: Seq<Token>) -> Seq<u16> {
    (if sel.contains(Token::Epg) {
        seq![0x11u16, 0x12u16, 0x23u16, 0x29u16]
    } else {
        Seq::empty()
    }) + (if sel.contains(Token::Epg1Seg) {
        seq![0x11u16, 0x26u16, 0x27u16]
    } else {
        Seq::empty()
    })
}

/// The 4-byte entries at the given offsets, concatenated in order.
pub open spec fn spec_entry_bytes(d: Seq<u8>, pos: Seq<usize>, i: int) -> Seq<u8>
    decreases pos.len() - i,
{
    if i < 0 || i >= pos.len() {
        Seq::empty()
    } else {
        d.subrange(pos[i] as int, pos[i] + 4) + spec_entry_bytes(d, pos, i + 1)
    }
}

/// The rebuilt PAT packet: the original 13 header bytes, a synthetic
/// network-information entry, the selected entries in original order, a
/// recomputed section length, the CRC-32/MPEG-2 checksum of the section,
/// and `0xFF` padding up to one whole packet.
pub open spec fn spec_rebuild_pat(d: Seq<u8>, pos: Seq<usize>) -> Seq<u8> {
    let base = d.subrange(0, 13) + seq![0u8, 0u8, 0xe0u8, 0x10u8] + spec_entry_bytes(d, pos, 0);
    let l = base.len() as int;
    let sized = base.update(6, ((base[6] / 16) * 16 + ((l - 8) / 256) % 16) as u8).update(
        7,
        ((l - 4) % 256) as u8,
    );
    let crc = crc32_mpeg2_of(sized.subrange(5, l));
    let full = sized + seq![
        (crc / 0x1000000) as u8,
        ((crc / 0x10000) % 256) as u8,
        ((crc / 0x100) % 256) as u8,
        (crc % 256) as u8,
    ];
    if full.len() >= 188 {
        full.take(188)
    } else {
        full + Seq::new((188 - full.len()) as nat, |i: int| 0xffu8)
    }
}

/// The state transition and status of the PAT analysis on one PAT packet.
///
/// Analysis runs once: with a cached PAT already built it does nothing.
/// On a malformed section it reports an error and changes nothing, so a
/// later PAT packet can retry. Otherwise it selects the entries that the
/// selection expression matches, marks their PMT PIDs as tracked and
/// retained, registers them for version tracking, marks the fixed EPG
/// PIDs if an EPG token is present, and caches the rebuilt PAT.
pub open spec fn pat_step(m: SplitterModel, d: Seq<u8>) -> (SplitterModel, TsStatus) {
    if m.pat is Some {
        (m, TsStatus::Success)
    } else if pat_malformed(d) {
        (m, TsStatus::Error)
    } else {
        let entries = pat_entries(d);
        let sel_entries = spec_selected_from(entries, m.sel, 0);
        let spids = sel_entries.map_values(|e: PatEntry| e.pid);
        let offs = sel_entries.map_values(|e: PatEntry| e.off);
        (
            SplitterModel {
                pids: mark_pids(m.pids, spids + spec_epg_pids(m.sel), 1u16),
                pmt_pids: mark_pids(m.pmt_pids, spids, 1u16),
                pat: Some(spec_rebuild_pat(d, offs)),
                pmt_retain: sel_entries.len() as int,
                ver_pid: spids,
                ver_val: Seq::new(sel_entries.len(), |i: int| 0u8),
                ..m
            },
            TsStatus::Success,
        )
    }
}

/// A PAT section holds at most `(191 - cnt) / 4` entries from offset
/// `cnt` on.
proof fn lemma_entries_len(d: Seq<u8>, cnt: int)
    requires
        13 <= cnt <= 191,
    ensures
        4 * pat_entries_from(d, cnt).len() <= 191 - cnt,
    decreases 191 - cnt,
{
    if !(cnt < 13 || cnt + 4 > pat_bound(d) || cnt + 4 > 188) {
        lemma_entries_len(d, cnt + 4);
    }
}

/// No more entries are selected than are available.
proof fn lemma_selected_len(entries: Seq<PatEntry>, sel: Seq<Token>, i: int)
    requires
        0 <= i <= entries.len(),
    ensures
        spec_selected_from(entries, sel, i).len() <= entries.len() - i,
    decreases entries.len() - i,
{
    if i < entries.len() {
        lemma_selected_len(entries, sel, i + 1);
    }
}

/// Whether one token selects the `i`-th of `n` available entries.
fn token_selects(t: Token, i: usize, e: PatEntry, n: usize) -> (r: bool)
    ensures
        r == spec_token_selects(t, i as int, e, n as int),
{
    match t {
        Token::First => i == 0,
        Token::Second => i == 1,
        Token::Third => i == 2,
        Token::OneSeg => e.pid == 0x1FC8,
        Token::All => true,
        Token::Empty => n == 1,
        Token::Sid(s) => e.sid == s,
        Token::Epg => false,
        Token::Epg1Seg => false,
        Token::Unknown => false,
    }
}

/// Whether any token of the selection selects the `i`-th of `n` entries.
#[verifier::loop_isolation(false)]
fn entry_selected(sel: &Vec<Token>, i: usize, e: PatEntry, n: usize) -> (r: bool)
    ensures
        r == spec_entry_selected(sel@, i as int, e, n as int),
{
    let mut k: usize = 0;
    while k < sel.len()
        invariant
            k <= sel@.len(),
            forall|k2: int|
                0 <= k2 < k ==> !spec_token_selects(sel@[k2], i as int, e, n as int),
        decreases sel@.len() - k,
    {
        if token_selects(sel[k], i, e, n) {
            return true;
        }
        k = k + 1;
    }
    false
}

/// Rebuilds the PAT from the original packet and the byte offsets of the
/// selected entries, and caches it for emission.
#[verifier::loop_isolation(false)]
pub fn recreate_pat(sp: &mut Splitter, data: &[u8], pos: &Vec<usize>) -> (r: TsStatus)
    requires
        old(sp).wf(),
        data@.len() == LENGTH_PACKET,
        pos@.len() <= 43,
        forall|i: int| 0 <= i < pos@.len() ==> 13 <= #[trigger] pos@[i] && pos@[i] + 4 <= 188,
    ensures
        final(sp).wf(),
        final(sp)@ == (SplitterModel { pat: Some(spec_rebuild_pat(data@, pos@)), ..old(sp)@ }),
        r == TsStatus::Success,
{
    let ghost d = data@;
    let ghost m0 = sp@;

    let mut crc_data: Vec<u8> = Vec::new();

    // The 13 fixed header bytes.
    let mut c: usize = 0;
    while c < 13
        invariant
            c <= 13,
            crc_data@ =~= d.subrange(0, c as int),
        decreases 13 - c,
    {
        crc_data.push(data[c]);
        c = c + 1;
    }

    // The synthetic network-information entry.
    crc_data.push(0x00);
    crc_data.push(0x00);
    crc_data.push(0xe0);
    crc_data.push(0x10);
    let ghost head = d.subrange(0, 13) + seq![0u8, 0u8, 0xe0u8, 0x10u8];
    proof {
        assert(crc_data@ =~= head);
    }

    // The selected entries, 4 raw bytes each, in original order.
    let mut i: usize = 0;
    proof {
        assert(head + Seq::<u8>::empty() =~= head);
    }
    while i < pos.len()
        invariant
            i <= pos@.len(),
            crc_data@.len() == 17 + 4 * i,
            crc_data@ =~= head + spec_entry_bytes(d, pos@, 0).take(4 * i as int),
            spec_entry_bytes(d, pos@, 0) =~= spec_entry_bytes(d, pos@, 0).take(4 * i as int)
                + spec_entry_bytes(d, pos@, i as int),
        decreases pos@.len() - i,
    {
        let o = pos[i];
        crc_data.push(data[o]);
        crc_data.push(data[o + 1]);
        crc_data.push(data[o + 2]);
        crc_data.push(data[o + 3]);
        proof {
            assert(d.subrange(o as int, o + 4) =~= seq![d[o as int], d[o + 1], d[o + 2], d[o + 3]]);
            assert(spec_entry_bytes(d, pos@, i as int) == d.subrange(o as int, o + 4)
                + spec_entry_bytes(d, pos@, i + 1));
            assert(spec_entry_bytes(d, pos@, 0).take(4 * (i + 1)) =~= spec_entry_bytes(
                d,
                pos@,
                0,
            ).take(4 * i as int) + d.subrange(o as int, o + 4));
            assert(crc_data@ =~= head + spec_entry_bytes(d, pos@, 0).take(4 * (i + 1)));
            assert(spec_entry_bytes(d, pos@, 0) =~= spec_entry_bytes(d, pos@, 0).take(4 * (i + 1))
                + spec_entry_bytes(d, pos@, i + 1));
        }
        i = i + 1;
    }
    proof {
        assert(spec_entry_bytes(d, pos@, pos@.len() as int) =~= Seq::<u8>::empty());
        assert(spec_entry_bytes(d, pos@, 0).take(4 * i as int) =~= spec_entry_bytes(d, pos@, 0));
        assert(crc_data@ =~= head + spec_entry_bytes(d, pos@, 0));
    }
    let ghost base = head + spec_entry_bytes(d, pos@, 0);

    // Recompute the section length for the new entry count.
    let l = crc_data.len();
    let hi: usize = (l - 8) / 256;
    proof {
        assert(l == 17 + 4 * pos@.len());
        assert(hi == 0);
    }
    let b6: u8 = (crc_data[6] / 16) * 16 + (hi as u8);
    crc_data[6] = b6;
    let b7: u8 = ((l - 4) % 256) as u8;
    crc_data[7] = b7;
    let ghost sized = base.update(6, ((base[6] / 16) * 16 + ((l - 8) / 256) % 16) as u8).update(
        7,
        ((l - 4) % 256) as u8,
    );
    proof {
        assert(crc_data@ =~= sized);
    }

    // The checksum of the section bytes, appended big-endian.
    let checksum = crc32_mpeg2(&crc_data.as_slice()[5..l]);
    proof {
        assert(crc_data@.subrange(5, l as int) =~= sized.subrange(5, sized.len() as int));
    }
    crc_data.push((checksum / 0x1000000) as u8);
    crc_data.push(((checksum / 0x10000) % 256) as u8);
    crc_data.push(((checksum / 0x100) % 256) as u8);
    crc_data.push((checksum % 256) as u8);
    let ghost full = sized + seq![
        (crc32_mpeg2_of(sized.subrange(5, sized.len() as int)) / 0x1000000) as u8,
        ((crc32_mpeg2_of(sized.subrange(5, sized.len() as int)) / 0x10000) % 256) as u8,
        ((crc32_mpeg2_of(sized.subrange(5, sized.len() as int)) / 0x100) % 256) as u8,
        (crc32_mpeg2_of(sized.subrange(5, sized.len() as int)) % 256) as u8,
    ];
    proof {
        assert(crc_data@ =~= full);
    }

    // Pad with 0xFF up to one whole packet.
    while crc_data.len() < LENGTH_PACKET
        invariant
            full.len() <= crc_data@.len(),
            full.len() < LENGTH_PACKET ==> crc_data@.len() <= LENGTH_PACKET,
            crc_data@ =~= full + Seq::new((crc_data@.len() - full.len()) as nat, |k: int| 0xffu8),
        decreases LENGTH_PACKET - crc_data@.len(),
    {
        crc_data.push(0xff);
        proof {
            assert(crc_data@ =~= full + Seq::new(
                (crc_data@.len() - full.len()) as nat,
                |k: int| 0xffu8,
            ));
        }
    }

    // Store exactly one packet as the cached PAT.
    let mut pat: Vec<u8> = Vec::new();
    let mut c2: usize = 0;
    while c2 < LENGTH_PACKET
        invariant
            c2 <= LENGTH_PACKET,
            LENGTH_PACKET <= crc_data@.len(),
            pat@ =~= crc_data@.subrange(0, c2 as int),
        decreases LENGTH_PACKET - c2,
    {
        pat.push(crc_data[c2]);
        c2 = c2 + 1;
    }
    proof {
        if full.len() >= 188 {
            assert(pat@ =~= full.take(188));
        } else {
            assert(crc_data@.len() == 188);
            assert(pat@ =~= crc_data@);
        }
        assert(pat@ =~= spec_rebuild_pat(d, pos@));
    }
    sp.pat = Some(pat);
    proof {
        assert(sp@ =~= (SplitterModel { pat: Some(spec_rebuild_pat(d, pos@)), ..m0 }));
    }
    TsStatus::Success
}

/// Analyzes a PAT packet once per splitter state: matches the available
/// services against the selection expression, marks the selected PMT
/// PIDs, and caches the rebuilt PAT.
///
/// Returns [`TsStatus::Error`] on a malformed section, leaving the state
/// unchanged so the next PAT packet can retry; [`TsStatus::Success`]
/// otherwise. With a cached PAT already built, nothing changes.
#[verifier::loop_isolation(false)]
pub fn analyze_pat(sp: &mut Splitter, data: &[u8]) -> (r: TsStatus)
    requires
        old(sp).wf(),
        data@.len() == LENGTH_PACKET,
    ensures
        final(sp).wf(),
        final(sp)@ == pat_step(old(sp)@, data@).0,
        r == pat_step(old(sp)@, data@).1,
{
    let ghost d = data@;
    let ghost m0 = sp@;

    if sp.pat.is_some() {
        return TsStatus::Success;
    }

    // Bound the scan to the section, clipped to the packet.
    let psize: u16 = (data[6] % 16) as u16 * 256 + data[7] as u16 + 4;
    let mut bound: usize = psize as usize;
    if bound > LENGTH_PACKET {
        bound = LENGTH_PACKET;
    }
    proof {
        assert(bound == pat_bound(d));
    }

    // First pass: collect the available service entries.
    let mut entries: Vec<PatEntry> = Vec::new();
    let mut cnt: usize = 13;
    proof {
        assert(Seq::<PatEntry>::empty() + pat_entries_from(d, 13) =~= pat_entries_from(d, 13));
    }
    while cnt + 4 <= bound
        invariant
            13 <= cnt <= LENGTH_PACKET,
            cnt > 13 ==> cnt >= 17,
            cnt > 13 ==> !pat_malformed(d),
            pat_entries(d) =~= entries@ + pat_entries_from(d, cnt as int),
            forall|k: int|
                0 <= k < entries@.len() ==> 13 <= #[trigger] entries@[k].off && entries@[k].off + 4
                    <= 188,
            forall|k: int| 0 <= k < entries@.len() ==> #[trigger] entries@[k].pid < 8192,
        decreases bound - cnt,
    {
        let pid: u16 = (data[cnt + 2] % 32) as u16 * 256 + data[cnt + 3] as u16;
        if pid == 0x10 {
            cnt = cnt + 4;
        } else if cnt < 17 {
            // Offset 13 must hold the network-information entry.
            proof {
                assert(pat_malformed(d));
            }
            return TsStatus::Error;
        } else {
            let sid: u16 = data[cnt] as u16 * 256 + data[cnt + 1] as u16;
            let e = PatEntry { sid, pid, off: cnt };
            proof {
                assert(pat_entries_from(d, cnt as int) == seq![e] + pat_entries_from(d, cnt + 4));
                assert(entries@ + pat_entries_from(d, cnt as int) =~= entries@.push(e)
                    + pat_entries_from(d, cnt + 4));
            }
            entries.push(e);
            cnt = cnt + 4;
        }
    }
    proof {
        assert(pat_entries_from(d, cnt as int) =~= Seq::<PatEntry>::empty());
        assert(entries@ + Seq::<PatEntry>::empty() =~= entries@);
        assert(entries@ =~= pat_entries(d));
        assert(!pat_malformed(d));
        if 17 <= pat_bound(d) {
            lemma_entries_len(d, 17);
        }
        assert(entries@.len() <= 43);
        lemma_selected_len(entries@, m0.sel, 0);
    }

    // Second pass: evaluate the selection against each available entry.
    let n_avail = entries.len();
    let mut vpid: Vec<u16> = Vec::new();
    let mut vver: Vec<u8> = Vec::new();
    let mut pos: Vec<usize> = Vec::new();
    let ghost mut sel_acc: Seq<PatEntry> = Seq::empty();
    let mut j: usize = 0;
    proof {
        lemma_mark_none(m0.pids, 1u16);
        lemma_mark_none(m0.pmt_pids, 1u16);
        assert(Seq::<PatEntry>::empty() + spec_selected_from(entries@, m0.sel, 0)
            =~= spec_selected_from(entries@, m0.sel, 0));
    }
    while j < entries.len()
        invariant
            j <= entries@.len(),
            entries@.len() == n_avail <= 43,
            forall|k: int|
                0 <= k < entries@.len() ==> 13 <= #[trigger] entries@[k].off && entries@[k].off + 4
                    <= 188,
            forall|k: int| 0 <= k < entries@.len() ==> #[trigger] entries@[k].pid < 8192,
            forall|k: int| 0 <= k < pos@.len() ==> 13 <= #[trigger] pos@[k] && pos@[k] + 4 <= 188,
            spec_selected_from(entries@, m0.sel, 0) =~= sel_acc + spec_selected_from(
                entries@,
                m0.sel,
                j as int,
            ),
            sel_acc.len() <= j,
            vpid@ =~= sel_acc.map_values(|e: PatEntry| e.pid),
            pos@ =~= sel_acc.map_values(|e: PatEntry| e.off),
            vver@ =~= Seq::new(sel_acc.len(), |k: int| 0u8),
            sp.pids@ =~= mark_pids(m0.pids, sel_acc.map_values(|e: PatEntry| e.pid), 1u16),
            sp.pmt_pids@ =~= mark_pids(m0.pmt_pids, sel_acc.map_values(|e: PatEntry| e.pid), 1u16),
            sp.pids@.len() == MAX_PID,
            sp.pmt_pids@.len() == MAX_PID,
            sp@.pat == m0.pat,
            sp.pat_count == m0.pat_count,
            sp.sel@ == m0.sel,
            sp.pmt_retain == m0.pmt_retain,
            sp.pmt_counter == m0.pmt_counter,
            sp.pmt_version.pid@ == m0.ver_pid,
            sp.pmt_version.version@ == m0.ver_val,
            sp.packet_seq@ == m0.packet_seq,
            sp.section_remain@ == m0.section_remain,
        decreases entries@.len() - j,
    {
        let e = entries[j];
        let ghost spids_old = sel_acc.map_values(|x: PatEntry| x.pid);
        if entry_selected(&sp.sel, j, e, n_avail) {
            proof {
                lemma_mark_one(m0.pmt_pids, spids_old, e.pid, 1u16);
                lemma_mark_one(m0.pids, spids_old, e.pid, 1u16);
                assert(sel_acc.push(e).map_values(|x: PatEntry| x.pid) =~= spids_old.push(e.pid));
                assert(sel_acc.push(e).map_values(|x: PatEntry| x.off) =~= sel_acc.map_values(
                    |x: PatEntry| x.off,
                ).push(e.off));
                assert(spec_selected_from(entries@, m0.sel, j as int) == seq![e]
                    + spec_selected_from(entries@, m0.sel, j + 1));
                assert(sel_acc + spec_selected_from(entries@, m0.sel, j as int) =~= sel_acc.push(e)
                    + spec_selected_from(entries@, m0.sel, j + 1));
            }
            sp.pmt_pids[e.pid as usize] = 1;
            sp.pids[e.pid as usize] = 1;
            pos.push(e.off);
            vpid.push(e.pid);
            vver.push(0);
            proof {
                sel_acc = sel_acc.push(e);
                assert(vver@ =~= Seq::new(sel_acc.len(), |k: int| 0u8));
            }
        } else {
            proof {
                assert(spec_selected_from(entries@, m0.sel, j as int) == spec_selected_from(
                    entries@,
                    m0.sel,
                    j + 1,
                ));
            }
        }
        j = j + 1;
    }
    proof {
        assert(spec_selected_from(entries@, m0.sel, j as int) =~= Seq::<PatEntry>::empty());
        assert(sel_acc + Seq::<PatEntry>::empty() =~= sel_acc);
        assert(sel_acc =~= spec_selected_from(entries@, m0.sel, 0));
    }
    let ghost spids = sel_acc.map_values(|e: PatEntry| e.pid);

    // The EPG tokens mark fixed PIDs for retention.
    let mut has_epg = false;
    let mut has_epg1seg = false;
    let mut k: usize = 0;
    while k < sp.sel.len()
        invariant
            k <= sp.sel@.len(),
            sp.sel@ == m0.sel,
            has_epg == exists|k2: int| 0 <= k2 < k && m0.sel[k2] == Token::Epg,
            has_epg1seg == exists|k2: int| 0 <= k2 < k && m0.sel[k2] == Token::Epg1Seg,
        decreases sp.sel@.len() - k,
    {
        let t = sp.sel[k];
        if t == Token::Epg {
            has_epg = true;
        }
        if t == Token::Epg1Seg {
            has_epg1seg = true;
        }
        k = k + 1;
    }
    proof {
        assert(has_epg == m0.sel.contains(Token::Epg));
        assert(has_epg1seg == m0.sel.contains(Token::Epg1Seg));
    }
    let ghost mut epg_acc: Seq<u16> = Seq::empty();
    if has_epg {
        proof {
            lemma_mark_one(m0.pids, spids, 0x11u16, 1u16);
            lemma_mark_one(m0.pids, spids.push(0x11u16), 0x12u16, 1u16);
            lemma_mark_one(m0.pids, spids.push(0x11u16).push(0x12u16), 0x23u16, 1u16);
            lemma_mark_one(m0.pids, spids.push(0x11u16).push(0x12u16).push(0x23u16), 0x29u16, 1u16);
        }
        sp.pids[0x11] = 1;
        sp.pids[0x12] = 1;
        sp.pids[0x23] = 1;
        sp.pids[0x29] = 1;
        proof {
            epg_acc = seq![0x11u16, 0x12u16, 0x23u16, 0x29u16];
            assert(spids.push(0x11u16).push(0x12u16).push(0x23u16).push(0x29u16) =~= spids
                + epg_acc);
        }
    }
    if has_epg1seg {
        let ghost pre = spids + epg_acc;
        proof {
            lemma_mark_one(m0.pids, pre, 0x11u16, 1u16);
            lemma_mark_one(m0.pids, pre.push(0x11u16), 0x26u16, 1u16);
            lemma_mark_one(m0.pids, pre.push(0x11u16).push(0x26u16), 0x27u16, 1u16);
        }
        sp.pids[0x11] = 1;
        sp.pids[0x26] = 1;
        sp.pids[0x27] = 1;
        proof {
            epg_acc = epg_acc + seq![0x11u16, 0x26u16, 0x27u16];
            assert(pre.push(0x11u16).push(0x26u16).push(0x27u16) =~= spids + epg_acc);
        }
    }
    proof {
        assert(epg_acc =~= spec_epg_pids(m0.sel));
        assert(spids + Seq::<u16>::empty() =~= spids);
        assert(sp.pids@ =~= mark_pids(m0.pids, spids + spec_epg_pids(m0.sel), 1u16));
    }

    // Register the tracked PMTs and rebuild the PAT.
    sp.pmt_retain = vpid.len();
    sp.pmt_version = PmtVersion { pid: vpid, version: vver };
    proof {
        assert(pos@ =~= sel_acc.map_values(|e: PatEntry| e.off));
        assert(forall|i2: int|
            0 <= i2 < pos@.len() ==> 13 <= #[trigger] pos@[i2] && pos@[i2] + 4 <= 188);
    }
    let r = recreate_pat(sp, data, &pos);
    proof {
        assert(sp@ =~= pat_step(m0, d).0);
    }
    r
}

} // verus!
