use crc::{Crc, CRC_32_MPEG_2};

use ts_splitter::filter::{rescan_pid, split_select, split_ts};
use ts_splitter::pat::analyze_pat;
use ts_splitter::pmt::analyze_pmt;
use ts_splitter::state::split_startup;
use ts_splitter::TsStatus;

/// Builds a single-packet PAT listing the given (service ID, PMT PID)
/// pairs after the network-information entry.
fn pat_packet(svcs: &[(u16, u16)]) -> Vec<u8> {
    let mut p = vec![0xffu8; 188];
    let n = svcs.len();
    p[0] = 0x47;
    p[1] = 0x40;
    p[2] = 0x00;
    p[3] = 0x10;
    p[4] = 0x00;
    p[5] = 0x00;
    p[6] = 0xb0;
    p[7] = (13 + 4 * n) as u8;
    p[8] = 0x7f;
    p[9] = 0xe0;
    p[10] = 0xc1;
    p[11] = 0x00;
    p[12] = 0x00;
    p[13] = 0x00;
    p[14] = 0x00;
    p[15] = 0xe0;
    p[16] = 0x10;
    for (i, (sid, pid)) in svcs.iter().enumerate() {
        let o = 17 + 4 * i;
        p[o] = (sid >> 8) as u8;
        p[o + 1] = (sid & 0xff) as u8;
        p[o + 2] = 0xe0 | ((pid >> 8) as u8 & 0x1f);
        p[o + 3] = (pid & 0xff) as u8;
    }
    p
}

/// Builds a single-packet PMT section for `pid` whose elementary-stream
/// loop ends exactly at the section boundary.
fn pmt_packet(
    pid: u16,
    ver: u8,
    pcr: u16,
    ca_pid: Option<u16>,
    es: &[(u8, u16)],
    cc: u8,
    sec_len: Option<u16>,
) -> Vec<u8> {
    let mut p = vec![0xffu8; 188];
    p[0] = 0x47;
    p[1] = 0x40 | ((pid >> 8) as u8 & 0x1f);
    p[2] = (pid & 0xff) as u8;
    p[3] = 0x10 | (cc & 0x0f);
    p[4] = 0x00;
    p[5] = 0x02;
    p[8] = 0x00;
    p[9] = 0x65;
    p[10] = 0xc1 | ((ver & 0x1f) << 1);
    p[11] = 0x00;
    p[12] = 0x00;
    p[13] = 0xe0 | ((pcr >> 8) as u8 & 0x1f);
    p[14] = (pcr & 0xff) as u8;
    let prog_info_len: usize = if ca_pid.is_some() { 6 } else { 0 };
    p[15] = 0xf0;
    p[16] = prog_info_len as u8;
    let mut o = 17;
    if let Some(cp) = ca_pid {
        p[o] = 0x09;
        p[o + 1] = 0x04;
        p[o + 2] = 0x00;
        p[o + 3] = 0x05;
        p[o + 4] = 0xe0 | ((cp >> 8) as u8 & 0x1f);
        p[o + 5] = (cp & 0xff) as u8;
        o += 6;
    }
    for (st, epid) in es {
        p[o] = *st;
        p[o + 1] = 0xe0 | ((epid >> 8) as u8 & 0x1f);
        p[o + 2] = (epid & 0xff) as u8;
        p[o + 3] = 0xf0;
        p[o + 4] = 0x00;
        o += 5;
    }
    let sl = sec_len.unwrap_or((o - 5) as u16);
    p[6] = 0xb0 | ((sl >> 8) as u8 & 0x0f);
    p[7] = (sl & 0xff) as u8;
    p
}

#[test]
fn startup_state_is_empty() {
    let sp = split_startup("101");
    assert!(!sp.is_ready());
    assert_eq!(sp.pmt_retain(), 0);
    assert_eq!(sp.pmt_counter(), 0);
    assert!(sp.cached_pat().is_none());
    assert!(sp.pids.iter().all(|&m| m == 0));
    assert!(sp.pmt_pids.iter().all(|&m| m == 0));
}

#[test]
fn numeric_selection_picks_one_service() {
    let mut sp = split_startup("101");
    let pat = pat_packet(&[(101, 0x0100), (102, 0x0101)]);
    let r = analyze_pat(&mut sp, &pat);
    assert_eq!(r, TsStatus::Success);
    assert_eq!(sp.pmt_pids[0x0100], 1);
    assert_eq!(sp.pmt_pids[0x0101], 0);
    assert_eq!(sp.pids[0x0100], 1);
    assert_eq!(sp.pmt_retain(), 1);
    let p = sp.cached_pat().expect("PAT must be cached");
    assert_eq!(p.len(), 188);
    // Header copied, then the injected network-information entry.
    assert_eq!(&p[0..6], &pat[0..6]);
    assert_eq!(&p[13..17], &[0x00, 0x00, 0xe0, 0x10]);
    // Only the selected service's entry, byte for byte.
    assert_eq!(&p[17..21], &pat[17..21]);
    // Recomputed section length: 21 bytes of section follow byte 7.
    assert_eq!(p[6], 0xb0);
    assert_eq!(p[7], 17);
    // CRC trailer, then padding.
    assert!(p[25..].iter().all(|&b| b == 0xff));
}

#[test]
fn rebuild_all_is_crc_correct() {
    let mut sp = split_startup("ALL");
    let pat = pat_packet(&[(101, 0x0100), (102, 0x0101)]);
    let r = analyze_pat(&mut sp, &pat);
    assert_eq!(r, TsStatus::Success);
    assert_eq!(sp.pmt_retain(), 2);
    let p = sp.cached_pat().expect("PAT must be cached");
    // Every available entry is kept in original order.
    assert_eq!(&p[17..21], &pat[17..21]);
    assert_eq!(&p[21..25], &pat[21..25]);
    // The trailer is the big-endian CRC-32/MPEG-2 of the section bytes.
    let crc = Crc::<u32>::new(&CRC_32_MPEG_2).checksum(&p[5..25]);
    assert_eq!(p[25], (crc >> 24) as u8);
    assert_eq!(p[26], (crc >> 16) as u8);
    assert_eq!(p[27], (crc >> 8) as u8);
    assert_eq!(p[28], crc as u8);
    // Recomputing the checksum over the emitted section, trailer
    // included, yields a zero remainder.
    assert_eq!(Crc::<u32>::new(&CRC_32_MPEG_2).checksum(&p[5..29]), 0);
}

#[test]
fn empty_selection_takes_the_only_service() {
    let mut sp = split_startup("");
    let pat = pat_packet(&[(5, 0x0200)]);
    let r = analyze_pat(&mut sp, &pat);
    assert_eq!(r, TsStatus::Success);
    assert_eq!(sp.pmt_pids[0x0200], 1);
    assert_eq!(sp.pmt_retain(), 1);
}

#[test]
fn empty_selection_matches_nothing_among_two_services() {
    let mut sp = split_startup("");
    let pat = pat_packet(&[(5, 0x0200), (6, 0x0201)]);
    let r = analyze_pat(&mut sp, &pat);
    assert_eq!(r, TsStatus::Success);
    assert_eq!(sp.pmt_pids[0x0200], 0);
    assert_eq!(sp.pmt_pids[0x0201], 0);
    assert_eq!(sp.pmt_retain(), 0);
}

#[test]
fn oneseg_selection_picks_exactly_its_pmt() {
    let mut sp = split_startup("1SEG");
    let pat = pat_packet(&[(200, 0x0100), (201, 0x1fc8)]);
    let r = analyze_pat(&mut sp, &pat);
    assert_eq!(r, TsStatus::Success);
    assert_eq!(sp.pmt_pids[0x1fc8], 1);
    assert_eq!(sp.pmt_pids[0x0100], 0);
    assert_eq!(sp.pmt_retain(), 1);
}

#[test]
fn hd_selection_picks_first_service() {
    let mut sp = split_startup("hd");
    let pat = pat_packet(&[(200, 0x0100), (201, 0x0101)]);
    assert_eq!(analyze_pat(&mut sp, &pat), TsStatus::Success);
    assert_eq!(sp.pmt_pids[0x0100], 1);
    assert_eq!(sp.pmt_pids[0x0101], 0);
}

#[test]
fn sd2_selection_picks_second_service() {
    let mut sp = split_startup("SD2");
    let pat = pat_packet(&[(200, 0x0100), (201, 0x0101)]);
    assert_eq!(analyze_pat(&mut sp, &pat), TsStatus::Success);
    assert_eq!(sp.pmt_pids[0x0100], 0);
    assert_eq!(sp.pmt_pids[0x0101], 1);
}

#[test]
fn epg_selection_marks_fixed_pids() {
    let mut sp = split_startup("EPG");
    let pat = pat_packet(&[(200, 0x0100)]);
    assert_eq!(analyze_pat(&mut sp, &pat), TsStatus::Success);
    assert_eq!(sp.pids[0x11], 1);
    assert_eq!(sp.pids[0x12], 1);
    assert_eq!(sp.pids[0x23], 1);
    assert_eq!(sp.pids[0x29], 1);
    assert_eq!(sp.pmt_retain(), 0);
}

#[test]
fn epg1seg_selection_marks_fixed_pids() {
    let mut sp = split_startup("epg1seg");
    let pat = pat_packet(&[(200, 0x0100)]);
    assert_eq!(analyze_pat(&mut sp, &pat), TsStatus::Success);
    assert_eq!(sp.pids[0x11], 1);
    assert_eq!(sp.pids[0x26], 1);
    assert_eq!(sp.pids[0x27], 1);
}

#[test]
fn epg_token_does_not_shadow_service_tokens() {
    let mut sp = split_startup("EPG,ALL");
    let pat = pat_packet(&[(200, 0x0100), (201, 0x0101)]);
    assert_eq!(analyze_pat(&mut sp, &pat), TsStatus::Success);
    // Both services selected, and the fixed EPG PIDs marked too.
    assert_eq!(sp.pmt_pids[0x0100], 1);
    assert_eq!(sp.pmt_pids[0x0101], 1);
    assert_eq!(sp.pmt_retain(), 2);
    assert_eq!(sp.pids[0x11], 1);
    assert_eq!(sp.pids[0x12], 1);
}

#[test]
fn malformed_pat_is_rejected_and_retryable() {
    let mut sp = split_startup("101");
    // A program entry where only the network-information entry may
    // stand.
    let mut pat = pat_packet(&[(101, 0x0100)]);
    pat[13] = 0x00;
    pat[14] = 0x65;
    pat[15] = 0xe1;
    pat[16] = 0x00;
    let r = analyze_pat(&mut sp, &pat);
    assert_eq!(r, TsStatus::Error);
    assert!(sp.cached_pat().is_none());
    assert!(sp.pids.iter().all(|&m| m == 0));
    // A well-formed PAT afterwards is analyzed normally.
    let good = pat_packet(&[(101, 0x0100)]);
    assert_eq!(analyze_pat(&mut sp, &good), TsStatus::Success);
    assert_eq!(sp.pmt_pids[0x0100], 1);
}

#[test]
fn pat_analysis_runs_once() {
    let mut sp = split_startup("101");
    let pat = pat_packet(&[(101, 0x0100), (102, 0x0101)]);
    assert_eq!(analyze_pat(&mut sp, &pat), TsStatus::Success);
    let cached = sp.cached_pat();
    // A second PAT naming other services changes nothing.
    let other = pat_packet(&[(300, 0x0300)]);
    assert_eq!(analyze_pat(&mut sp, &other), TsStatus::Success);
    assert_eq!(sp.cached_pat(), cached);
    assert_eq!(sp.pmt_pids[0x0300], 0);
}

#[test]
fn pmt_marks_pcr_ecm_and_streams() {
    let mut sp = split_startup("");
    let pmt = pmt_packet(
        0x0100,
        1,
        0x0200,
        Some(0x1fe1),
        &[(0x02, 0x0111), (0x0f, 0x0112)],
        1,
        None,
    );
    let r = analyze_pmt(&mut sp, &pmt, 1);
    assert_eq!(r, TsStatus::Success);
    assert_eq!(sp.pids[0x0200], 1);
    assert_eq!(sp.pids[0x1fe1], 1);
    assert_eq!(sp.pids[0x0111], 1);
    assert_eq!(sp.pids[0x0112], 1);
}

#[test]
fn pmt_excludes_type_d_streams() {
    let mut sp = split_startup("");
    let pmt = pmt_packet(0x0100, 1, 0x0200, None, &[(0x0d, 0x0333), (0x02, 0x0111)], 1, None);
    assert_eq!(analyze_pmt(&mut sp, &pmt, 1), TsStatus::Success);
    assert_eq!(sp.pids[0x0333], 0);
    assert_eq!(sp.pids[0x0111], 1);
}

#[test]
fn pmt_rescan_mark_is_two() {
    let mut sp = split_startup("");
    let pmt = pmt_packet(0x0100, 1, 0x0200, None, &[(0x02, 0x0111)], 1, None);
    assert_eq!(analyze_pmt(&mut sp, &pmt, 2), TsStatus::Success);
    assert_eq!(sp.pids[0x0111], 2);
}

#[test]
fn continuation_discontinuity_is_rejected() {
    let mut sp = split_startup("");
    // A section longer than one packet: 200 bytes remain, 183 are
    // consumed here.
    let mut start = pmt_packet(0x0100, 1, 0x0200, None, &[], 1, Some(200));
    // One stream entry whose descriptor length jumps past the packet.
    start[17] = 0x02;
    start[18] = 0xe0;
    start[19] = 0x11;
    start[20] = 0xff;
    start[21] = 0xff;
    assert_eq!(analyze_pmt(&mut sp, &start, 1), TsStatus::Continue);
    assert_eq!(sp.pids[0x0011], 1);

    // A continuation whose counter is not one more than the last.
    let mut bad = vec![0xffu8; 188];
    bad[0] = 0x47;
    bad[1] = 0x01;
    bad[2] = 0x00;
    bad[3] = 0x10 | 3;
    let pids_before = sp.pids.clone();
    assert_eq!(analyze_pmt(&mut sp, &bad, 1), TsStatus::Error);
    assert_eq!(sp.pids, pids_before);

    // The right counter continues the section to completion.
    let mut good = vec![0xffu8; 188];
    good[0] = 0x47;
    good[1] = 0x01;
    good[2] = 0x00;
    good[3] = 0x10 | 2;
    good[4] = 0x02;
    good[5] = 0xe1;
    good[6] = 0x12;
    good[7] = 0xff;
    good[8] = 0xff;
    assert_eq!(analyze_pmt(&mut sp, &good, 1), TsStatus::Success);
    assert_eq!(sp.pids[0x0112], 1);
}

#[test]
fn continuation_without_section_is_rejected() {
    let mut sp = split_startup("");
    let mut cont = vec![0xffu8; 188];
    cont[0] = 0x47;
    cont[1] = 0x01;
    cont[2] = 0x00;
    cont[3] = 0x11;
    let pids_before = sp.pids.clone();
    assert_eq!(analyze_pmt(&mut sp, &cont, 1), TsStatus::Error);
    assert_eq!(sp.pids, pids_before);
}

#[test]
fn classification_becomes_ready_and_is_idempotent() {
    let mut sp = split_startup("101");
    let pat = pat_packet(&[(101, 0x0100), (102, 0x0101)]);
    let pmt = pmt_packet(0x0100, 1, 0x0300, None, &[(0x02, 0x0200)], 1, None);
    let mut buff: Vec<u8> = Vec::new();
    buff.extend_from_slice(&pat);
    buff.extend_from_slice(&pmt);

    let r = split_select(&mut sp, &mut buff);
    assert_eq!(r, TsStatus::Success);
    assert!(sp.is_ready());
    assert_eq!(sp.pmt_pids[0x0100], 2);
    assert_eq!(sp.pids[0x0200], 1);
    // The parsed PMT packet had its PID bytes blanked in the buffer.
    assert_eq!(buff[188 + 1], 0xff);
    assert_eq!(buff[188 + 2], 0xff);

    let pids = sp.pids.clone();
    let pmt_pids = sp.pmt_pids.clone();
    let cached = sp.cached_pat();

    // Running the pass again on the same packets changes nothing.
    let mut buff2: Vec<u8> = Vec::new();
    buff2.extend_from_slice(&pat);
    buff2.extend_from_slice(&pmt);
    let r2 = split_select(&mut sp, &mut buff2);
    assert_eq!(r2, TsStatus::Success);
    assert_eq!(sp.pids, pids);
    assert_eq!(sp.pmt_pids, pmt_pids);
    assert_eq!(sp.cached_pat(), cached);
}

#[test]
fn classification_needs_more_input_without_pmt() {
    let mut sp = split_startup("101");
    let pat = pat_packet(&[(101, 0x0100)]);
    let mut buff = pat.clone();
    let r = split_select(&mut sp, &mut buff);
    assert_eq!(r, TsStatus::Error);
    assert!(!sp.is_ready());
    assert_eq!(sp.pmt_retain(), 1);
    assert_eq!(sp.pmt_counter(), 0);
}

#[test]
fn rescan_in_progress_reports_null() {
    let mut sp = split_startup("101,102");
    let pat = pat_packet(&[(101, 0x0100), (102, 0x0101)]);
    let mut buff = pat.clone();
    assert_eq!(split_select(&mut sp, &mut buff), TsStatus::Error);
    assert_eq!(sp.pmt_retain(), 2);
    let pmt = pmt_packet(0x0100, 1, 0x0300, None, &[(0x02, 0x0200)], 1, None);
    // One of two PMTs parsed: the pass is still incomplete.
    assert_eq!(rescan_pid(&mut sp, &pmt), TsStatus::Null);
    assert_eq!(sp.pmt_counter(), 1);
}

#[test]
fn filter_emits_filler_while_pat_is_unbuilt() {
    let mut sp = split_startup("101");
    let pat = pat_packet(&[(101, 0x0100)]);
    let mut out: Vec<u8> = Vec::new();
    // Without a cached PAT, the PAT PID yields one packet of filler;
    // the continuity counter still advances.
    assert_eq!(split_ts(&mut sp, &pat, &mut out), TsStatus::Success);
    let mut filler = vec![0xffu8; 188];
    filler[3] = 0x11;
    assert_eq!(out, filler);
    assert!(sp.cached_pat().is_none());
}

#[test]
fn incomplete_pass_rescans_through_the_filter() {
    let mut sp = split_startup("101,102");
    let pat = pat_packet(&[(101, 0x0100), (102, 0x0101)]);
    let mut buff = pat.clone();
    assert_eq!(split_select(&mut sp, &mut buff), TsStatus::Error);
    assert_eq!(sp.pmt_retain(), 2);

    // A tracked PMT packet seen while the pass is incomplete is
    // reparsed on the way through the filter.
    let pmt = pmt_packet(0x0100, 1, 0x0300, None, &[(0x02, 0x0200)], 1, None);
    let mut out: Vec<u8> = Vec::new();
    let r = split_ts(&mut sp, &pmt, &mut out);
    assert_eq!(r, TsStatus::Null);
    assert_eq!(sp.pmt_counter(), 1);
    assert_eq!(sp.pids[0x0200], 2);
    // The tracked PMT's own packet is still retained and emitted.
    assert_eq!(out, pmt);
}

#[test]
fn marks_persist_while_a_rescan_is_under_way() {
    let mut sp = split_startup("101,102");
    let pat = pat_packet(&[(101, 0x0100), (102, 0x0101)]);
    let pmt1 = pmt_packet(0x0100, 1, 0x0300, None, &[(0x02, 0x0200)], 1, None);
    let pmt2 = pmt_packet(0x0101, 1, 0x0310, None, &[(0x02, 0x0210)], 1, None);
    let mut buff: Vec<u8> = Vec::new();
    buff.extend_from_slice(&pat);
    buff.extend_from_slice(&pmt1);
    buff.extend_from_slice(&pmt2);
    assert_eq!(split_select(&mut sp, &mut buff), TsStatus::Success);
    assert_eq!(sp.pids[0x0200], 1);
    assert_eq!(sp.pids[0x0210], 1);

    // A version change on the first PMT starts a rescan pass.
    let pmt1_v2 = pmt_packet(0x0100, 2, 0x0300, None, &[(0x02, 0x0200)], 2, None);
    let mut out: Vec<u8> = Vec::new();
    assert_eq!(split_ts(&mut sp, &pmt1_v2, &mut out), TsStatus::Null);
    // Mid-pass, the marks of the previous pass persist: the second
    // PMT's stream is still retained.
    assert_eq!(sp.pids[0x0210], 1);

    // The second PMT completes the pass: stale-only marks decay, and
    // both tracked PMTs stay retained.
    let pmt2_v2 = pmt_packet(0x0101, 2, 0x0310, None, &[(0x02, 0x0211)], 2, None);
    let mut out2: Vec<u8> = Vec::new();
    assert_eq!(split_ts(&mut sp, &pmt2_v2, &mut out2), TsStatus::Success);
    assert_eq!(sp.pids[0x0210], 0);
    assert_eq!(sp.pids[0x0211], 1);
    assert_eq!(sp.pids[0x0200], 1);
    assert_eq!(sp.pids[0x0100], 1);
    assert_eq!(sp.pids[0x0101], 1);
}

#[test]
fn version_change_rescans_and_decays_stale_pids() {
    let mut sp = split_startup("101");
    let pat = pat_packet(&[(101, 0x0100)]);
    let pmt_v1 = pmt_packet(0x0100, 1, 0x0300, None, &[(0x02, 0x0200)], 1, None);
    let mut buff: Vec<u8> = Vec::new();
    buff.extend_from_slice(&pat);
    buff.extend_from_slice(&pmt_v1);
    assert_eq!(split_select(&mut sp, &mut buff), TsStatus::Success);
    assert_eq!(sp.pids[0x0200], 1);

    // The same PMT with a new version lists another stream.
    let pmt_v2 = pmt_packet(0x0100, 2, 0x0300, None, &[(0x02, 0x0400)], 2, None);
    let mut out: Vec<u8> = Vec::new();
    let r = split_ts(&mut sp, &pmt_v2, &mut out);
    assert_eq!(r, TsStatus::Success);
    // The stale stream decayed to dropped; the new one is retained.
    assert_eq!(sp.pids[0x0200], 0);
    assert_eq!(sp.pids[0x0400], 1);
    assert_eq!(sp.pids[0x0300], 1);
    assert_eq!(sp.pids[0x0100], 1);
    // The PMT packet itself was emitted.
    assert_eq!(out, pmt_v2);

    // With the version now recorded, the same packet rescans nothing.
    let mut out2: Vec<u8> = Vec::new();
    assert_eq!(split_ts(&mut sp, &pmt_v2, &mut out2), TsStatus::Success);
    assert_eq!(sp.pids[0x0400], 1);
    assert_eq!(out2, pmt_v2);
}

#[test]
fn filter_substitutes_cached_pat_and_advances_counter() {
    let mut sp = split_startup("101");
    let pat = pat_packet(&[(101, 0x0100)]);
    let pmt = pmt_packet(0x0100, 1, 0x0300, None, &[(0x02, 0x0200)], 1, None);
    let mut buff: Vec<u8> = Vec::new();
    buff.extend_from_slice(&pat);
    buff.extend_from_slice(&pmt);
    assert_eq!(split_select(&mut sp, &mut buff), TsStatus::Success);
    let cached = sp.cached_pat().unwrap();

    // Every PAT emission advances the continuity-counter nibble; the
    // other 187 bytes are reused from the cached packet unchanged.
    let mut out: Vec<u8> = Vec::new();
    assert_eq!(split_ts(&mut sp, &pat, &mut out), TsStatus::Success);
    assert_eq!(out[3], 0x11);
    assert_eq!(&out[..3], &cached[..3]);
    assert_eq!(&out[4..], &cached[4..]);

    let mut out2: Vec<u8> = Vec::new();
    assert_eq!(split_ts(&mut sp, &pat, &mut out2), TsStatus::Success);
    assert_eq!(out2[3], 0x12);
    assert_eq!(&out2[..3], &cached[..3]);
    assert_eq!(&out2[4..], &cached[4..]);
}

#[test]
fn filter_drops_unselected_pids() {
    let mut sp = split_startup("101");
    let pat = pat_packet(&[(101, 0x0100)]);
    let pmt = pmt_packet(0x0100, 1, 0x0300, None, &[(0x02, 0x0200)], 1, None);
    let mut buff: Vec<u8> = Vec::new();
    buff.extend_from_slice(&pat);
    buff.extend_from_slice(&pmt);
    assert_eq!(split_select(&mut sp, &mut buff), TsStatus::Success);

    // One retained stream packet, one unselected packet.
    let mut kept = vec![0x00u8; 188];
    kept[0] = 0x47;
    kept[1] = 0x02;
    kept[2] = 0x00;
    kept[3] = 0x15;
    let mut dropped = vec![0x00u8; 188];
    dropped[0] = 0x47;
    dropped[1] = 0x09;
    dropped[2] = 0x99;
    dropped[3] = 0x15;
    let mut stream: Vec<u8> = Vec::new();
    stream.extend_from_slice(&kept);
    stream.extend_from_slice(&dropped);
    let mut out: Vec<u8> = Vec::new();
    assert_eq!(split_ts(&mut sp, &stream, &mut out), TsStatus::Success);
    assert_eq!(out, kept);
}

#[test]
fn filter_ignores_trailing_partial_packet() {
    let mut sp = split_startup("101");
    let pat = pat_packet(&[(101, 0x0100)]);
    let pmt = pmt_packet(0x0100, 1, 0x0300, None, &[(0x02, 0x0200)], 1, None);
    let mut buff: Vec<u8> = Vec::new();
    buff.extend_from_slice(&pat);
    buff.extend_from_slice(&pmt);
    assert_eq!(split_select(&mut sp, &mut buff), TsStatus::Success);

    let mut kept = vec![0x00u8; 188];
    kept[0] = 0x47;
    kept[1] = 0x02;
    kept[2] = 0x00;
    let mut stream: Vec<u8> = Vec::new();
    stream.extend_from_slice(&kept);
    stream.extend_from_slice(&kept[..100]);
    let mut out: Vec<u8> = Vec::new();
    assert_eq!(split_ts(&mut sp, &stream, &mut out), TsStatus::Success);
    assert_eq!(out, kept);
}
