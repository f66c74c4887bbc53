use ts_splitter::channel::channel_type;

#[test]
fn bs_channel_with_slot() {
    let (kind, freq) = channel_type("BS15_1".to_string());
    assert_eq!(kind, "BS");
    assert_eq!(freq.ch, 7);
    assert_eq!(freq.slot, 1);
}

#[test]
fn bs_channel_is_case_insensitive() {
    let (kind, freq) = channel_type("bs3_0".to_string());
    assert_eq!(kind, "BS");
    assert_eq!(freq.ch, 1);
    assert_eq!(freq.slot, 0);
}

#[test]
fn bs_channel_out_of_range_is_unknown() {
    let (kind, freq) = channel_type("BS24_0".to_string());
    assert_eq!(kind, "");
    assert_eq!(freq.ch, 0);
    assert_eq!(freq.slot, 0);
}

#[test]
fn bs_channel_without_slot_is_unknown() {
    let (kind, _) = channel_type("BS15".to_string());
    assert_eq!(kind, "");
}

#[test]
fn cs_channel() {
    let (kind, freq) = channel_type("CS2".to_string());
    assert_eq!(kind, "CS");
    assert_eq!(freq.ch, 12);
    assert_eq!(freq.slot, 0);
    let (kind24, freq24) = channel_type("cs24".to_string());
    assert_eq!(kind24, "CS");
    assert_eq!(freq24.ch, 23);
}

#[test]
fn catv_channels() {
    let (kind, freq) = channel_type("C13".to_string());
    assert_eq!(kind, "CATV");
    assert_eq!(freq.ch, 3);
    let (kind2, freq2) = channel_type("C45".to_string());
    assert_eq!(kind2, "CATV");
    assert_eq!(freq2.ch, 44);
    let (kind3, _) = channel_type("C12".to_string());
    assert_eq!(kind3, "");
}

#[test]
fn terrestrial_channels() {
    let (kind, freq) = channel_type("13".to_string());
    assert_eq!(kind, "T");
    assert_eq!(freq.ch, 63);
    let (kind2, freq2) = channel_type("62".to_string());
    assert_eq!(kind2, "T");
    assert_eq!(freq2.ch, 112);
}

#[test]
fn numeric_satellite_channels_use_the_table() {
    let (kind, freq) = channel_type("151".to_string());
    assert_eq!(kind, "BS");
    assert_eq!(freq.ch, 0);
    assert_eq!(freq.slot, 0);
    let (kind2, freq2) = channel_type("244".to_string());
    assert_eq!(kind2, "BS");
    assert_eq!(freq2.ch, 9);
    assert_eq!(freq2.slot, 3);
}

#[test]
fn unknown_channels_are_empty() {
    assert_eq!(channel_type("".to_string()).0, "");
    assert_eq!(channel_type("abc".to_string()).0, "");
    assert_eq!(channel_type("C".to_string()).0, "");
    assert_eq!(channel_type("999".to_string()).0, "");
    assert_eq!(channel_type("12".to_string()).0, "");
}
