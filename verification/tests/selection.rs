use ts_splitter::get_pid;
use ts_splitter::selection::{tokenize, Token};

#[test]
fn pid_is_read_from_bytes_one_and_two() {
    let data = [0x47u8, 0x5f, 0xff, 0x10];
    assert_eq!(get_pid(&data), 0x1fff);
    let data2 = [0x47u8, 0xe1, 0x00, 0x10];
    assert_eq!(get_pid(&data2), 0x0100);
}

#[test]
fn keywords_parse_case_insensitively() {
    let toks = tokenize(b"hd,SD1,sd2,Sd3,1seg,ALL,epg,EPG1SEG");
    assert_eq!(
        toks,
        vec![
            Token::First,
            Token::First,
            Token::Second,
            Token::Third,
            Token::OneSeg,
            Token::All,
            Token::Epg,
            Token::Epg1Seg,
        ]
    );
}

#[test]
fn numeric_tokens_parse_as_service_ids() {
    let toks = tokenize(b"101,0,65535");
    assert_eq!(toks, vec![Token::Sid(101), Token::Sid(0), Token::Sid(65535)]);
}

#[test]
fn oversized_and_garbled_tokens_match_nothing() {
    let toks = tokenize(b"65536,12ab,SEG1");
    assert_eq!(toks, vec![Token::Unknown, Token::Unknown, Token::Unknown]);
}

#[test]
fn empty_string_is_one_empty_token() {
    assert_eq!(tokenize(b""), vec![Token::Empty]);
}

#[test]
fn empty_items_between_commas_are_empty_tokens() {
    assert_eq!(
        tokenize(b"101,,102"),
        vec![Token::Sid(101), Token::Empty, Token::Sid(102)]
    );
    assert_eq!(tokenize(b"101,"), vec![Token::Sid(101), Token::Empty]);
}
