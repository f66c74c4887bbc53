use vstd::prelude::*;

verus! {

/// One token of the comma-separated selection expression.
///
/// Keywords are matched case-insensitively. A token that is neither a
/// keyword nor a decimal service ID matches no service at all.
#[derive(Debug, Copy, Clone, PartialEq, Eq, Structural)]
pub enum Token {
    /// `HD` or `SD1`: the first available service.
    First,
    /// `SD2`: the second available service.
    Second,
    /// `SD3`: the third available service.
    Third,
    /// `1SEG`: the service whose PMT PID is `0x1FC8`.
    OneSeg,
    /// `ALL`: every available service.
    All,
    /// `EPG`: marks the fixed EPG PIDs for retention.
    Epg,
    /// `EPG1SEG`: marks the fixed one-segment EPG PIDs for retention.
    Epg1Seg,
    /// The empty token: the only service, when exactly one is available.
    Empty,
    /// A decimal literal: the service with that service ID.
    Sid(u16),
    /// Anything else: matches nothing.
    Unknown,
}

/// ASCII upper-casing of one byte.
pub open spec fn upper_byte(b: u8) -> u8 {
    if 97 <= b && b <= 122 {
        (b - 32) as u8
    } else {
        b
    }
}

/// ASCII upper-casing of a byte string.
pub open spec fn upper_bytes(t: Seq<u8>) -> Seq<u8> {
    Seq::new(t.len(), |i: int| upper_byte(t[i]))
}

/// The decimal value of a digit string, folded left onto `acc`.
pub open spec fn dec_val(u: Seq<u8>, acc: int) -> int
    decreases u.len(),
{
    if u.len() == 0 {
        acc
    } else {
        dec_val(u.skip(1), acc * 10 + (u[0] - 48))
    }
}

/// Whether a byte string is one or more ASCII decimal digits.
pub open spec fn is_digits(u: Seq<u8>) -> bool {
    u.len() > 0 && forall|i: int| 0 <= i < u.len() ==> 48 <= #[trigger] u[i] <= 57
}

pub open spec fn lit_hd() -> Seq<u8> {
    seq![72u8, 68u8]
}

pub open spec fn lit_sd1() -> Seq<u8> {
    seq![83u8, 68u8, 49u8]
}

pub open spec fn lit_sd2() -> Seq<u8> {
    seq![83u8, 68u8, 50u8]
}

pub open spec fn lit_sd3() -> Seq<u8> {
    seq![83u8, 68u8, 51u8]
}

pub open spec fn lit_1seg() -> Seq<u8> {
    seq![49u8, 83u8, 69u8, 71u8]
}

pub open spec fn lit_all() -> Seq<u8> {
    seq![65u8, 76u8, 76u8]
}

pub open spec fn lit_epg() -> Seq<u8> {
    seq![69u8, 80u8, 71u8]
}

pub open spec fn lit_epg1seg() -> Seq<u8> {
    seq![69u8, 80u8, 71u8, 49u8, 83u8, 69u8, 71u8]
}

/// The token denoted by one comma-separated item of the selection string.
pub open spec fn spec_classify(t: Seq<u8>) -> Token {
    let u = upper_bytes(t);
    if t.len() == 0 {
        Token::Empty
    } else if u == lit_hd() || u == lit_sd1() {
        Token::First
    } else if u == lit_sd2() {
        Token::Second
    } else if u == lit_sd3() {
        Token::Third
    } else if u == lit_1seg() {
        Token::OneSeg
    } else if u == lit_all() {
        Token::All
    } else if u == lit_epg() {
        Token::Epg
    } else if u == lit_epg1seg() {
        Token::Epg1Seg
    } else if is_digits(t) && dec_val(t, 0) <= 65535 {
        Token::Sid(dec_val(t, 0) as u16)
    } else {
        Token::Unknown
    }
}

/// The position of the first comma at or after `i`, or the length if none.
pub open spec fn find_comma(s: Seq<u8>, i: int) -> int
    decreases s.len() - i,
{
    if i < 0 || i >= s.len() {
        s.len() as int
    } else if s[i] == 44 {
        i
    } else {
        find_comma(s, i + 1)
    }
}

/// The token list denoted by a whole selection string: the items between
/// commas, each classified.
pub open spec fn spec_tokens(s: Seq<u8>) -> Seq<Token>
    decreases s.len(),
{
    let i = find_comma(s, 0);
    if 0 <= i && i < s.len() {
        seq![spec_classify(s.take(i))] + spec_tokens(s.skip(i + 1))
    } else {
        seq![spec_classify(s)]
    }
}

pub(crate) proof fn lemma_dec_val_lower(u: Seq<u8>, acc: int)
    requires
        acc >= 0,
        forall|i: int| 0 <= i < u.len() ==> 48 <= #[trigger] u[i] <= 57,
    ensures
        dec_val(u, acc) >= acc,
    decreases u.len(),
{
    if u.len() > 0 {
        lemma_dec_val_lower(u.skip(1), acc * 10 + (u[0] - 48));
    }
}

/// ASCII upper-casing of one byte.
pub(crate) fn upper(b: u8) -> (r: u8)
    ensures
        r == upper_byte(b),
{
    if 97 <= b && b <= 122 {
        b - 32
    } else {
        b
    }
}

/// ASCII upper-casing of a byte range.
pub(crate) fn upper_range(t: &[u8], from: usize, to: usize) -> (r: Vec<u8>)
    requires
        from <= to <= t@.len(),
    ensures
        r@ == upper_bytes(t@.subrange(from as int, to as int)),
{
    let mut r: Vec<u8> = Vec::new();
    let mut i: usize = from;
    while i < to
        invariant
            from <= i <= to <= t@.len(),
            r@.len() == i - from,
            forall|k: int|
                0 <= k < i - from ==> r@[k] == upper_bytes(
                    t@.subrange(from as int, to as int),
                )[k],
        decreases to - i,
    {
        r.push(upper(t[i]));
        i = i + 1;
    }
    proof {
        assert(r@ =~= upper_bytes(t@.subrange(from as int, to as int)));
    }
    r
}

/// Classifies the bytes of one comma-separated item.
#[verifier::loop_isolation(false)]
fn classify(t: &[u8], from: usize, to: usize) -> (r: Token)
    requires
        from <= to <= t@.len(),
    ensures
        r == spec_classify(t@.subrange(from as int, to as int)),
{
    let ghost tok = t@.subrange(from as int, to as int);
    let ghost u = upper_bytes(tok);
    let uv = upper_range(t, from, to);
    let n = to - from;
    if n == 0 {
        return Token::Empty;
    }
    if n == 2 && uv[0] == 72 && uv[1] == 68 {
        proof {
            assert(u =~= lit_hd());
        }
        return Token::First;
    }
    if n == 3 && uv[0] == 83 && uv[1] == 68 && uv[2] == 49 {
        proof {
            assert(u =~= lit_sd1());
        }
        return Token::First;
    }
    if n == 3 && uv[0] == 83 && uv[1] == 68 && uv[2] == 50 {
        proof {
            assert(u =~= lit_sd2());
        }
        return Token::Second;
    }
    if n == 3 && uv[0] == 83 && uv[1] == 68 && uv[2] == 51 {
        proof {
            assert(u =~= lit_sd3());
        }
        return Token::Third;
    }
    if n == 4 && uv[0] == 49 && uv[1] == 83 && uv[2] == 69 && uv[3] == 71 {
        proof {
            assert(u =~= lit_1seg());
        }
        return Token::OneSeg;
    }
    if n == 3 && uv[0] == 65 && uv[1] == 76 && uv[2] == 76 {
        proof {
            assert(u =~= lit_all());
        }
        return Token::All;
    }
    if n == 3 && uv[0] == 69 && uv[1] == 80 && uv[2] == 71 {
        proof {
            assert(u =~= lit_epg());
        }
        return Token::Epg;
    }
    if n == 7 && uv[0] == 69 && uv[1] == 80 && uv[2] == 71 && uv[3] == 49 && uv[4] == 83 && uv[5]
        == 69 && uv[6] == 71 {
        proof {
            assert(u =~= lit_epg1seg());
        }
        return Token::Epg1Seg;
    }
    proof {
        assert(u != lit_hd() && u != lit_sd1() && u != lit_sd2() && u != lit_sd3() && u
            != lit_1seg() && u != lit_all() && u != lit_epg() && u != lit_epg1seg());
    }
    // Not a keyword: try a decimal service ID.
    let mut i: usize = from;
    let mut acc: u32 = 0;
    proof {
        assert(tok.skip(0) =~= tok);
    }
    while i < to
        invariant
            from <= i <= to,
            acc <= 65535,
            forall|k: int| 0 <= k < i - from ==> 48 <= #[trigger] tok[k] <= 57,
            dec_val(tok, 0) == dec_val(tok.skip(i - from), acc as int),
        decreases to - i,
    {
        let b = t[i];
        if b < 48 || b > 57 {
            assert(!is_digits(tok));
            return Token::Unknown;
        }
        let next: u32 = acc * 10 + (b - 48) as u32;
        proof {
            assert(tok.skip(i - from)[0] == b);
            assert(tok.skip(i - from).skip(1) =~= tok.skip(i + 1 - from));
        }
        if next > 65535 {
            proof {
                if is_digits(tok) {
                    assert forall|k: int| 0 <= k < tok.skip(i + 1 - from).len() implies 48
                        <= #[trigger] tok.skip(i + 1 - from)[k] <= 57 by {
                        assert(tok.skip(i + 1 - from)[k] == tok[k + (i + 1 - from)]);
                    }
                    lemma_dec_val_lower(tok.skip(i + 1 - from), next as int);
                }
            }
            return Token::Unknown;
        }
        acc = next;
        i = i + 1;
    }
    proof {
        assert(tok.skip(to - from).len() == 0);
        assert(is_digits(tok));
    }
    Token::Sid(acc as u16)
}

/// Splits a selection string on commas and classifies each item.
#[verifier::loop_isolation(false)]
pub fn tokenize(s: &[u8]) -> (r: Vec<Token>)
    ensures
        r@ == spec_tokens(s@),
{
    let mut out: Vec<Token> = Vec::new();
    let mut start: usize = 0;
    let mut i: usize = 0;
    proof {
        assert(s@.skip(0) =~= s@);
    }
    loop
        invariant
            start <= i <= s@.len(),
            forall|k: int| start <= k < i ==> s@[k] != 44,
            spec_tokens(s@) == out@ + spec_tokens(s@.skip(start as int)),
        decreases s@.len() - i,
    {
        if i == s.len() {
            proof {
                lemma_find_comma_none(s@, start as int, i as int);
                assert(s@.subrange(start as int, i as int) =~= s@.skip(start as int));
            }
            let tok = classify(s, start, i);
            out.push(tok);
            proof {
                assert(spec_tokens(s@.skip(start as int)) == seq![
                    spec_classify(s@.skip(start as int)),
                ]);
                assert(out@ =~= spec_tokens(s@));
            }
            return out;
        }
        if s[i] == 44 {
            proof {
                lemma_find_comma_at(s@, start as int, i as int);
                let rest = s@.skip(start as int);
                assert(rest.take(i - start) =~= s@.subrange(start as int, i as int));
                assert(rest.skip(i - start + 1) =~= s@.skip(i + 1));
                assert(spec_tokens(rest) == seq![spec_classify(rest.take(i - start))]
                    + spec_tokens(rest.skip(i - start + 1)));
            }
            let tok = classify(s, start, i);
            out.push(tok);
            proof {
                assert(spec_tokens(s@) == out@ + spec_tokens(s@.skip(i + 1)));
            }
            start = i + 1;
            i = i + 1;
        } else {
            i = i + 1;
        }
    }
}

proof fn lemma_find_comma_none(s: Seq<u8>, start: int, end: int)
    requires
        0 <= start <= end == s.len(),
        forall|k: int| start <= k < end ==> s[k] != 44,
    ensures
        find_comma(s, start) == s.len(),
        find_comma(s.skip(start), 0) == s.skip(start).len(),
    decreases end - start,
{
    lemma_find_comma_shift(s, start, start);
    if start < end {
        lemma_find_comma_none(s, start + 1, end);
    }
}

proof fn lemma_find_comma_at(s: Seq<u8>, start: int, at: int)
    requires
        0 <= start <= at < s.len(),
        forall|k: int| start <= k < at ==> s[k] != 44,
        s[at] == 44,
    ensures
        find_comma(s, start) == at,
        find_comma(s.skip(start), 0) == at - start,
    decreases at - start,
{
    lemma_find_comma_shift(s, start, start);
    if start < at {
        lemma_find_comma_at(s, start + 1, at);
    }
}

/// Searching from `i` in the suffix that starts at `start` mirrors
/// searching from `i - start` in the full string.
proof fn lemma_find_comma_shift(s: Seq<u8>, start: int, i: int)
    requires
        0 <= start <= i,
        start <= s.len(),
    ensures
        find_comma(s, i) == start + find_comma(s.skip(start), i - start),
    decreases s.len() - i,
{
    let t = s.skip(start);
    if i >= s.len() {
        assert(find_comma(s, i) == s.len());
        assert(i - start >= t.len());
        assert(find_comma(t, i - start) == t.len());
    } else {
        assert(t[i - start] == s[i]);
        if s[i] != 44 {
            lemma_find_comma_shift(s, start, i + 1);
        }
    }
}

} // verus!
