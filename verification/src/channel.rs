use vstd::prelude::*;
use vstd::utf8::encode_utf8;

use crate::selection::{dec_val, is_digits, lemma_dec_val_lower, upper, upper_bytes};

verus! {

/// The tuner frequency request: a device channel index and a slot.
#[derive(Debug, Copy, Clone, PartialEq, Eq, Structural)]
pub struct IoctlFreq {
    pub ch: i32,
    pub slot: i32,
}

/// The position of the first underscore at or after `i`, or the length
/// if none.
pub open spec fn find_us(s: Seq<u8>, i: int) -> int
    decreases s.len() - i,
{
    if i < 0 || i >= s.len() {
        s.len() as int
    } else if s[i] == 95 {
        i
    } else {
        find_us(s, i + 1)
    }
}

/// The value of a byte range read as decimal, where it is all digits and
/// fits a 31-bit number.
pub open spec fn spec_parse_dec(u: Seq<u8>) -> Option<int> {
    if is_digits(u) && dec_val(u, 0) <= 0x7fffffff {
        Some(dec_val(u, 0))
    } else {
        None
    }
}

/// The satellite transponder and slot of a broadcast-satellite channel
/// number, where one is assigned.
pub open spec fn spec_bs_channel(n: int) -> Option<(int, int)> {
    if n == 151 {
        Some((0, 0))
    } else if n == 161 {
        Some((0, 1))
    } else if n == 171 {
        Some((0, 2))
    } else if n == 191 {
        Some((1, 0))
    } else if n == 103 {
        Some((1, 1))
    } else if n == 192 {
        Some((2, 0))
    } else if n == 193 {
        Some((2, 1))
    } else if n == 211 {
        Some((4, 0))
    } else if n == 200 {
        Some((4, 1))
    } else if n == 222 {
        Some((4, 2))
    } else if n == 141 {
        Some((6, 0))
    } else if n == 181 {
        Some((6, 1))
    } else if n == 236 {
        Some((6, 2))
    } else if n == 231 {
        Some((6, 2))
    } else if n == 232 {
        Some((6, 2))
    } else if n == 233 {
        Some((6, 2))
    } else if n == 101 {
        Some((7, 0))
    } else if n == 102 {
        Some((7, 0))
    } else if n == 201 {
        Some((7, 1))
    } else if n == 202 {
        Some((7, 1))
    } else if n == 245 {
        Some((9, 0))
    } else if n == 242 {
        Some((9, 1))
    } else if n == 243 {
        Some((9, 2))
    } else if n == 244 {
        Some((9, 3))
    } else if n == 252 {
        Some((10, 0))
    } else if n == 255 {
        Some((10, 1))
    } else if n == 234 {
        Some((10, 2))
    } else if n == 256 {
        Some((11, 0))
    } else if n == 265 {
        Some((11, 1))
    } else if n == 263 {
        Some((11, 2))
    } else if n == 260 {
        Some((11, 3))
    } else {
        None
    }
}

/// The channel kind and tuner frequency denoted by a channel name, over
/// its bytes upper-cased:
/// - `BS<n>_<slot>` with `n` in 1–23: kind `BS`, channel `n / 2`;
/// - `CS<n>` with `n` in 2–24: kind `CS`, channel `n / 2 + 11`;
/// - `C<n>` with `n` in 13–22 or 23–63: kind `CATV`, channel `n - 10`
///   or `n - 1`;
/// - a number in 13–62: kind `T`, channel `n + 50`;
/// - a listed broadcast-satellite channel number: kind `BS` with its
///   transponder and slot;
/// - anything else: the empty kind and a zero frequency.
pub open spec fn spec_channel_class(s: Seq<u8>) -> (Seq<char>, int, int) {
    let u = upper_bytes(s);
    let k = find_us(u, 0);
    let k2 = find_us(u, k + 1);
    if u.len() >= 2 && u[0] == 66 && u[1] == 83 && k < u.len() && spec_parse_dec(
        u.subrange(2, k),
    ) is Some && 1 <= spec_parse_dec(u.subrange(2, k)).unwrap() <= 23 && spec_parse_dec(
        u.subrange(k + 1, k2),
    ) is Some {
        ("BS"@, spec_parse_dec(u.subrange(2, k)).unwrap() / 2, spec_parse_dec(
            u.subrange(k + 1, k2),
        ).unwrap())
    } else if u.len() >= 2 && u[0] == 67 && u[1] == 83 && spec_parse_dec(
        u.subrange(2, u.len() as int),
    ) is Some && 2 <= spec_parse_dec(u.subrange(2, u.len() as int)).unwrap() <= 24 {
        ("CS"@, spec_parse_dec(u.subrange(2, u.len() as int)).unwrap() / 2 + 11, 0)
    } else if u.len() >= 2 && u[0] == 67 && 48 <= u[1] <= 57 && spec_parse_dec(
        u.subrange(1, u.len() as int),
    ) is Some && 13 <= spec_parse_dec(u.subrange(1, u.len() as int)).unwrap() <= 63 {
        let n = spec_parse_dec(u.subrange(1, u.len() as int)).unwrap();
        if n <= 22 {
            ("CATV"@, n - 10, 0)
        } else {
            ("CATV"@, n - 1, 0)
        }
    } else if spec_parse_dec(u) is Some && 13 <= spec_parse_dec(u).unwrap() <= 62 {
        ("T"@, spec_parse_dec(u).unwrap() + 50, 0)
    } else if spec_parse_dec(u) is Some && spec_bs_channel(spec_parse_dec(u).unwrap()) is Some {
        let fs = spec_bs_channel(spec_parse_dec(u).unwrap()).unwrap();
        ("BS"@, fs.0, fs.1)
    } else {
        (""@, 0, 0)
    }
}

/// The first underscore never stands before the search start.
proof fn lemma_find_us_ge(s: Seq<u8>, i: int)
    requires
        0 <= i <= s.len(),
    ensures
        find_us(s, i) >= i,
    decreases s.len() - i,
{
    if i < s.len() && s[i] != 95 {
        lemma_find_us_ge(s, i + 1);
    }
}

/// ASCII upper-casing of a byte string.
fn to_upper(s: &[u8]) -> (r: Vec<u8>)
    ensures
        r@ == upper_bytes(s@),
{
    let mut r: Vec<u8> = Vec::new();
    let mut i: usize = 0;
    while i < s.len()
        invariant
            i <= s@.len(),
            r@.len() == i,
            forall|k: int| 0 <= k < i ==> r@[k] == upper_bytes(s@)[k],
        decreases s@.len() - i,
    {
        r.push(upper(s[i]));
        i = i + 1;
    }
    proof {
        assert(r@ =~= upper_bytes(s@));
    }
    r
}

/// The first underscore at or after `from`, or the length if none.
#[verifier::loop_isolation(false)]
fn find_us_exec(s: &[u8], from: usize) -> (r: usize)
    requires
        from <= s@.len(),
    ensures
        r == find_us(s@, from as int),
        from <= r <= s@.len(),
{
    let mut i = from;
    while i < s.len()
        invariant
            from <= i <= s@.len(),
            find_us(s@, from as int) == find_us(s@, i as int),
        decreases s@.len() - i,
    {
        if s[i] == 95 {
            return i;
        }
        i = i + 1;
    }
    i
}

/// Reads a byte range as a decimal number, where it is all digits and
/// fits a 31-bit value.
#[verifier::loop_isolation(false)]
fn parse_dec(s: &[u8], from: usize, to: usize) -> (r: Option<i32>)
    requires
        from <= to <= s@.len(),
    ensures
        match r {
            Some(v) => spec_parse_dec(s@.subrange(from as int, to as int)) == Some(v as int),
            None => spec_parse_dec(s@.subrange(from as int, to as int)) is None,
        },
{
    let ghost u = s@.subrange(from as int, to as int);
    if from == to {
        proof {
            assert(!is_digits(u));
        }
        return None;
    }
    let mut i: usize = from;
    let mut acc: u32 = 0;
    proof {
        assert(u.skip(0) =~= u);
    }
    while i < to
        invariant
            from <= i <= to,
            acc <= 0x7fffffff,
            forall|k: int| 0 <= k < i - from ==> 48 <= #[trigger] u[k] <= 57,
            dec_val(u, 0) == dec_val(u.skip(i - from), acc as int),
        decreases to - i,
    {
        let b = s[i];
        if b < 48 || b > 57 {
            assert(!is_digits(u));
            return None;
        }
        if acc > 214748364 {
            // The value can no longer fit a 31-bit number.
            proof {
                assert(u.skip(i - from)[0] == b);
                assert(u.skip(i - from).skip(1) =~= u.skip(i + 1 - from));
                if is_digits(u) {
                    assert forall|k: int| 0 <= k < u.skip(i + 1 - from).len() implies 48
                        <= #[trigger] u.skip(i + 1 - from)[k] <= 57 by {
                        assert(u.skip(i + 1 - from)[k] == u[k + (i + 1 - from)]);
                    }
                    lemma_dec_val_lower(
                        u.skip(i + 1 - from),
                        acc as int * 10 + (b - 48),
                    );
                }
            }
            return None;
        }
        let next: u32 = acc * 10 + (b - 48) as u32;
        proof {
            assert(u.skip(i - from)[0] == b);
            assert(u.skip(i - from).skip(1) =~= u.skip(i + 1 - from));
        }
        if next > 0x7fffffff {
            proof {
                if is_digits(u) {
                    assert forall|k: int| 0 <= k < u.skip(i + 1 - from).len() implies 48
                        <= #[trigger] u.skip(i + 1 - from)[k] <= 57 by {
                        assert(u.skip(i + 1 - from)[k] == u[k + (i + 1 - from)]);
                    }
                    lemma_dec_val_lower(u.skip(i + 1 - from), next as int);
                }
            }
            return None;
        }
        acc = next;
        i = i + 1;
    }
    proof {
        assert(u.skip(to - from).len() == 0);
        assert(is_digits(u));
    }
    Some(acc as i32)
}

/// The satellite transponder and slot assigned to a broadcast-satellite
/// channel number.
fn bs_channel(n: i32) -> (r: Option<(i32, i32)>)
    ensures
        match r {
            Some(fs) => spec_bs_channel(n as int) == Some((fs.0 as int, fs.1 as int)),
            None => spec_bs_channel(n as int) is None,
        },
{
    if n == 151 {
        Some((0, 0))
    } else if n == 161 {
        Some((0, 1))
    } else if n == 171 {
        Some((0, 2))
    } else if n == 191 {
        Some((1, 0))
    } else if n == 103 {
        Some((1, 1))
    } else if n == 192 {
        Some((2, 0))
    } else if n == 193 {
        Some((2, 1))
    } else if n == 211 {
        Some((4, 0))
    } else if n == 200 {
        Some((4, 1))
    } else if n == 222 {
        Some((4, 2))
    } else if n == 141 {
        Some((6, 0))
    } else if n == 181 {
        Some((6, 1))
    } else if n == 236 {
        Some((6, 2))
    } else if n == 231 {
        Some((6, 2))
    } else if n == 232 {
        Some((6, 2))
    } else if n == 233 {
        Some((6, 2))
    } else if n == 101 {
        Some((7, 0))
    } else if n == 102 {
        Some((7, 0))
    } else if n == 201 {
        Some((7, 1))
    } else if n == 202 {
        Some((7, 1))
    } else if n == 245 {
        Some((9, 0))
    } else if n == 242 {
        Some((9, 1))
    } else if n == 243 {
        Some((9, 2))
    } else if n == 244 {
        Some((9, 3))
    } else if n == 252 {
        Some((10, 0))
    } else if n == 255 {
        Some((10, 1))
    } else if n == 234 {
        Some((10, 2))
    } else if n == 256 {
        Some((11, 0))
    } else if n == 265 {
        Some((11, 1))
    } else if n == 263 {
        Some((11, 2))
    } else if n == 260 {
        Some((11, 3))
    } else {
        None
    }
}

/// Classifies a channel name into its broadcast kind (`BS`, `CS`,
/// `CATV`, `T`, or empty for an unknown channel) and the tuner frequency
/// request for it.
///
/// The classification is total: a malformed name — an empty string, a
/// satellite name without its slot suffix, a prefix not followed by the
/// digits it needs — is deliberately classified as unknown (the empty
/// kind with a zero frequency) rather than rejected, so a caller can
/// treat every bad name the same way.
pub fn channel_type(channel: String) -> (r: (String, IoctlFreq))
    ensures
        ({
            let cls = spec_channel_class(encode_utf8(channel@));
            r.0@ == cls.0 && r.1.ch == cls.1 && r.1.slot == cls.2
        }),
{
    let b: &[u8] = channel.as_str().as_bytes();
    let u: Vec<u8> = to_upper(b);
    let n = u.len();
    let k = find_us_exec(u.as_slice(), 0);

    // BS<n>_<slot>
    if n >= 2 && u[0] == 66 && u[1] == 83 {
        proof {
            assert(find_us(u@, 0) == find_us(u@, 1));
            assert(find_us(u@, 1) == find_us(u@, 2));
            lemma_find_us_ge(u@, 2);
        }
        if k < n {
            let k2 = find_us_exec(u.as_slice(), k + 1);
            if let Some(v) = parse_dec(u.as_slice(), 2, k) {
                if 1 <= v && v <= 23 {
                    if let Some(slot) = parse_dec(u.as_slice(), k + 1, k2) {
                        return ("BS".to_owned(), IoctlFreq { ch: v / 2, slot });
                    }
                }
            }
        }
        proof {
            assert(!is_digits(upper_bytes(b@)));
        }
        return ("".to_owned(), IoctlFreq { ch: 0, slot: 0 });
    }

    // CS<n>
    if n >= 2 && u[0] == 67 && u[1] == 83 {
        if let Some(v) = parse_dec(u.as_slice(), 2, n) {
            if 2 <= v && v <= 24 {
                return ("CS".to_owned(), IoctlFreq { ch: v / 2 + 11, slot: 0 });
            }
        }
        proof {
            assert(!is_digits(upper_bytes(b@)));
        }
        return ("".to_owned(), IoctlFreq { ch: 0, slot: 0 });
    }

    // C<n> (cable)
    if n >= 2 && u[0] == 67 && 48 <= u[1] && u[1] <= 57 {
        if let Some(v) = parse_dec(u.as_slice(), 1, n) {
            if 13 <= v && v <= 22 {
                return ("CATV".to_owned(), IoctlFreq { ch: v - 10, slot: 0 });
            }
            if 23 <= v && v <= 63 {
                return ("CATV".to_owned(), IoctlFreq { ch: v - 1, slot: 0 });
            }
        }
        proof {
            assert(!is_digits(upper_bytes(b@)));
        }
        return ("".to_owned(), IoctlFreq { ch: 0, slot: 0 });
    }

    // A bare number: a terrestrial channel or a listed satellite channel.
    if let Some(v) = parse_dec(u.as_slice(), 0, n) {
        proof {
            assert(u@.subrange(0, n as int) =~= u@);
        }
        if 13 <= v && v <= 62 {
            return ("T".to_owned(), IoctlFreq { ch: v + 50, slot: 0 });
        }
        if let Some(fs) = bs_channel(v) {
            return ("BS".to_owned(), IoctlFreq { ch: fs.0, slot: fs.1 });
        }
        return ("".to_owned(), IoctlFreq { ch: 0, slot: 0 });
    }
    proof {
        assert(u@.subrange(0, n as int) =~= u@);
    }
    ("".to_owned(), IoctlFreq { ch: 0, slot: 0 })
}

} // verus!
