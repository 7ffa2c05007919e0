//! The raw CAN frame: bus id, numeric CAN id, timestamp and payload bytes,
//! with hex-text helpers for payloads.

use vstd::prelude::*;

verus! {

/// Why a hex payload string failed to parse.
#[derive(Debug, Clone, Copy, PartialEq, Eq, Structural)]
pub enum HexParseError {
    /// After spaces and a `0x` prefix are dropped, the digit count is odd.
    OddLength,
    /// A byte of the string is not a hexadecimal digit.
    InvalidDigit,
}

/// Relies on chrono's `Utc::now`: the current wall-clock time in
/// milliseconds since the Unix epoch. The result depends on the clock, so
/// nothing is promised of it.
#[verifier::external_body]
fn now_millis() -> i64 {
    chrono::Utc::now().timestamp_millis()
}

/// A raw CAN message: one bus transmission unit.
#[derive(Debug, Clone)]
pub struct CanMessage {
    /// Timestamp in milliseconds since the Unix epoch.
    pub timestamp: i64,
    /// Which bus the frame was seen on.
    pub bus: u8,
    /// CAN message id (11-bit standard or 29-bit extended).
    pub id: u32,
    /// Raw payload bytes, up to eight for classic CAN.
    pub data: Vec<u8>,
}

/// Is the byte an ASCII hexadecimal digit?
pub open spec fn is_hex_digit(b: u8) -> bool {
    (48 <= b <= 57) || (65 <= b <= 70) || (97 <= b <= 102)
}

/// The value of a hexadecimal digit.
pub open spec fn hex_val(b: u8) -> u8 {
    if 48 <= b <= 57 {
        (b - 48) as u8
    } else if 65 <= b <= 70 {
        (b - 55) as u8
    } else {
        (b - 87) as u8
    }
}

/// `s` with every space removed.
pub open spec fn drop_spaces(s: Seq<u8>) -> Seq<u8>
    decreases s.len(),
{
    if s.len() == 0 {
        Seq::empty()
    } else if s[0] == 32 {
        drop_spaces(s.drop_first())
    } else {
        seq![s[0]] + drop_spaces(s.drop_first())
    }
}

/// `s` without a single leading `0x` or `0X`.
pub open spec fn drop_hex_prefix(s: Seq<u8>) -> Seq<u8> {
    if s.len() >= 2 && s[0] == 48 && (s[1] == 120 || s[1] == 88) {
        s.skip(2)
    } else {
        s
    }
}

/// The bytes spelled by an even run of hex digits, two digits per byte,
/// or the reason it fails.
pub open spec fn hex_pairs(s: Seq<u8>, i: nat) -> Result<Seq<u8>, HexParseError>
    decreases s.len() - i,
{
    if i >= s.len() {
        Ok(Seq::empty())
    } else if i + 1 >= s.len() {
        Err(HexParseError::InvalidDigit)
    } else if !(is_hex_digit(s[i as int]) && is_hex_digit(s[i as int + 1])) {
        Err(HexParseError::InvalidDigit)
    } else {
        match hex_pairs(s, i + 2) {
            Ok(rest) => Ok(
                seq![(hex_val(s[i as int]) * 16 + hex_val(s[i as int + 1])) as u8] + rest,
            ),
            Err(e) => Err(e),
        }
    }
}

/// What parsing a hex payload string yields: spaces dropped, one `0x`
/// prefix dropped, then exactly two hex digits per byte.
pub open spec fn parse_hex_spec(s: Seq<u8>) -> Result<Seq<u8>, HexParseError> {
    let t = drop_hex_prefix(drop_spaces(s));
    if t.len() % 2 != 0 {
        Err(HexParseError::OddLength)
    } else {
        hex_pairs(t, 0)
    }
}

/// The hexadecimal digit for a value below sixteen, in upper case.
pub open spec fn hex_digit_of(n: u8) -> u8 {
    if n < 10 {
        (48 + n) as u8
    } else {
        (55 + n) as u8
    }
}

/// The payload as upper-case hex text, bytes separated by single spaces.
pub open spec fn hex_text(data: Seq<u8>, i: nat) -> Seq<u8>
    decreases data.len() - i,
{
    if i >= data.len() {
        Seq::empty()
    } else {
        let pair = seq![
            hex_digit_of(data[i as int] / 16),
            hex_digit_of((data[i as int] % 16) as u8),
        ];
        if i + 1 == data.len() {
            pair
        } else {
            pair + seq![32u8] + hex_text(data, i + 1)
        }
    }
}

impl CanMessage {
    /// A new frame stamped with the current wall-clock time.
    pub fn new(bus: u8, id: u32, data: Vec<u8>) -> (r: Self)
        ensures
            r.bus == bus,
            r.id == id,
            r.data == data,
    {
        CanMessage { timestamp: now_millis(), bus, id, data }
    }

    /// Whether the frame uses a 29-bit extended id.
    pub fn is_extended(&self) -> (r: bool)
        ensures
            r == (self.id > 0x7ff),
    {
        self.id > 0x7ff
    }

    /// The payload as upper-case hex text, bytes separated by spaces.
    pub fn hex_data(&self) -> (r: Vec<u8>)
        ensures
            r@ == hex_text(self.data@, 0),
    {
        let mut out: Vec<u8> = Vec::new();
        let n = self.data.len();
        let mut i: usize = 0;
        while i < n
            invariant
                i <= n,
                n == self.data@.len(),
                out@ + hex_text(self.data@, i as nat) =~= hex_text(self.data@, 0),
            decreases n - i,
        {
            let b = self.data[i];
            let hi = b / 16;
            let lo = b % 16;
            out.push(if hi < 10 {
                48 + hi
            } else {
                55 + hi
            });
            out.push(if lo < 10 {
                48 + lo
            } else {
                55 + lo
            });
            if i + 1 < n {
                out.push(32);
            }
            i = i + 1;
        }
        proof {
            assert(hex_text(self.data@, n as nat) =~= Seq::<u8>::empty());
            assert(out@ =~= hex_text(self.data@, 0));
        }
        out
    }

    /// Parse a hex payload string such as `12 34 AB CD` or `0x1234abcd`
    /// into its bytes: spaces are ignored, one `0x` prefix is allowed, and
    /// every remaining byte must be one of an even count of hex digits.
    pub fn parse_hex(hex: &[u8]) -> (r: Result<Vec<u8>, HexParseError>)
        ensures
            match r {
                Ok(v) => parse_hex_spec(hex@) == Ok::<Seq<u8>, HexParseError>(v@),
                Err(e) => parse_hex_spec(hex@) == Err::<Seq<u8>, HexParseError>(e),
            },
    {
        let mut clean: Vec<u8> = Vec::new();
        let mut i: usize = 0;
        proof {
            assert(hex@.skip(0) =~= hex@);
        }
        while i < hex.len()
            invariant
                i <= hex@.len(),
                clean@ + drop_spaces(hex@.skip(i as int)) =~= drop_spaces(hex@),
            decreases hex.len() - i,
        {
            proof {
                assert(hex@.skip(i as int)[0] == hex@[i as int]);
                assert(hex@.skip(i as int).drop_first() =~= hex@.skip(i as int + 1));
            }
            let b = hex[i];
            if b != 32 {
                clean.push(b);
            }
            i = i + 1;
        }
        proof {
            assert(drop_spaces(hex@.skip(hex@.len() as int)) =~= Seq::<u8>::empty());
            assert(clean@ =~= drop_spaces(hex@));
        }
        let start: usize = if clean.len() >= 2 && clean[0] == 48 && (clean[1] == 120 || clean[1]
            == 88) {
            2
        } else {
            0
        };
        let ghost t = drop_hex_prefix(drop_spaces(hex@));
        proof {
            assert(t =~= clean@.skip(start as int));
        }
        if (clean.len() - start) % 2 != 0 {
            return Err(HexParseError::OddLength);
        }
        let mut out: Vec<u8> = Vec::new();
        let mut j: usize = start;
        proof {
            if let Ok(r) = hex_pairs(t, 0) {
                assert(Seq::<u8>::empty() + r =~= r);
            }
        }
        while j < clean.len()
            invariant
                start <= j <= clean@.len(),
                (clean@.len() - start) % 2 == 0,
                (j - start) % 2 == 0,
                t == clean@.skip(start as int),
                t == drop_hex_prefix(drop_spaces(hex@)),
                t.len() == clean@.len() - start,
                match hex_pairs(t, (j - start) as nat) {
                    Ok(rest) => hex_pairs(t, 0) == Ok::<Seq<u8>, HexParseError>(out@ + rest),
                    Err(e) => hex_pairs(t, 0) == Err::<Seq<u8>, HexParseError>(e),
                },
            decreases clean.len() - j,
        {
            let ghost k: nat = (j - start) as nat;
            proof {
                assert(t[k as int] == clean@[j as int]);
                assert(t[k as int + 1] == clean@[j as int + 1]);
            }
            let b1 = clean[j];
            let b2 = clean[j + 1];
            let v1: u8 = if 48 <= b1 && b1 <= 57 {
                b1 - 48
            } else if 65 <= b1 && b1 <= 70 {
                b1 - 55
            } else if 97 <= b1 && b1 <= 102 {
                b1 - 87
            } else {
                proof {
                    assert(k + 1 < t.len());
                    assert(!is_hex_digit(t[k as int]));
                    assert(hex_pairs(t, k) == Err::<Seq<u8>, HexParseError>(
                        HexParseError::InvalidDigit,
                    ));
                }
                return Err(HexParseError::InvalidDigit);
            };
            let v2: u8 = if 48 <= b2 && b2 <= 57 {
                b2 - 48
            } else if 65 <= b2 && b2 <= 70 {
                b2 - 55
            } else if 97 <= b2 && b2 <= 102 {
                b2 - 87
            } else {
                proof {
                    assert(k + 1 < t.len());
                    assert(!is_hex_digit(t[k as int + 1]));
                    assert(hex_pairs(t, k) == Err::<Seq<u8>, HexParseError>(
                        HexParseError::InvalidDigit,
                    ));
                }
                return Err(HexParseError::InvalidDigit);
            };
            let ghost prev = out@;
            out.push(v1 * 16 + v2);
            proof {
                assert(out@ =~= prev + seq![(hex_val(t[k as int]) * 16 + hex_val(
                    t[k as int + 1],
                )) as u8]);
                if let Ok(rest) = hex_pairs(t, k + 2) {
                    assert(prev + (seq![(hex_val(t[k as int]) * 16 + hex_val(
                        t[k as int + 1],
                    )) as u8] + rest) =~= out@ + rest);
                }
            }
            j = j + 2;
        }
        proof {
            assert(hex_pairs(t, (clean@.len() - start) as nat) == Ok::<Seq<u8>, HexParseError>(
                Seq::empty(),
            ));
            if let Ok(r0) = hex_pairs(t, 0) {
                assert(out@ + Seq::<u8>::empty() =~= out@);
            }
        }
        Ok(out)
    }
}

} // verus!
