//! Input-format detection and the pure parts of CSV log reading: column
//! discovery in a header row and the parsing of a CAN id field. The file
//! reading itself is a collaborator's concern; these functions work on the
//! bytes they are handed.

use vstd::prelude::*;
use vstd::utf8::valid_utf8;
use crate::text::spec_split;
use crate::text::split_bytes;
use crate::text::lit_bytes;
use crate::text::bytes_eq;
use crate::frame::is_hex_digit;
use crate::frame::hex_val;

verus! {

/// The detected format of an input file.
#[derive(Debug, Clone, Copy, PartialEq, Eq, Structural)]
pub enum InputFormat {
    Csv,
    Rlog,
    Unknown,
}

/// Relies on std's `str::from_utf8`: whether the bytes are valid UTF-8.
#[verifier::external_body]
fn utf8_ok(data: &[u8]) -> (r: bool)
    ensures
        r == valid_utf8(data@),
{
    std::str::from_utf8(data).is_ok()
}

/// How many bytes of `s` equal `b`.
pub open spec fn count_byte(s: Seq<u8>, b: u8) -> nat
    decreases s.len(),
{
    if s.len() == 0 {
        0
    } else {
        count_byte(s.drop_last(), b) + (if s.last() == b {
            1nat
        } else {
            0nat
        })
    }
}

/// Does any of the first five lines hold at least two commas?
pub open spec fn comma_line_among(lines: Seq<Seq<u8>>, i: nat) -> bool
    decreases lines.len() - i,
{
    if i >= lines.len() || i >= 5 {
        false
    } else {
        count_byte(lines[i as int], 44) >= 2 || comma_line_among(lines, i + 1)
    }
}

/// Whether the data looks like an rlog capture: the two-byte magic at the
/// start.
pub open spec fn is_rlog_spec(data: Seq<u8>) -> bool {
    data.len() >= 2 && data[0] == 98 && data[1] == 122
}

/// Whether the data looks like CSV text: at least ten bytes, the first
/// five hundred valid UTF-8, and one of the first five lines holding two
/// or more commas.
pub open spec fn is_csv_spec(data: Seq<u8>) -> bool {
    let sample = data.take(if data.len() < 500 {
        data.len() as int
    } else {
        500
    });
    data.len() >= 10 && valid_utf8(sample) && comma_line_among(spec_split(sample, 10), 0)
}

/// Exec test matching [`is_rlog_spec`].
pub fn is_rlog(data: &[u8]) -> (r: bool)
    ensures
        r == is_rlog_spec(data@),
{
    data.len() >= 2 && data[0] == 98 && data[1] == 122
}

/// Exec test matching [`is_csv_spec`].
pub fn is_csv(data: &[u8]) -> (r: bool)
    ensures
        r == is_csv_spec(data@),
{
    if data.len() < 10 {
        return false;
    }
    let upto: usize = if data.len() < 500 {
        data.len()
    } else {
        500
    };
    let sample = vstd::slice::slice_subrange(data, 0, upto);
    proof {
        assert(sample@ =~= data@.take(upto as int));
    }
    if !utf8_ok(sample) {
        return false;
    }
    let lines = split_bytes(sample, 10);
    let ghost lv = lines.deep_view();
    let mut i: usize = 0;
    while i < lines.len() && i < 5
        invariant
            lv == lines.deep_view(),
            lv.len() == lines@.len(),
            i <= lv.len(),
            comma_line_among(lv, 0) == comma_line_among(lv, i as nat),
            data@.len() >= 10,
            upto == (if data@.len() < 500 {
                data@.len() as int
            } else {
                500
            }),
            valid_utf8(data@.take(upto as int)),
            lv == spec_split(data@.take(upto as int), 10),
        decreases lines@.len() - i,
    {
        proof {
            assert(lv[i as int] == lines@[i as int]@);
        }
        let line = &lines[i];
        let mut commas: usize = 0;
        let mut j: usize = 0;
        proof {
            assert(line@.take(0) =~= Seq::<u8>::empty());
        }
        while j < line.len()
            invariant
                j <= line@.len(),
                commas == count_byte(line@.take(j as int), 44),
                commas <= j,
            decreases line@.len() - j,
        {
            proof {
                assert(line@.take(j as int + 1).drop_last() =~= line@.take(j as int));
                assert(line@.take(j as int + 1).last() == line@[j as int]);
            }
            if line[j] == 44 {
                commas = commas + 1;
            }
            j = j + 1;
        }
        proof {
            assert(line@.take(line@.len() as int) =~= line@);
        }
        if commas >= 2 {
            proof {
                assert(comma_line_among(lv, i as nat));
                assert(is_csv_spec(data@));
            }
            return true;
        }
        i = i + 1;
    }
    false
}

/// Detect the format of an input file from its first bytes: the rlog
/// magic wins, then a CSV-looking text, else unknown.
pub fn detect_format(data: &[u8]) -> (r: InputFormat)
    ensures
        r == (if is_rlog_spec(data@) {
            InputFormat::Rlog
        } else if is_csv_spec(data@) {
            InputFormat::Csv
        } else {
            InputFormat::Unknown
        }),
{
    if is_rlog(data) {
        return InputFormat::Rlog;
    }
    if is_csv(data) {
        return InputFormat::Csv;
    }
    InputFormat::Unknown
}

/// A header byte lowered to ASCII lower case.
pub open spec fn lower_byte(b: u8) -> u8 {
    if 65 <= b <= 90 {
        (b + 32) as u8
    } else {
        b
    }
}

/// A header lowered to ASCII lower case, byte for byte.
pub open spec fn lower_bytes(s: Seq<u8>) -> Seq<u8> {
    s.map(|i: int, b: u8| lower_byte(b))
}

/// Does the lowered header equal one of the names?
pub open spec fn name_matches(header: Seq<u8>, names: Seq<Seq<u8>>, k: nat) -> bool
    decreases names.len() - k,
{
    if k >= names.len() {
        false
    } else {
        lower_bytes(header) == names[k as int] || name_matches(header, names, k + 1)
    }
}

/// The first column whose lowered header equals one of the names.
pub open spec fn find_column_spec(headers: Seq<Seq<u8>>, names: Seq<Seq<u8>>, i: nat) -> Option<
    nat,
>
    decreases headers.len() - i,
{
    if i >= headers.len() {
        None
    } else if name_matches(headers[i as int], names, 0) {
        Some(i)
    } else {
        find_column_spec(headers, names, i + 1)
    }
}

/// Find the index of the first header that, lowered to ASCII lower case,
/// equals one of the candidate names.
pub fn find_column(headers: &Vec<Vec<u8>>, names: &Vec<Vec<u8>>) -> (r: Option<usize>)
    ensures
        match r {
            Some(i) => find_column_spec(headers.deep_view(), names.deep_view(), 0) == Some(
                i as nat,
            ),
            None => find_column_spec(headers.deep_view(), names.deep_view(), 0) is None,
        },
{
    let ghost hv = headers.deep_view();
    let ghost nv = names.deep_view();
    let mut i: usize = 0;
    while i < headers.len()
        invariant
            i <= hv.len(),
            hv == headers.deep_view(),
            nv == names.deep_view(),
            hv.len() == headers@.len(),
            nv.len() == names@.len(),
            find_column_spec(hv, nv, 0) == find_column_spec(hv, nv, i as nat),
        decreases headers@.len() - i,
    {
        proof {
            assert(hv[i as int] == headers@[i as int]@);
        }
        let header = &headers[i];
        let mut lowered: Vec<u8> = Vec::new();
        let mut j: usize = 0;
        proof {
            assert(lowered@ =~= lower_bytes(header@).take(0));
        }
        while j < header.len()
            invariant
                j <= header@.len(),
                lowered@ =~= lower_bytes(header@).take(j as int),
            decreases header@.len() - j,
        {
            let b = header[j];
            lowered.push(
                if 65 <= b && b <= 90 {
                    b + 32
                } else {
                    b
                },
            );
            proof {
                assert(lowered@ =~= lower_bytes(header@).take(j as int + 1));
            }
            j = j + 1;
        }
        proof {
            assert(lowered@ =~= lower_bytes(header@));
        }
        let mut k: usize = 0;
        while k < names.len()
            invariant
                k <= nv.len(),
                nv == names.deep_view(),
                nv.len() == names@.len(),
                lowered@ == lower_bytes(hv[i as int]),
                i < hv.len(),
                hv == headers.deep_view(),
                hv.len() == headers@.len(),
                find_column_spec(hv, nv, 0) == find_column_spec(hv, nv, i as nat),
                name_matches(hv[i as int], nv, 0) == name_matches(hv[i as int], nv, k as nat),
            decreases names@.len() - k,
        {
            proof {
                assert(nv[k as int] == names@[k as int]@);
            }
            if bytes_eq(lowered.as_slice(), names[k].as_slice()) {
                proof {
                    assert(name_matches(hv[i as int], nv, k as nat));
                    assert(name_matches(hv[i as int], nv, 0));
                    assert(find_column_spec(hv, nv, i as nat) == Some(i as nat));
                }
                return Some(i);
            }
            k = k + 1;
        }
        proof {
            assert(!name_matches(hv[i as int], nv, 0));
        }
        i = i + 1;
    }
    None
}

/// The candidate header names for the timestamp column.
pub open spec fn time_names() -> Seq<Seq<u8>> {
    seq![lit_bytes("time"), lit_bytes("timestamp"), lit_bytes("t"), lit_bytes("ts")]
}

/// The candidate header names for the bus column.
pub open spec fn bus_names() -> Seq<Seq<u8>> {
    seq![lit_bytes("bus"), lit_bytes("channel"), lit_bytes("interface")]
}

/// The candidate header names for the CAN id column.
pub open spec fn id_names() -> Seq<Seq<u8>> {
    seq![
        lit_bytes("id"),
        lit_bytes("addr"),
        lit_bytes("msg_id"),
        lit_bytes("can_id"),
        lit_bytes("message_id"),
    ]
}

/// The candidate header names for the payload column.
pub open spec fn data_names() -> Seq<Seq<u8>> {
    seq![lit_bytes("data"), lit_bytes("payload"), lit_bytes("hex"), lit_bytes("bytes")]
}

/// Copy an ASCII string into a byte vector.
fn to_bytes(s: &str) -> (r: Vec<u8>)
    requires
        s.is_ascii(),
    ensures
        r@ == lit_bytes(s),
{
    let mut v: Vec<u8> = Vec::new();
    crate::text::push_str_bytes(&mut v, s);
    proof {
        assert(v@ =~= lit_bytes(s));
    }
    v
}

/// Locate the timestamp, bus, id and payload columns in a CSV header row,
/// each by its recognised set of names.
pub fn detect_columns(headers: &Vec<Vec<u8>>) -> (r: Option<(usize, usize, usize, usize)>)
    ensures
        match r {
            Some((t, b, i, d)) => {
                &&& find_column_spec(headers.deep_view(), time_names(), 0) == Some(t as nat)
                &&& find_column_spec(headers.deep_view(), bus_names(), 0) == Some(b as nat)
                &&& find_column_spec(headers.deep_view(), id_names(), 0) == Some(i as nat)
                &&& find_column_spec(headers.deep_view(), data_names(), 0) == Some(d as nat)
            },
            None => find_column_spec(headers.deep_view(), time_names(), 0) is None
                || find_column_spec(headers.deep_view(), bus_names(), 0) is None
                || find_column_spec(headers.deep_view(), id_names(), 0) is None
                || find_column_spec(headers.deep_view(), data_names(), 0) is None,
        },
{
    proof {
        reveal_strlit("time");
        reveal_strlit("timestamp");
        reveal_strlit("t");
        reveal_strlit("ts");
        reveal_strlit("bus");
        reveal_strlit("channel");
        reveal_strlit("interface");
        reveal_strlit("id");
        reveal_strlit("addr");
        reveal_strlit("msg_id");
        reveal_strlit("can_id");
        reveal_strlit("message_id");
        reveal_strlit("data");
        reveal_strlit("payload");
        reveal_strlit("hex");
        reveal_strlit("bytes");
    }
    let mut time_list: Vec<Vec<u8>> = Vec::new();
    time_list.push(to_bytes("time"));
    time_list.push(to_bytes("timestamp"));
    time_list.push(to_bytes("t"));
    time_list.push(to_bytes("ts"));
    proof {
        assert(time_list.deep_view() =~~= time_names());
    }
    let mut bus_list: Vec<Vec<u8>> = Vec::new();
    bus_list.push(to_bytes("bus"));
    bus_list.push(to_bytes("channel"));
    bus_list.push(to_bytes("interface"));
    proof {
        assert(bus_list.deep_view() =~~= bus_names());
    }
    let mut id_list: Vec<Vec<u8>> = Vec::new();
    id_list.push(to_bytes("id"));
    id_list.push(to_bytes("addr"));
    id_list.push(to_bytes("msg_id"));
    id_list.push(to_bytes("can_id"));
    id_list.push(to_bytes("message_id"));
    proof {
        assert(id_list.deep_view() =~~= id_names());
    }
    let mut data_list: Vec<Vec<u8>> = Vec::new();
    data_list.push(to_bytes("data"));
    data_list.push(to_bytes("payload"));
    data_list.push(to_bytes("hex"));
    data_list.push(to_bytes("bytes"));
    proof {
        assert(data_list.deep_view() =~~= data_names());
    }
    let t = match find_column(headers, &time_list) {
        Some(t) => t,
        None => {
            return None;
        },
    };
    let b = match find_column(headers, &bus_list) {
        Some(b) => b,
        None => {
            return None;
        },
    };
    let i = match find_column(headers, &id_list) {
        Some(i) => i,
        None => {
            return None;
        },
    };
    let d = match find_column(headers, &data_list) {
        Some(d) => d,
        None => {
            return None;
        },
    };
    Some((t, b, i, d))
}

/// The value of a run of hexadecimal digits, most significant first, up
/// to `max`.
pub open spec fn hex_digits_val(s: Seq<u8>) -> nat
    decreases s.len(),
{
    if s.len() == 0 {
        0
    } else {
        hex_digits_val(s.drop_last()) * 16 + hex_val(s.last()) as nat
    }
}

/// Are all bytes hexadecimal digits?
pub open spec fn all_hex_digits(s: Seq<u8>) -> bool {
    forall|i: int| 0 <= i < s.len() ==> is_hex_digit(s[i])
}

/// What parsing a CAN id field yields: with a `0x` or `0X` prefix the rest
/// reads as hexadecimal, else the whole field reads as decimal; a value
/// above the 32-bit range, an empty digit run, or a stray byte fails.
pub open spec fn parse_can_id_spec(s: Seq<u8>) -> Option<u32> {
    if s.len() >= 2 && s[0] == 48 && (s[1] == 120 || s[1] == 88) {
        let rest = s.skip(2);
        if rest.len() >= 1 && all_hex_digits(rest) && hex_digits_val(rest) <= 0xffff_ffff {
            Some(hex_digits_val(rest) as u32)
        } else {
            None
        }
    } else {
        match crate::text::parse_uint_spec(s, 0xffff_ffff) {
            Some(v) => Some(v as u32),
            None => None,
        }
    }
}

/// Parse a CAN id field of a CSV row, decimal or `0x`-prefixed hex.
pub fn parse_can_id(s: &[u8]) -> (r: Option<u32>)
    ensures
        r == parse_can_id_spec(s@),
{
    if s.len() >= 2 && s[0] == 48 && (s[1] == 120 || s[1] == 88) {
        let rest = vstd::slice::slice_subrange(s, 2, s.len());
        proof {
            assert(rest@ =~= s@.skip(2));
        }
        if rest.len() == 0 {
            return None;
        }
        let mut acc: u64 = 0;
        let mut i: usize = 0;
        while i < rest.len()
            invariant
                i <= rest@.len(),
                rest@.len() >= 1,
                rest@ == s@.skip(2),
                s@.len() >= 2,
                s@[0] == 48,
                s@[1] == 120 || s@[1] == 88,
                acc == hex_digits_val(rest@.take(i as int)),
                acc <= 0xffff_ffff,
                forall|j: int| 0 <= j < i ==> is_hex_digit(rest@[j]),
            decreases rest.len() - i,
        {
            proof {
                assert(rest@.take(i as int + 1).drop_last() =~= rest@.take(i as int));
                assert(rest@.take(i as int + 1).last() == rest@[i as int]);
            }
            let b = rest[i];
            let v: u64 = if 48 <= b && b <= 57 {
                (b - 48) as u64
            } else if 65 <= b && b <= 70 {
                (b - 55) as u64
            } else if 97 <= b && b <= 102 {
                (b - 87) as u64
            } else {
                proof {
                    assert(!is_hex_digit(rest@[i as int]));
                    assert(!all_hex_digits(rest@));
                }
                return None;
            };
            if acc > (0xffff_ffffu64 - v) / 16 {
                proof {
                    lemma_hex_digits_grow(rest@, i as nat + 1);
                    assert(acc * 16 + v > 0xffff_ffff) by (nonlinear_arith)
                        requires
                            acc <= 0xffff_ffff,
                            v < 16,
                            acc > (0xffff_ffffu64 - v) / 16,
                    ;
                    assert(rest@.take(i as int + 1).drop_last() =~= rest@.take(i as int));
                    assert(rest@.take(i as int + 1).last() == rest@[i as int]);
                    assert(hex_digits_val(rest@.subrange(0, i as int + 1)) > 0xffff_ffff);
                    assert(hex_digits_val(rest@) > 0xffff_ffff);
                }
                return None;
            }
            proof {
                assert(acc * 16 + v <= 0xffff_ffff) by (nonlinear_arith)
                    requires
                        acc <= (0xffff_ffffu64 - v) / 16,
                        v < 16,
                ;
            }
            acc = acc * 16 + v;
            i = i + 1;
        }
        proof {
            assert(rest@.take(rest@.len() as int) =~= rest@);
        }
        Some(acc as u32)
    } else {
        match crate::text::parse_uint(s, 0xffff_ffff) {
            Some(v) => Some(v as u32),
            None => None,
        }
    }
}

/// A longer hex digit prefix never has a smaller value.
proof fn lemma_hex_digits_grow(s: Seq<u8>, i: nat)
    requires
        i <= s.len(),
    ensures
        hex_digits_val(s) >= hex_digits_val(s.subrange(0, i as int)),
    decreases s.len() - i,
{
    if i < s.len() {
        lemma_hex_digits_grow(s, i + 1);
        let a = s.subrange(0, i as int);
        let b = s.subrange(0, i as int + 1);
        assert(b.drop_last() =~= a);
        assert(hex_digits_val(a) * 16 >= hex_digits_val(a)) by (nonlinear_arith);
    } else {
        assert(s.subrange(0, i as int) =~= s);
    }
}

} // verus!
