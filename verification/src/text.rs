//! Byte-oriented text utilities shared by the DBC parser and serializer:
//! whitespace tokenization, separator splitting, trimming, and decimal
//! integer parsing and rendering, each paired with a specification-level
//! definition of its result.

use vstd::prelude::*;

verus! {

/// ASCII whitespace, the separators the line parsers recognise.
pub open spec fn is_space(b: u8) -> bool {
    b == 32 || b == 9 || b == 10 || b == 11 || b == 12 || b == 13
}

/// ASCII decimal digit.
pub open spec fn is_digit(b: u8) -> bool {
    48 <= b <= 57
}

/// Whitespace tokenization, scanning left to right with the token built so
/// far in `cur`: maximal runs of non-whitespace bytes, in order.
pub open spec fn tokens_acc(s: Seq<u8>, i: nat, cur: Seq<u8>) -> Seq<Seq<u8>>
    decreases s.len() - i,
{
    if i >= s.len() {
        if cur.len() > 0 {
            seq![cur]
        } else {
            Seq::empty()
        }
    } else if is_space(s[i as int]) {
        if cur.len() > 0 {
            seq![cur] + tokens_acc(s, i + 1, Seq::empty())
        } else {
            tokens_acc(s, i + 1, Seq::empty())
        }
    } else {
        tokens_acc(s, i + 1, cur + seq![s[i as int]])
    }
}

/// The whitespace-separated tokens of `s`, in order, without empties.
pub open spec fn spec_tokens(s: Seq<u8>) -> Seq<Seq<u8>> {
    tokens_acc(s, 0, Seq::empty())
}

/// Split `s` at the separator byte `sep`, scanning left to right with the
/// piece built so far in `cur`; empty pieces are kept, as `str::split` keeps
/// them.
pub open spec fn split_acc(s: Seq<u8>, i: nat, cur: Seq<u8>, sep: u8) -> Seq<Seq<u8>>
    decreases s.len() - i,
{
    if i >= s.len() {
        seq![cur]
    } else if s[i as int] == sep {
        seq![cur] + split_acc(s, i + 1, Seq::empty(), sep)
    } else {
        split_acc(s, i + 1, cur + seq![s[i as int]], sep)
    }
}

/// The pieces of `s` between occurrences of `sep`, empties kept.
pub open spec fn spec_split(s: Seq<u8>, sep: u8) -> Seq<Seq<u8>> {
    split_acc(s, 0, Seq::empty(), sep)
}

/// Index of the first byte at or after `i` that is not whitespace.
pub open spec fn skip_spaces(s: Seq<u8>, i: nat) -> nat
    decreases s.len() - i,
{
    if i >= s.len() {
        s.len()
    } else if is_space(s[i as int]) {
        skip_spaces(s, i + 1)
    } else {
        i
    }
}

/// Length of `s` with trailing whitespace dropped.
pub open spec fn rtrim_len(s: Seq<u8>) -> nat
    decreases s.len(),
{
    if s.len() == 0 {
        0
    } else if is_space(s[s.len() - 1]) {
        rtrim_len(s.drop_last())
    } else {
        s.len()
    }
}

/// `s` with leading and trailing whitespace dropped.
pub open spec fn spec_trim(s: Seq<u8>) -> Seq<u8> {
    let t = s.subrange(0, rtrim_len(s) as int);
    t.subrange(skip_spaces(t, 0) as int, t.len() as int)
}

/// Index of the first occurrence of `b` at or after `i`, if any.
pub open spec fn find_from(s: Seq<u8>, i: nat, b: u8) -> Option<nat>
    decreases s.len() - i,
{
    if i >= s.len() {
        None
    } else if s[i as int] == b {
        Some(i)
    } else {
        find_from(s, i + 1, b)
    }
}

/// Value of a run of decimal digits, most significant first.
pub open spec fn digits_val(s: Seq<u8>) -> nat
    decreases s.len(),
{
    if s.len() == 0 {
        0
    } else {
        digits_val(s.drop_last()) * 10 + (s[s.len() - 1] - 48) as nat
    }
}

/// Whether every byte of `s` is a decimal digit.
pub open spec fn all_digits(s: Seq<u8>) -> bool {
    forall|i: int| 0 <= i < s.len() ==> is_digit(s[i])
}

/// What parsing an unsigned decimal integer yields: the digits' value, for
/// a non-empty all-digit string whose value stays within `max`.
pub open spec fn parse_uint_spec(s: Seq<u8>, max: nat) -> Option<nat> {
    if s.len() >= 1 && all_digits(s) && digits_val(s) <= max {
        Some(digits_val(s))
    } else {
        None
    }
}

/// Decimal digits of `n`, most significant first.
pub open spec fn spec_digits(n: nat) -> Seq<u8>
    decreases n,
{
    if n < 10 {
        seq![(48 + n) as u8]
    } else {
        spec_digits(n / 10).push((48 + n % 10) as u8)
    }
}

/// Decimal digits of `n` padded with leading zeros to exactly `width`
/// digits (the low `width` digits of `n`, if it is wider).
pub open spec fn spec_digits_padded(n: nat, width: nat) -> Seq<u8>
    decreases width,
{
    if width == 0 {
        Seq::empty()
    } else {
        spec_digits_padded(n / 10, (width - 1) as nat).push((48 + n % 10) as u8)
    }
}

/// Do the byte strings hold the same bytes?
pub fn bytes_eq(a: &[u8], b: &[u8]) -> (r: bool)
    ensures
        r == (a@ == b@),
{
    if a.len() != b.len() {
        proof {
            assert(a@ != b@);
        }
        return false;
    }
    let mut i: usize = 0;
    while i < a.len()
        invariant
            i <= a.len(),
            a@.len() == b@.len(),
            forall|j: int| 0 <= j < i ==> a@[j] == b@[j],
        decreases a.len() - i,
    {
        if a[i] != b[i] {
            return false;
        }
        i = i + 1;
    }
    proof {
        assert(a@ =~= b@);
    }
    true
}

/// Does `s` start with the byte string `prefix`?
pub fn starts_with(s: &[u8], prefix: &[u8]) -> (r: bool)
    ensures
        r == (s@.len() >= prefix@.len() && s@.subrange(0, prefix@.len() as int) == prefix@),
{
    if s.len() < prefix.len() {
        return false;
    }
    let mut i: usize = 0;
    while i < prefix.len()
        invariant
            i <= prefix@.len() <= s@.len(),
            forall|j: int| 0 <= j < i ==> s@[j] == prefix@[j],
        decreases prefix.len() - i,
    {
        if s[i] != prefix[i] {
            proof {
                assert(s@.subrange(0, prefix@.len() as int)[i as int] != prefix@[i as int]);
            }
            return false;
        }
        i = i + 1;
    }
    proof {
        assert(s@.subrange(0, prefix@.len() as int) =~= prefix@);
    }
    true
}

/// Exec test matching [`is_space`].
pub fn byte_is_space(b: u8) -> (r: bool)
    ensures
        r == is_space(b),
{
    b == 32 || b == 9 || b == 10 || b == 11 || b == 12 || b == 13
}

/// Split `s` into its whitespace-separated tokens, in order.
pub fn tokenize(s: &[u8]) -> (r: Vec<Vec<u8>>)
    ensures
        r.deep_view() == spec_tokens(s@),
{
    let mut result: Vec<Vec<u8>> = Vec::new();
    let mut cur: Vec<u8> = Vec::new();
    let mut i: usize = 0;
    while i < s.len()
        invariant
            i <= s@.len(),
            spec_tokens(s@) == result.deep_view() + tokens_acc(s@, i as nat, cur@),
        decreases s.len() - i,
    {
        let b = s[i];
        if byte_is_space(b) {
            if cur.len() > 0 {
                let ghost dv = result.deep_view();
                let ghost cv = cur@;
                result.push(cur);
                cur = Vec::new();
                proof {
                    assert(result.deep_view() =~~= dv.push(cv));
                    assert(dv.push(cv) =~= dv + seq![cv]);
                    assert(result.deep_view() + tokens_acc(s@, i as nat + 1, cur@) =~= dv + (
                    seq![cv] + tokens_acc(s@, i as nat + 1, Seq::<u8>::empty())));
                }
            }
        } else {
            let ghost cv = cur@;
            cur.push(b);
            proof {
                assert(cur@ =~= cv + seq![s@[i as int]]);
            }
        }
        i = i + 1;
    }
    let ghost dv = result.deep_view();
    let ghost cv = cur@;
    if cur.len() > 0 {
        result.push(cur);
        proof {
            assert(result.deep_view() =~~= dv.push(cv));
            assert(dv.push(cv) =~= dv + seq![cv]);
        }
    } else {
        proof {
            assert(dv + tokens_acc(s@, s@.len(), cv) =~= dv);
        }
    }
    result
}

/// Split `s` at every occurrence of `sep`, keeping empty pieces.
pub fn split_bytes(s: &[u8], sep: u8) -> (r: Vec<Vec<u8>>)
    ensures
        r.deep_view() == spec_split(s@, sep),
        r.len() >= 1,
{
    let mut result: Vec<Vec<u8>> = Vec::new();
    let mut cur: Vec<u8> = Vec::new();
    let mut i: usize = 0;
    while i < s.len()
        invariant
            i <= s@.len(),
            spec_split(s@, sep) == result.deep_view() + split_acc(s@, i as nat, cur@, sep),
        decreases s.len() - i,
    {
        let b = s[i];
        if b == sep {
            let ghost dv = result.deep_view();
            let ghost cv = cur@;
            result.push(cur);
            cur = Vec::new();
            proof {
                assert(result.deep_view() =~~= dv.push(cv));
                assert(dv.push(cv) =~= dv + seq![cv]);
                assert(result.deep_view() + split_acc(s@, i as nat + 1, cur@, sep) =~= dv + (
                seq![cv] + split_acc(s@, i as nat + 1, Seq::<u8>::empty(), sep)));
            }
        } else {
            let ghost cv = cur@;
            cur.push(b);
            proof {
                assert(cur@ =~= cv + seq![s@[i as int]]);
            }
        }
        i = i + 1;
    }
    let ghost dv = result.deep_view();
    let ghost cv = cur@;
    result.push(cur);
    proof {
        assert(result.deep_view() =~~= dv.push(cv));
        assert(dv.push(cv) =~= dv + seq![cv]);
    }
    result
}

/// Drop leading and trailing ASCII whitespace.
pub fn trim(s: &[u8]) -> (r: Vec<u8>)
    ensures
        r@ == spec_trim(s@),
{
    let mut end: usize = s.len();
    proof {
        assert(s@.subrange(0, s@.len() as int) =~= s@);
    }
    while end > 0 && byte_is_space(s[end - 1])
        invariant
            end <= s@.len(),
            rtrim_len(s@) == rtrim_len(s@.subrange(0, end as int)),
        decreases end,
    {
        proof {
            assert(s@.subrange(0, end as int).drop_last() =~= s@.subrange(0, end as int - 1));
        }
        end = end - 1;
    }
    proof {
        assert(rtrim_len(s@.subrange(0, end as int)) == end) by {
            if end > 0 {
                assert(!is_space(s@.subrange(0, end as int)[end - 1]));
            }
        }
    }
    let ghost t = s@.subrange(0, rtrim_len(s@) as int);
    let mut start: usize = 0;
    while start < end && byte_is_space(s[start])
        invariant
            start <= end <= s@.len(),
            end == rtrim_len(s@),
            t == s@.subrange(0, end as int),
            skip_spaces(t, 0) == skip_spaces(t, start as nat),
        decreases end - start,
    {
        start = start + 1;
    }
    proof {
        assert(skip_spaces(t, start as nat) == start) by {
            if start < end {
                assert(!is_space(t[start as int]));
            }
        }
    }
    let mut r: Vec<u8> = Vec::new();
    let mut i: usize = start;
    while i < end
        invariant
            start <= i <= end <= s@.len(),
            r@ =~= s@.subrange(start as int, i as int),
        decreases end - i,
    {
        r.push(s[i]);
        proof {
            assert(r@ =~= s@.subrange(start as int, i as int + 1));
        }
        i = i + 1;
    }
    proof {
        assert(r@ =~= t.subrange(skip_spaces(t, 0) as int, t.len() as int));
    }
    r
}

/// Index of the first occurrence of `b` in `s`, if any.
pub fn find_byte(s: &[u8], b: u8) -> (r: Option<usize>)
    ensures
        match r {
            Some(i) => find_from(s@, 0, b) == Some(i as nat) && i < s@.len() && s@[i as int] == b,
            None => find_from(s@, 0, b) is None,
        },
{
    let mut i: usize = 0;
    while i < s.len()
        invariant
            i <= s@.len(),
            find_from(s@, 0, b) == find_from(s@, i as nat, b),
        decreases s.len() - i,
    {
        if s[i] == b {
            return Some(i);
        }
        i = i + 1;
    }
    None
}

/// Parse a non-empty run of decimal digits as an unsigned integer, failing
/// on any non-digit byte or a value above `max`.
pub fn parse_uint(s: &[u8], max: u64) -> (r: Option<u64>)
    ensures
        match r {
            Some(v) => parse_uint_spec(s@, max as nat) == Some(v as nat),
            None => parse_uint_spec(s@, max as nat) is None,
        },
{
    if s.len() == 0 {
        return None;
    }
    let mut acc: u64 = 0;
    let mut i: usize = 0;
    while i < s.len()
        invariant
            i <= s@.len(),
            s@.len() >= 1,
            max <= u64::MAX,
            acc as nat == digits_val(s@.subrange(0, i as int)),
            acc <= max,
            forall|j: int| 0 <= j < i ==> is_digit(s@[j]),
        decreases s.len() - i,
    {
        let b = s[i];
        if b < 48 || b > 57 {
            return None;
        }
        let d: u64 = (b - 48) as u64;
        if acc > max / 10 || (acc == max / 10 && d > max % 10) {
            // the value would exceed `max`: digits only grow it further
            proof {
                let pre = s@.subrange(0, i as int + 1);
                assert(pre.drop_last() =~= s@.subrange(0, i as int));
                assert(digits_val(pre) == acc * 10 + d);
                lemma_digits_val_grows(s@, i as nat + 1);
                assert(acc * 10 + d > max) by (nonlinear_arith)
                    requires
                        acc <= u64::MAX,
                        max <= u64::MAX,
                        d < 10,
                        acc > max / 10 || (acc == max / 10 && d > max % 10),
                ;
            }
            return None;
        }
        proof {
            let pre = s@.subrange(0, i as int + 1);
            assert(pre.drop_last() =~= s@.subrange(0, i as int));
            assert(acc * 10 + d <= max) by (nonlinear_arith)
                requires
                    acc <= max / 10,
                    d <= 9,
                    acc < max / 10 || d <= max % 10,
                    max <= u64::MAX,
            ;
        }
        acc = acc * 10 + d;
        i = i + 1;
    }
    proof {
        assert(s@.subrange(0, s@.len() as int) =~= s@);
    }
    Some(acc)
}

/// A longer digit prefix never has a smaller value.
proof fn lemma_digits_val_grows(s: Seq<u8>, i: nat)
    requires
        i <= s.len(),
    ensures
        digits_val(s) >= digits_val(s.subrange(0, i as int)),
    decreases s.len() - i,
{
    if i < s.len() {
        lemma_digits_val_grows(s, i + 1);
        let a = s.subrange(0, i as int);
        let b = s.subrange(0, i as int + 1);
        assert(b.drop_last() =~= a);
        assert(digits_val(b) == digits_val(a) * 10 + (b[b.len() - 1] - 48) as nat);
        assert(digits_val(a) * 10 >= digits_val(a)) by (nonlinear_arith);
    } else {
        assert(s.subrange(0, i as int) =~= s);
    }
}

/// Append the decimal digits of `n`, most significant first.
pub fn push_digits(n: u64, out: &mut Vec<u8>)
    ensures
        final(out)@ == old(out)@ + spec_digits(n as nat),
    decreases n,
{
    if n < 10 {
        out.push((48 + n) as u8);
    } else {
        push_digits(n / 10, out);
        out.push((48 + n % 10) as u8);
    }
}

/// Append exactly `width` decimal digits of `n`, zero-padded.
pub fn push_digits_padded(n: u64, width: u32, out: &mut Vec<u8>)
    ensures
        final(out)@ == old(out)@ + spec_digits_padded(n as nat, width as nat),
    decreases width,
{
    if width > 0 {
        push_digits_padded(n / 10, width - 1, out);
        out.push((48 + n % 10) as u8);
    }
}

} // verus!

verus! {

/// The bytes of an ASCII string literal, character by character.
pub open spec fn lit_bytes(s: &str) -> Seq<u8> {
    s@.map(|i: int, c: char| c as u8)
}

/// Append a byte string.
pub fn push_bytes(out: &mut Vec<u8>, s: &[u8])
    ensures
        final(out)@ == old(out)@ + s@,
{
    let mut i: usize = 0;
    while i < s.len()
        invariant
            i <= s@.len(),
            out@ =~= old(out)@ + s@.subrange(0, i as int),
        decreases s.len() - i,
    {
        out.push(s[i]);
        proof {
            assert(out@ =~= old(out)@ + s@.subrange(0, i as int + 1));
        }
        i = i + 1;
    }
    proof {
        assert(s@.subrange(0, s@.len() as int) =~= s@);
    }
}

/// Append the bytes of an ASCII string.
pub fn push_str_bytes(out: &mut Vec<u8>, s: &str)
    requires
        s.is_ascii(),
    ensures
        final(out)@ == old(out)@ + lit_bytes(s),
{
    broadcast use vstd::string::is_ascii_spec_bytes;

    let b = s.as_bytes();
    let mut i: usize = 0;
    proof {
        assert(b@ =~= lit_bytes(s));
    }
    while i < b.len()
        invariant
            i <= b@.len(),
            b@ == lit_bytes(s),
            out@ =~= old(out)@ + b@.subrange(0, i as int),
        decreases b.len() - i,
    {
        out.push(b[i]);
        proof {
            assert(out@ =~= old(out)@ + b@.subrange(0, i as int + 1));
        }
        i = i + 1;
    }
    proof {
        assert(b@.subrange(0, b@.len() as int) =~= b@);
    }
}

} // verus!

verus! {

/// Index of the first byte at or after `i` that is neither `b1` nor `b2`.
pub open spec fn skip_matching(s: Seq<u8>, i: nat, b1: u8, b2: u8) -> nat
    decreases s.len() - i,
{
    if i >= s.len() {
        s.len()
    } else if s[i as int] == b1 || s[i as int] == b2 {
        skip_matching(s, i + 1, b1, b2)
    } else {
        i
    }
}

/// Length of `s` with trailing `b1`/`b2` bytes dropped.
pub open spec fn rtrim_matching(s: Seq<u8>, b1: u8, b2: u8) -> nat
    decreases s.len(),
{
    if s.len() == 0 {
        0
    } else if s[s.len() - 1] == b1 || s[s.len() - 1] == b2 {
        rtrim_matching(s.drop_last(), b1, b2)
    } else {
        s.len()
    }
}

/// `s` with every leading and trailing occurrence of `b1` or `b2` dropped,
/// as `str::trim_matches` drops them.
pub open spec fn spec_strip_ends(s: Seq<u8>, b1: u8, b2: u8) -> Seq<u8> {
    let t = s.subrange(0, rtrim_matching(s, b1, b2) as int);
    t.subrange(skip_matching(t, 0, b1, b2) as int, t.len() as int)
}

/// Drop every leading and trailing occurrence of `b1` or `b2`.
pub fn strip_ends(s: &[u8], b1: u8, b2: u8) -> (r: Vec<u8>)
    ensures
        r@ == spec_strip_ends(s@, b1, b2),
{
    let mut end: usize = s.len();
    proof {
        assert(s@.subrange(0, s@.len() as int) =~= s@);
    }
    while end > 0 && (s[end - 1] == b1 || s[end - 1] == b2)
        invariant
            end <= s@.len(),
            rtrim_matching(s@, b1, b2) == rtrim_matching(s@.subrange(0, end as int), b1, b2),
        decreases end,
    {
        proof {
            assert(s@.subrange(0, end as int).drop_last() =~= s@.subrange(0, end as int - 1));
        }
        end = end - 1;
    }
    proof {
        assert(rtrim_matching(s@.subrange(0, end as int), b1, b2) == end) by {
            if end > 0 {
                assert(s@.subrange(0, end as int)[end - 1] == s@[end as int - 1]);
            }
        }
    }
    let ghost t = s@.subrange(0, rtrim_matching(s@, b1, b2) as int);
    let mut start: usize = 0;
    while start < end && (s[start] == b1 || s[start] == b2)
        invariant
            start <= end <= s@.len(),
            end == rtrim_matching(s@, b1, b2),
            t == s@.subrange(0, end as int),
            skip_matching(t, 0, b1, b2) == skip_matching(t, start as nat, b1, b2),
        decreases end - start,
    {
        start = start + 1;
    }
    proof {
        assert(skip_matching(t, start as nat, b1, b2) == start) by {
            if start < end {
                assert(!(t[start as int] == b1 || t[start as int] == b2));
            }
        }
    }
    let mut r: Vec<u8> = Vec::new();
    let mut i: usize = start;
    while i < end
        invariant
            start <= i <= end <= s@.len(),
            r@ =~= s@.subrange(start as int, i as int),
        decreases end - i,
    {
        r.push(s[i]);
        proof {
            assert(r@ =~= s@.subrange(start as int, i as int + 1));
        }
        i = i + 1;
    }
    proof {
        assert(r@ =~= t.subrange(skip_matching(t, 0, b1, b2) as int, t.len() as int));
    }
    r
}

/// Index of the first token at or after `i` whose first byte is `b`.
pub open spec fn find_tok_start(parts: Seq<Seq<u8>>, i: nat, b: u8) -> Option<nat>
    decreases parts.len() - i,
{
    if i >= parts.len() {
        None
    } else if parts[i as int].len() > 0 && parts[i as int][0] == b {
        Some(i)
    } else {
        find_tok_start(parts, i + 1, b)
    }
}

/// Find the first token whose first byte is `b`.
pub fn find_token_starting(parts: &Vec<Vec<u8>>, b: u8) -> (r: Option<usize>)
    ensures
        match r {
            Some(i) => find_tok_start(parts.deep_view(), 0, b) == Some(i as nat) && i
                < parts@.len(),
            None => find_tok_start(parts.deep_view(), 0, b) is None,
        },
{
    let ghost pv = parts.deep_view();
    let mut i: usize = 0;
    while i < parts.len()
        invariant
            i <= parts@.len(),
            pv == parts.deep_view(),
            pv.len() == parts@.len(),
            find_tok_start(pv, 0, b) == find_tok_start(pv, i as nat, b),
        decreases parts.len() - i,
    {
        proof {
            assert(pv[i as int] == parts@[i as int]@);
        }
        if parts[i].len() > 0 && parts[i][0] == b {
            return Some(i);
        }
        i = i + 1;
    }
    None
}

/// What parsing a signed decimal integer yields: an optional sign, then
/// digits, magnitude at most `i64::MAX` either way.
pub open spec fn parse_i64_spec(s: Seq<u8>) -> Option<i64> {
    if s.len() == 0 {
        None
    } else if s[0] == 45 {
        match parse_uint_spec(s.skip(1), 0x7fff_ffff_ffff_ffff) {
            Some(m) => Some((-(m as int)) as i64),
            None => None,
        }
    } else if s[0] == 43 {
        match parse_uint_spec(s.skip(1), 0x7fff_ffff_ffff_ffff) {
            Some(m) => Some(m as i64),
            None => None,
        }
    } else {
        match parse_uint_spec(s, 0x7fff_ffff_ffff_ffff) {
            Some(m) => Some(m as i64),
            None => None,
        }
    }
}

/// Parse a signed decimal integer.
pub fn parse_i64(s: &[u8]) -> (r: Option<i64>)
    ensures
        r == parse_i64_spec(s@),
{
    if s.len() == 0 {
        return None;
    }
    let b0 = s[0];
    if b0 == 45 || b0 == 43 {
        let rest = vstd::slice::slice_subrange(s, 1, s.len());
        proof {
            assert(rest@ =~= s@.skip(1));
        }
        match parse_uint(rest, 0x7fff_ffff_ffff_ffff) {
            Some(m) => {
                if b0 == 45 {
                    Some(-(m as i64))
                } else {
                    Some(m as i64)
                }
            },
            None => None,
        }
    } else {
        match parse_uint(s, 0x7fff_ffff_ffff_ffff) {
            Some(m) => Some(m as i64),
            None => None,
        }
    }
}

} // verus!
