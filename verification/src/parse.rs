//! Commit reference parser: extraction of issue-tracker story identifiers
//! from commit message text.
//!
//! A story reference is the marker `sc-` (in any letter case) immediately
//! followed by one or more decimal digits, anywhere in the message; the
//! numeric value of the maximal digit run is the story identifier.

use vstd::prelude::*;
use vstd::utf8::encode_utf8;

verus! {

/// ASCII code of lower-case `s`.
pub const MARKER_BYTE_S: u8 = 115;

/// ASCII code of lower-case `c`.
pub const MARKER_BYTE_C: u8 = 99;

/// ASCII code of `-`.
pub const MARKER_BYTE_DASH: u8 = 45;

/// Lower-cases one ASCII upper-case letter; leaves every other byte as is.
pub open spec fn ascii_lower(b: u8) -> u8 {
    if 65 <= b && b <= 90 {
        (b + 32) as u8
    } else {
        b
    }
}

/// The byte is an ASCII decimal digit.
pub open spec fn is_digit_byte(b: u8) -> bool {
    48 <= b && b <= 57
}

/// Numeric value of an ASCII decimal digit byte.
pub open spec fn digit_byte_value(b: u8) -> int {
    b - 48
}

/// A story-id marker begins at byte offset `i`: `sc-` in any letter case,
/// immediately followed by a digit.
pub open spec fn is_marker_at(s: Seq<u8>, i: int) -> bool {
    &&& 0 <= i
    &&& i + 3 < s.len()
    &&& ascii_lower(s[i]) == MARKER_BYTE_S
    &&& ascii_lower(s[i + 1]) == MARKER_BYTE_C
    &&& s[i + 2] == MARKER_BYTE_DASH
    &&& is_digit_byte(s[i + 3])
}

/// Offset just past the run of digit bytes that starts at `j`.
pub open spec fn digit_run_end(s: Seq<u8>, j: int) -> int
    decreases s.len() - j,
        when 0 <= j <= s.len()
{
    if j < s.len() && is_digit_byte(s[j]) {
        digit_run_end(s, j + 1)
    } else {
        j
    }
}

/// Numeric value of the digit bytes in `[j, k)`, most significant first.
pub open spec fn digits_value(s: Seq<u8>, j: int, k: int) -> int
    decreases k - j,
{
    if j >= k {
        0
    } else {
        digits_value(s, j, k - 1) * 10 + digit_byte_value(s[k - 1])
    }
}

/// The story identifier referenced by the marker at offset `i`.
pub open spec fn marker_value(s: Seq<u8>, i: int) -> int {
    digits_value(s, i + 3, digit_run_end(s, i + 3))
}

/// Every story identifier referenced in the byte text `s`.
pub open spec fn message_ids(s: Seq<u8>) -> Set<int> {
    Set::new(|n: int| exists|i: int| is_marker_at(s, i) && n == marker_value(s, i))
}

/// Some marker in `s` carries a numeric value too large for an identifier.
pub open spec fn has_oversized_id(s: Seq<u8>) -> bool {
    exists|i: int| is_marker_at(s, i) && marker_value(s, i) > u64::MAX
}

/// Every story identifier referenced in a message text.
pub open spec fn text_story_ids(t: Seq<char>) -> Set<int> {
    message_ids(encode_utf8(t))
}

/// Some reference in the message text is too large for an identifier.
pub open spec fn text_has_oversized_id(t: Seq<char>) -> bool {
    has_oversized_id(encode_utf8(t))
}

/// The identifiers are strictly ascending (hence duplicate-free).
pub open spec fn sorted_unique(s: Seq<u64>) -> bool {
    forall|a: int, b: int| 0 <= a < b < s.len() ==> s[a] < s[b]
}

/// Extraction failure.
#[derive(Debug, Clone, Copy, PartialEq, Eq, Structural)]
pub enum ParseError {
    /// A referenced story identifier does not fit the identifier type.
    StoryIdOutOfRange,
}

proof fn lemma_digit_run_end(s: Seq<u8>, j: int)
    requires
        0 <= j <= s.len(),
    ensures
        j <= digit_run_end(s, j) <= s.len(),
        forall|m: int| j <= m < digit_run_end(s, j) ==> is_digit_byte(s[m]),
        digit_run_end(s, j) == s.len() || !is_digit_byte(s[digit_run_end(s, j)]),
    decreases s.len() - j,
{
    if j < s.len() && is_digit_byte(s[j]) {
        lemma_digit_run_end(s, j + 1);
    }
}

proof fn lemma_digit_run_end_fixed(s: Seq<u8>, j: int, k: int)
    requires
        0 <= j <= k <= s.len(),
        forall|m: int| j <= m < k ==> is_digit_byte(s[m]),
        k == s.len() || !is_digit_byte(s[k]),
    ensures
        digit_run_end(s, j) == k,
    decreases k - j,
{
    if j < k {
        lemma_digit_run_end_fixed(s, j + 1, k);
    }
}

proof fn lemma_digit_run_end_at_least(s: Seq<u8>, j: int, k: int)
    requires
        0 <= j <= k <= s.len(),
        forall|m: int| j <= m < k ==> is_digit_byte(s[m]),
    ensures
        digit_run_end(s, j) >= k,
    decreases k - j,
{
    if j < k {
        lemma_digit_run_end_at_least(s, j + 1, k);
    } else {
        lemma_digit_run_end(s, j);
    }
}

proof fn lemma_digits_value_nonneg(s: Seq<u8>, j: int, k: int)
    requires
        forall|m: int| j <= m < k ==> is_digit_byte(s[m]),
    ensures
        digits_value(s, j, k) >= 0,
    decreases k - j,
{
    if j < k {
        lemma_digits_value_nonneg(s, j, k - 1);
    }
}

proof fn lemma_digits_value_monotone(s: Seq<u8>, j: int, m: int, k: int)
    requires
        j <= m <= k,
        forall|t: int| j <= t < k ==> is_digit_byte(s[t]),
    ensures
        digits_value(s, j, m) <= digits_value(s, j, k),
    decreases k - m,
{
    if m < k {
        lemma_digits_value_monotone(s, j, m, k - 1);
        lemma_digits_value_nonneg(s, j, k - 1);
    }
}

/// Inserts `x` into a strictly ascending vector, keeping it strictly
/// ascending; a value already present is not duplicated.
pub(crate) fn insert_sorted_unique(v: &mut Vec<u64>, x: u64)
    requires
        sorted_unique(old(v)@),
    ensures
        sorted_unique(final(v)@),
        forall|n: u64| final(v)@.contains(n) <==> (old(v)@.contains(n) || n == x),
{
    let mut pos: usize = 0;
    while pos < v.len() && v[pos] < x
        invariant
            pos <= v@.len(),
            sorted_unique(v@),
            v == old(v),
            forall|t: int| 0 <= t < pos ==> v@[t] < x,
        decreases v@.len() - pos,
    {
        pos += 1;
    }
    if pos < v.len() {
        let here = v[pos];
        if here == x {
            proof {
                assert(v@[pos as int] == x);
                assert(v@.contains(x));
            }
            return ;
        }
    }
    let ghost before = v@;
    v.insert(pos, x);
    proof {
        before.insert_ensures(pos as int, x);
        assert(v@ =~= before.insert(pos as int, x));
        assert(pos < before.len() ==> before[pos as int] > x);
        assert forall|a: int, b: int| 0 <= a < b < v@.len() implies v@[a] < v@[b] by {
            if b < pos {
                assert(v@[a] == before[a] && v@[b] == before[b]);
            } else if b == pos {
                assert(v@[a] == before[a] && v@[b] == x);
            } else if a < pos {
                assert(v@[a] == before[a] && v@[b] == before[b - 1]);
                assert(before[a] < x);
                if b - 1 > pos {
                    assert(before[pos as int] < before[b - 1]);
                }
            } else if a == pos {
                assert(v@[a] == x && v@[b] == before[b - 1]);
                if b - 1 > pos {
                    assert(before[pos as int] < before[b - 1]);
                }
            } else {
                assert(v@[a] == before[a - 1] && v@[b] == before[b - 1]);
            }
        }
        assert forall|n: u64| v@.contains(n) implies (before.contains(n) || n == x) by {
            let t = choose|t: int| 0 <= t < v@.len() && v@[t] == n;
            if t < pos {
                assert(before[t] == n);
            } else if t > pos {
                assert(before[t - 1] == n);
            }
        }
        assert forall|n: u64| before.contains(n) || n == x implies v@.contains(n) by {
            if before.contains(n) {
                let t = choose|t: int| 0 <= t < before.len() && before[t] == n;
                if t < pos {
                    assert(v@[t] == n);
                } else {
                    assert(v@[t + 1] == n);
                }
            } else {
                assert(v@[pos as int] == x);
            }
        }
    }
}

/// Extracts every story identifier referenced in `message`, in strictly
/// ascending order without duplicates. Fails exactly when some reference
/// carries a numeric value too large for an identifier.
pub fn extract_story_ids(message: &str) -> (r: Result<Vec<u64>, ParseError>)
    ensures
        match r {
            Ok(ids) => {
                &&& !text_has_oversized_id(message@)
                &&& sorted_unique(ids@)
                &&& forall|n: u64| ids@.contains(n) <==> text_story_ids(message@).contains(n as int)
                &&& forall|n: int|
                    text_story_ids(message@).contains(n) ==> 0 <= n <= u64::MAX
            },
            Err(e) => {
                &&& text_has_oversized_id(message@)
                &&& e == ParseError::StoryIdOutOfRange
            },
        },
{
    let bytes: &[u8] = message.as_bytes();
    let byte_count = bytes.len();
    let ghost bs = bytes@;
    proof {
        assert(bs == encode_utf8(message@));
    }
    let mut ids: Vec<u64> = Vec::new();
    let mut i: usize = 0;
    while i < byte_count
        invariant
            byte_count == bs.len(),
            bytes@ == bs,
            bs == encode_utf8(message@),
            i <= byte_count,
            sorted_unique(ids@),
            forall|p: int|
                0 <= p < i && is_marker_at(bs, p) ==> marker_value(bs, p) <= u64::MAX
                    && ids@.contains(marker_value(bs, p) as u64),
            forall|n: u64|
                ids@.contains(n) ==> exists|p: int|
                    0 <= p < i && is_marker_at(bs, p) && marker_value(bs, p) == n as int,
        decreases byte_count - i,
    {
        let mut matched = false;
        if byte_count - i > 3 {
            let b0 = lower_byte(bytes[i]);
            let b1 = lower_byte(bytes[i + 1]);
            let b2 = bytes[i + 2];
            let b3 = bytes[i + 3];
            matched = b0 == MARKER_BYTE_S && b1 == MARKER_BYTE_C && b2 == MARKER_BYTE_DASH
                && is_digit(b3);
        }
        proof {
            assert(matched == is_marker_at(bs, i as int));
        }
        if matched {
            let run_start = i + 3;
            let mut k = run_start;
            let mut acc: u64 = 0;
            let mut oversized = false;
            loop
                invariant_except_break
                    !oversized,
                invariant
                    byte_count == bs.len(),
                    bytes@ == bs,
                    run_start <= k <= byte_count,
                    is_marker_at(bs, i as int),
                    run_start == i + 3,
                    forall|m: int| run_start <= m < k ==> is_digit_byte(bs[m]),
                    !oversized ==> acc as int == digits_value(bs, run_start as int, k as int),
                    oversized ==> marker_value(bs, i as int) > u64::MAX,
                ensures
                    byte_count == bs.len(),
                    run_start <= k <= byte_count,
                    forall|m: int| run_start <= m < k ==> is_digit_byte(bs[m]),
                    !oversized ==> acc as int == digits_value(bs, run_start as int, k as int) && (
                    k == byte_count || !is_digit_byte(bs[k as int])),
                    oversized ==> marker_value(bs, i as int) > u64::MAX,
                decreases byte_count - k,
            {
                if k >= byte_count {
                    break ;
                }
                let b = bytes[k];
                if !is_digit(b) {
                    break ;
                }
                let d = b - 48;
                if acc > (u64::MAX - d as u64) / 10 {
                    proof {
                        let start = run_start as int;
                        let full = digits_value(bs, start, k + 1);
                        assert(full == acc as int * 10 + d as int);
                        vstd::arithmetic::div_mod::lemma_fundamental_div_mod(
                            (u64::MAX - d as u64) as int,
                            10,
                        );
                        assert(acc as int * 10 + d as int > u64::MAX);
                        lemma_digit_run_end_at_least(bs, start, k + 1);
                        lemma_digit_run_end(bs, start);
                        lemma_digits_value_monotone(bs, start, k + 1, digit_run_end(bs, start));
                        assert(marker_value(bs, i as int) > u64::MAX);
                    }
                    oversized = true;
                    break ;
                }
                proof {
                    vstd::arithmetic::div_mod::lemma_fundamental_div_mod(
                        (u64::MAX - d as u64) as int,
                        10,
                    );
                    assert(acc as int * 10 + d as int <= u64::MAX);
                }
                acc = acc * 10 + d as u64;
                k += 1;
            }
            if oversized {
                proof {
                    let ghost mb = encode_utf8(message@);
                    assert(mb == bs);
                    assert(is_marker_at(mb, i as int) && marker_value(mb, i as int) > u64::MAX);
                    assert(has_oversized_id(mb));
                    assert(text_has_oversized_id(message@));
                }
                return Err(ParseError::StoryIdOutOfRange);
            }
            proof {
                lemma_digit_run_end_fixed(bs, run_start as int, k as int);
                assert(marker_value(bs, i as int) == acc as int);
            }
            insert_sorted_unique(&mut ids, acc);
        }
        i += 1;
    }
    proof {
        assert forall|n: u64| ids@.contains(n) implies message_ids(bs).contains(n as int) by {
            let p = choose|p: int|
                0 <= p < byte_count && is_marker_at(bs, p) && marker_value(bs, p) == n as int;
            assert(is_marker_at(bs, p) && n as int == marker_value(bs, p));
        }
        assert forall|n: int| message_ids(bs).contains(n) implies 0 <= n <= u64::MAX
            && ids@.contains(n as u64) by {
            let p = choose|p: int| is_marker_at(bs, p) && n == marker_value(bs, p);
            assert(0 <= p < byte_count);
            assert(marker_value(bs, p) <= u64::MAX);
            lemma_digit_run_end(bs, p + 3);
            lemma_digits_value_nonneg(bs, p + 3, digit_run_end(bs, p + 3));
            assert(ids@.contains(marker_value(bs, p) as u64));
        }
        assert(!has_oversized_id(bs)) by {
            if has_oversized_id(bs) {
                let p = choose|p: int| is_marker_at(bs, p) && marker_value(bs, p) > u64::MAX;
                assert(0 <= p < byte_count);
                assert(marker_value(bs, p) <= u64::MAX);
            }
        }
    }
    Ok(ids)
}

/// Lower-cases one ASCII byte.
fn lower_byte(b: u8) -> (r: u8)
    ensures
        r == ascii_lower(b),
{
    if 65 <= b && b <= 90 {
        b + 32
    } else {
        b
    }
}

/// The byte is an ASCII decimal digit.
fn is_digit(b: u8) -> (r: bool)
    ensures
        r == is_digit_byte(b),
{
    48 <= b && b <= 57
}

} // verus!
