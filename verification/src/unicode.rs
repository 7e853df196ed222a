//! Unicode data utilities: ordering and de-duplicating codepoint strings,
//! and hexadecimal codepoint notation.
//!
//! Strings are ordered as `str` orders them: lexicographically by the bytes
//! of their UTF-8 encoding.
use vstd::prelude::*;
use vstd::string::*;
use vstd::utf8::*;

verus! {

broadcast use vstd::utf8::group_utf8_lib;

/// Strict lexicographic order on byte sequences.
pub open spec fn lex_lt(a: Seq<u8>, b: Seq<u8>) -> bool
    decreases a.len(),
{
    if b.len() == 0 {
        false
    } else if a.len() == 0 {
        true
    } else if a[0] != b[0] {
        a[0] < b[0]
    } else {
        lex_lt(a.drop_first(), b.drop_first())
    }
}

/// The order key of a string: its UTF-8 encoding.
pub open spec fn key(s: Seq<char>) -> Seq<u8> {
    encode_utf8(s)
}

/// String `a` sorts before string `b`.
pub open spec fn str_lt(a: Seq<char>, b: Seq<char>) -> bool {
    lex_lt(key(a), key(b))
}

/// The characters of each string of `v`.
pub open spec fn views(v: Seq<String>) -> Seq<Seq<char>> {
    v.map_values(|s: String| s@)
}

/// Every string sorts strictly before every later one.
pub open spec fn strictly_sorted(v: Seq<Seq<char>>) -> bool {
    forall|i: int, j: int| 0 <= i < j < v.len() ==> str_lt(#[trigger] v[i], #[trigger] v[j])
}

pub proof fn lemma_lex_irreflexive(a: Seq<u8>)
    ensures
        !lex_lt(a, a),
    decreases a.len(),
{
    if a.len() > 0 {
        lemma_lex_irreflexive(a.drop_first());
    }
}

pub proof fn lemma_lex_asymmetric(a: Seq<u8>, b: Seq<u8>)
    requires
        lex_lt(a, b),
    ensures
        !lex_lt(b, a),
    decreases a.len(),
{
    if a.len() > 0 && b.len() > 0 && a[0] == b[0] {
        lemma_lex_asymmetric(a.drop_first(), b.drop_first());
    }
}

pub proof fn lemma_lex_transitive(a: Seq<u8>, b: Seq<u8>, c: Seq<u8>)
    requires
        lex_lt(a, b),
        lex_lt(b, c),
    ensures
        lex_lt(a, c),
    decreases a.len(),
{
    if a.len() > 0 && b.len() > 0 && c.len() > 0 && a[0] == b[0] && b[0] == c[0] {
        lemma_lex_transitive(a.drop_first(), b.drop_first(), c.drop_first());
    }
}

pub proof fn lemma_lex_total(a: Seq<u8>, b: Seq<u8>)
    requires
        a != b,
    ensures
        lex_lt(a, b) || lex_lt(b, a),
    decreases a.len(),
{
    if a.len() > 0 && b.len() > 0 && a[0] == b[0] {
        if a.drop_first() == b.drop_first() {
            assert(a =~= seq![a[0]] + a.drop_first());
            assert(b =~= seq![b[0]] + b.drop_first());
        }
        lemma_lex_total(a.drop_first(), b.drop_first());
    } else if a.len() == 0 && b.len() == 0 {
        assert(a =~= b);
    }
}

/// Strings with the same encoding are the same string.
pub proof fn lemma_key_injective(a: Seq<char>, b: Seq<char>)
    requires
        key(a) == key(b),
    ensures
        a == b,
{
    encode_utf8_decode_utf8(a);
    encode_utf8_decode_utf8(b);
}

/// A strictly sorted list of strings is determined by its elements: two
/// strictly sorted lists that hold the same strings are the same list.
pub proof fn lemma_strictly_sorted_unique(a: Seq<Seq<char>>, b: Seq<Seq<char>>)
    requires
        strictly_sorted(a),
        strictly_sorted(b),
        forall|x: Seq<char>| a.contains(x) <==> b.contains(x),
    ensures
        a == b,
    decreases a.len(),
{
    if a.len() == 0 {
        if b.len() > 0 {
            assert(b.contains(b[0]));
        }
        assert(a =~= b);
    } else {
        assert(a.contains(a[0]));
        assert(b.len() > 0);
        assert(b.contains(b[0]));
        if a[0] != b[0] {
            let j = choose|j: int| 0 <= j < a.len() && a[j] == b[0];
            let i = choose|i: int| 0 <= i < b.len() && b[i] == a[0];
            assert(j != 0 && i != 0);
            assert(str_lt(a[0], a[j]));
            assert(str_lt(b[0], b[i]));
            lemma_lex_asymmetric(key(a[0]), key(b[0]));
        }
        let ta = a.drop_first();
        let tb = b.drop_first();
        assert forall|x: Seq<char>| ta.contains(x) <==> tb.contains(x) by {
            if ta.contains(x) {
                let k = choose|k: int| 0 <= k < ta.len() && ta[k] == x;
                assert(a[k + 1] == x);
                assert(str_lt(a[0], a[k + 1]));
                lemma_lex_irreflexive(key(x));
                assert(b.contains(x));
                let m = choose|m: int| 0 <= m < b.len() && b[m] == x;
                assert(m != 0);
                assert(tb[m - 1] == x);
            }
            if tb.contains(x) {
                let k = choose|k: int| 0 <= k < tb.len() && tb[k] == x;
                assert(b[k + 1] == x);
                assert(str_lt(b[0], b[k + 1]));
                lemma_lex_irreflexive(key(x));
                assert(a.contains(x));
                let m = choose|m: int| 0 <= m < a.len() && a[m] == x;
                assert(m != 0);
                assert(ta[m - 1] == x);
            }
        }
        assert(strictly_sorted(ta));
        assert(strictly_sorted(tb));
        lemma_strictly_sorted_unique(ta, tb);
        assert(a =~= seq![a[0]] + ta);
        assert(b =~= seq![b[0]] + tb);
    }
}

/// Compares two byte slices: -1, 0 or 1 as `a` sorts before, equal to, or
/// after `b`.
pub fn compare_bytes(a: &[u8], b: &[u8]) -> (r: i8)
    ensures
        r == -1 || r == 0 || r == 1,
        r == -1 <==> lex_lt(a@, b@),
        r == 0 <==> a@ == b@,
        r == 1 <==> lex_lt(b@, a@),
{
    let n = a.len();
    let m = b.len();
    let mut i: usize = 0;
    proof {
        assert(a@.skip(0) =~= a@);
        assert(b@.skip(0) =~= b@);
    }
    while i < n && i < m
        invariant
            n == a@.len(),
            m == b@.len(),
            0 <= i <= n,
            i <= m,
            a@.take(i as int) == b@.take(i as int),
            lex_lt(a@, b@) == lex_lt(a@.skip(i as int), b@.skip(i as int)),
            lex_lt(b@, a@) == lex_lt(b@.skip(i as int), a@.skip(i as int)),
        decreases n - i,
    {
        if a[i] != b[i] {
            if a[i] < b[i] {
                proof {
                    lemma_lex_asymmetric(a@, b@);
                    assert(a@[i as int] != b@[i as int]);
                }
                return -1;
            } else {
                proof {
                    lemma_lex_asymmetric(b@, a@);
                    assert(a@[i as int] != b@[i as int]);
                }
                return 1;
            }
        }
        proof {
            assert(a@.skip(i as int).drop_first() =~= a@.skip(i + 1));
            assert(b@.skip(i as int).drop_first() =~= b@.skip(i + 1));
            assert(a@.take(i + 1) =~= a@.take(i as int).push(a@[i as int]));
            assert(b@.take(i + 1) =~= b@.take(i as int).push(b@[i as int]));
        }
        i = i + 1;
    }
    if i == n && i == m {
        proof {
            assert(a@ =~= a@.take(i as int));
            assert(b@ =~= b@.take(i as int));
            lemma_lex_irreflexive(a@);
        }
        0
    } else if i == n {
        proof {
            if a@ == b@ {
                assert(a@.len() == b@.len());
            }
        }
        -1
    } else {
        proof {
            if a@ == b@ {
                assert(a@.len() == b@.len());
            }
        }
        1
    }
}

/// Compares two strings by the bytes of their encodings.
pub fn compare_strs(a: &str, b: &str) -> (r: i8)
    ensures
        r == -1 || r == 0 || r == 1,
        r == -1 <==> str_lt(a@, b@),
        r == 0 <==> a@ == b@,
        r == 1 <==> str_lt(b@, a@),
{
    let r = compare_bytes(a.as_bytes(), b.as_bytes());
    proof {
        if key(a@) == key(b@) {
            lemma_key_injective(a@, b@);
        }
    }
    r
}

/// Sort the codepoint strings by the order of `str` and drop duplicates.
pub fn sort_and_deduplicate_codepoints(codepoints: &mut Vec<String>)
    ensures
        strictly_sorted(views(final(codepoints)@)),
        forall|x: Seq<char>|
            views(final(codepoints)@).contains(x) <==> views(old(codepoints)@).contains(x),
        strictly_sorted(views(old(codepoints)@)) ==> views(final(codepoints)@) == views(old(codepoints)@),
{
    let ghost initial = views(codepoints@);
    let mut input: Vec<String> = Vec::new();
    std::mem::swap(&mut input, codepoints);
    let mut result: Vec<String> = Vec::new();
    while input.len() > 0
        invariant
            strictly_sorted(views(result@)),
            forall|x: Seq<char>|
                (views(result@).contains(x) || views(input@).contains(x)) <==> initial.contains(x),
        decreases input@.len(),
    {
        let ghost before_input = views(input@);
        let ghost before_result = views(result@);
        let item = input.pop().unwrap();
        proof {
            assert(before_input =~= views(input@).push(item@));
        }
        let n = result.len();
        let mut k: usize = 0;
        let mut c: i8 = -1;
        while k < n
            invariant
                n == result@.len(),
                0 <= k <= n,
                before_result == views(result@),
                forall|i: int| 0 <= i < k ==> str_lt(#[trigger] views(result@)[i], item@),
            ensures
                0 <= k <= n,
                forall|i: int| 0 <= i < k ==> str_lt(#[trigger] views(result@)[i], item@),
                k < n ==> (c == -1 || c == 0 || c == 1),
                k < n ==> c != -1 && (c == 0 <==> views(result@)[k as int] == item@) && (c == 1
                    <==> str_lt(item@, views(result@)[k as int])),
            decreases n - k,
        {
            c = compare_strs(result[k].as_str(), item.as_str());
            if c != -1 {
                break;
            }
            k = k + 1;
        }
        if k < n && c == 0 {
            // Already present: drop the duplicate.
            proof {
                assert(views(result@)[k as int] == item@);
                assert forall|x: Seq<char>|
                    (views(result@).contains(x) || views(input@).contains(x)) <==> initial.contains(
                        x,
                    ) by {
                    if before_input.contains(x) && !views(input@).contains(x) {
                        let i = choose|i: int| 0 <= i < before_input.len() && before_input[i] == x;
                        if i < views(input@).len() {
                            assert(views(input@)[i] == x);
                        }
                        assert(views(result@)[k as int] == x);
                    }
                    if views(input@).contains(x) {
                        let i = choose|i: int| 0 <= i < views(input@).len() && views(input@)[i] == x;
                        assert(before_input[i] == x);
                    }
                }
            }
        } else {
            proof {
                let r = views(result@);
                if k < n {
                    assert(str_lt(item@, r[k as int]));
                }
                assert forall|j: int| k <= j < r.len() implies str_lt(item@, r[j]) by {
                    if j > k {
                        lemma_lex_transitive(key(item@), key(r[k as int]), key(r[j]));
                    }
                }
            }
            result.insert(k, item);
            proof {
                let after = views(result@);
                assert(after =~= before_result.insert(k as int, item@));
                assert(after[k as int] == item@);
                assert forall|x: Seq<char>|
                    (after.contains(x) || views(input@).contains(x)) <==> initial.contains(x) by {
                    if after.contains(x) {
                        let i = choose|i: int| 0 <= i < after.len() && after[i] == x;
                        if i < k {
                            assert(before_result[i] == x);
                        } else if i > k {
                            assert(before_result[i - 1] == x);
                        } else {
                            assert(before_input[before_input.len() - 1] == x);
                        }
                    }
                    if before_result.contains(x) {
                        let i = choose|i: int| 0 <= i < before_result.len() && before_result[i] == x;
                        if i < k {
                            assert(after[i] == x);
                        } else {
                            assert(after[i + 1] == x);
                        }
                    }
                    if before_input.contains(x) && !views(input@).contains(x) {
                        let i = choose|i: int| 0 <= i < before_input.len() && before_input[i] == x;
                        if i < views(input@).len() {
                            assert(views(input@)[i] == x);
                        }
                    }
                    if views(input@).contains(x) {
                        let i = choose|i: int| 0 <= i < views(input@).len() && views(input@)[i] == x;
                        assert(before_input[i] == x);
                    }
                }
            }
        }
    }
    proof {
        if strictly_sorted(initial) {
            lemma_strictly_sorted_unique(views(result@), initial);
        }
    }
    *codepoints = result;
}

/// Calls `String::push`, which appends the given char to the end of the
/// string.
#[verifier::external_body]
pub(crate) fn string_push(s: &mut String, c: char)
    ensures
        final(s)@ == old(s)@.push(c),
{
    s.push(c)
}

/// Upper-case hexadecimal digit for `d` (below 16).
pub open spec fn hex_digit(d: nat) -> char {
    if d < 10 {
        (48 + d) as char
    } else {
        (55 + d) as char
    }
}

/// Upper-case hexadecimal notation of `v`, without leading zeros.
pub open spec fn hex_of(v: nat) -> Seq<char>
    decreases v,
{
    if v < 16 {
        seq![hex_digit(v)]
    } else {
        hex_of(v / 16).push(hex_digit(v % 16))
    }
}

/// `s` with zeros in front up to `width` characters.
pub open spec fn zero_pad(s: Seq<char>, width: nat) -> Seq<char> {
    if s.len() >= width {
        s
    } else {
        Seq::new((width - s.len()) as nat, |i: int| '0') + s
    }
}

/// Codepoint notation: upper-case hexadecimal, at least four digits.
pub open spec fn hex4(v: nat) -> Seq<char> {
    zero_pad(hex_of(v), 4)
}

fn hex_digit_char(d: u32) -> (r: char)
    requires
        d < 16,
    ensures
        r == hex_digit(d as nat),
{
    if d < 10 {
        let b: u8 = 48 + (d as u8);
        b as char
    } else {
        let b: u8 = 55 + (d as u8);
        b as char
    }
}

/// Upper-case hexadecimal notation of `value`, zero-padded to at least
/// four digits (like `format!("{:04X}", value)`).
pub fn hex_codepoint_string(value: u32) -> (r: String)
    ensures
        r@ == hex4(value as nat),
{
    let mut v = value;
    let mut rev: Vec<char> = Vec::new();
    while v >= 16
        invariant
            hex_of(value as nat) == hex_of(v as nat) + rev@.reverse(),
        decreases v,
    {
        let ghost old_rev = rev@;
        rev.push(hex_digit_char(v % 16));
        proof {
            assert(rev@.reverse() =~= seq![hex_digit((v % 16) as nat)] + old_rev.reverse());
        }
        v = v / 16;
    }
    let ghost before = rev@;
    rev.push(hex_digit_char(v));
    proof {
        assert(rev@.reverse() =~= seq![hex_digit(v as nat)] + before.reverse());
        assert(hex_of(value as nat) =~= rev@.reverse());
    }
    let digits = rev.len();
    let mut out = String::new();
    let mut pad: usize = if digits < 4 { 4 - digits } else { 0 };
    let ghost padding = pad;
    while pad > 0
        invariant
            pad <= padding,
            out@ == Seq::new((padding - pad) as nat, |i: int| '0'),
        decreases pad,
    {
        string_push(&mut out, '0');
        proof {
            assert(out@ =~= Seq::new((padding - pad + 1) as nat, |i: int| '0'));
        }
        pad = pad - 1;
    }
    let mut k: usize = digits;
    while k > 0
        invariant
            k <= digits == rev@.len(),
            out@ == Seq::new(padding as nat, |i: int| '0') + rev@.reverse().take(digits - k),
        decreases k,
    {
        string_push(&mut out, rev[k - 1]);
        proof {
            assert(rev@.reverse().take(digits - k + 1) =~= rev@.reverse().take(digits - k).push(
                rev@[k - 1],
            ));
        }
        k = k - 1;
    }
    proof {
        assert(rev@.reverse().take(digits as int) =~= rev@.reverse());
        if digits >= 4 {
            assert(out@ =~= rev@.reverse());
        } else {
            assert(out@ =~= zero_pad(hex_of(value as nat), 4));
        }
    }
    out
}

/// Hex codepoint string of a character, e.g. `"0041"` for `'A'`.
pub fn char_to_hex_codepoint(unicode_char: char) -> (r: String)
    ensures
        r@ == hex4(unicode_char as nat),
{
    hex_codepoint_string(unicode_char as u32)
}

/// Value of a hexadecimal digit byte (`0-9`, `a-f`, `A-F`).
pub open spec fn hex_value(b: u8) -> Option<nat> {
    if 48 <= b <= 57 {
        Some((b - 48) as nat)
    } else if 97 <= b <= 102 {
        Some((b - 87) as nat)
    } else if 65 <= b <= 70 {
        Some((b - 55) as nat)
    } else {
        None
    }
}

/// Value of a string of hexadecimal digits; `None` when a byte is not a
/// digit.
pub open spec fn digits_value(d: Seq<u8>) -> Option<nat>
    decreases d.len(),
{
    if d.len() == 0 {
        Some(0)
    } else {
        match (digits_value(d.drop_last()), hex_value(d.last())) {
            (Some(a), Some(x)) => Some(a * 16 + x),
            _ => None,
        }
    }
}

/// What `u32::from_str_radix(s, 16)` gives, as an option: an optional `+`
/// then at least one hexadecimal digit, with a value that fits in `u32`.
pub open spec fn spec_parse_hex(b: Seq<u8>) -> Option<u32> {
    let d = if b.len() > 0 && b[0] == 43 {
        b.drop_first()
    } else {
        b
    };
    if d.len() == 0 {
        None
    } else {
        match digits_value(d) {
            Some(v) => if v <= u32::MAX {
                Some(v as u32)
            } else {
                None
            },
            None => None,
        }
    }
}

proof fn lemma_digits_invalid_prefix(d: Seq<u8>, k: int)
    requires
        0 <= k <= d.len(),
        digits_value(d.take(k)) is None,
    ensures
        digits_value(d) is None,
    decreases d.len() - k,
{
    if k < d.len() {
        assert(d.take(k + 1).drop_last() =~= d.take(k));
        lemma_digits_invalid_prefix(d, k + 1);
    } else {
        assert(d.take(k) =~= d);
    }
}

proof fn lemma_digits_grow(d: Seq<u8>, k: int)
    requires
        0 <= k <= d.len(),
        (digits_value(d.take(k)) matches Some(v) && v > u32::MAX),
    ensures
        digits_value(d) is None || (digits_value(d) matches Some(w) && w > u32::MAX),
    decreases d.len() - k,
{
    if k < d.len() {
        assert(d.take(k + 1).drop_last() =~= d.take(k));
        if digits_value(d.take(k + 1)) is None {
            lemma_digits_invalid_prefix(d, k + 1);
        } else {
            lemma_digits_grow(d, k + 1);
        }
    } else {
        assert(d.take(k) =~= d);
    }
}

/// Parse the bytes of `b` from `first` on as `u32::from_str_radix(.., 16)`
/// does: an optional `+`, then digits `0-9`, `a-f`, `A-F`; `None` for an
/// empty digit string, any other byte, or a value that does not fit.
pub fn parse_hex_bytes(b: &[u8], first: usize) -> (r: Option<u32>)
    requires
        first <= b@.len(),
    ensures
        r == spec_parse_hex(b@.skip(first as int)),
{
    let ghost bb = b@.skip(first as int);
    let n = b.len();
    let start: usize = if n > first && b[first] == 43 { first + 1 } else { first };
    let ghost d = if bb.len() > 0 && bb[0] == 43 { bb.drop_first() } else { bb };
    proof {
        assert(d =~= b@.skip(start as int));
    }
    if n - start == 0 {
        return None;
    }
    let mut acc: u64 = 0;
    let mut i: usize = start;
    proof {
        assert(d.take(0) =~= Seq::<u8>::empty());
    }
    while i < n
        invariant
            bb == b@.skip(first as int),
            n == b@.len(),
            start <= i <= n,
            d == b@.skip(start as int),
            d == (if bb.len() > 0 && bb[0] == 43 {
                bb.drop_first()
            } else {
                bb
            }),
            d.len() > 0,
            digits_value(d.take(i - start)) == Some(acc as nat),
            acc <= u32::MAX,
        decreases n - i,
    {
        let byte = b[i];
        proof {
            assert(d.take(i - start + 1).drop_last() =~= d.take(i - start));
            assert(d.take(i - start + 1).last() == byte);
        }
        let digit: u64 = if 48 <= byte && byte <= 57 {
            (byte - 48) as u64
        } else if 97 <= byte && byte <= 102 {
            (byte - 87) as u64
        } else if 65 <= byte && byte <= 70 {
            (byte - 55) as u64
        } else {
            proof {
                lemma_digits_invalid_prefix(d, i - start + 1);
            }
            return None;
        };
        let next = acc * 16 + digit;
        if next > 0xffff_ffff {
            proof {
                lemma_digits_grow(d, i - start + 1);
            }
            return None;
        }
        acc = next;
        i = i + 1;
    }
    proof {
        assert(d.take(n - start) =~= d);
    }
    Some(acc as u32)
}

/// Parse a hexadecimal number as `u32::from_str_radix(s, 16)` does.
pub fn parse_hex_u32(s: &str) -> (r: Option<u32>)
    ensures
        r == spec_parse_hex(s.spec_bytes()),
{
    let b = s.as_bytes();
    proof {
        assert(b@.skip(0) =~= b@);
    }
    parse_hex_bytes(b, 0)
}

/// Decimal notation of `v`, without leading zeros.
pub open spec fn dec_of(v: nat) -> Seq<char>
    decreases v,
{
    if v < 10 {
        seq![(48 + v) as char]
    } else {
        dec_of(v / 10).push((48 + v % 10) as char)
    }
}

/// Decimal notation of `value` (like `value.to_string()`).
pub fn decimal_string(value: usize) -> (r: String)
    ensures
        r@ == dec_of(value as nat),
{
    let mut v = value;
    let mut rev: Vec<char> = Vec::new();
    while v >= 10
        invariant
            dec_of(value as nat) == dec_of(v as nat) + rev@.reverse(),
        decreases v,
    {
        let ghost old_rev = rev@;
        let d: u8 = (v % 10) as u8;
        rev.push((48 + d) as char);
        proof {
            assert(rev@.reverse() =~= seq![(48 + (v % 10) as nat) as char] + old_rev.reverse());
        }
        v = v / 10;
    }
    let ghost before = rev@;
    let d: u8 = v as u8;
    rev.push((48 + d) as char);
    proof {
        assert(rev@.reverse() =~= seq![(48 + v as nat) as char] + before.reverse());
        assert(dec_of(value as nat) =~= rev@.reverse());
    }
    let digits = rev.len();
    let mut out = String::new();
    let mut k: usize = digits;
    while k > 0
        invariant
            k <= digits == rev@.len(),
            out@ == rev@.reverse().take(digits - k),
        decreases k,
    {
        string_push(&mut out, rev[k - 1]);
        proof {
            assert(rev@.reverse().take(digits - k + 1) =~= rev@.reverse().take(digits - k).push(
                rev@[k - 1],
            ));
        }
        k = k - 1;
    }
    proof {
        assert(rev@.reverse().take(digits as int) =~= rev@.reverse());
    }
    out
}

} // verus!
