//! Byte-sequence utilities shared by the parser and the encoder:
//! searching, splitting, trimming, ASCII case folding, joining, and
//! decimal rendering.

use vstd::prelude::*;

verus! {

/// For byte vectors the deep view coincides with the view.
pub broadcast proof fn lemma_bytes_deep_view(v: Vec<u8>)
    ensures
        #[trigger] v.deep_view() == v@,
{
    assert(v.deep_view() =~= v@);
}

/// Compares two byte vectors for equality.
pub fn bytes_eq(a: &Vec<u8>, b: &Vec<u8>) -> (r: bool)
    ensures
        r <==> a@ == b@,
{
    if a.len() != b.len() {
        proof {
            assert(a@ != b@);
        }
        return false;
    }
    let mut i: usize = 0;
    while i < a.len()
        invariant
            a@.len() == b@.len(),
            i <= a@.len(),
            forall|k: int| 0 <= k < i ==> a@[k] == b@[k],
        decreases a.len() - i,
    {
        if a[i] != b[i] {
            proof {
                assert(a@[i as int] != b@[i as int]);
            }
            return false;
        }
        i = i + 1;
    }
    proof {
        assert(a@ =~= b@);
    }
    true
}

/// The bytes of an ASCII string, character by character.
pub open spec fn ascii_bytes(s: Seq<char>) -> Seq<u8> {
    Seq::new(s.len(), |i: int| s[i] as u8)
}

/// Copies the bytes of an ASCII string slice into a fresh vector.
pub fn ascii_vec(s: &str) -> (r: Vec<u8>)
    requires
        s.is_ascii(),
    ensures
        r@ == ascii_bytes(s@),
{
    proof {
        vstd::string::is_ascii_spec_bytes(s);
    }
    let r = s.as_bytes_vec();
    proof {
        assert(r@ =~= ascii_bytes(s@));
    }
    r
}

/// ASCII lower-casing of a single byte.
pub open spec fn spec_lower_byte(b: u8) -> u8 {
    if 65 <= b <= 90 {
        (b + 32) as u8
    } else {
        b
    }
}

/// ASCII lower-casing of a whole byte sequence.
pub open spec fn spec_lower(s: Seq<u8>) -> Seq<u8> {
    Seq::new(s.len(), |i: int| spec_lower_byte(s[i]))
}

/// ASCII lower-casing of a byte vector.
pub fn lower(v: &Vec<u8>) -> (r: Vec<u8>)
    ensures
        r@ == spec_lower(v@),
{
    let mut r: Vec<u8> = Vec::new();
    let mut i: usize = 0;
    while i < v.len()
        invariant
            i <= v.len(),
            r@ == spec_lower(v@).take(i as int),
        decreases v.len() - i,
    {
        let b = v[i];
        if 65 <= b && b <= 90 {
            r.push(b + 32);
        } else {
            r.push(b);
        }
        proof {
            assert(r@ =~= spec_lower(v@).take(i as int + 1));
        }
        i = i + 1;
    }
    proof {
        assert(r@ =~= spec_lower(v@));
    }
    r
}

/// Index of the first occurrence of `c` in `s`, or `s.len()` when `c`
/// does not occur.
pub open spec fn spec_find(s: Seq<u8>, c: u8) -> int
    decreases s.len(),
{
    if s.len() == 0 {
        0
    } else if s[0] == c {
        0
    } else {
        1 + spec_find(s.drop_first(), c)
    }
}

/// `spec_find` returns an in-range index, points at `c` when `c`
/// occurs, and nothing before it is `c`.
pub proof fn lemma_find_spec(s: Seq<u8>, c: u8)
    ensures
        0 <= spec_find(s, c) <= s.len(),
        spec_find(s, c) < s.len() ==> s[spec_find(s, c)] == c,
        forall|k: int| 0 <= k < spec_find(s, c) ==> s[k] != c,
    decreases s.len(),
{
    if s.len() == 0 {
    } else if s[0] == c {
    } else {
        lemma_find_spec(s.drop_first(), c);
        assert forall|k: int| 0 <= k < spec_find(s, c) implies s[k] != c by {
            if k > 0 {
                assert(s.drop_first()[k - 1] == s[k]);
            }
        }
    }
}

/// Any index with the first-occurrence properties equals `spec_find`.
pub proof fn lemma_find_unique(s: Seq<u8>, c: u8, f: int)
    requires
        0 <= f <= s.len(),
        f < s.len() ==> s[f] == c,
        forall|k: int| 0 <= k < f ==> s[k] != c,
    ensures
        spec_find(s, c) == f,
{
    lemma_find_spec(s, c);
}

/// Index of the first occurrence of `c` in `v` at or after `start`,
/// or `v.len()` when there is none.
pub fn find_from(v: &Vec<u8>, c: u8, start: usize) -> (r: usize)
    requires
        start <= v.len(),
    ensures
        start <= r <= v.len(),
        r < v.len() ==> v@[r as int] == c,
        forall|k: int| start <= k < r ==> v@[k] != c,
        r - start == spec_find(v@.skip(start as int), c),
{
    let mut i: usize = start;
    while i < v.len()
        invariant
            start <= i <= v.len(),
            forall|k: int| start <= k < i ==> v@[k] != c,
        decreases v.len() - i,
    {
        if v[i] == c {
            proof {
                lemma_find_agrees(v@, c, start as int, i as int);
            }
            return i;
        }
        i = i + 1;
    }
    proof {
        lemma_find_agrees(v@, c, start as int, i as int);
    }
    i
}

/// Transports the first-occurrence properties on `s` down to the
/// suffix `s.skip(start)`.
proof fn lemma_find_agrees(s: Seq<u8>, c: u8, start: int, f: int)
    requires
        0 <= start <= f <= s.len(),
        f < s.len() ==> s[f] == c,
        forall|k: int| start <= k < f ==> s[k] != c,
    ensures
        spec_find(s.skip(start), c) == f - start,
{
    let t = s.skip(start);
    assert forall|k: int| 0 <= k < f - start implies t[k] != c by {
        assert(t[k] == s[start + k]);
    }
    lemma_find_unique(t, c, f - start);
}

/// The segments of `s` between occurrences of the separator `c`,
/// empty segments preserved; always at least one segment.
pub open spec fn spec_split(s: Seq<u8>, c: u8) -> Seq<Seq<u8>>
    decreases s.len(),
{
    let f = spec_find(s, c);
    if f == s.len() {
        seq![s]
    } else {
        proof {
            lemma_find_spec(s, c);
        }
        seq![s.take(f)] + spec_split(s.skip(f + 1), c)
    }
}

/// Splits `v` on the separator `c`, preserving empty segments.
pub fn split(v: &Vec<u8>, c: u8) -> (r: Vec<Vec<u8>>)
    ensures
        r.deep_view() == spec_split(v@, c),
{
    let mut r: Vec<Vec<u8>> = Vec::new();
    let mut start: usize = 0;
    proof {
        assert(v@.skip(0) =~= v@);
        assert(r.deep_view() + spec_split(v@, c) =~= spec_split(v@, c));
    }
    loop
        invariant_except_break
            start <= v.len(),
            spec_split(v@, c) == r.deep_view() + spec_split(v@.skip(start as int), c),
        ensures
            r.deep_view() == spec_split(v@, c),
        decreases v.len() - start,
    {
        let ghost prev = r.deep_view();
        let ghost rest = v@.skip(start as int);
        let j = find_from(v, c, start);
        let seg = subvec(v, start, j);
        r.push(seg);
        proof {
            assert(r.deep_view() =~~= prev.push(seg@));
            assert(rest.take(j - start) =~= v@.subrange(start as int, j as int));
        }
        if j == v.len() {
            proof {
                assert(spec_find(rest, c) == rest.len());
                assert(rest =~= v@.subrange(start as int, j as int));
                assert(spec_split(rest, c) == seq![rest]);
                assert(r.deep_view() =~= spec_split(v@, c));
            }
            break;
        }
        proof {
            assert(spec_split(rest, c) == seq![rest.take(j - start)] + spec_split(
                rest.skip(j - start + 1),
                c,
            ));
            assert(rest.skip(j - start + 1) =~= v@.skip(j + 1));
            assert(prev + spec_split(rest, c) =~= r.deep_view() + spec_split(v@.skip(j + 1), c));
        }
        start = j + 1;
    }
    r
}

/// Length of the first line of `s`, its terminating line feed
/// included; the whole of `s` when no line feed occurs.
pub open spec fn spec_line_len(s: Seq<u8>) -> int {
    if spec_find(s, 10) == s.len() {
        s.len() as int
    } else {
        spec_find(s, 10) + 1
    }
}

/// The first line is never empty unless `s` is, and never longer
/// than `s`.
pub proof fn lemma_line_len(s: Seq<u8>)
    ensures
        0 <= spec_line_len(s) <= s.len(),
        s.len() > 0 ==> spec_line_len(s) >= 1,
{
    lemma_find_spec(s, 10);
}

/// `l` without a trailing line feed and, when one was removed, a
/// carriage return before it.
pub open spec fn spec_strip_line_end(l: Seq<u8>) -> Seq<u8> {
    if l.len() > 0 && l.last() == 10 {
        let l2 = l.drop_last();
        if l2.len() > 0 && l2.last() == 13 {
            l2.drop_last()
        } else {
            l2
        }
    } else {
        l
    }
}

/// Removes a trailing line feed and, when one was removed, a
/// carriage return before it.
pub fn strip_line_end(v: &Vec<u8>) -> (r: Vec<u8>)
    ensures
        r@ == spec_strip_line_end(v@),
{
    let mut end: usize = v.len();
    if end > 0 && v[end - 1] == 10 {
        end = end - 1;
        if end > 0 && v[end - 1] == 13 {
            end = end - 1;
        }
    }
    let r = subvec(v, 0, end);
    proof {
        if v@.len() > 0 && v@.last() == 10 {
            assert(v@.drop_last() =~= v@.subrange(0, v@.len() - 1));
            if v@.len() > 1 && v@[v@.len() - 2] == 13 {
                assert(v@.drop_last().drop_last() =~= v@.subrange(0, v@.len() - 2));
            }
        } else {
            assert(v@.subrange(0, v@.len() as int) =~= v@);
        }
    }
    r
}

/// An HTTP-relevant whitespace byte: space, tab, carriage return,
/// line feed, vertical tab, or form feed.
pub open spec fn spec_is_ws(b: u8) -> bool {
    b == 32 || (9 <= b <= 13)
}

/// `s` without its leading whitespace.
pub open spec fn spec_trim_front(s: Seq<u8>) -> Seq<u8>
    decreases s.len(),
{
    if s.len() > 0 && spec_is_ws(s[0]) {
        spec_trim_front(s.drop_first())
    } else {
        s
    }
}

/// `s` without its trailing whitespace.
pub open spec fn spec_trim_back(s: Seq<u8>) -> Seq<u8>
    decreases s.len(),
{
    if s.len() > 0 && spec_is_ws(s.last()) {
        spec_trim_back(s.drop_last())
    } else {
        s
    }
}

/// `s` without leading and trailing whitespace.
pub open spec fn spec_trim(s: Seq<u8>) -> Seq<u8> {
    spec_trim_back(spec_trim_front(s))
}

/// When the first `k` bytes are whitespace and byte `k` is not,
/// front-trimming drops exactly those `k` bytes.
proof fn lemma_trim_front_skip(s: Seq<u8>, k: int)
    requires
        0 <= k <= s.len(),
        forall|i: int| 0 <= i < k ==> spec_is_ws(s[i]),
        k < s.len() ==> !spec_is_ws(s[k]),
    ensures
        spec_trim_front(s) =~= s.skip(k),
    decreases k,
{
    if k == 0 {
        if s.len() > 0 && spec_is_ws(s[0]) {
            assert(false);
        }
        assert(spec_trim_front(s) =~= s.skip(0));
    } else {
        assert(spec_is_ws(s[0]));
        let t = s.drop_first();
        assert forall|i: int| 0 <= i < k - 1 implies spec_is_ws(t[i]) by {
            assert(t[i] == s[i + 1]);
        }
        lemma_trim_front_skip(t, k - 1);
        assert(t.skip(k - 1) =~= s.skip(k));
    }
}

/// When the bytes from `k` on are whitespace and byte `k - 1` is not,
/// back-trimming keeps exactly the first `k` bytes.
proof fn lemma_trim_back_take(s: Seq<u8>, k: int)
    requires
        0 <= k <= s.len(),
        forall|i: int| k <= i < s.len() ==> spec_is_ws(s[i]),
        k > 0 ==> !spec_is_ws(s[k - 1]),
    ensures
        spec_trim_back(s) =~= s.take(k),
    decreases s.len(),
{
    if k == s.len() {
        if s.len() > 0 && spec_is_ws(s.last()) {
            assert(false);
        }
        assert(spec_trim_back(s) =~= s.take(k));
    } else {
        assert(spec_is_ws(s.last()));
        let t = s.drop_last();
        lemma_trim_back_take(t, k);
        assert(t.take(k) =~= s.take(k));
    }
}

/// `v` without leading and trailing whitespace bytes.
pub fn trim(v: &Vec<u8>) -> (r: Vec<u8>)
    ensures
        r@ == spec_trim(v@),
{
    let mut a: usize = 0;
    while a < v.len() && is_ws(v[a])
        invariant
            a <= v.len(),
            forall|i: int| 0 <= i < a ==> spec_is_ws(v@[i]),
        decreases v.len() - a,
    {
        a = a + 1;
    }
    let mut b: usize = v.len();
    while b > a && is_ws(v[b - 1])
        invariant
            a <= b <= v.len(),
            forall|i: int| b <= i < v.len() ==> spec_is_ws(v@[i]),
            forall|i: int| 0 <= i < a ==> spec_is_ws(v@[i]),
            a < v.len() ==> !spec_is_ws(v@[a as int]),
        decreases b,
    {
        b = b - 1;
    }
    let r = subvec(v, a, b);
    proof {
        lemma_trim_front_skip(v@, a as int);
        let t = v@.skip(a as int);
        assert forall|i: int| b - a <= i < t.len() implies spec_is_ws(t[i]) by {
            assert(t[i] == v@[a + i]);
        }
        if b > a {
            assert(t[b - a - 1] == v@[b - 1]);
        }
        lemma_trim_back_take(t, b - a);
        assert(t.take(b - a) =~= v@.subrange(a as int, b as int));
    }
    r
}

/// Whether `b` is an HTTP-relevant whitespace byte.
pub fn is_ws(b: u8) -> (r: bool)
    ensures
        r == spec_is_ws(b),
{
    b == 32 || (9 <= b && b <= 13)
}

/// The segments of `ss` joined with the separator byte `c` between
/// consecutive segments.
pub open spec fn spec_join(ss: Seq<Seq<u8>>, c: u8) -> Seq<u8>
    decreases ss.len(),
{
    if ss.len() == 0 {
        Seq::empty()
    } else if ss.len() == 1 {
        ss[0]
    } else {
        spec_join(ss.drop_last(), c) + seq![c] + ss.last()
    }
}

/// Joins the byte vectors in `ss` with the separator byte `c`.
pub fn join(ss: &Vec<Vec<u8>>, c: u8) -> (r: Vec<u8>)
    ensures
        r@ == spec_join(ss.deep_view(), c),
{
    let mut r: Vec<u8> = Vec::new();
    let mut i: usize = 0;
    while i < ss.len()
        invariant
            i <= ss.len(),
            r@ == spec_join(ss.deep_view().take(i as int), c),
        decreases ss.len() - i,
    {
        let ghost dv = ss.deep_view();
        if i > 0 {
            r.push(c);
        }
        push_all(&mut r, &ss[i]);
        proof {
            assert(dv.take(i as int + 1).drop_last() =~= dv.take(i as int));
            assert(dv.take(i as int + 1).last() == dv[i as int]);
            if i == 0 {
                assert(r@ =~= spec_join(dv.take(1), c));
            }
        }
        i = i + 1;
    }
    proof {
        assert(ss.deep_view().take(ss.len() as int) =~= ss.deep_view());
    }
    r
}

/// The decimal digits of `n`, most significant first.
pub open spec fn spec_dec(n: nat) -> Seq<u8>
    decreases n,
{
    if n < 10 {
        seq![(48 + n) as u8]
    } else {
        spec_dec(n / 10) + seq![(48 + n % 10) as u8]
    }
}

/// Renders `n` in decimal ASCII digits.
pub fn dec_u64(n: u64) -> (r: Vec<u8>)
    ensures
        r@ == spec_dec(n as nat),
    decreases n,
{
    if n < 10 {
        let mut r: Vec<u8> = Vec::new();
        r.push(48 + n as u8);
        proof {
            assert(r@ =~= spec_dec(n as nat));
        }
        r
    } else {
        let mut r = dec_u64(n / 10);
        r.push(48 + (n % 10) as u8);
        proof {
            assert(r@ =~= spec_dec(n as nat));
        }
        r
    }
}

/// An ASCII decimal digit.
pub open spec fn spec_is_digit(b: u8) -> bool {
    48 <= b <= 57
}

/// The number denoted by a sequence of decimal digits, most
/// significant first.
pub open spec fn spec_digits_value(s: Seq<u8>) -> int
    decreases s.len(),
{
    if s.len() == 0 {
        0
    } else {
        spec_digits_value(s.drop_last()) * 10 + (s.last() - 48)
    }
}

/// Every byte of `s` is a decimal digit.
pub open spec fn spec_all_digits(s: Seq<u8>) -> bool {
    forall|i: int| 0 <= i < s.len() ==> spec_is_digit(#[trigger] s[i])
}

/// A digit string's value is not negative.
proof fn lemma_digits_nonneg(s: Seq<u8>)
    requires
        spec_all_digits(s),
    ensures
        spec_digits_value(s) >= 0,
    decreases s.len(),
{
    if s.len() > 0 {
        lemma_digits_nonneg(s.drop_last());
    }
}

/// A digit string's value only grows as digits are appended.
proof fn lemma_digits_prefix_le(s: Seq<u8>, k: int)
    requires
        0 <= k <= s.len(),
        spec_all_digits(s),
    ensures
        spec_digits_value(s.take(k)) <= spec_digits_value(s),
    decreases s.len() - k,
{
    if k == s.len() {
        assert(s.take(k) =~= s);
    } else {
        lemma_digits_prefix_le(s, k + 1);
        assert(s.take(k + 1).drop_last() =~= s.take(k));
        assert(spec_all_digits(s.take(k)));
        lemma_digits_nonneg(s.take(k));
        assert(spec_digits_value(s.take(k + 1)) == spec_digits_value(s.take(k)) * 10 + (s.take(
            k + 1,
        ).last() - 48));
    }
}

/// The digit part of a decimal number: `s` without an optional
/// leading plus sign.
pub open spec fn spec_parse_digits(s: Seq<u8>) -> Seq<u8> {
    if s.len() > 0 && s[0] == 43 {
        s.drop_first()
    } else {
        s
    }
}

/// The reading of `s` as an unsigned 32-bit decimal number, with an
/// optional leading plus sign: `None` on an empty digit string, a
/// non-digit byte, or overflow.
pub open spec fn spec_parse_u32(s: Seq<u8>) -> Option<u32> {
    let digits = spec_parse_digits(s);
    if digits.len() >= 1 && spec_all_digits(digits) && spec_digits_value(digits) <= u32::MAX {
        Some(spec_digits_value(digits) as u32)
    } else {
        None
    }
}

/// Parses `v` as an unsigned 32-bit decimal number, with an optional
/// leading plus sign.
pub fn parse_u32(v: &Vec<u8>) -> (r: Option<u32>)
    ensures
        r == spec_parse_u32(v@),
{
    let start: usize = if v.len() > 0 && v[0] == 43 {
        1
    } else {
        0
    };
    let ghost digits = spec_parse_digits(v@);
    proof {
        assert(digits =~= v@.skip(start as int));
    }
    if v.len() == start {
        return None;
    }
    let mut acc: u32 = 0;
    let mut i: usize = start;
    while i < v.len()
        invariant
            start <= i <= v.len(),
            start <= 1,
            digits == spec_parse_digits(v@),
            digits == v@.skip(start as int),
            forall|k: int| 0 <= k < i - start ==> spec_is_digit(#[trigger] digits[k]),
            acc == spec_digits_value(digits.take(i - start)),
        decreases v.len() - i,
    {
        let b = v[i];
        proof {
            assert(digits[i - start] == v@[i as int]);
        }
        if !(48 <= b && b <= 57) {
            proof {
                assert(!spec_is_digit(digits[i - start]));
            }
            return None;
        }
        let d: u32 = (b - 48) as u32;
        if acc > (u32::MAX - d) / 10 {
            proof {
                assert(digits.take(i - start + 1).drop_last() =~= digits.take(i - start));
                assert(digits.take(i - start + 1).last() == digits[i - start]);
                assert(spec_digits_value(digits.take(i - start + 1)) > u32::MAX);
                if spec_all_digits(digits) {
                    lemma_digits_prefix_le(digits, i - start + 1);
                }
            }
            return None;
        }
        proof {
            assert(digits.take(i - start + 1).drop_last() =~= digits.take(i - start));
            assert(digits.take(i - start + 1).last() == digits[i - start]);
        }
        acc = acc * 10 + d;
        i = i + 1;
    }
    proof {
        assert(digits.take(v@.len() - start) =~= digits);
    }
    Some(acc)
}

/// Appends all bytes of `src` to `dst`.
pub fn push_all(dst: &mut Vec<u8>, src: &Vec<u8>)
    ensures
        final(dst)@ == old(dst)@ + src@,
{
    let mut i: usize = 0;
    while i < src.len()
        invariant
            i <= src.len(),
            dst@ == old(dst)@ + src@.take(i as int),
        decreases src.len() - i,
    {
        dst.push(src[i]);
        proof {
            assert(old(dst)@ + src@.take(i as int + 1) =~= (old(dst)@ + src@.take(i as int)).push(
                src@[i as int],
            ));
        }
        i = i + 1;
    }
    proof {
        assert(src@.take(src@.len() as int) =~= src@);
    }
}

/// A fresh copy of `v[a..b]`.
pub fn subvec(v: &Vec<u8>, a: usize, b: usize) -> (r: Vec<u8>)
    requires
        a <= b <= v.len(),
    ensures
        r@ == v@.subrange(a as int, b as int),
{
    vstd::slice::slice_to_vec(vstd::slice::slice_subrange(v.as_slice(), a, b))
}

} // verus!
