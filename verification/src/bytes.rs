//! Byte-level helpers shared by the decoder and the framer: ASCII case
//! folding, case-insensitive comparison and substring search, and decimal
//! and hexadecimal numerals.
use vstd::prelude::*;

verus! {

pub const CR: u8 = 13;

pub const LF: u8 = 10;

pub const SP: u8 = 32;

pub const HT: u8 = 9;

/// ASCII lower-casing of one byte; bytes outside `A..=Z` are unchanged.
pub open spec fn lower_byte(b: u8) -> u8 {
    if 65 <= b && b <= 90 {
        (b + 32) as u8
    } else {
        b
    }
}

/// ASCII lower-casing of a byte string.
pub open spec fn lower(s: Seq<u8>) -> Seq<u8> {
    Seq::new(s.len(), |i: int| lower_byte(s[i]))
}

/// Lower-case one ASCII byte.
pub fn to_lower(b: u8) -> (r: u8)
    ensures
        r == lower_byte(b),
{
    if 65 <= b && b <= 90 {
        b + 32
    } else {
        b
    }
}

/// Case-insensitive equality of two byte strings.
pub fn eq_ignore_case(a: &[u8], b: &[u8]) -> (r: bool)
    ensures
        r == (lower(a@) == lower(b@)),
{
    if a.len() != b.len() {
        assert(lower(a@).len() != lower(b@).len());
        return false;
    }
    let n = a.len();
    let mut i: usize = 0;
    while i < n
        invariant
            n == a@.len() == b@.len(),
            i <= n,
            forall|k: int| 0 <= k < i ==> lower_byte(a@[k]) == lower_byte(b@[k]),
        decreases n - i,
    {
        if to_lower(a[i]) != to_lower(b[i]) {
            assert(lower(a@)[i as int] != lower(b@)[i as int]);
            return false;
        }
        i = i + 1;
    }
    assert(lower(a@) =~= lower(b@));
    true
}

/// First index `j >= from` with `s[j] == x`.
pub open spec fn find_byte(s: Seq<u8>, x: u8, from: int) -> Option<int>
    decreases s.len() - from,
{
    if from < 0 || from >= s.len() {
        None
    } else if s[from] == x {
        Some(from)
    } else {
        find_byte(s, x, from + 1)
    }
}

/// A CRLF pair stands at index `i` of `s`.
pub open spec fn crlf_at(s: Seq<u8>, i: int) -> bool {
    0 <= i && i + 2 <= s.len() && s[i] == CR && s[i + 1] == LF
}

/// First index `j >= from` where a CRLF pair stands.
pub open spec fn find_crlf(s: Seq<u8>, from: int) -> Option<int>
    decreases s.len() - from,
{
    if from < 0 || from + 2 > s.len() {
        None
    } else if crlf_at(s, from) {
        Some(from)
    } else {
        find_crlf(s, from + 1)
    }
}

/// A blank line (CRLF CRLF) stands at index `i` of `s`.
pub open spec fn crlf2_at(s: Seq<u8>, i: int) -> bool {
    0 <= i && i + 4 <= s.len() && s[i] == CR && s[i + 1] == LF && s[i + 2] == CR && s[i + 3]
        == LF
}

/// First index `j >= from` where a blank line (CRLF CRLF) stands: the end of
/// a header block.
pub open spec fn find_crlf2(s: Seq<u8>, from: int) -> Option<int>
    decreases s.len() - from,
{
    if from < 0 || from + 4 > s.len() {
        None
    } else if crlf2_at(s, from) {
        Some(from)
    } else {
        find_crlf2(s, from + 1)
    }
}

pub proof fn lemma_find_byte(s: Seq<u8>, x: u8, from: int)
    requires
        0 <= from,
    ensures
        match find_byte(s, x, from) {
            Some(j) => from <= j < s.len() && s[j] == x && (forall|k: int|
                from <= k < j ==> s[k] != x),
            None => forall|k: int| from <= k < s.len() ==> s[k] != x,
        },
    decreases s.len() - from,
{
    if from < s.len() && s[from] != x {
        lemma_find_byte(s, x, from + 1);
    }
}

pub proof fn lemma_find_crlf(s: Seq<u8>, from: int)
    requires
        0 <= from,
    ensures
        match find_crlf(s, from) {
            Some(j) => from <= j && j + 2 <= s.len() && crlf_at(s, j) && (forall|k: int|
                from <= k < j ==> !crlf_at(s, k)),
            None => forall|k: int| from <= k ==> !crlf_at(s, k),
        },
    decreases s.len() - from,
{
    if from + 2 <= s.len() && !crlf_at(s, from) {
        lemma_find_crlf(s, from + 1);
    }
}

pub proof fn lemma_find_crlf2(s: Seq<u8>, from: int)
    requires
        0 <= from,
    ensures
        match find_crlf2(s, from) {
            Some(j) => from <= j && j + 4 <= s.len() && crlf2_at(s, j) && (forall|k: int|
                from <= k < j ==> !crlf2_at(s, k)),
            None => forall|k: int| from <= k ==> !crlf2_at(s, k),
        },
    decreases s.len() - from,
{
    if from + 4 <= s.len() && !crlf2_at(s, from) {
        lemma_find_crlf2(s, from + 1);
    }
}

/// Scan for one byte, as `find_byte` describes.
pub fn scan_byte(v: &[u8], x: u8, from: usize) -> (r: Option<usize>)
    requires
        from <= v@.len(),
    ensures
        match r {
            Some(j) => find_byte(v@, x, from as int) == Some(j as int) && j < v@.len(),
            None => find_byte(v@, x, from as int) is None,
        },
{
    let n = v.len();
    let mut i: usize = from;
    while i < n
        invariant
            from <= i <= n == v@.len(),
            find_byte(v@, x, from as int) == find_byte(v@, x, i as int),
        decreases n - i,
    {
        if v[i] == x {
            return Some(i);
        }
        i = i + 1;
    }
    None
}

/// Scan for a CRLF pair, as `find_crlf` describes.
pub fn scan_crlf(v: &[u8], from: usize) -> (r: Option<usize>)
    requires
        from <= v@.len(),
    ensures
        match r {
            Some(j) => find_crlf(v@, from as int) == Some(j as int) && j + 2 <= v@.len(),
            None => find_crlf(v@, from as int) is None,
        },
{
    let n = v.len();
    if n < 2 || from > n - 2 {
        return None;
    }
    let last = n - 2;
    let mut i: usize = from;
    while i <= last
        invariant
            from <= i <= last + 1,
            last == n - 2,
            2 <= n == v@.len(),
            find_crlf(v@, from as int) == find_crlf(v@, i as int),
        decreases last - i + 1,
    {
        if v[i] == CR && v[i + 1] == LF {
            return Some(i);
        }
        i = i + 1;
    }
    None
}

/// Scan for a blank line (CRLF CRLF), as `find_crlf2` describes.
pub fn scan_crlf2(v: &[u8], from: usize) -> (r: Option<usize>)
    requires
        from <= v@.len(),
    ensures
        match r {
            Some(j) => find_crlf2(v@, from as int) == Some(j as int) && j + 4 <= v@.len(),
            None => find_crlf2(v@, from as int) is None,
        },
{
    let n = v.len();
    if n < 4 || from > n - 4 {
        return None;
    }
    let last = n - 4;
    let mut i: usize = from;
    while i <= last
        invariant
            from <= i <= last + 1,
            last == n - 4,
            4 <= n == v@.len(),
            find_crlf2(v@, from as int) == find_crlf2(v@, i as int),
        decreases last - i + 1,
    {
        if v[i] == CR && v[i + 1] == LF && v[i + 2] == CR && v[i + 3] == LF {
            return Some(i);
        }
        i = i + 1;
    }
    None
}

/// `needle` stands (case-insensitively, after lower-casing both sides) at
/// index `i` of `hay`.
pub open spec fn seq_at(hay: Seq<u8>, i: int, needle: Seq<u8>) -> bool {
    0 <= i && i + needle.len() <= hay.len() && hay.subrange(i, i + needle.len()) == needle
}

/// `needle` occurs somewhere in `hay`.
pub open spec fn contains_seq(hay: Seq<u8>, needle: Seq<u8>) -> bool {
    exists|i: int| seq_at(hay, i, needle)
}

pub fn matches_at(hay: &[u8], i: usize, needle: &[u8]) -> (r: bool)
    requires
        i + needle@.len() <= hay@.len(),
    ensures
        r == seq_at(hay@, i as int, needle@),
{
    let n = needle.len();
    let hn = hay.len();
    let mut k: usize = 0;
    while k < n
        invariant
            k <= n == needle@.len(),
            i + n <= hn == hay@.len(),
            forall|t: int| 0 <= t < k ==> hay@[i + t] == needle@[t],
        decreases n - k,
    {
        if hay[i + k] != needle[k] {
            assert(hay@.subrange(i as int, i + needle@.len())[k as int] != needle@[k as int]);
            return false;
        }
        k = k + 1;
    }
    assert(hay@.subrange(i as int, i + needle@.len()) =~= needle@);
    true
}

/// Whether `needle` occurs as a contiguous run inside `hay`.
pub fn contains(hay: &[u8], needle: &[u8]) -> (r: bool)
    ensures
        r == contains_seq(hay@, needle@),
{
    let n = hay.len();
    let m = needle.len();
    if m > n {
        assert(forall|i: int| !seq_at(hay@, i, needle@));
        return false;
    }
    if m == 0 {
        assert(seq_at(hay@, 0, needle@)) by {
            assert(hay@.subrange(0, 0) =~= needle@);
        }
        return true;
    }
    let last = n - m;
    let mut i: usize = 0;
    while i <= last
        invariant
            last == n - m,
            1 <= m == needle@.len(),
            m <= n == hay@.len(),
            i <= last + 1,
            forall|k: int| 0 <= k < i ==> !seq_at(hay@, k, needle@),
        decreases last - i + 1,
    {
        if matches_at(hay, i, needle) {
            assert(seq_at(hay@, i as int, needle@));
            return true;
        }
        i = i + 1;
    }
    assert(forall|k: int| !seq_at(hay@, k, needle@));
    false
}

/// Lower-case a whole byte string.
pub fn to_lower_vec(v: &[u8]) -> (r: Vec<u8>)
    ensures
        r@ == lower(v@),
{
    let n = v.len();
    let mut out: Vec<u8> = Vec::new();
    let mut i: usize = 0;
    while i < n
        invariant
            i <= n == v@.len(),
            out@.len() == i,
            forall|k: int| 0 <= k < i ==> out@[k] == lower_byte(v@[k]),
        decreases n - i,
    {
        out.push(to_lower(v[i]));
        i = i + 1;
    }
    assert(out@ =~= lower(v@));
    out
}

/// Numeric value of an ASCII digit (decimal or hexadecimal, either case);
/// 255 for every other byte.
pub open spec fn digit_val(b: u8) -> int {
    if 48 <= b && b <= 57 {
        b - 48
    } else if 97 <= b && b <= 102 {
        b - 87
    } else if 65 <= b && b <= 70 {
        b - 55
    } else {
        255
    }
}

pub open spec fn is_digit(b: u8, radix: int) -> bool {
    digit_val(b) < radix
}

pub open spec fn all_digits(s: Seq<u8>, radix: int) -> bool {
    forall|i: int| 0 <= i < s.len() ==> is_digit(s[i], radix)
}

/// Value of a digit string read most-significant first.
pub open spec fn num_val(s: Seq<u8>, radix: int) -> int
    decreases s.len(),
{
    if s.len() == 0 {
        0
    } else {
        num_val(s.drop_last(), radix) * radix + digit_val(s.last())
    }
}

/// What a numeral denotes: its value, when the string is a non-empty run of
/// digits of the radix whose value fits a `usize`; nothing otherwise.
pub open spec fn numeral_value(s: Seq<u8>, radix: int) -> Option<int> {
    if s.len() > 0 && all_digits(s, radix) && num_val(s, radix) <= usize::MAX {
        Some(num_val(s, radix))
    } else {
        None
    }
}

pub proof fn lemma_num_val_nonneg(s: Seq<u8>, radix: int)
    requires
        radix >= 0,
    ensures
        num_val(s, radix) >= 0,
    decreases s.len(),
{
    if s.len() > 0 {
        lemma_num_val_nonneg(s.drop_last(), radix);
        assert(num_val(s.drop_last(), radix) * radix >= 0) by (nonlinear_arith)
            requires
                num_val(s.drop_last(), radix) >= 0,
                radix >= 0,
        ;
    }
}

pub proof fn lemma_num_val_take(s: Seq<u8>, radix: int, i: int)
    requires
        radix >= 2,
        0 <= i <= s.len(),
    ensures
        num_val(s, radix) >= num_val(s.take(i), radix),
    decreases s.len(),
{
    if i == s.len() {
        assert(s.take(i) =~= s);
    } else {
        assert(s.drop_last().take(i) =~= s.take(i));
        lemma_num_val_take(s.drop_last(), radix, i);
        lemma_num_val_nonneg(s.drop_last(), radix);
        assert(num_val(s.drop_last(), radix) * radix >= num_val(s.drop_last(), radix))
            by (nonlinear_arith)
            requires
                num_val(s.drop_last(), radix) >= 0,
                radix >= 2,
        ;
        assert(digit_val(s.last()) >= 0);
    }
}

/// Numeric value of one ASCII digit byte, or 255.
pub fn digit_of(b: u8) -> (d: u8)
    ensures
        d as int == digit_val(b),
{
    if 48 <= b && b <= 57 {
        b - 48
    } else if 97 <= b && b <= 102 {
        b - 87
    } else if 65 <= b && b <= 70 {
        b - 55
    } else {
        255
    }
}

/// Read a numeral in the given radix (10 or 16), as `numeral_value`
/// describes: the value when `v` is a non-empty digit run whose value fits
/// a `usize`, nothing otherwise.
pub fn parse_numeral(v: &[u8], radix: usize) -> (r: Option<usize>)
    requires
        radix == 10 || radix == 16,
    ensures
        match r {
            Some(n) => numeral_value(v@, radix as int) == Some(n as int),
            None => numeral_value(v@, radix as int) is None,
        },
{
    let n = v.len();
    if n == 0 {
        return None;
    }
    let mut acc: usize = 0;
    let mut i: usize = 0;
    while i < n
        invariant
            radix == 10 || radix == 16,
            i <= n == v@.len(),
            all_digits(v@.take(i as int), radix as int),
            acc as int == num_val(v@.take(i as int), radix as int),
        decreases n - i,
    {
        let d = digit_of(v[i]);
        if d as usize >= radix {
            assert(!is_digit(v@[i as int], radix as int));
            return None;
        }
        proof {
            assert(v@.take(i + 1).drop_last() =~= v@.take(i as int));
            assert(v@.take(i + 1).last() == v@[i as int]);
        }
        if acc > (usize::MAX - d as usize) / radix {
            proof {
                let full = num_val(v@.take(i + 1), radix as int);
                assert(full > usize::MAX) by (nonlinear_arith)
                    requires
                        full == acc as int * radix + d,
                        acc as int > (usize::MAX - d as usize) as int / radix as int,
                        radix == 10 || radix == 16,
                        0 <= d < radix,
                ;
                if all_digits(v@, radix as int) {
                    lemma_num_val_take(v@, radix as int, i + 1);
                }
            }
            return None;
        }
        proof {
            assert(acc * radix + d <= usize::MAX) by (nonlinear_arith)
                requires
                    acc as int <= (usize::MAX - d as usize) as int / radix as int,
                    radix == 10 || radix == 16,
                    0 <= d < radix,
            ;
        }
        acc = acc * radix + d as usize;
        i = i + 1;
    }
    proof {
        assert(v@.take(n as int) =~= v@);
    }
    Some(acc)
}

/// Decimal digit characters of `n`, most significant first.
pub open spec fn dec_numeral(n: int) -> Seq<u8>
    decreases n,
{
    if n < 10 {
        seq![(48 + n) as u8]
    } else {
        dec_numeral(n / 10) + seq![(48 + n % 10) as u8]
    }
}

pub open spec fn hex_digit_rep(d: int) -> u8 {
    if d < 10 {
        (48 + d) as u8
    } else {
        (55 + d) as u8
    }
}

/// Upper-case hexadecimal digit characters of `n`, most significant first.
pub open spec fn hex_numeral(n: int) -> Seq<u8>
    decreases n,
{
    if n < 16 {
        seq![hex_digit_rep(n)]
    } else {
        hex_numeral(n / 16) + seq![hex_digit_rep(n % 16)]
    }
}

/// Write `n` in decimal.
pub fn format_dec(n: usize) -> (r: Vec<u8>)
    ensures
        r@ == dec_numeral(n as int),
{
    let mut digits: Vec<u8> = Vec::new();
    let mut m = n;
    while m >= 10
        invariant
            dec_numeral(n as int) =~= dec_numeral(m as int) + digits@.reverse(),
        decreases m,
    {
        let d: u8 = (m % 10) as u8;
        proof {
            assert((digits@.push((48 + d) as u8)).reverse() =~= seq![(48 + d) as u8]
                + digits@.reverse());
            assert(dec_numeral(m as int) + digits@.reverse() =~= dec_numeral(m as int / 10) + (seq![
                (48 + d) as u8,
            ] + digits@.reverse()));
        }
        digits.push(48 + d);
        m = m / 10;
    }
    let d: u8 = m as u8;
    proof {
        assert((digits@.push((48 + d) as u8)).reverse() =~= seq![(48 + d) as u8]
            + digits@.reverse());
    }
    digits.push(48 + d);
    let ghost all = digits@;
    let k = digits.len();
    let mut out: Vec<u8> = Vec::new();
    let mut i: usize = 0;
    while i < k
        invariant
            i <= k == all.len(),
            digits@ == all,
            out@.len() == i,
            forall|t: int| 0 <= t < i ==> out@[t] == all[all.len() - 1 - t],
        decreases k - i,
    {
        out.push(digits[k - 1 - i]);
        i = i + 1;
    }
    assert(out@ =~= all.reverse());
    assert(dec_numeral(n as int) =~= dec_numeral(d as int) + all.drop_last().reverse());
    assert(all.reverse() =~= seq![(48 + d) as u8] + all.drop_last().reverse());
    out
}

/// Write `n` in upper-case hexadecimal.
pub fn format_hex(n: usize) -> (r: Vec<u8>)
    ensures
        r@ == hex_numeral(n as int),
{
    let mut digits: Vec<u8> = Vec::new();
    let mut m = n;
    while m >= 16
        invariant
            hex_numeral(n as int) =~= hex_numeral(m as int) + digits@.reverse(),
        decreases m,
    {
        let rem: u8 = (m % 16) as u8;
        let d: u8 = if rem < 10 {
            48 + rem
        } else {
            55 + rem
        };
        proof {
            assert(d == hex_digit_rep(m as int % 16));
            assert((digits@.push(d)).reverse() =~= seq![d] + digits@.reverse());
            assert(hex_numeral(m as int) + digits@.reverse() =~= hex_numeral(m as int / 16) + (seq![
                d,
            ] + digits@.reverse()));
        }
        digits.push(d);
        m = m / 16;
    }
    let rem: u8 = m as u8;
    let d: u8 = if rem < 10 {
        48 + rem
    } else {
        55 + rem
    };
    proof {
        assert(d == hex_digit_rep(m as int));
        assert((digits@.push(d)).reverse() =~= seq![d] + digits@.reverse());
    }
    digits.push(d);
    let ghost all = digits@;
    let k = digits.len();
    let mut out: Vec<u8> = Vec::new();
    let mut i: usize = 0;
    while i < k
        invariant
            i <= k == all.len(),
            digits@ == all,
            out@.len() == i,
            forall|t: int| 0 <= t < i ==> out@[t] == all[all.len() - 1 - t],
        decreases k - i,
    {
        out.push(digits[k - 1 - i]);
        i = i + 1;
    }
    assert(out@ =~= all.reverse());
    assert(hex_numeral(n as int) =~= hex_numeral(m as int) + all.drop_last().reverse());
    assert(all.reverse() =~= seq![d] + all.drop_last().reverse());
    out
}

/// Append a byte string to `out`.
pub fn append_bytes(out: &mut Vec<u8>, src: &[u8])
    ensures
        final(out)@ == old(out)@ + src@,
{
    let n = src.len();
    proof {
        assert(old(out)@ + src@.take(0) =~= old(out)@);
    }
    let mut i: usize = 0;
    while i < n
        invariant
            i <= n == src@.len(),
            out@ == old(out)@ + src@.take(i as int),
        decreases n - i,
    {
        proof {
            assert(old(out)@ + src@.take(i + 1) =~= (old(out)@ + src@.take(i as int)).push(
                src@[i as int],
            ));
        }
        out.push(src[i]);
        i = i + 1;
    }
    proof {
        assert(src@.take(n as int) =~= src@);
    }
}

/// Space or horizontal tab.
pub open spec fn is_ws(b: u8) -> bool {
    b == SP || b == HT
}

/// `s` without leading spaces and tabs.
pub open spec fn trim_start(s: Seq<u8>) -> Seq<u8>
    decreases s.len(),
{
    if s.len() > 0 && is_ws(s[0]) {
        trim_start(s.drop_first())
    } else {
        s
    }
}

/// `s` without trailing spaces and tabs.
pub open spec fn trim_end(s: Seq<u8>) -> Seq<u8>
    decreases s.len(),
{
    if s.len() > 0 && is_ws(s.last()) {
        trim_end(s.drop_last())
    } else {
        s
    }
}

/// `s` without leading or trailing spaces and tabs.
pub open spec fn trimmed(s: Seq<u8>) -> Seq<u8> {
    trim_end(trim_start(s))
}

/// Copy of `v` without leading or trailing spaces and tabs.
pub fn trim_copy(v: &[u8]) -> (r: Vec<u8>)
    ensures
        r@ == trimmed(v@),
{
    let n = v.len();
    proof {
        assert(v@.subrange(0, n as int) =~= v@);
    }
    let mut a: usize = 0;
    while a < n && (v[a] == SP || v[a] == HT)
        invariant
            a <= n == v@.len(),
            trim_start(v@) == trim_start(v@.subrange(a as int, n as int)),
        decreases n - a,
    {
        proof {
            assert(v@.subrange(a as int, n as int).drop_first() =~= v@.subrange(
                a + 1,
                n as int,
            ));
        }
        a = a + 1;
    }
    proof {
        assert(trim_start(v@) == v@.subrange(a as int, n as int));
    }
    let mut b: usize = n;
    while b > a && (v[b - 1] == SP || v[b - 1] == HT)
        invariant
            a <= b <= n == v@.len(),
            trim_start(v@) == v@.subrange(a as int, n as int),
            trim_end(v@.subrange(a as int, n as int)) == trim_end(
                v@.subrange(a as int, b as int),
            ),
        decreases b,
    {
        proof {
            assert(v@.subrange(a as int, b as int).drop_last() =~= v@.subrange(
                a as int,
                b - 1,
            ));
        }
        b = b - 1;
    }
    proof {
        assert(trim_end(v@.subrange(a as int, b as int)) == v@.subrange(a as int, b as int));
    }
    let out = vstd::slice::slice_to_vec(vstd::slice::slice_subrange(v, a, b));
    out
}

} // verus!
