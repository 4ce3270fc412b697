//! Character-level string operations: equality, lexicographic order,
//! splitting on a separator, and decimal integer parsing. Tag values are
//! colon-separated lists, so these are the base of every extractor.

use vstd::prelude::*;

verus! {

/// Index of the first occurrence of `c` in `s`, if any.
pub open spec fn find_char(s: Seq<char>, c: char) -> Option<int>
    decreases s.len(),
{
    if s.len() == 0 {
        None
    } else if s[0] == c {
        Some(0)
    } else {
        match find_char(s.skip(1), c) {
            Some(i) => Some(i + 1),
            None => None,
        }
    }
}

/// What `find_char` returns is a position of `c`, earlier positions hold
/// other characters, and `None` means `c` does not occur.
pub proof fn lemma_find_char(s: Seq<char>, c: char)
    ensures
        match find_char(s, c) {
            Some(i) => 0 <= i < s.len() && s[i] == c && forall|j: int| 0 <= j < i ==> s[j] != c,
            None => forall|j: int| 0 <= j < s.len() ==> s[j] != c,
        },
    decreases s.len(),
{
    if s.len() > 0 && s[0] != c {
        lemma_find_char(s.skip(1), c);
        assert forall|j: int| 1 <= j < s.len() implies s[j] == s.skip(1)[j - 1] by {}
    }
}

pub proof fn lemma_find_char_at(s: Seq<char>, c: char, i: int)
    requires
        0 <= i < s.len(),
        s[i] == c,
        forall|j: int| 0 <= j < i ==> s[j] != c,
    ensures
        find_char(s, c) == Some(i),
    decreases i,
{
    if i > 0 {
        assert forall|j: int| 0 <= j < i - 1 implies s.skip(1)[j] != c by {
            assert(s.skip(1)[j] == s[j + 1]);
        }
        assert(s.skip(1)[i - 1] == s[i]);
        lemma_find_char_at(s.skip(1), c, i - 1);
    }
}

pub proof fn lemma_find_char_none(s: Seq<char>, c: char)
    requires
        forall|j: int| 0 <= j < s.len() ==> s[j] != c,
    ensures
        find_char(s, c) is None,
    decreases s.len(),
{
    if s.len() > 0 {
        assert forall|j: int| 0 <= j < s.len() - 1 implies s.skip(1)[j] != c by {
            assert(s.skip(1)[j] == s[j + 1]);
        }
        lemma_find_char_none(s.skip(1), c);
    }
}

/// Position of the first occurrence of `c` in `s`, as `str::find` reports it
/// in characters.
pub fn find_char_str(s: &str, c: char) -> (r: Option<usize>)
    ensures
        match r {
            Some(i) => i < s@.len() && find_char(s@, c) == Some(i as int),
            None => find_char(s@, c) is None,
        },
{
    let len = s.unicode_len();
    let mut i: usize = 0;
    while i < len
        invariant
            len == s@.len(),
            0 <= i <= len,
            forall|j: int| 0 <= j < i ==> s@[j] != c,
        decreases len - i,
    {
        if s.get_char(i) == c {
            proof {
                lemma_find_char_at(s@, c, i as int);
            }
            return Some(i);
        }
        i = i + 1;
    }
    proof {
        lemma_find_char_none(s@, c);
    }
    None
}

/// Tokens of `s` between occurrences of `sep`. An empty string yields one
/// empty token, as `str::split` does; adjacent separators yield empty tokens.
pub open spec fn split_chars(s: Seq<char>, sep: char) -> Seq<Seq<char>>
    decreases s.len(),
{
    if s.len() == 0 {
        seq![Seq::<char>::empty()]
    } else if s[0] == sep {
        seq![Seq::<char>::empty()] + split_chars(s.skip(1), sep)
    } else {
        let rest = split_chars(s.skip(1), sep);
        seq![seq![s[0]] + rest[0]] + rest.skip(1)
    }
}

pub proof fn lemma_split_chars_len(s: Seq<char>, sep: char)
    ensures
        split_chars(s, sep).len() >= 1,
    decreases s.len(),
{
    if s.len() > 0 {
        lemma_split_chars_len(s.skip(1), sep);
    }
}

/// Splitting a string whose first `k` characters are not separators: the
/// first token starts with those `k` characters, and the rest of the split
/// is the split of the remainder.
pub proof fn lemma_split_chars_prefix(s: Seq<char>, sep: char, k: int)
    requires
        0 <= k <= s.len(),
        forall|j: int| 0 <= j < k ==> s[j] != sep,
    ensures
        split_chars(s, sep) =~= seq![s.take(k) + split_chars(s.skip(k), sep)[0]] + split_chars(
            s.skip(k),
            sep,
        ).skip(1),
    decreases k,
{
    lemma_split_chars_len(s.skip(k), sep);
    if k == 0 {
        assert(s.skip(0) =~= s);
        assert(s.take(0) + split_chars(s, sep)[0] =~= split_chars(s, sep)[0]);
        assert(seq![split_chars(s, sep)[0]] + split_chars(s, sep).skip(1) =~= split_chars(s, sep));
    } else {
        assert(s[0] != sep);
        let r = split_chars(s.skip(1), sep);
        lemma_split_chars_prefix(s.skip(1), sep, k - 1);
        assert(s.skip(1).skip(k - 1) =~= s.skip(k));
        let q = split_chars(s.skip(k), sep);
        assert(r =~= seq![s.skip(1).take(k - 1) + q[0]] + q.skip(1));
        assert(seq![s[0]] + r[0] =~= s.take(k) + q[0]);
        assert(r.skip(1) =~= q.skip(1));
        assert(split_chars(s, sep) =~= seq![seq![s[0]] + r[0]] + r.skip(1));
    }
}

/// Splitting at the first separator, found at position `k`: one complete
/// token, then the split of what follows the separator.
pub proof fn lemma_split_chars_at_sep(s: Seq<char>, sep: char, k: int)
    requires
        0 <= k < s.len(),
        s[k] == sep,
        forall|j: int| 0 <= j < k ==> s[j] != sep,
    ensures
        split_chars(s, sep) =~= seq![s.take(k)] + split_chars(s.skip(k + 1), sep),
{
    lemma_split_chars_prefix(s, sep, k);
    assert(s.skip(k)[0] == sep);
    assert(s.skip(k).skip(1) =~= s.skip(k + 1));
    let q = split_chars(s.skip(k + 1), sep);
    assert(split_chars(s.skip(k), sep) =~= seq![Seq::<char>::empty()] + q);
    assert(s.take(k) + Seq::<char>::empty() =~= s.take(k));
    assert((seq![Seq::<char>::empty()] + q).skip(1) =~= q);
}

/// Splitting a string with no separator at all: a single token, the whole
/// string.
pub proof fn lemma_split_chars_no_sep(s: Seq<char>, sep: char)
    requires
        forall|j: int| 0 <= j < s.len() ==> s[j] != sep,
    ensures
        split_chars(s, sep) =~= seq![s],
{
    lemma_split_chars_prefix(s, sep, s.len() as int);
    assert(s.skip(s.len() as int) =~= Seq::<char>::empty());
    assert(s.take(s.len() as int) + Seq::<char>::empty() =~= s);
}

/// Splits `s` on `sep`, token for token as `split_chars` describes.
pub fn split_str(s: &str, sep: char) -> (r: Vec<String>)
    ensures
        r.deep_view() == split_chars(s@, sep),
{
    let len = s.unicode_len();
    let mut r: Vec<String> = Vec::new();
    let mut start: usize = 0;
    let mut i: usize = 0;
    proof {
        assert(r.deep_view() =~= Seq::<Seq<char>>::empty());
        assert(s@.skip(0) =~= s@);
        assert(r.deep_view() + split_chars(s@, sep) =~= split_chars(s@, sep));
    }
    while i < len
        invariant
            len == s@.len(),
            0 <= start <= i <= len,
            forall|j: int| start <= j < i ==> s@[j] != sep,
            split_chars(s@, sep) == r.deep_view() + split_chars(s@.skip(start as int), sep),
        decreases len - i,
    {
        if s.get_char(i) == sep {
            let tok = String::from_str(s.substring_char(start, i));
            proof {
                let tail = s@.skip(start as int);
                assert forall|j: int| 0 <= j < i - start implies tail[j] != sep by {}
                assert(tail[i - start] == sep);
                lemma_split_chars_at_sep(tail, sep, i - start);
                assert(tail.take(i - start) =~= s@.subrange(start as int, i as int));
                assert(tail.skip(i - start + 1) =~= s@.skip(i + 1));
                assert(r.deep_view().push(tok@) =~= r.deep_view() + seq![tok@]);
                assert(r.deep_view() + (seq![tok@] + split_chars(s@.skip(i + 1), sep)) =~= (
                r.deep_view() + seq![tok@]) + split_chars(s@.skip(i + 1), sep));
            }
            let ghost old_r = r.deep_view();
            r.push(tok);
            proof {
                assert(r.deep_view() =~= old_r.push(tok@));
            }
            start = i + 1;
        }
        i = i + 1;
    }
    let tok = String::from_str(s.substring_char(start, len));
    proof {
        let tail = s@.skip(start as int);
        lemma_split_chars_no_sep(tail, sep);
        assert(tail =~= s@.subrange(start as int, len as int));
        assert(r.deep_view() + seq![tok@] =~= r.deep_view().push(tok@));
    }
    let ghost old_r = r.deep_view();
    r.push(tok);
    proof {
        assert(r.deep_view() =~= old_r.push(tok@));
    }
    r
}

/// Character-for-character equality of two strings.
pub fn str_eq(a: &str, b: &str) -> (r: bool)
    ensures
        r == (a@ == b@),
{
    let a_len = a.unicode_len();
    let b_len = b.unicode_len();
    if a_len != b_len {
        return false;
    }
    let mut i: usize = 0;
    while i < a_len
        invariant
            a_len == a@.len(),
            b_len == b@.len(),
            a_len == b_len,
            0 <= i <= a_len,
            forall|j: int| 0 <= j < i ==> a@[j] == b@[j],
        decreases a_len - i,
    {
        if a.get_char(i) != b.get_char(i) {
            return false;
        }
        i = i + 1;
    }
    proof {
        assert(a@ =~= b@);
    }
    true
}

/// Lexicographic order on character sequences, by code point; a proper
/// prefix comes first.
pub open spec fn chars_le(a: Seq<char>, b: Seq<char>) -> bool
    decreases a.len(),
{
    if a.len() == 0 {
        true
    } else if b.len() == 0 {
        false
    } else if a[0] == b[0] {
        chars_le(a.skip(1), b.skip(1))
    } else {
        (a[0] as int) < (b[0] as int)
    }
}

pub open spec fn chars_lt(a: Seq<char>, b: Seq<char>) -> bool {
    chars_le(a, b) && a != b
}

/// The order is total: of any two strings, one comes no later than the other.
pub proof fn lemma_chars_le_total(a: Seq<char>, b: Seq<char>)
    ensures
        chars_le(a, b) || chars_le(b, a),
    decreases a.len(),
{
    if a.len() == 0 || b.len() == 0 {
    } else if a[0] == b[0] {
        lemma_chars_le_total(a.skip(1), b.skip(1));
    } else {
        assert((a[0] as int) != (b[0] as int));
    }
}

/// The order is antisymmetric: strings no later than each other are equal.
pub proof fn lemma_chars_le_antisym(a: Seq<char>, b: Seq<char>)
    requires
        chars_le(a, b),
        chars_le(b, a),
    ensures
        a == b,
    decreases a.len(),
{
    if a.len() > 0 && b.len() > 0 && a[0] == b[0] {
        lemma_chars_le_antisym(a.skip(1), b.skip(1));
        assert(a =~= seq![a[0]] + a.skip(1));
        assert(b =~= seq![b[0]] + b.skip(1));
    }
}

/// The order is transitive.
pub proof fn lemma_chars_le_trans(a: Seq<char>, b: Seq<char>, c: Seq<char>)
    requires
        chars_le(a, b),
        chars_le(b, c),
    ensures
        chars_le(a, c),
    decreases a.len(),
{
    if a.len() > 0 && b.len() > 0 && c.len() > 0 && a[0] == b[0] && b[0] == c[0] {
        lemma_chars_le_trans(a.skip(1), b.skip(1), c.skip(1));
    }
}

/// Whether `a` comes no later than `b` in lexicographic order.
pub fn str_le(a: &str, b: &str) -> (r: bool)
    ensures
        r == chars_le(a@, b@),
{
    let a_len = a.unicode_len();
    let b_len = b.unicode_len();
    let mut i: usize = 0;
    proof {
        assert(a@.skip(0) =~= a@);
        assert(b@.skip(0) =~= b@);
    }
    loop
        invariant
            a_len == a@.len(),
            b_len == b@.len(),
            0 <= i <= a_len,
            i <= b_len,
            chars_le(a@, b@) == chars_le(a@.skip(i as int), b@.skip(i as int)),
        decreases a_len - i,
    {
        if i == a_len {
            return true;
        }
        if i == b_len {
            return false;
        }
        let ca = a.get_char(i);
        let cb = b.get_char(i);
        if ca != cb {
            return (ca as u32) < (cb as u32);
        }
        proof {
            assert(a@.skip(i as int).skip(1) =~= a@.skip(i + 1));
            assert(b@.skip(i as int).skip(1) =~= b@.skip(i + 1));
        }
        i = i + 1;
    }
}

/// Whether `a` comes strictly before `b` in lexicographic order.
pub fn str_lt(a: &str, b: &str) -> (r: bool)
    ensures
        r == chars_lt(a@, b@),
{
    let le = str_le(a, b);
    let eq = str_eq(a, b);
    le && !eq
}

pub open spec fn is_digit_char(c: char) -> bool {
    48 <= c as int <= 57
}

pub open spec fn digit_val(c: char) -> int {
    c as int - 48
}

pub open spec fn all_digits(s: Seq<char>) -> bool {
    forall|i: int| 0 <= i < s.len() ==> is_digit_char(s[i])
}

/// Value of a sequence of decimal digits, most significant first.
pub open spec fn digits_val(s: Seq<char>) -> int
    decreases s.len(),
{
    if s.len() == 0 {
        0
    } else {
        digits_val(s.drop_last()) * 10 + digit_val(s.last())
    }
}

pub proof fn lemma_digits_val_nonneg(s: Seq<char>)
    requires
        all_digits(s),
    ensures
        digits_val(s) >= 0,
    decreases s.len(),
{
    if s.len() > 0 {
        lemma_digits_val_nonneg(s.drop_last());
    }
}

/// More digits never shrink the value: the value of a digit string is at
/// least the value of any of its prefixes.
pub proof fn lemma_digits_val_mono(s: Seq<char>, m: int)
    requires
        all_digits(s),
        0 <= m <= s.len(),
    ensures
        digits_val(s) >= digits_val(s.take(m)),
    decreases s.len(),
{
    if m < s.len() {
        lemma_digits_val_mono(s.drop_last(), m);
        assert(s.drop_last().take(m) =~= s.take(m));
        lemma_digits_val_nonneg(s.drop_last());
    } else {
        assert(s.take(m) =~= s);
    }
}

/// What `i32::from_str` accepts: an optional sign, then one or more decimal
/// digits, with the value in range.
pub open spec fn parse_i32_spec(s: Seq<char>) -> Option<i32> {
    let neg = s.len() > 0 && s[0] == '-';
    let ds = if s.len() > 0 && (s[0] == '+' || s[0] == '-') {
        s.skip(1)
    } else {
        s
    };
    if ds.len() == 0 || !all_digits(ds) {
        None
    } else if !neg && digits_val(ds) <= 0x7fff_ffff {
        Some(digits_val(ds) as i32)
    } else if neg && digits_val(ds) <= 0x8000_0000 {
        Some((-digits_val(ds)) as i32)
    } else {
        None
    }
}

/// Parses a decimal integer, accepting exactly what `i32::from_str` accepts.
pub fn parse_i32_str(s: &str) -> (r: Option<i32>)
    ensures
        r == parse_i32_spec(s@),
{
    let len = s.unicode_len();
    let mut start: usize = 0;
    let mut neg = false;
    if len > 0 {
        let c0 = s.get_char(0);
        if c0 == '+' {
            start = 1;
        } else if c0 == '-' {
            neg = true;
            start = 1;
        }
    }
    proof {
        assert(s@.skip(0) =~= s@);
    }
    if start == len {
        return None;
    }
    let ghost ds = s@.skip(start as int);
    let mut acc: u64 = 0;
    let mut j: usize = start;
    while j < len
        invariant
            len == s@.len(),
            start <= j <= len,
            start < len,
            start == 0 || start == 1,
            (start == 1) == (s@.len() > 0 && (s@[0] == '+' || s@[0] == '-')),
            neg == (s@.len() > 0 && s@[0] == '-'),
            ds == s@.skip(start as int),
            forall|k: int| 0 <= k < j - start ==> is_digit_char(ds[k]),
            acc == digits_val(ds.take(j - start)),
            acc <= 0x8000_0000,
        decreases len - j,
    {
        let c = s.get_char(j);
        proof {
            assert(s@.skip(0) =~= s@);
            assert(ds[j - start] == s@[j as int]);
        }
        let code: u32 = c as u32;
        if code < 48 || code > 57 {
            assert(!all_digits(ds));
            return None;
        }
        let d: u64 = (code - 48) as u64;
        let acc2: u64 = acc * 10 + d;
        proof {
            assert(ds.take(j - start + 1).drop_last() =~= ds.take(j - start));
            assert(ds.take(j - start + 1).last() == ds[j - start]);
        }
        if acc2 > 0x8000_0000 {
            proof {
                assert(digits_val(ds.take(j - start + 1)) == acc2);
                if all_digits(ds) {
                    lemma_digits_val_mono(ds, j - start + 1);
                    assert(digits_val(ds) > 0x8000_0000);
                }
            }
            return None;
        }
        acc = acc2;
        j = j + 1;
    }
    proof {
        assert(ds.take(len - start) =~= ds);
    }
    if !neg {
        if acc > 0x7fff_ffff {
            return None;
        }
        Some(acc as i32)
    } else {
        Some((-(acc as i64)) as i32)
    }
}

} // verus!
