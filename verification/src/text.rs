//! Text primitives over sequences of characters: substring search,
//! lexicographic order and decimal numbers.

use vstd::prelude::*;

verus! {

/// The characters of `s`, in order.
pub fn collect_chars(s: &str) -> (out: Vec<char>)
    ensures
        out@ == s@,
{
    let mut out: Vec<char> = Vec::new();
    for c in it: s.chars()
        invariant
            out@ == it.seq().take(it.index() as int),
            it.seq() == s@,
    {
        out.push(c);
    }
    out
}

/// `needle` stands in `hay` starting at position `at`.
pub open spec fn occurs_at(hay: Seq<char>, needle: Seq<char>, at: int) -> bool {
    &&& 0 <= at
    &&& at + needle.len() <= hay.len()
    &&& hay.subrange(at, at + needle.len()) == needle
}

/// `needle` is a contiguous run of `hay`.  The empty text is a substring of
/// every text.
pub open spec fn is_substring(hay: Seq<char>, needle: Seq<char>) -> bool {
    exists|at: int| occurs_at(hay, needle, at)
}

fn matches_at(hay: &Vec<char>, needle: &Vec<char>, at: usize) -> (hit: bool)
    requires
        at + needle.len() <= hay.len(),
    ensures
        hit == occurs_at(hay@, needle@, at as int),
{
    let mut k: usize = 0;
    while k < needle.len()
        invariant
            k <= needle.len(),
            at + needle.len() <= hay.len(),
            forall|j: int| 0 <= j < k ==> hay@[at + j] == needle@[j],
        decreases needle.len() - k,
    {
        if hay[at + k] != needle[k] {
            proof {
                let window = hay@.subrange(at as int, at + needle.len());
                assert(window[k as int] == hay@[at + k]);
            }
            return false;
        }
        k += 1;
    }
    assert(hay@.subrange(at as int, at + needle.len()) =~= needle@);
    true
}

/// Whether `needle` is a substring of `hay`.
pub fn contains_chars(hay: &Vec<char>, needle: &Vec<char>) -> (found: bool)
    ensures
        found == is_substring(hay@, needle@),
{
    if needle.len() > hay.len() {
        return false;
    }
    let last: usize = hay.len() - needle.len();
    let mut at: usize = 0;
    loop
        invariant
            at <= last,
            last == hay.len() - needle.len(),
            needle.len() <= hay.len(),
            forall|k: int| 0 <= k < at ==> !occurs_at(hay@, needle@, k),
        decreases last - at,
    {
        if matches_at(hay, needle, at) {
            return true;
        }
        if at == last {
            return false;
        }
        at += 1;
    }
}

/// Whether `needle` is a substring of `hay`.
pub fn contains_text(hay: &str, needle: &str) -> (found: bool)
    ensures
        found == is_substring(hay@, needle@),
{
    let h = collect_chars(hay);
    let n = collect_chars(needle);
    contains_chars(&h, &n)
}

/// Strict lexicographic order on texts, character by character by code
/// point; a proper prefix comes before the longer text.
pub open spec fn text_before(a: Seq<char>, b: Seq<char>) -> bool
    decreases a.len(),
{
    if b.len() == 0 {
        false
    } else if a.len() == 0 {
        true
    } else if a[0] != b[0] {
        a[0] < b[0]
    } else {
        text_before(a.skip(1), b.skip(1))
    }
}

/// No text comes before itself.
pub proof fn lemma_text_before_irreflexive(a: Seq<char>)
    ensures
        !text_before(a, a),
    decreases a.len(),
{
    if a.len() > 0 {
        lemma_text_before_irreflexive(a.skip(1));
    }
}

/// Of two different texts one comes before the other.
pub proof fn lemma_text_before_total(a: Seq<char>, b: Seq<char>)
    ensures
        text_before(a, b) || text_before(b, a) || a == b,
    decreases a.len(),
{
    if a.len() == 0 || b.len() == 0 {
        if a.len() == 0 && b.len() == 0 {
            assert(a =~= b);
        }
    } else if a[0] == b[0] {
        lemma_text_before_total(a.skip(1), b.skip(1));
        if a.skip(1) == b.skip(1) {
            assert(a =~= seq![a[0]] + a.skip(1));
            assert(b =~= seq![b[0]] + b.skip(1));
        } else if text_before(a.skip(1), b.skip(1)) {
            assert(text_before(a, b));
        } else {
            assert(text_before(b, a));
        }
    } else {
        assert(text_before(a, b) || text_before(b, a));
    }
}

/// The order is transitive.
pub proof fn lemma_text_before_transitive(a: Seq<char>, b: Seq<char>, c: Seq<char>)
    requires
        text_before(a, b),
        text_before(b, c),
    ensures
        text_before(a, c),
    decreases a.len(),
{
    if a.len() > 0 && a[0] == b[0] && b[0] == c[0] {
        lemma_text_before_transitive(a.skip(1), b.skip(1), c.skip(1));
    }
}

/// Whether `a` comes strictly before `b`.
pub fn chars_before(a: &Vec<char>, b: &Vec<char>) -> (before: bool)
    ensures
        before == text_before(a@, b@),
{
    let mut k: usize = 0;
    assert(a@.skip(0) =~= a@ && b@.skip(0) =~= b@);
    while k < a.len() && k < b.len()
        invariant
            k <= a.len(),
            k <= b.len(),
            text_before(a@, b@) == text_before(a@.skip(k as int), b@.skip(k as int)),
        decreases a.len() - k,
    {
        let x: char = a[k];
        let y: char = b[k];
        proof {
            let ra = a@.skip(k as int);
            let rb = b@.skip(k as int);
            assert(ra[0] == x && rb[0] == y);
            assert(ra.skip(1) =~= a@.skip(k + 1));
            assert(rb.skip(1) =~= b@.skip(k + 1));
        }
        if x != y {
            return x < y;
        }
        k += 1;
    }
    k < b.len()
}

/// A decimal digit.
pub open spec fn is_digit(c: char) -> bool {
    '0' <= c && c <= '9'
}

/// The value of a decimal digit.
pub open spec fn digit_value(c: char) -> nat {
    (c as int - 48) as nat
}

/// Every character of `s` is a decimal digit.
pub open spec fn all_digits(s: Seq<char>) -> bool {
    forall|i: int| 0 <= i < s.len() ==> is_digit(#[trigger] s[i])
}

/// The number that a run of decimal digits writes, most significant first.
pub open spec fn decimal_value(digits: Seq<char>) -> nat
    decreases digits.len(),
{
    if digits.len() == 0 {
        0
    } else {
        decimal_value(digits.drop_last()) * 10 + digit_value(digits.last())
    }
}

/// The text without one leading plus sign, if it has one.
pub open spec fn unsigned_part(s: Seq<char>) -> Seq<char> {
    if s.len() > 0 && s[0] == '+' {
        s.skip(1)
    } else {
        s
    }
}

/// The unsigned 32-bit number that `s` writes in decimal: an optional plus
/// sign, then one or more digits, with a value that fits.  Any other text
/// writes no number.
pub open spec fn decimal_u32(s: Seq<char>) -> Option<u32> {
    let digits = unsigned_part(s);
    if digits.len() > 0 && all_digits(digits) && decimal_value(digits) <= u32::MAX {
        Some(decimal_value(digits) as u32)
    } else {
        None
    }
}

proof fn lemma_decimal_value_grows(digits: Seq<char>, k: int)
    requires
        0 <= k <= digits.len(),
    ensures
        decimal_value(digits.take(k)) <= decimal_value(digits),
    decreases digits.len() - k,
{
    if k == digits.len() {
        assert(digits.take(k) =~= digits);
    } else {
        lemma_decimal_value_grows(digits, k + 1);
        assert(digits.take(k + 1).drop_last() =~= digits.take(k));
    }
}

/// Reads an unsigned 32-bit decimal number.
pub fn parse_u32(s: &str) -> (out: Option<u32>)
    ensures
        out == decimal_u32(s@),
{
    let chars = collect_chars(s);
    let start: usize = if chars.len() > 0 && chars[0] == '+' { 1 } else { 0 };
    let ghost digits = unsigned_part(s@);
    assert(digits =~= chars@.skip(start as int));
    if start == chars.len() {
        return None;
    }
    let mut value: u64 = 0;
    let mut k: usize = start;
    while k < chars.len()
        invariant
            start <= k <= chars.len(),
            digits == chars@.skip(start as int),
            digits == unsigned_part(s@),
            all_digits(digits.take(k - start)),
            value == decimal_value(digits.take(k - start)),
            value <= u32::MAX,
        decreases chars.len() - k,
    {
        let c: char = chars[k];
        assert(digits[k - start] == c);
        if c < '0' || c > '9' {
            return None;
        }
        let code: u32 = c as u32;
        proof {
            let longer = digits.take(k - start + 1);
            assert(longer.drop_last() =~= digits.take(k - start));
            assert(longer.last() == c);
            assert forall|i: int| 0 <= i < longer.len() implies is_digit(#[trigger] longer[i]) by {
                if i < longer.len() - 1 {
                    assert(longer[i] == digits.take(k - start)[i]);
                }
            }
        }
        let next: u64 = value * 10 + (code - 48) as u64;
        if next > 0xffff_ffff {
            proof {
                if all_digits(digits) {
                    lemma_decimal_value_grows(digits, k - start + 1);
                }
            }
            return None;
        }
        value = next;
        k += 1;
    }
    assert(digits.take(k - start) =~= digits);
    Some(value as u32)
}

} // verus!
