//! Small verified text utilities shared by the other modules: character
//! equality of string slices, appending single characters, and decimal
//! rendering of integers.

use vstd::prelude::*;
use vstd::string::StrSliceExecFns;
use vstd::string::StringExecFns;

verus! {

/// Relies on String::push: appends the given character to the end of the
/// string.
pub assume_specification[ String::push ](s: &mut String, c: char)
    ensures
        final(s)@ == old(s)@.push(c),
;

/// Character-for-character equality of two string slices.
pub fn str_eq(a: &str, b: &str) -> (r: bool)
    ensures
        r == (a@ == b@),
{
    let n = a.unicode_len();
    let m = b.unicode_len();
    if n != m {
        return false;
    }
    let mut idx: usize = 0;
    while idx < n
        invariant
            n == a@.len(),
            n == b@.len(),
            idx <= n,
            forall|i: int| 0 <= i < idx ==> a@[i] == b@[i],
        decreases n - idx,
    {
        if a.get_char(idx) != b.get_char(idx) {
            return false;
        }
        idx += 1;
    }
    proof {
        assert(a@ =~= b@);
    }
    true
}

/// Three-way lexicographic comparison of character sequences by code
/// point: negative when `a` comes first, positive when `b` does, zero when
/// they are equal. A proper prefix comes before what extends it.
pub open spec fn cmp_chars(a: Seq<char>, b: Seq<char>) -> int
    decreases a.len(),
{
    if a.len() == 0 && b.len() == 0 {
        0
    } else if a.len() == 0 {
        -1
    } else if b.len() == 0 {
        1
    } else if (a[0] as int) < (b[0] as int) {
        -1
    } else if (a[0] as int) > (b[0] as int) {
        1
    } else {
        cmp_chars(a.drop_first(), b.drop_first())
    }
}

/// A sequence compares equal to itself.
pub proof fn lemma_cmp_chars_refl(a: Seq<char>)
    ensures
        cmp_chars(a, a) == 0,
    decreases a.len(),
{
    if a.len() != 0 {
        lemma_cmp_chars_refl(a.drop_first());
    }
}

/// Flipping the operands flips the sign.
pub proof fn lemma_cmp_chars_antisym(a: Seq<char>, b: Seq<char>)
    ensures
        cmp_chars(b, a) == -cmp_chars(a, b),
    decreases a.len(),
{
    if a.len() != 0 && b.len() != 0 && a[0] == b[0] {
        lemma_cmp_chars_antisym(a.drop_first(), b.drop_first());
    }
}

/// The comparison is transitive, strictly so as soon as one step is strict.
pub proof fn lemma_cmp_chars_trans(a: Seq<char>, b: Seq<char>, c: Seq<char>)
    requires
        cmp_chars(a, b) <= 0,
        cmp_chars(b, c) <= 0,
    ensures
        cmp_chars(a, c) <= 0,
        cmp_chars(a, b) < 0 || cmp_chars(b, c) < 0 ==> cmp_chars(a, c) < 0,
    decreases a.len() + b.len() + c.len(),
{
    if a.len() == 0 {
        if cmp_chars(a, b) < 0 || cmp_chars(b, c) < 0 {
            assert(b.len() != 0 || c.len() != 0);
            assert(c.len() != 0);
        }
    } else {
        assert(b.len() != 0);
        assert(c.len() != 0);
        if a[0] == b[0] && b[0] == c[0] {
            lemma_cmp_chars_trans(a.drop_first(), b.drop_first(), c.drop_first());
        }
    }
}

/// Three-way lexicographic comparison of two string slices.
pub fn str_cmp(a: &str, b: &str) -> (c: i32)
    ensures
        c as int == cmp_chars(a@, b@),
        -1 <= c <= 1,
{
    let n = a.unicode_len();
    let m = b.unicode_len();
    let mut idx: usize = 0;
    proof {
        assert(a@.skip(0) =~= a@);
        assert(b@.skip(0) =~= b@);
    }
    while idx < n && idx < m
        invariant
            n == a@.len(),
            m == b@.len(),
            idx <= n,
            idx <= m,
            cmp_chars(a@, b@) == cmp_chars(a@.skip(idx as int), b@.skip(idx as int)),
        decreases n - idx,
    {
        let ca = a.get_char(idx);
        let cb = b.get_char(idx);
        if (ca as u32) < (cb as u32) {
            proof {
                assert(a@.skip(idx as int)[0] == ca);
                assert(b@.skip(idx as int)[0] == cb);
            }
            return -1;
        }
        if (ca as u32) > (cb as u32) {
            proof {
                assert(a@.skip(idx as int)[0] == ca);
                assert(b@.skip(idx as int)[0] == cb);
            }
            return 1;
        }
        proof {
            assert(a@.skip(idx as int)[0] == ca);
            assert(b@.skip(idx as int)[0] == cb);
            assert(a@.skip(idx as int).drop_first() =~= a@.skip(idx + 1));
            assert(b@.skip(idx as int).drop_first() =~= b@.skip(idx + 1));
        }
        idx += 1;
    }
    proof {
        assert(a@.skip(idx as int).len() == n - idx);
        assert(b@.skip(idx as int).len() == m - idx);
    }
    if n == m {
        0
    } else if n < m {
        -1
    } else {
        1
    }
}

/// The decimal digit character for a value below ten.
pub open spec fn dec_digit(n: int) -> char
    recommends
        0 <= n < 10,
{
    if n == 0 {
        '0'
    } else if n == 1 {
        '1'
    } else if n == 2 {
        '2'
    } else if n == 3 {
        '3'
    } else if n == 4 {
        '4'
    } else if n == 5 {
        '5'
    } else if n == 6 {
        '6'
    } else if n == 7 {
        '7'
    } else if n == 8 {
        '8'
    } else {
        '9'
    }
}

/// The usual decimal rendering of a natural number, without leading zeros.
pub open spec fn dec_of(n: nat) -> Seq<char>
    decreases n,
{
    if n < 10 {
        seq![dec_digit(n as int)]
    } else {
        dec_of(n / 10).push(dec_digit((n % 10) as int))
    }
}

/// Render a number in decimal.
pub fn u64_dec(n: u64) -> (s: String)
    ensures
        s@ == dec_of(n as nat),
    decreases n,
{
    if n < 10 {
        let mut s = String::new();
        s.push(digit_char(n));
        s
    } else {
        let mut s = u64_dec(n / 10);
        s.push(digit_char(n % 10));
        s
    }
}

/// The decimal digit character of a value below ten, as executable code.
fn digit_char(n: u64) -> (c: char)
    requires
        n < 10,
    ensures
        c == dec_digit(n as int),
{
    if n == 0 {
        '0'
    } else if n == 1 {
        '1'
    } else if n == 2 {
        '2'
    } else if n == 3 {
        '3'
    } else if n == 4 {
        '4'
    } else if n == 5 {
        '5'
    } else if n == 6 {
        '6'
    } else if n == 7 {
        '7'
    } else if n == 8 {
        '8'
    } else {
        '9'
    }
}

/// The decimal rendering of a signed number: a minus sign for negatives.
pub open spec fn dec_of_int(n: int) -> Seq<char> {
    if n >= 0 {
        dec_of(n as nat)
    } else {
        seq!['-'] + dec_of((-n) as nat)
    }
}

/// Render a signed number in decimal.
pub fn i64_dec(n: i64) -> (s: String)
    ensures
        s@ == dec_of_int(n as int),
{
    if n >= 0 {
        u64_dec(n as u64)
    } else {
        let mut s = String::new();
        s.push('-');
        let mag: u64 = if n == i64::MIN {
            0x8000_0000_0000_0000u64
        } else {
            (-n) as u64
        };
        let tail = u64_dec(mag);
        s.append(tail.as_str());
        s
    }
}

} // verus!
