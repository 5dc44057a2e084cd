//! Small verified string helpers: decimal rendering of integers, first-match
//! splitting, and prefix tests, each against an exact sequence-level
//! specification.

use vstd::prelude::*;
use vstd::string::StrSliceExecFns;
use vstd::string::StringExecFns;

verus! {

/// The character for one decimal digit value.
pub open spec fn digit_char(d: int) -> char {
    if d == 0 {
        '0'
    } else if d == 1 {
        '1'
    } else if d == 2 {
        '2'
    } else if d == 3 {
        '3'
    } else if d == 4 {
        '4'
    } else if d == 5 {
        '5'
    } else if d == 6 {
        '6'
    } else if d == 7 {
        '7'
    } else if d == 8 {
        '8'
    } else {
        '9'
    }
}

/// Decimal rendering of a non-negative integer, most significant digit first.
pub open spec fn dec_nat(n: nat) -> Seq<char>
    decreases n,
{
    if n < 10 {
        seq![digit_char(n as int)]
    } else {
        dec_nat(n / 10).push(digit_char((n % 10) as int))
    }
}

/// Decimal rendering of a signed integer: a minus sign before the magnitude
/// when negative.
pub open spec fn dec_int(i: int) -> Seq<char> {
    if i < 0 {
        seq!['-'].add(dec_nat((-i) as nat))
    } else {
        dec_nat(i as nat)
    }
}

/// Appends the decimal digits of `n` to `s`.
pub fn append_dec_u64(s: &mut String, n: u64)
    ensures
        final(s)@ == old(s)@ + dec_nat(n as nat),
    decreases n,
{
    if n >= 10 {
        append_dec_u64(s, n / 10);
    }
    let d: u64 = n % 10;
    if d == 0 {
        s.append("0");
    } else if d == 1 {
        s.append("1");
    } else if d == 2 {
        s.append("2");
    } else if d == 3 {
        s.append("3");
    } else if d == 4 {
        s.append("4");
    } else if d == 5 {
        s.append("5");
    } else if d == 6 {
        s.append("6");
    } else if d == 7 {
        s.append("7");
    } else if d == 8 {
        s.append("8");
    } else {
        s.append("9");
    }
    proof {
        reveal_strlit("0");
        reveal_strlit("1");
        reveal_strlit("2");
        reveal_strlit("3");
        reveal_strlit("4");
        reveal_strlit("5");
        reveal_strlit("6");
        reveal_strlit("7");
        reveal_strlit("8");
        reveal_strlit("9");
        if n >= 10 {
            assert(dec_nat(n as nat) == dec_nat((n / 10) as nat).push(digit_char((n % 10) as int)));
        }
    }
}

/// Decimal rendering of a signed 64-bit integer.
pub fn int_to_string(i: i64) -> (r: String)
    ensures
        r@ == dec_int(i as int),
{
    let mut s = String::new();
    if i < 0 {
        s.append("-");
        proof {
            reveal_strlit("-");
        }
        let mag: u64 = if i == i64::MIN {
            9223372036854775808u64
        } else {
            (-i) as u64
        };
        append_dec_u64(&mut s, mag);
    } else {
        append_dec_u64(&mut s, i as u64);
    }
    s
}

/// Splits `s` at the first occurrence of `c`: the part before and the part
/// after, neither containing the separator occurrence itself. `None` when
/// `c` does not occur in `s`.
pub fn break_str<'a>(s: &'a str, c: char) -> (r: Option<(&'a str, &'a str)>)
    ensures
        match r {
            Some((a, b)) => s@ == a@ + seq![c] + b@ && !a@.contains(c),
            None => !s@.contains(c),
        },
{
    let len: usize = s.unicode_len();
    let mut i: usize = 0;
    while i < len
        invariant
            i <= len,
            len == s@.len(),
            forall|j: int| 0 <= j < i ==> s@[j] != c,
        decreases len - i,
    {
        if s.get_char(i) == c {
            let a = s.substring_char(0, i);
            let b = s.substring_char(i + 1, len);
            proof {
                assert(s@ =~= a@ + seq![c] + b@);
                assert(!a@.contains(c)) by {
                    assert(forall|j: int| 0 <= j < a@.len() ==> a@[j] == s@[j] && s@[j] != c);
                }
            }
            return Some((a, b));
        }
        i = i + 1;
    }
    proof {
        assert(!s@.contains(c)) by {
            assert(forall|j: int| 0 <= j < s@.len() ==> s@[j] != c);
        }
    }
    None
}

/// Whether `s` begins with `prefix`, compared character by character.
pub fn str_starts_with(s: &str, prefix: &str) -> (r: bool)
    ensures
        r == (prefix@.len() <= s@.len() && s@.subrange(0, prefix@.len() as int) == prefix@),
{
    let plen: usize = prefix.unicode_len();
    let slen: usize = s.unicode_len();
    if plen > slen {
        return false;
    }
    let mut i: usize = 0;
    while i < plen
        invariant
            i <= plen,
            plen == prefix@.len(),
            slen == s@.len(),
            plen <= slen,
            forall|j: int| 0 <= j < i ==> s@[j] == prefix@[j],
        decreases plen - i,
    {
        if s.get_char(i) != prefix.get_char(i) {
            proof {
                assert(s@.subrange(0, plen as int)[i as int] != prefix@[i as int]);
            }
            return false;
        }
        i = i + 1;
    }
    proof {
        assert(s@.subrange(0, plen as int) =~= prefix@);
    }
    true
}

/// Character-by-character equality of two string slices.
pub fn str_eq(a: &str, b: &str) -> (r: bool)
    ensures
        r == (a@ == b@),
{
    let alen: usize = a.unicode_len();
    let blen: usize = b.unicode_len();
    if alen != blen {
        return false;
    }
    let mut i: usize = 0;
    while i < alen
        invariant
            i <= alen,
            alen == a@.len(),
            alen == b@.len(),
            forall|j: int| 0 <= j < i ==> a@[j] == b@[j],
        decreases alen - i,
    {
        if a.get_char(i) != b.get_char(i) {
            proof {
                assert(a@[i as int] != b@[i as int]);
            }
            return false;
        }
        i = i + 1;
    }
    proof {
        assert(a@ =~= b@);
    }
    true
}

/// Lexicographic order on character sequences: the usual dictionary order,
/// with a proper prefix before its extensions.
pub open spec fn seq_lt(a: Seq<char>, b: Seq<char>) -> bool
    decreases a.len(),
{
    if b.len() == 0 {
        false
    } else if a.len() == 0 {
        true
    } else if a[0] != b[0] {
        a[0] < b[0]
    } else {
        seq_lt(a.subrange(1, a.len() as int), b.subrange(1, b.len() as int))
    }
}

/// Lexicographic comparison of two string slices.
pub fn str_lt(a: &str, b: &str) -> (r: bool)
    ensures
        r == seq_lt(a@, b@),
{
    let alen: usize = a.unicode_len();
    let blen: usize = b.unicode_len();
    let mut i: usize = 0;
    proof {
        assert(a@.skip(0) =~= a@);
        assert(b@.skip(0) =~= b@);
    }
    loop
        invariant
            i <= alen,
            i <= blen,
            alen == a@.len(),
            blen == b@.len(),
            forall|j: int| 0 <= j < i ==> a@[j] == b@[j],
            seq_lt(a@, b@) == seq_lt(a@.skip(i as int), b@.skip(i as int)),
        decreases alen - i,
    {
        if i == blen {
            proof {
                assert(b@.skip(i as int).len() == 0);
            }
            return false;
        }
        if i == alen {
            proof {
                assert(a@.skip(i as int).len() == 0);
                assert(b@.skip(i as int).len() > 0);
            }
            return true;
        }
        let ca = a.get_char(i);
        let cb = b.get_char(i);
        if ca != cb {
            proof {
                let sa = a@.skip(i as int);
                let sb = b@.skip(i as int);
                assert(sa[0] == a@[i as int] && sb[0] == b@[i as int]);
                assert(seq_lt(sa, sb) == (sa[0] < sb[0]));
            }
            return ca < cb;
        }
        proof {
            let sa = a@.skip(i as int);
            let sb = b@.skip(i as int);
            assert(sa[0] == sb[0]);
            assert(seq_lt(sa, sb) == seq_lt(
                sa.subrange(1, sa.len() as int),
                sb.subrange(1, sb.len() as int),
            ));
            assert(sa.subrange(1, sa.len() as int) =~= a@.skip(i + 1));
            assert(sb.subrange(1, sb.len() as int) =~= b@.skip(i + 1));
        }
        i = i + 1;
    }
}

/// Splitting at the first occurrence of a separator is unambiguous: two
/// decompositions around the separator whose left parts are free of it are
/// the same decomposition.
pub proof fn lemma_first_split_unique(x: Seq<char>, y: Seq<char>, a: Seq<char>, b: Seq<char>, c: char)
    requires
        x + seq![c] + y == a + seq![c] + b,
        !x.contains(c),
        !a.contains(c),
    ensures
        x == a,
        y == b,
{
    let w = x + seq![c] + y;
    if x.len() < a.len() {
        assert(a[x.len() as int] == w[x.len() as int]);
        assert(w[x.len() as int] == c);
        assert(a.contains(c));
        assert(false);
    }
    if a.len() < x.len() {
        assert(x[a.len() as int] == w[a.len() as int]);
        assert(w[a.len() as int] == c);
        assert(x.contains(c));
        assert(false);
    }
    assert(x =~= a) by {
        assert forall|i: int| 0 <= i < x.len() implies x[i] == a[i] by {
            assert(x[i] == w[i]);
            assert(a[i] == w[i]);
        }
    }
    assert(w == a + seq![c] + b);
    assert(w.len() == x.len() + 1 + y.len());
    assert(w.len() == a.len() + 1 + b.len());
    assert(y.len() == b.len());
    assert(y =~= b) by {
        assert forall|i: int| 0 <= i < y.len() implies y[i] == b[i] by {
            assert(y[i] == w[x.len() + 1 + i]);
            assert((a + seq![c] + b)[a.len() + 1 + i] == b[i]);
            assert(b[i] == w[a.len() + 1 + i]);
        }
    }
}

/// Whether `c` occurs in `s`.
pub fn contains_char(s: &str, c: char) -> (r: bool)
    ensures
        r == s@.contains(c),
{
    let len: usize = s.unicode_len();
    let mut i: usize = 0;
    while i < len
        invariant
            i <= len,
            len == s@.len(),
            forall|j: int| 0 <= j < i ==> s@[j] != c,
        decreases len - i,
    {
        if s.get_char(i) == c {
            return true;
        }
        i = i + 1;
    }
    proof {
        assert(forall|j: int| 0 <= j < s@.len() ==> s@[j] != c);
    }
    false
}

} // verus!
