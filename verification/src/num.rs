use vstd::prelude::*;

verus! {

/// The character for one decimal digit.
pub open spec fn dec_digit(d: nat) -> char {
    ((d + 48) as u8) as char
}

/// The decimal representation of a number, most significant digit first.
pub open spec fn dec_rep(n: nat) -> Seq<char>
    decreases n,
{
    if n < 10 {
        seq![dec_digit(n)]
    } else {
        dec_rep(n / 10).push(dec_digit(n % 10))
    }
}

pub open spec fn is_digit(c: char) -> bool {
    '0' <= c && c <= '9'
}

pub open spec fn digit_val(c: char) -> nat {
    (c as nat - 48) as nat
}

pub open spec fn all_digits(s: Seq<char>) -> bool {
    forall|i: int| 0 <= i < s.len() ==> is_digit(#[trigger] s[i])
}

/// The value of a string of decimal digits.
pub open spec fn dec_val(s: Seq<char>) -> nat
    decreases s.len(),
{
    if s.len() == 0 {
        0
    } else {
        dec_val(s.drop_last()) * 10 + digit_val(s.last())
    }
}

/// What `usize` parsing accepts: an optional leading '+', then at least one
/// digit, with the value fitting the type.
pub open spec fn sp_usize(s: Seq<char>) -> Option<usize> {
    let digits = if s.len() > 0 && s[0] == '+' {
        s.drop_first()
    } else {
        s
    };
    if digits.len() > 0 && all_digits(digits) && dec_val(digits) <= usize::MAX {
        Some(dec_val(digits) as usize)
    } else {
        None
    }
}

/// The decimal representation is made of digits and parses back to the
/// number it was made from.
pub proof fn lemma_dec_rep(n: nat)
    ensures
        dec_rep(n).len() >= 1,
        all_digits(dec_rep(n)),
        dec_val(dec_rep(n)) == n,
        n > 0 ==> dec_rep(n)[0] != '0',
        n == 0 ==> dec_rep(n) == seq!['0'],
    decreases n,
{
    if n < 10 {
        assert(dec_digit(n) as nat == n + 48);
        let s = dec_rep(n);
        assert(s == seq![dec_digit(n)]);
        assert(s.drop_last() =~= Seq::<char>::empty());
        assert(dec_val(Seq::<char>::empty()) == 0);
        assert(s.last() == dec_digit(n));
        assert(dec_val(s) == dec_val(s.drop_last()) * 10 + digit_val(s.last()));
        assert(dec_val(s) == digit_val(dec_digit(n)));
        assert(is_digit(dec_digit(n))) by {
            assert('0' as nat == 48 && '9' as nat == 57);
        }
    } else {
        lemma_dec_rep(n / 10);
        let s = dec_rep(n);
        let p = dec_rep(n / 10);
        assert(s == p.push(dec_digit(n % 10)));
        assert(s.drop_last() =~= p);
        assert(dec_val(s) == dec_val(p) * 10 + digit_val(dec_digit(n % 10)));
        assert(dec_digit(n % 10) as nat == n % 10 + 48);
        assert(is_digit(dec_digit(n % 10))) by {
            assert('0' as nat == 48 && '9' as nat == 57);
        }
        assert(dec_val(s) == (n / 10) * 10 + n % 10);
        assert((n / 10) * 10 + n % 10 == n) by (nonlinear_arith);
        assert(forall|i: int| 0 <= i < s.len() ==> is_digit(#[trigger] s[i])) by {
            assert(forall|i: int| 0 <= i < p.len() ==> is_digit(#[trigger] p[i]));
            assert(s.len() == p.len() + 1);
            assert(forall|i: int| 0 <= i < p.len() ==> s[i] == p[i]);
        }
        assert(s[0] == p[0]);
    }
}

/// Appending digits never shrinks the value.
pub proof fn lemma_dec_val_prefix(s: Seq<char>, i: int)
    requires
        0 <= i <= s.len(),
    ensures
        dec_val(s.subrange(0, i)) <= dec_val(s),
    decreases s.len() - i,
{
    if i == s.len() {
        assert(s.subrange(0, i) =~= s);
    } else {
        lemma_dec_val_prefix(s, i + 1);
        let t = s.subrange(0, i + 1);
        assert(t.drop_last() =~= s.subrange(0, i));
        assert(dec_val(t) == dec_val(s.subrange(0, i)) * 10 + digit_val(t.last()));
        assert(dec_val(s.subrange(0, i)) <= dec_val(s.subrange(0, i)) * 10) by (nonlinear_arith);
    }
}

pub fn digit_char(d: usize) -> (c: char)
    requires
        d < 10,
    ensures
        c == dec_digit(d as nat),
{
    ((d as u8) + 48) as char
}

pub fn char_is_digit(c: char) -> (r: bool)
    ensures
        r == is_digit(c),
{
    '0' <= c && c <= '9'
}

pub fn char_digit_val(c: char) -> (d: usize)
    requires
        is_digit(c),
    ensures
        d == digit_val(c),
        d < 10,
{
    proof {
        assert('0' as nat == 48 && '9' as nat == 57);
    }
    (c as usize) - 48
}

/// Append the decimal form of `n` to `out`.
pub fn push_dec(out: &mut Vec<char>, n: usize)
    ensures
        final(out)@ == old(out)@ + dec_rep(n as nat),
{
    let mut rev: Vec<char> = Vec::new();
    let mut m: usize = n;
    while m >= 10
        invariant
            dec_rep(n as nat) =~= dec_rep(m as nat) + rev@.reverse(),
        decreases m,
    {
        let d = digit_char(m % 10);
        let ghost old_rev = rev@;
        rev.push(d);
        m = m / 10;
        proof {
            assert(rev@.reverse() =~= seq![d] + old_rev.reverse());
            assert(dec_rep(n as nat) =~= dec_rep(m as nat) + rev@.reverse());
        }
    }
    let d = digit_char(m);
    let ghost old_rev = rev@;
    rev.push(d);
    proof {
        assert(rev@.reverse() =~= seq![d] + old_rev.reverse());
        assert(dec_rep(m as nat) == seq![d]);
        assert(dec_rep(n as nat) =~= rev@.reverse());
    }
    let mut i: usize = rev.len();
    while i > 0
        invariant
            i <= rev@.len(),
            out@ == old(out)@ + rev@.reverse().subrange(0, rev@.len() - i),
        decreases i,
    {
        i = i - 1;
        let c = rev[i];
        out.push(c);
        proof {
            let r = rev@.reverse();
            assert(r[rev@.len() - i - 1] == rev@[i as int]);
            assert(r.subrange(0, rev@.len() - i) =~= r.subrange(0, rev@.len() - i - 1).push(
                rev@[i as int],
            ));
        }
    }
    proof {
        assert(rev@.reverse().subrange(0, rev@.len() as int) =~= rev@.reverse());
    }
}

/// Parse a whole string of characters as a `usize`, as decimal digit parsing
/// accepts it: optional leading '+', at least one digit, no overflow.
pub fn parse_usize(s: &[char]) -> (r: Option<usize>)
    ensures
        r == sp_usize(s@),
{
    let mut i: usize = 0;
    if s.len() > 0 && *vstd::slice::slice_index_get(s, 0) == '+' {
        i = 1;
    }
    let ghost digits = if s@.len() > 0 && s@[0] == '+' {
        s@.drop_first()
    } else {
        s@
    };
    if i >= s.len() {
        return None;
    }
    let mut acc: usize = 0;
    let start = i;
    while i < s.len()
        invariant
            start <= i <= s@.len(),
            start == (if s@.len() > 0 && s@[0] == '+' {
                1int
            } else {
                0int
            }),
            digits =~= s@.subrange(start as int, s@.len() as int),
            i > start || i == start,
            all_digits(s@.subrange(start as int, i as int)),
            acc as nat == dec_val(s@.subrange(start as int, i as int)),
        decreases s@.len() - i,
    {
        let c = *vstd::slice::slice_index_get(s, i);
        if !char_is_digit(c) {
            proof {
                assert(digits[i - start] == c);
                assert(!all_digits(digits));
            }
            return None;
        }
        let d = char_digit_val(c);
        let next = match acc.checked_mul(10) {
            Some(t) => t.checked_add(d),
            None => None,
        };
        match next {
            Some(v) => {
                proof {
                    let pre = s@.subrange(start as int, i as int);
                    let cur = s@.subrange(start as int, i + 1);
                    assert(cur.drop_last() =~= pre);
                    assert(cur.last() == c);
                }
                acc = v;
            },
            None => {
                proof {
                    let pre = s@.subrange(start as int, i as int);
                    let cur = s@.subrange(start as int, i + 1);
                    assert(cur.drop_last() =~= pre);
                    assert(cur.last() == c);
                    assert(dec_val(cur) == dec_val(pre) * 10 + digit_val(c));
                    assert(acc * 10 > usize::MAX || acc * 10 + d > usize::MAX);
                    assert(dec_val(pre) * 10 == acc * 10);
                    assert(dec_val(cur) > usize::MAX);
                    assert(cur =~= digits.subrange(0, i - start + 1));
                    lemma_dec_val_prefix(digits, i - start + 1);
                    assert(dec_val(digits) > usize::MAX);
                    let dd = if s@.len() > 0 && s@[0] == '+' {
                        s@.drop_first()
                    } else {
                        s@
                    };
                    assert(dd == digits);
                    assert(!(dd.len() > 0 && all_digits(dd) && dec_val(dd) <= usize::MAX));
                    assert(sp_usize(s@) is None);
                }
                return None;
            },
        }
        i += 1;
    }
    proof {
        assert(s@.subrange(start as int, s@.len() as int) =~= digits);
    }
    Some(acc)
}

} // verus!
