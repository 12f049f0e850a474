use vstd::prelude::*;

verus! {

/// ASCII codes used by the decimal representation.
pub open spec fn is_ascii_digit(b: u8) -> bool {
    48 <= b <= 57
}

/// Decimal digits of `n`, most significant first; empty for `n == 0`.
pub open spec fn spec_digits(n: nat) -> Seq<u8>
    decreases n,
{
    if n == 0 {
        Seq::empty()
    } else {
        spec_digits(n / 10).push((48 + n % 10) as u8)
    }
}

/// Canonical decimal representation of a natural number.
pub open spec fn spec_dec_nat(n: nat) -> Seq<u8> {
    if n == 0 {
        seq![48u8]
    } else {
        spec_digits(n)
    }
}

/// Canonical decimal representation of an integer: a leading `-` for
/// negative numbers, then the digits of the magnitude.
pub open spec fn spec_dec_int(n: int) -> Seq<u8> {
    if n < 0 {
        seq![45u8] + spec_dec_nat((-n) as nat)
    } else {
        spec_dec_nat(n as nat)
    }
}

/// Every byte of `s` is a decimal digit.
pub open spec fn all_digits(s: Seq<u8>) -> bool {
    forall|i: int| 0 <= i < s.len() ==> is_ascii_digit(#[trigger] s[i])
}

/// The value of a sequence of decimal digits, most significant first.
pub open spec fn digits_val(s: Seq<u8>) -> nat
    decreases s.len(),
{
    if s.len() == 0 {
        0
    } else {
        digits_val(s.drop_last()) * 10 + (s.last() - 48) as nat
    }
}

/// The integer denoted by `s` under the rules of `isize::from_str`
/// (an optional `+` or `-` sign followed by one or more digits),
/// ignoring the range of the target type; `None` if `s` is not of
/// that shape.
pub open spec fn spec_parse_int(s: Seq<u8>) -> Option<int> {
    let ds = if s.len() > 0 && (s[0] == 45 || s[0] == 43) {
        s.drop_first()
    } else {
        s
    };
    if ds.len() == 0 || !all_digits(ds) {
        None
    } else if s.len() > 0 && s[0] == 45 {
        Some(-(digits_val(ds) as int))
    } else {
        Some(digits_val(ds) as int)
    }
}

/// The result of parsing `s` as an `isize`: the denoted integer when it
/// is well formed and in range, otherwise `None`.
pub open spec fn spec_parse_isize(s: Seq<u8>) -> Option<int> {
    match spec_parse_int(s) {
        Some(v) => if isize::MIN <= v <= isize::MAX {
            Some(v)
        } else {
            None
        },
        None => None,
    }
}

/// Appends the digits of `n` (nothing for `n == 0`) to `out`.
fn push_digits(n: usize, out: &mut Vec<u8>)
    ensures
        final(out)@ == old(out)@ + spec_digits(n as nat),
    decreases n,
{
    if n > 0 {
        push_digits(n / 10, out);
        let d: u8 = (n % 10) as u8;
        out.push(48 + d);
        assert(final(out)@ == old(out)@ + spec_digits(n as nat)) by {
            assert(old(out)@ + spec_digits((n / 10) as nat) + spec_digits(n as nat).subrange(
                spec_digits(n as nat).len() - 1,
                spec_digits(n as nat).len() as int,
            ) =~= old(out)@ + spec_digits(n as nat));
        }
    } else {
        assert(old(out)@ + spec_digits(0) =~= old(out)@);
    }
}

/// The canonical decimal form of `n`.
pub fn format_usize(n: usize) -> (r: Vec<u8>)
    ensures
        r@ == spec_dec_nat(n as nat),
{
    let mut out: Vec<u8> = Vec::new();
    if n == 0 {
        out.push(48);
        assert(out@ =~= spec_dec_nat(0));
    } else {
        push_digits(n, &mut out);
        assert(out@ =~= spec_digits(n as nat));
    }
    out
}

/// The canonical decimal form of `n`, with a leading `-` when negative.
pub fn format_isize(n: isize) -> (r: Vec<u8>)
    ensures
        r@ == spec_dec_int(n as int),
{
    if n >= 0 {
        format_usize(n as usize)
    } else {
        let mag: usize = if n == isize::MIN {
            (isize::MAX as usize) + 1
        } else {
            (-n) as usize
        };
        assert(mag == -(n as int));
        let mut out: Vec<u8> = Vec::new();
        out.push(45);
        push_digits(mag, &mut out);
        assert(out@ =~= seq![45u8] + spec_dec_nat((-(n as int)) as nat));
        out
    }
}

/// The value of a digit string never shrinks when digits are appended.
proof fn lemma_digits_val_take_le(s: Seq<u8>, j: int)
    requires
        0 <= j <= s.len(),
    ensures
        digits_val(s.take(j)) <= digits_val(s),
    decreases s.len(),
{
    if j == s.len() {
        assert(s.take(j) =~= s);
    } else {
        assert(s.take(j) =~= s.drop_last().take(j));
        lemma_digits_val_take_le(s.drop_last(), j);
    }
}

/// `spec_digits(n)` really denotes `n`, and consists of digits only.
pub proof fn lemma_digits_val_of_digits(n: nat)
    ensures
        digits_val(spec_digits(n)) == n,
        all_digits(spec_digits(n)),
    decreases n,
{
    if n == 0 {
    } else {
        lemma_digits_val_of_digits(n / 10);
        let s = spec_digits(n);
        assert(s.drop_last() =~= spec_digits(n / 10));
        assert(n / 10 * 10 + n % 10 == n) by (nonlinear_arith);
    }
}

/// The canonical decimal form of any integer in the range of `isize`
/// parses back to that integer.
pub proof fn lemma_parse_of_format(n: int)
    requires
        isize::MIN <= n <= isize::MAX,
    ensures
        spec_parse_isize(spec_dec_int(n)) == Some(n),
{
    if n < 0 {
        let mag = (-n) as nat;
        let s = spec_dec_int(n);
        assert(s[0] == 45);
        assert(s.drop_first() =~= spec_dec_nat(mag));
        lemma_digits_val_of_digits(mag);
        if mag == 0 {
            assert(digits_val(seq![48u8]) == 0) by {
                assert(seq![48u8].drop_last() =~= Seq::<u8>::empty());
                assert(digits_val(Seq::<u8>::empty()) == 0);
            }
        }
    } else if n == 0 {
        let s = spec_dec_int(n);
        assert(s =~= seq![48u8]);
        assert(digits_val(seq![48u8]) == 0) by {
            assert(seq![48u8].drop_last() =~= Seq::<u8>::empty());
            assert(digits_val(Seq::<u8>::empty()) == 0);
        }
    } else {
        lemma_digits_val_of_digits(n as nat);
        let s = spec_dec_int(n);
        assert(is_ascii_digit(s[0]));
    }
}

/// Parses `s` as a signed integer, as `isize::from_str` does: an optional
/// `+` or `-` sign followed by one or more decimal digits, rejecting
/// values outside the range of `isize`.
#[verifier::loop_isolation(false)]
pub fn parse_isize(s: &[u8]) -> (r: Option<isize>)
    ensures
        match r {
            Some(n) => spec_parse_isize(s@) == Some(n as int),
            None => spec_parse_isize(s@) is None,
        },
{
    let len = s.len();
    let mut i: usize = 0;
    let mut neg: bool = false;
    if len > 0 && (s[0] == 45 || s[0] == 43) {
        i = 1;
        neg = s[0] == 45;
    }
    let ghost ds = if s@.len() > 0 && (s@[0] == 45 || s@[0] == 43) {
        s@.drop_first()
    } else {
        s@
    };
    let ghost off = i as int;
    assert(ds =~= s@.subrange(off, len as int));
    if i == len {
        return None;
    }
    let mut acc: usize = 0;
    proof {
        assert(usize::MAX == 2 * (isize::MAX as int) + 1);
        assert(isize::MIN == -(isize::MAX as int) - 1);
        assert(ds.take(0) =~= Seq::<u8>::empty());
    }
    while i < len
        invariant
            off <= i <= len,
            acc == digits_val(ds.take(i - off)),
            all_digits(ds.take(i - off)),
        decreases len - i,
    {
        let b = s[i];
        if b < 48 || b > 57 {
            assert(ds[i - off] == b);
            assert(!all_digits(ds));
            return None;
        }
        let d = (b - 48) as usize;
        let acc10 = match acc.checked_mul(10) {
            Some(x) => x,
            None => {
                proof {
                    assert(ds.take(i + 1 - off).drop_last() =~= ds.take(i - off));
                    assert(ds.take(i + 1 - off).last() == b);
                    lemma_digits_val_take_le(ds, i + 1 - off);
                    if !(spec_parse_isize(s@) is None) {
                        assert(all_digits(ds));
                        assert(digits_val(ds) >= digits_val(ds.take(i + 1 - off)));
                    }
                }
                return None;
            },
        };
        let acc_new = match acc10.checked_add(d) {
            Some(x) => x,
            None => {
                proof {
                    assert(ds.take(i + 1 - off).drop_last() =~= ds.take(i - off));
                    assert(ds.take(i + 1 - off).last() == b);
                    lemma_digits_val_take_le(ds, i + 1 - off);
                }
                return None;
            },
        };
        proof {
            assert(ds.take(i + 1 - off).drop_last() =~= ds.take(i - off));
            assert(ds.take(i + 1 - off).last() == b);
        }
        acc = acc_new;
        i = i + 1;
    }
    proof {
        assert(ds.take(len - (len - ds.len())) =~= ds);
    }
    if neg {
        if acc <= isize::MAX as usize {
            Some(-(acc as isize))
        } else if acc == (isize::MAX as usize) + 1 {
            Some(isize::MIN)
        } else {
            None
        }
    } else {
        if acc <= isize::MAX as usize {
            Some(acc as isize)
        } else {
            None
        }
    }
}

} // verus!
