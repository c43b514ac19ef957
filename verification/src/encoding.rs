//! Decimal text of integers, as bytes.

use vstd::prelude::*;

verus! {

/// ASCII decimal digits of a natural number, without leading zeros.
pub open spec fn decimal(n: nat) -> Seq<u8>
    decreases n,
{
    if n < 10 {
        seq![(48 + n) as u8]
    } else {
        decimal(n / 10).push((48 + n % 10) as u8)
    }
}

/// ASCII decimal text of an integer, with `-` in front of a negative one.
pub open spec fn signed_decimal(v: int) -> Seq<u8> {
    if v < 0 {
        seq![45u8] + decimal((-v) as nat)
    } else {
        decimal(v as nat)
    }
}

/// The number that a sequence of decimal digits stands for.
pub open spec fn decimal_value(digits: Seq<u8>) -> int
    decreases digits.len(),
{
    if digits.len() == 0 {
        0
    } else {
        decimal_value(digits.drop_last()) * 10 + (digits.last() - 48)
    }
}

/// Decimal text is not empty, starts with a digit and reads back as the
/// number it was made of.
pub proof fn lemma_decimal_value(n: nat)
    ensures
        decimal(n).len() >= 1,
        48 <= decimal(n)[0] <= 57,
        decimal_value(decimal(n)) == n,
    decreases n,
{
    if n < 10 {
        assert(decimal(n).drop_last() =~= Seq::<u8>::empty());
        assert(decimal_value(decimal(n).drop_last()) == 0);
    } else {
        lemma_decimal_value(n / 10);
        assert(decimal(n).drop_last() =~= decimal(n / 10));
        assert(decimal(n)[0] == decimal(n / 10)[0]);
    }
}

/// Two integers with the same decimal text are equal.
pub proof fn lemma_signed_decimal_injective(a: int, b: int)
    requires
        signed_decimal(a) == signed_decimal(b),
    ensures
        a == b,
{
    let ma = (if a < 0 {
        -a
    } else {
        a
    }) as nat;
    let mb = (if b < 0 {
        -b
    } else {
        b
    }) as nat;
    lemma_decimal_value(ma);
    lemma_decimal_value(mb);
    assert(signed_decimal(a)[0] == signed_decimal(b)[0]);
    if a < 0 {
        assert(signed_decimal(a)[0] == 45);
        assert(b < 0);
        assert(signed_decimal(a).skip(1) =~= decimal(ma));
        assert(signed_decimal(b).skip(1) =~= decimal(mb));
    } else {
        assert(b >= 0);
    }
}

/// Every byte of decimal text is a digit.
pub proof fn lemma_decimal_digits(n: nat)
    ensures
        forall|i: int| 0 <= i < decimal(n).len() ==> 48 <= #[trigger] decimal(n)[i] <= 57,
    decreases n,
{
    if n >= 10 {
        lemma_decimal_digits(n / 10);
        let init = decimal(n / 10);
        assert forall|i: int| 0 <= i < decimal(n).len() implies 48 <= #[trigger] decimal(n)[i]
            <= 57 by {
            if i < init.len() {
                assert(decimal(n)[i] == init[i]);
            }
        }
    }
}

/// Two natural numbers with the same decimal text are equal.
pub proof fn lemma_decimal_injective(a: nat, b: nat)
    requires
        decimal(a) == decimal(b),
    ensures
        a == b,
{
    lemma_decimal_value(a);
    lemma_decimal_value(b);
}

/// Where two byte strings without the byte `end`, each closed by `end` and
/// followed by more bytes, give the same bytes, the two strings are equal and
/// so is what follows them.
pub proof fn lemma_terminated_unique(a: Seq<u8>, x: Seq<u8>, b: Seq<u8>, y: Seq<u8>, end: u8)
    requires
        forall|i: int| 0 <= i < a.len() ==> a[i] != end,
        forall|i: int| 0 <= i < b.len() ==> b[i] != end,
        a + seq![end] + x == b + seq![end] + y,
    ensures
        a == b,
        x == y,
{
    let l = a + seq![end] + x;
    let r = b + seq![end] + y;
    assert(l.len() == a.len() + 1 + x.len());
    assert(r.len() == b.len() + 1 + y.len());
    if a.len() < b.len() {
        assert(l[a.len() as int] == end);
        assert(r[a.len() as int] == b[a.len() as int]);
        assert(false);
    }
    if b.len() < a.len() {
        assert(r[b.len() as int] == end);
        assert(l[b.len() as int] == a[b.len() as int]);
        assert(false);
    }
    assert forall|i: int| 0 <= i < a.len() implies a[i] == b[i] by {
        assert(l[i] == a[i]);
        assert(r[i] == b[i]);
    }
    assert(a =~= b);
    assert forall|i: int| 0 <= i < x.len() implies x[i] == y[i] by {
        assert(l[a.len() + 1 + i] == x[i]);
        assert(r[a.len() + 1 + i] == y[i]);
    }
    assert(x =~= y);
}

/// A natural number in decimal, closed by a byte that is no digit, can be
/// read back from the front of a byte string in one way only.
pub proof fn lemma_decimal_field_unique(a: nat, x: Seq<u8>, b: nat, y: Seq<u8>, end: u8)
    requires
        end < 48 || end > 57,
        decimal(a) + seq![end] + x == decimal(b) + seq![end] + y,
    ensures
        a == b,
        x == y,
{
    lemma_decimal_digits(a);
    lemma_decimal_digits(b);
    lemma_terminated_unique(decimal(a), x, decimal(b), y, end);
    lemma_decimal_injective(a, b);
}

/// An integer in decimal, closed by a semicolon, can be read back from the
/// front of a byte string in one way only.
pub proof fn lemma_signed_field_unique(a: int, x: Seq<u8>, b: int, y: Seq<u8>)
    requires
        signed_decimal(a) + seq![59u8] + x == signed_decimal(b) + seq![59u8] + y,
    ensures
        a == b,
        x == y,
{
    lemma_decimal_digits((-a) as nat);
    lemma_decimal_digits(a as nat);
    lemma_decimal_digits((-b) as nat);
    lemma_decimal_digits(b as nat);
    assert forall|i: int| 0 <= i < signed_decimal(a).len() implies signed_decimal(a)[i] != 59 by {
        if a < 0 && i > 0 {
            assert(signed_decimal(a)[i] == decimal((-a) as nat)[i - 1]);
        }
    }
    assert forall|i: int| 0 <= i < signed_decimal(b).len() implies signed_decimal(b)[i] != 59 by {
        if b < 0 && i > 0 {
            assert(signed_decimal(b)[i] == decimal((-b) as nat)[i - 1]);
        }
    }
    lemma_terminated_unique(signed_decimal(a), x, signed_decimal(b), y, 59u8);
    lemma_signed_decimal_injective(a, b);
}

/// Appends the decimal text of `n` to `out`.
pub fn push_decimal(out: &mut Vec<u8>, n: u64)
    ensures
        final(out)@ == old(out)@ + decimal(n as nat),
    decreases n,
{
    if n >= 10 {
        push_decimal(out, n / 10);
    }
    let d: u8 = (n % 10) as u8;
    out.push(48 + d);
    assert(final(out)@ =~= old(out)@ + decimal(n as nat));
}

/// Appends the decimal text of `v` to `out`.
pub fn push_signed_decimal(out: &mut Vec<u8>, v: i64)
    ensures
        final(out)@ == old(out)@ + signed_decimal(v as int),
{
    if v < 0 {
        out.push(45u8);
        let m: u64 = if v == i64::MIN {
            0x8000_0000_0000_0000u64
        } else {
            (-v) as u64
        };
        push_decimal(out, m);
        assert(final(out)@ =~= old(out)@ + signed_decimal(v as int));
    } else {
        push_decimal(out, v as u64);
    }
}

} // verus!
