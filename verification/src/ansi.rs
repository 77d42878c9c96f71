//! Byte-level helpers for terminal output: decimal numbers and literals.
use vstd::prelude::*;

verus! {

/// Appends `bytes` to `buf`.
pub fn push_all(buf: &mut Vec<u8>, bytes: &[u8])
    ensures
        final(buf)@ == old(buf)@ + bytes@,
{
    let mut i: usize = 0;
    while i < bytes.len()
        invariant
            0 <= i <= bytes@.len(),
            buf@ == old(buf)@ + bytes@.subrange(0, i as int),
        decreases bytes@.len() - i,
    {
        buf.push(bytes[i]);
        proof {
            assert(bytes@.subrange(0, i + 1) =~= bytes@.subrange(0, i as int).push(bytes@[i as int]));
        }
        i += 1;
    }
    proof {
        assert(bytes@.subrange(0, bytes@.len() as int) =~= bytes@);
    }
}

/// ASCII decimal digits of `n`, most significant first, no leading zeros.
pub open spec fn dec_digits(n: nat) -> Seq<u8>
    decreases n,
{
    if n < 10 {
        seq![(48 + n) as u8]
    } else {
        dec_digits(n / 10).push((48 + n % 10) as u8)
    }
}

/// ASCII decimal form of a signed number: a minus sign, then its digits.
pub open spec fn dec_signed(v: int) -> Seq<u8> {
    if v < 0 {
        seq![45u8] + dec_digits((-v) as nat)
    } else {
        dec_digits(v as nat)
    }
}

/// Every byte of `s` is an ASCII digit.
pub open spec fn all_digits(s: Seq<u8>) -> bool {
    forall|i: int| 0 <= i < s.len() ==> 48 <= #[trigger] s[i] <= 57
}

/// Decimal forms are made of digits, between one and twenty of them for a
/// 64-bit number.
pub proof fn lemma_dec_digits_shape(n: nat)
    ensures
        all_digits(dec_digits(n)),
        1 <= dec_digits(n).len(),
        n < 10 ==> dec_digits(n).len() == 1,
        10 <= n < 100 ==> dec_digits(n).len() == 2,
        100 <= n < 1000 ==> dec_digits(n).len() == 3,
    decreases n,
{
    if n >= 10 {
        lemma_dec_digits_shape(n / 10);
    }
}

/// Appends the decimal digits of `v`.
pub fn push_decimal(buf: &mut Vec<u8>, v: u64)
    ensures
        final(buf)@ == old(buf)@ + dec_digits(v as nat),
    decreases v,
{
    if v >= 10 {
        push_decimal(buf, v / 10);
        buf.push((48 + v % 10) as u8);
        proof {
            assert(dec_digits(v as nat) == dec_digits((v / 10) as nat).push((48 + v % 10) as u8));
            assert(buf@ =~= old(buf)@ + dec_digits(v as nat));
        }
    } else {
        buf.push((48 + v) as u8);
        proof {
            assert(buf@ =~= old(buf)@ + dec_digits(v as nat));
        }
    }
}

/// Appends the decimal form of a signed number.
pub fn push_signed_decimal(buf: &mut Vec<u8>, v: i64)
    ensures
        final(buf)@ == old(buf)@ + dec_signed(v as int),
{
    if v < 0 {
        buf.push(45u8);
        let m: u64 = if v == i64::MIN {
            0x8000_0000_0000_0000u64
        } else {
            (-v) as u64
        };
        push_decimal(buf, m);
    } else {
        push_decimal(buf, v as u64);
    }
}

/// Appends the decimal digits of a byte (one to three digits).
pub fn push_u8_decimal(buf: &mut Vec<u8>, v: u8)
    ensures
        final(buf)@ == old(buf)@ + dec_digits(v as nat),
{
    if v >= 100 {
        buf.push(48 + v / 100);
        buf.push(48 + (v / 10) % 10);
        buf.push(48 + v % 10);
        proof {
            let n = v as nat;
            assert(dec_digits(n) == dec_digits(n / 10).push((48 + n % 10) as u8));
            assert(dec_digits(n / 10) == dec_digits(n / 100).push((48 + (n / 10) % 10) as u8));
            assert((n / 10) / 10 == n / 100);
            assert(dec_digits(n / 100) == seq![(48 + n / 100) as u8]);
            assert(dec_digits(n) =~= seq![
                (48 + n / 100) as u8,
                (48 + (n / 10) % 10) as u8,
                (48 + n % 10) as u8,
            ]);
            assert(buf@ =~= old(buf)@ + dec_digits(n));
        }
    } else if v >= 10 {
        buf.push(48 + v / 10);
        buf.push(48 + v % 10);
        proof {
            let n = v as nat;
            assert(dec_digits(n) == dec_digits(n / 10).push((48 + n % 10) as u8));
            assert(dec_digits(n / 10) == seq![(48 + n / 10) as u8]);
            assert(dec_digits(n) =~= seq![(48 + n / 10) as u8, (48 + n % 10) as u8]);
            assert(buf@ =~= old(buf)@ + dec_digits(n));
        }
    } else {
        buf.push(48 + v);
        proof {
            assert(buf@ =~= old(buf)@ + dec_digits(v as nat));
        }
    }
}

} // verus!
