use vstd::prelude::*;
use vstd::arithmetic::div_mod::{lemma_fundamental_div_mod, lemma_mod_breakdown};
use crate::error::Error;
use crate::spec::{
    be_bytes, be_value, enc_int, int_tag_width, is_int_tag, magnitude, parse_int, pow256, width,
    ItemView, INT_ZERO,
};

verus! {

/// `256^n` grows with `n`.
pub proof fn lemma_pow256_monotone(a: nat, b: nat)
    requires
        a <= b,
    ensures
        1 <= pow256(a) <= pow256(b),
    decreases b,
{
    if b > a {
        lemma_pow256_monotone(a, (b - 1) as nat);
    } else if a > 0 {
        lemma_pow256_monotone((a - 1) as nat, (a - 1) as nat);
    }
}

/// `256^8 == 2^64`.
pub proof fn lemma_pow256_8()
    ensures
        pow256(8) == 0x1_0000_0000_0000_0000nat,
{
    reveal_with_fuel(pow256, 9);
}

/// The least width holds the magnitude, and one byte less would not.
pub proof fn lemma_width_bounds(m: nat)
    ensures
        m < pow256(width(m)),
        m > 0 ==> width(m) >= 1 && pow256((width(m) - 1) as nat) <= m,
    decreases m,
{
    if m > 0 {
        lemma_width_bounds(m / 256);
        let w = width(m / 256);
        let p = pow256(w);
        assert(m / 256 < p);
        lemma_fundamental_div_mod(m as int, 256);
        assert(m < 256 * p) by (nonlinear_arith)
            requires
                m / 256 < p,
                m == 256 * (m / 256) + m % 256,
                m % 256 < 256,
        ;
        if m / 256 > 0 {
            assert(pow256((w - 1) as nat) <= m / 256);
            assert(256 * pow256((w - 1) as nat) <= m) by (nonlinear_arith)
                requires
                    pow256((w - 1) as nat) <= m / 256,
                    m == 256 * (m / 256) + m % 256,
                    m % 256 >= 0,
            ;
        } else {
            assert(w == 0);
        }
    }
}

/// A magnitude below `256^k` needs at most `k` bytes.
pub proof fn lemma_width_at_most(m: nat, k: nat)
    requires
        m < pow256(k),
    ensures
        width(m) <= k,
    decreases k,
{
    if k > 0 && m > 0 {
        assert(m / 256 < pow256((k - 1) as nat)) by (nonlinear_arith)
            requires
                m < 256 * pow256((k - 1) as nat),
        ;
        lemma_width_at_most(m / 256, (k - 1) as nat);
    }
}

/// `be_bytes` gives exactly `n` bytes.
pub proof fn lemma_be_bytes_len(x: nat, n: nat)
    ensures
        be_bytes(x, n).len() == n,
    decreases n,
{
    if n > 0 {
        lemma_be_bytes_len(x / 256, (n - 1) as nat);
    }
}

/// Reading back `n` big-endian bytes gives the number modulo `256^n`.
pub proof fn lemma_be_round_trip(x: nat, n: nat)
    ensures
        be_value(be_bytes(x, n)) == x % pow256(n),
    decreases n,
{
    if n == 0 {
    } else {
        let b = be_bytes(x, n);
        lemma_be_round_trip(x / 256, (n - 1) as nat);
        assert(b.drop_last() =~= be_bytes(x / 256, (n - 1) as nat));
        lemma_pow256_monotone(0, (n - 1) as nat);
        lemma_mod_breakdown(x as int, 256, pow256((n - 1) as nat) as int);
    }
}

/// What `n` bytes can stand for is below `256^n`.
pub proof fn lemma_be_value_bound(b: Seq<u8>)
    ensures
        be_value(b) < pow256(b.len()),
    decreases b.len(),
{
    if b.len() > 0 {
        lemma_be_value_bound(b.drop_last());
        let v = be_value(b.drop_last());
        let p = pow256(b.drop_last().len());
        assert(v * 256 + b.last() < 256 * p) by (nonlinear_arith)
            requires
                v < p,
                b.last() < 256,
        ;
    }
}

/// An `i64`'s magnitude takes at most eight bytes.
pub proof fn lemma_i64_width(i: int)
    requires
        i64::MIN <= i <= i64::MAX,
    ensures
        width(magnitude(i)) <= 8,
        magnitude(i) < pow256(width(magnitude(i))),
{
    lemma_pow256_8();
    lemma_width_at_most(magnitude(i), 8);
    lemma_width_bounds(magnitude(i));
}

/// Writes `x` big-endian in `n` bytes.
fn write_be(out: &mut Vec<u8>, x: u64, n: usize)
    ensures
        final(out)@ == old(out)@ + be_bytes(x as nat, n as nat),
    decreases n,
{
    if n > 0 {
        write_be(out, x / 256, n - 1);
        out.push((x % 256) as u8);
        assert(be_bytes(x as nat, n as nat) == be_bytes((x / 256) as nat, (n - 1) as nat).push(
            (x % 256) as u8,
        ));
        assert(final(out)@ =~= old(out)@ + be_bytes(x as nat, n as nat));
    } else {
        assert(final(out)@ =~= old(out)@ + be_bytes(x as nat, n as nat));
    }
}

/// Appends the encoding of an integer.
pub fn write_int(out: &mut Vec<u8>, i: i64)
    ensures
        final(out)@ == old(out)@ + enc_int(i as int),
{
    if i == 0 {
        out.push(INT_ZERO);
        assert(final(out)@ =~= old(out)@ + enc_int(i as int));
        return;
    }
    let m: u64 = if i > 0 {
        i as u64
    } else {
        ((-(i + 1)) as u64) + 1
    };
    assert(m as nat == magnitude(i as int));
    proof {
        lemma_i64_width(i as int);
    }
    let mut n: usize = 0;
    let mut t: u64 = m;
    while t > 0
        invariant
            width(m as nat) == n + width(t as nat),
            width(m as nat) <= 8,
        decreases t,
    {
        t = t / 256;
        n = n + 1;
    }
    let ghost w = width(m as nat);
    assert(n == w);
    if i > 0 {
        out.push(INT_ZERO + n as u8);
        write_be(out, m, n);
    } else {
        let mut mask: u64 = 0;
        let mut k: usize = 0;
        while k < n
            invariant
                k <= n,
                n <= 8,
                mask as nat == pow256(k as nat) - 1,
            decreases n - k,
        {
            proof {
                lemma_pow256_8();
                lemma_pow256_monotone((k + 1) as nat, 8);
            }
            mask = mask * 256 + 255;
            k = k + 1;
        }
        out.push(INT_ZERO - n as u8);
        write_be(out, mask - m, n);
    }
    assert(final(out)@ =~= old(out)@ + enc_int(i as int));
}

/// Decodes the integer item that starts at `pos`: its value, and how many
/// bytes it took.
pub fn read_int(buf: &[u8], pos: usize) -> (r: Result<(i64, usize), Error>)
    requires
        pos < buf@.len(),
        is_int_tag(buf@[pos as int]),
    ensures
        match parse_int(buf@.subrange(pos as int, buf@.len() as int)) {
            Ok((v, n)) => match r {
                Ok((i, m)) => v == ItemView::Int(i as int) && m == n && 0 < m <= buf@.len() - pos,
                Err(_) => false,
            },
            Err(e) => r == Err::<(i64, usize), Error>(e),
        },
{
    let ghost b = buf@.subrange(pos as int, buf@.len() as int);
    let tag = buf[pos];
    let n: usize = if tag >= INT_ZERO {
        (tag - INT_ZERO) as usize
    } else {
        (INT_ZERO - tag) as usize
    };
    assert(n == int_tag_width(tag));
    if buf.len() - pos < 1 + n {
        return Err(Error::EOF);
    }
    let mut m: u64 = 0;
    let mut k: usize = 0;
    while k < n
        invariant
            k <= n <= 8,
            pos + 1 + n <= buf@.len(),
            buf@.len() <= usize::MAX,
            m as nat == be_value(buf@.subrange(pos + 1, pos + 1 + k)),
        decreases n - k,
    {
        proof {
            let s = buf@.subrange(pos + 1, pos + 1 + k + 1);
            assert(s.drop_last() =~= buf@.subrange(pos + 1, pos + 1 + k));
            lemma_be_value_bound(s);
            lemma_pow256_8();
            lemma_pow256_monotone((k + 1) as nat, 8);
        }
        let at: usize = pos + 1 + k;
        m = m * 256 + buf[at] as u64;
        k = k + 1;
    }
    assert(b.subrange(1, 1 + n as int) =~= buf@.subrange(pos + 1, pos + 1 + n));
    if tag >= INT_ZERO {
        if m > i64::MAX as u64 {
            return Err(Error::InvalidData);
        }
        Ok((m as i64, 1 + n))
    } else {
        // the value is m - (256^n - 1); it fits when 256^n - 1 - m <= 2^63
        let mut mask: u64 = 0;
        let mut j: usize = 0;
        while j < n
            invariant
                j <= n <= 8,
                mask as nat == pow256(j as nat) - 1,
            decreases n - j,
        {
            proof {
                lemma_pow256_8();
                lemma_pow256_monotone((j + 1) as nat, 8);
            }
            mask = mask * 256 + 255;
            j = j + 1;
        }
        proof {
            lemma_be_value_bound(buf@.subrange(pos + 1, pos + 1 + n));
        }
        let d: u64 = mask - m;
        if d > 0x8000_0000_0000_0000u64 {
            return Err(Error::InvalidData);
        }
        let v: i64 = if d == 0x8000_0000_0000_0000u64 {
            i64::MIN
        } else {
            -(d as i64)
        };
        Ok((v, 1 + n))
    }
}

} // verus!
