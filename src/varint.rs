//! Unsigned LEB128 integers, as used throughout the WebAssembly binary format.
use vstd::prelude::*;

verus! {

/// The value and length of the LEB128 integer at the start of `s`, over
/// unbounded naturals; `None` when `s` ends before the final byte.
pub open spec fn leb(s: Seq<u8>) -> Option<(nat, nat)>
    decreases s.len(),
{
    if s.len() == 0 {
        None
    } else if s[0] < 128 {
        Some((s[0] as nat, 1))
    } else {
        match leb(s.subrange(1, s.len() as int)) {
            Some((v, n)) => Some(((s[0] - 128) as nat + 128 * v, n + 1)),
            None => None,
        }
    }
}

/// `leb`, restricted to values that fit in 64 bits.
pub open spec fn leb64(s: Seq<u8>) -> Option<(u64, nat)> {
    match leb(s) {
        Some((v, n)) => if v <= u64::MAX {
            Some((v as u64, n))
        } else {
            None
        },
        None => None,
    }
}

/// The LEB128 encoding of `v`: low 7-bit group first, continuation bit on all
/// but the last byte.
pub open spec fn leb_encode(v: nat) -> Seq<u8>
    decreases v,
{
    if v < 128 {
        seq![v as u8]
    } else {
        seq![(128 + v % 128) as u8] + leb_encode(v / 128)
    }
}

pub proof fn lemma_leb_len(s: Seq<u8>)
    ensures
        leb(s) matches Some((v, n)) ==> 1 <= n <= s.len(),
    decreases s.len(),
{
    if s.len() > 0 && s[0] >= 128 {
        lemma_leb_len(s.subrange(1, s.len() as int));
    }
}

/// Bytes after a complete integer do not change how it reads.
pub proof fn lemma_leb_extend(s: Seq<u8>, t: Seq<u8>)
    requires
        leb(s) is Some,
    ensures
        leb(s + t) == leb(s),
        leb64(s + t) == leb64(s),
    decreases s.len(),
{
    if s[0] >= 128 {
        let r = s.subrange(1, s.len() as int);
        assert((s + t).subrange(1, (s + t).len() as int) =~= r + t);
        lemma_leb_extend(r, t);
    }
}

/// Decoding an encoded value gives the value back, along with the length of
/// its encoding, whatever follows it.
pub proof fn lemma_leb_round_trip(v: nat, t: Seq<u8>)
    ensures
        leb(leb_encode(v) + t) == Some((v, leb_encode(v).len())),
    decreases v,
{
    let e = leb_encode(v);
    if v >= 128 {
        lemma_leb_round_trip(v / 128, t);
        let s = e + t;
        assert(s.subrange(1, s.len() as int) =~= leb_encode(v / 128) + t);
    }
}

/// Every 64-bit integer survives an encode and a decode, and the decoder
/// consumes exactly the encoded bytes.
pub proof fn lemma_varint_round_trip(v: u64)
    ensures
        leb64(leb_encode(v as nat)) == Some((v, leb_encode(v as nat).len())),
{
    lemma_leb_round_trip(v as nat, Seq::empty());
    assert(leb_encode(v as nat) + Seq::<u8>::empty() =~= leb_encode(v as nat));
}

proof fn lemma_leb_step(s: Seq<u8>, i: int)
    requires
        0 <= i < s.len(),
        s[i] >= 128,
    ensures
        leb(s.subrange(i, s.len() as int)) == match leb(s.subrange(i + 1, s.len() as int)) {
            Some((v, n)) => Some(((s[i] - 128) as nat + 128 * v, n + 1)),
            None => None,
        },
{
    let a = s.subrange(i, s.len() as int);
    assert(a.subrange(1, a.len() as int) =~= s.subrange(i + 1, s.len() as int));
}

proof fn lemma_leb_overflow(s: Seq<u8>, i: int, n: nat, pg: nat, low: nat, whole: Seq<u8>, off: nat)
    requires
        0 <= i < s.len(),
        low == (if s[i] >= 128 { s[i] - 128 } else { s[i] as int }),
        n + pg * low > u64::MAX,
        leb(whole) == match leb(s.subrange(i, s.len() as int)) {
            Some((v, k)) => Some(((n + pg * v) as nat, (off + k) as nat)),
            None => None,
        },
    ensures
        leb64(whole) is None,
{
    let a = s.subrange(i, s.len() as int);
    if let Some((v, k)) = leb(a) {
        if s[i] >= 128 {
            lemma_leb_step(s, i);
        }
        assert(v >= low);
        assert(pg * v >= pg * low) by (nonlinear_arith)
            requires v >= low;
    }
}

/// Reads the LEB128 integer that starts at `pos`, looking no further than
/// `end`: its value and the position just after it. `None` when the bytes end
/// before the integer does, or when its value does not fit in 64 bits.
pub fn read_var_uint(bytes: &[u8], pos: usize, end: usize) -> (r: Option<(u64, usize)>)
    requires
        pos <= end <= bytes@.len(),
    ensures
        r == match leb64(bytes@.subrange(pos as int, end as int)) {
            Some((v, n)) => Some((v, (pos + n) as usize)),
            None => None,
        },
{
    let ghost s = bytes@.subrange(0, end as int);
    let ghost whole = s.subrange(pos as int, end as int);
    assert(whole =~= bytes@.subrange(pos as int, end as int));
    let mut i: usize = pos;
    let mut n: u64 = 0;
    let mut p: u64 = 1;
    let mut big: bool = false;
    let ghost mut pg: nat = 1;
    while i < end
        invariant
            pos <= i <= end,
            s == bytes@.subrange(0, end as int),
            s.len() == end,
            end <= bytes@.len(),
            whole == bytes@.subrange(pos as int, end as int),
            whole == s.subrange(pos as int, end as int),
            pg >= 1,
            big ==> pg > u64::MAX,
            !big ==> p == pg,
            leb(whole) == match leb(s.subrange(i as int, end as int)) {
                Some((v, k)) => Some(((n + pg * v) as nat, ((i - pos) + k) as nat)),
                None => None,
            },
        decreases end - i,
    {
        let b = bytes[i];
        assert(b == s[i as int]);
        let low: u64 = if b >= 128 { (b - 128) as u64 } else { b as u64 };
        let ghost n0: nat = n as nat;
        let ghost q: int = if big { 0 } else { (u64::MAX - n) as int / (p as int) };
        if big {
            if low != 0 {
                proof {
                    assert(pg * low >= pg) by (nonlinear_arith)
                        requires low >= 1;
                    lemma_leb_overflow(s, i as int, n as nat, pg, low as nat, whole, (i - pos) as nat);
                }
                return None;
            }
        } else {
            if low > (u64::MAX - n) / p {
                proof {
                    assert(low * p > u64::MAX - n) by (nonlinear_arith)
                        requires low > q, q == (u64::MAX - n) as int / (p as int), p >= 1;
                    lemma_leb_overflow(s, i as int, n as nat, pg, low as nat, whole, (i - pos) as nat);
                }
                return None;
            }
            proof {
                assert(low * p <= u64::MAX - n) by (nonlinear_arith)
                    requires low <= q, q == (u64::MAX - n) as int / (p as int), p >= 1;
            }
            n = n + low * p;
        }
        assert(n == n0 + pg * low) by (nonlinear_arith)
            requires big ==> low == 0 && n == n0, !big ==> n == n0 + low * p && p == pg;
        if b < 128 {
            proof {
                let a = s.subrange(i as int, end as int);
                assert(leb(a) == Some((b as nat, 1nat)));
            }
            return Some((n, i + 1));
        }
        proof {
            lemma_leb_step(s, i as int);
            if let Some((v, k)) = leb(s.subrange(i + 1, end as int)) {
                assert(pg * (low + 128 * v) == pg * low + (pg * 128) * v) by (nonlinear_arith);
            }
        }
        if !big {
            if p > u64::MAX / 128 {
                big = true;
            } else {
                p = p * 128;
            }
        }
        proof {
            pg = pg * 128;
        }
        i = i + 1;
    }
    proof {
        let a = s.subrange(i as int, end as int);
        assert(a.len() == 0);
    }
    None
}

/// The LEB128 encoding of `n`.
pub fn encode_uint_var(n: u64) -> (r: Vec<u8>)
    ensures
        r@ == leb_encode(n as nat),
{
    let mut out: Vec<u8> = Vec::new();
    let mut m: u64 = n;
    while m > 127
        invariant
            out@ + leb_encode(m as nat) == leb_encode(n as nat),
        decreases m,
    {
        let ghost before = out@;
        out.push((128 + m % 128) as u8);
        proof {
            assert(leb_encode(m as nat) == seq![(128 + m % 128) as u8] + leb_encode((m / 128) as nat));
            assert(before + leb_encode(m as nat) =~= out@ + leb_encode((m / 128) as nat));
        }
        m = m / 128;
    }
    out.push(m as u8);
    proof {
        assert(leb_encode(m as nat) == seq![m as u8]);
    }
    assert(out@ =~= leb_encode(n as nat));
    out
}

} // verus!
