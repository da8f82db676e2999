//! Decimal and hexadecimal renderings of the numbers that travel inside
//! an id's payload: the snowflake as ASCII decimal digits, and the random
//! entropy of a secure id as ASCII hex digits.

use vstd::prelude::*;

verus! {

/// The ASCII decimal digits of a number, most significant first.
pub open spec fn dec_bytes(n: nat) -> Seq<u8>
    decreases n,
{
    if n < 10 {
        seq![(48 + n) as u8]
    } else {
        dec_bytes(n / 10) + seq![(48 + n % 10) as u8]
    }
}

/// The same digits as characters.
pub open spec fn dec_chars(n: nat) -> Seq<char> {
    dec_bytes(n).map_values(|b: u8| b as char)
}

/// An ASCII decimal digit.
pub open spec fn is_digit(b: u8) -> bool {
    48 <= b <= 57
}

/// Every byte is an ASCII decimal digit.
pub open spec fn all_digits(s: Seq<u8>) -> bool {
    forall|i: int| 0 <= i < s.len() ==> is_digit(#[trigger] s[i])
}

/// The number written by a digit string, most significant first.
pub open spec fn dec_val(s: Seq<u8>) -> nat
    decreases s.len(),
{
    if s.len() == 0 {
        0
    } else {
        dec_val(s.drop_last()) * 10 + ((s.last() - 48) as nat)
    }
}

/// Rendering a number yields digits, at least one, that write the number
/// back.
pub proof fn lemma_dec_round_trip(n: nat)
    ensures
        all_digits(dec_bytes(n)),
        dec_bytes(n).len() >= 1,
        dec_val(dec_bytes(n)) == n,
        forall|i: int| 0 <= i < dec_bytes(n).len() ==> #[trigger] dec_bytes(n)[i] < 128,
    decreases n,
{
    if n < 10 {
        assert(dec_bytes(n).drop_last() =~= Seq::<u8>::empty());
        assert(dec_val(Seq::<u8>::empty()) == 0);
    } else {
        lemma_dec_round_trip(n / 10);
        let s = dec_bytes(n);
        assert(s.drop_last() =~= dec_bytes(n / 10));
        assert(s.last() == (48 + n % 10) as u8);
        assert(dec_val(s) == (n / 10) * 10 + n % 10);
        assert((n / 10) * 10 + n % 10 == n) by (nonlinear_arith);
        assert forall|i: int| 0 <= i < s.len() implies is_digit(#[trigger] s[i]) by {
            if i < s.len() - 1 {
                assert(s[i] == dec_bytes(n / 10)[i]);
            }
        }
        assert forall|i: int| 0 <= i < s.len() implies #[trigger] s[i] < 128 by {
            if i < s.len() - 1 {
                assert(s[i] == dec_bytes(n / 10)[i]);
            }
        }
    }
}

/// A digit prefix writes no more than the whole string.
pub proof fn lemma_dec_val_prefix(s: Seq<u8>, k: int)
    requires
        0 <= k <= s.len(),
    ensures
        dec_val(s) >= dec_val(s.take(k)),
    decreases s.len(),
{
    if k < s.len() {
        assert(s.drop_last().take(k) =~= s.take(k));
        lemma_dec_val_prefix(s.drop_last(), k);
        assert(dec_val(s.drop_last()) * 10 >= dec_val(s.drop_last()));
    } else {
        assert(s.take(k) =~= s);
    }
}

/// Renders a number as its ASCII decimal digits.
pub(crate) fn dec_render(n: u64) -> (r: Vec<u8>)
    ensures
        r@ == dec_bytes(n as nat),
    decreases n,
{
    if n < 10 {
        let mut r: Vec<u8> = Vec::new();
        r.push(48 + (n as u8));
        proof {
            assert(r@ =~= dec_bytes(n as nat));
        }
        r
    } else {
        let mut r = dec_render(n / 10);
        r.push(48 + ((n % 10) as u8));
        proof {
            assert(r@ =~= dec_bytes(n as nat));
        }
        r
    }
}

/// Parses an ASCII decimal string into a 64-bit number; fails on an
/// empty string, a non-digit, and a value that does not fit.
pub(crate) fn dec_parse(s: &Vec<u8>) -> (r: Option<u64>)
    ensures
        (r is Some) <==> (s@.len() > 0 && all_digits(s@) && dec_val(s@)
            < 0x1_0000_0000_0000_0000),
        r matches Some(v) ==> v as nat == dec_val(s@),
{
    if s.len() == 0 {
        return None;
    }
    let mut acc: u64 = 0;
    let mut i: usize = 0;
    proof {
        assert(s@.take(0) =~= Seq::<u8>::empty());
    }
    while i < s.len()
        invariant
            0 < s@.len(),
            i <= s@.len(),
            all_digits(s@.take(i as int)),
            acc as nat == dec_val(s@.take(i as int)),
        decreases s@.len() - i,
    {
        let b = s[i];
        let ghost pre = s@.take(i as int);
        let ghost cur = s@.take(i + 1);
        proof {
            assert(cur.drop_last() =~= pre);
            assert(cur.last() == s@[i as int]);
        }
        if b < 48 || b > 57 {
            proof {
                assert(!is_digit(s@[i as int]));
                assert(!all_digits(s@));
            }
            return None;
        }
        let d = b - 48;
        if acc > 1844674407370955161 || (acc == 1844674407370955161 && d > 5) {
            proof {
                assert(dec_val(cur) == acc * 10 + d);
                assert(dec_val(cur) >= 0x1_0000_0000_0000_0000);
                lemma_dec_val_prefix(s@, i + 1);
                if all_digits(s@) {
                    assert(dec_val(s@) >= 0x1_0000_0000_0000_0000);
                }
            }
            return None;
        }
        acc = acc * 10 + (d as u64);
        i = i + 1;
    }
    proof {
        assert(s@.take(s@.len() as int) =~= s@);
    }
    Some(acc)
}

/// The ASCII code of a hex digit for a 4-bit value.
pub open spec fn hex_code(v: u8) -> u8
    recommends
        v < 16,
{
    if v < 10 {
        (48 + v) as u8
    } else {
        (87 + v) as u8
    }
}

/// The ASCII hex digits of a byte sequence, two per byte, high half
/// first.
pub open spec fn hex_bytes(b: Seq<u8>) -> Seq<u8>
    decreases b.len(),
{
    if b.len() == 0 {
        Seq::empty()
    } else {
        seq![hex_code(b[0] / 16), hex_code(b[0] % 16)] + hex_bytes(b.drop_first())
    }
}

/// Hex digits are ASCII letters and digits: in particular neither the
/// separator `_` nor beyond ASCII.
pub proof fn lemma_hex_bytes_shape(b: Seq<u8>)
    ensures
        hex_bytes(b).len() == 2 * b.len(),
        forall|i: int|
            0 <= i < hex_bytes(b).len() ==> ((48 <= #[trigger] hex_bytes(b)[i] <= 57) || (97
                <= hex_bytes(b)[i] <= 102)),
    decreases b.len(),
{
    if b.len() > 0 {
        lemma_hex_bytes_shape(b.drop_first());
        assert forall|i: int|
            0 <= i < hex_bytes(b).len() implies ((48 <= #[trigger] hex_bytes(b)[i] <= 57) || (97
            <= hex_bytes(b)[i] <= 102)) by {
            if i >= 2 {
                assert(hex_bytes(b)[i] == hex_bytes(b.drop_first())[i - 2]);
            }
        }
    }
}

/// Splitting the bytes splits their hex digits.
pub proof fn lemma_hex_bytes_concat(a: Seq<u8>, b: Seq<u8>)
    ensures
        hex_bytes(a + b) == hex_bytes(a) + hex_bytes(b),
    decreases a.len(),
{
    if a.len() == 0 {
        assert(a + b =~= b);
        assert(hex_bytes(a) + hex_bytes(b) =~= hex_bytes(b));
    } else {
        assert((a + b).drop_first() =~= a.drop_first() + b);
        lemma_hex_bytes_concat(a.drop_first(), b);
        assert(hex_bytes(a + b) =~= hex_bytes(a) + hex_bytes(b));
    }
}

/// Renders bytes as ASCII hex digits.
pub(crate) fn hex_render(b: &Vec<u8>) -> (r: Vec<u8>)
    ensures
        r@ == hex_bytes(b@),
{
    let mut out: Vec<u8> = Vec::new();
    let mut i: usize = 0;
    proof {
        assert(b@.take(0) =~= Seq::<u8>::empty());
        assert(out@ =~= hex_bytes(b@.take(0)));
    }
    while i < b.len()
        invariant
            i <= b@.len(),
            out@ == hex_bytes(b@.take(i as int)),
        decreases b@.len() - i,
    {
        let x = b[i];
        let hi = x / 16;
        let lo = x % 16;
        out.push(if hi < 10 {
            48 + hi
        } else {
            87 + hi
        });
        out.push(if lo < 10 {
            48 + lo
        } else {
            87 + lo
        });
        proof {
            let pre = b@.take(i as int);
            let g = b@.subrange(i as int, i + 1);
            assert(b@.take(i + 1) =~= pre + g);
            lemma_hex_bytes_concat(pre, g);
            assert(g[0] == x);
            assert(g.drop_first() =~= Seq::<u8>::empty());
            assert(hex_bytes(g.drop_first()) =~= Seq::<u8>::empty());
            assert(hex_bytes(g) =~= seq![hex_code(x / 16), hex_code(x % 16)]);
            assert(out@ =~= hex_bytes(b@.take(i + 1)));
        }
        i = i + 1;
    }
    proof {
        assert(b@.take(b@.len() as int) =~= b@);
    }
    out
}

} // verus!
