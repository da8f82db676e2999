//! The base64 codec used to transport a snowflake payload inside the
//! textual id: the standard 64-symbol alphabet (`A-Z a-z 0-9 + /`) with
//! `=` padding, written against a byte-level model and proved to be an
//! exact round trip for every byte sequence.

use vstd::prelude::*;
use vstd::string::StrSliceExecFns;
use vstd::utf8::encode_utf8;

verus! {

/// The ASCII code of the alphabet symbol for a 6-bit value.
pub open spec fn b64_code(v: u8) -> u8
    recommends
        v < 64,
{
    if v < 26 {
        (65 + v) as u8
    } else if v < 52 {
        (97 + (v - 26)) as u8
    } else if v < 62 {
        (48 + (v - 52)) as u8
    } else if v == 62 {
        43
    } else {
        47
    }
}

/// The 6-bit value of an alphabet character, or `None` outside the
/// alphabet (`=` is outside: padding is counted, not decoded).
pub open spec fn char_val(c: char) -> Option<u8> {
    let u = c as u32;
    if 65 <= u <= 90 {
        Some((u - 65) as u8)
    } else if 97 <= u <= 122 {
        Some((u - 97 + 26) as u8)
    } else if 48 <= u <= 57 {
        Some((u - 48 + 52) as u8)
    } else if u == 43 {
        Some(62u8)
    } else if u == 47 {
        Some(63u8)
    } else {
        None
    }
}

/// The 6-bit values of a byte sequence, most significant bits first,
/// grouped three bytes to four values.
pub open spec fn b64_vals(b: Seq<u8>) -> Seq<u8>
    decreases b.len(),
{
    if b.len() >= 3 {
        seq![
            (b[0] / 4) as u8,
            ((b[0] % 4) * 16 + b[1] / 16) as u8,
            ((b[1] % 16) * 4 + b[2] / 64) as u8,
            (b[2] % 64) as u8,
        ] + b64_vals(b.skip(3))
    } else if b.len() == 2 {
        seq![(b[0] / 4) as u8, ((b[0] % 4) * 16 + b[1] / 16) as u8, ((b[1] % 16) * 4) as u8]
    } else if b.len() == 1 {
        seq![(b[0] / 4) as u8, ((b[0] % 4) * 16) as u8]
    } else {
        Seq::empty()
    }
}

/// The unpadded base64 text of a byte sequence.
pub open spec fn b64_chars(b: Seq<u8>) -> Seq<char> {
    b64_vals(b).map_values(|v: u8| b64_code(v) as char)
}

/// How many `=` characters pad a text of `n` symbols to a multiple of 4.
pub open spec fn pad_len(n: nat) -> nat {
    if n % 4 == 0 {
        0
    } else {
        (4 - n % 4) as nat
    }
}

/// The padded base64 text of a byte sequence: empty input yields empty
/// output, with no padding.
pub open spec fn b64_encode(b: Seq<u8>) -> Seq<char> {
    b64_chars(b) + Seq::new(pad_len(b64_vals(b).len()), |i| '=')
}

/// Every character is either padding or in the alphabet.
pub open spec fn all_b64(s: Seq<char>) -> bool {
    forall|i: int| 0 <= i < s.len() ==> s[i] == '=' || #[trigger] char_val(s[i]) is Some
}

/// The 6-bit values of the non-padding characters, in order.
pub open spec fn vals_of(s: Seq<char>) -> Seq<u8>
    decreases s.len(),
{
    if s.len() == 0 {
        Seq::empty()
    } else if s[0] == '=' {
        vals_of(s.drop_first())
    } else {
        seq![char_val(s[0]).unwrap()] + vals_of(s.drop_first())
    }
}

/// How many padding characters the text holds, wherever they stand.
pub open spec fn pad_count(s: Seq<char>) -> nat
    decreases s.len(),
{
    if s.len() == 0 {
        0
    } else if s[0] == '=' {
        pad_count(s.drop_first()) + 1
    } else {
        pad_count(s.drop_first())
    }
}

/// A non-padding character stands somewhere after a padding character.
pub open spec fn pad_then_data(s: Seq<char>) -> bool {
    exists|i: int, j: int| 0 <= i < j < s.len() && s[i] == '=' && s[j] != '='
}

/// The bytes carried by a sequence of 6-bit values, four values to three
/// bytes; a trailing group of two or three values carries one or two
/// bytes, and its low leftover bits are ignored.
pub open spec fn bytes_of_vals(v: Seq<u8>) -> Seq<u8>
    decreases v.len(),
{
    if v.len() >= 4 {
        seq![
            (v[0] * 4 + v[1] / 16) as u8,
            ((v[1] % 16) * 16 + v[2] / 4) as u8,
            ((v[2] % 4) * 64 + v[3]) as u8,
        ] + bytes_of_vals(v.skip(4))
    } else if v.len() == 3 {
        seq![(v[0] * 4 + v[1] / 16) as u8, ((v[1] % 16) * 16 + v[2] / 4) as u8]
    } else if v.len() == 2 {
        seq![(v[0] * 4 + v[1] / 16) as u8]
    } else {
        Seq::empty()
    }
}

/// What decoding a text yields: `None` on a character outside the
/// alphabet and padding, on a non-canonical length (a lone trailing
/// symbol), on more than two padding characters, or on data after padding
/// combined with leftover bits.
pub open spec fn b64_decode(s: Seq<char>) -> Option<Seq<u8>> {
    if !all_b64(s) {
        None
    } else if vals_of(s).len() % 4 == 1 {
        None
    } else if pad_count(s) > 2 {
        None
    } else if pad_then_data(s) && vals_of(s).len() % 4 != 0 {
        None
    } else {
        Some(bytes_of_vals(vals_of(s)))
    }
}

/// The bit formulas of one three-byte group invert exactly.
proof fn lemma_group_arith(x: u8, y: u8, z: u8)
    by (bit_vector)
    ensures
        x / 4 < 64 && (x % 4) * 16 + y / 16 < 64 && (y % 16) * 4 + z / 64 < 64 && z % 64 < 64,
        (x % 4) * 16 < 64 && (y % 16) * 4 < 64,
        (((x / 4) as u8) * 4 + (((x % 4) * 16 + y / 16) as u8) / 16) as u8 == x,
        (((((x % 4) * 16 + y / 16) as u8) % 16) * 16 + (((y % 16) * 4 + z / 64) as u8) / 4) as u8
            == y,
        (((((y % 16) * 4 + z / 64) as u8) % 4) * 64 + ((z % 64) as u8)) as u8 == z,
        (((x / 4) as u8) * 4 + (((x % 4) * 16) as u8) / 16) as u8 == x,
        (((((x % 4) * 16 + y / 16) as u8) % 16) * 16 + (((y % 16) * 4) as u8) / 4) as u8 == y,
{
}

/// Alphabet values stay below 64.
pub proof fn lemma_b64_vals_bound(b: Seq<u8>)
    ensures
        forall|i: int| 0 <= i < b64_vals(b).len() ==> #[trigger] b64_vals(b)[i] < 64,
    decreases b.len(),
{
    if b.len() >= 3 {
        lemma_group_arith(b[0], b[1], b[2]);
        lemma_b64_vals_bound(b.skip(3));
        assert forall|i: int| 0 <= i < b64_vals(b).len() implies #[trigger] b64_vals(b)[i]
            < 64 by {
            if i >= 4 {
                assert(b64_vals(b)[i] == b64_vals(b.skip(3))[i - 4]);
            }
        }
    } else if b.len() == 2 {
        lemma_group_arith(b[0], b[1], 0);
    } else if b.len() == 1 {
        lemma_group_arith(b[0], 0, 0);
    }
}

/// Splitting the input at a group boundary splits its symbols.
pub proof fn lemma_b64_vals_concat(a: Seq<u8>, b: Seq<u8>)
    requires
        a.len() % 3 == 0,
    ensures
        b64_vals(a + b) == b64_vals(a) + b64_vals(b),
    decreases a.len(),
{
    if a.len() == 0 {
        assert(a + b =~= b);
        assert(b64_vals(a) + b64_vals(b) =~= b64_vals(b));
    } else {
        let ab = a + b;
        assert(ab.len() >= 3);
        assert(ab[0] == a[0] && ab[1] == a[1] && ab[2] == a[2]);
        assert(ab.skip(3) =~= a.skip(3) + b);
        lemma_b64_vals_concat(a.skip(3), b);
        assert(b64_vals(a + b) =~= b64_vals(a) + b64_vals(b));
    }
}

/// Splitting the symbols at a group boundary splits the carried bytes.
pub proof fn lemma_bytes_of_vals_concat(a: Seq<u8>, b: Seq<u8>)
    requires
        a.len() % 4 == 0,
    ensures
        bytes_of_vals(a + b) == bytes_of_vals(a) + bytes_of_vals(b),
    decreases a.len(),
{
    if a.len() == 0 {
        assert(a + b =~= b);
        assert(bytes_of_vals(a) + bytes_of_vals(b) =~= bytes_of_vals(b));
    } else {
        let ab = a + b;
        assert(ab.len() >= 4);
        assert(ab[0] == a[0] && ab[1] == a[1] && ab[2] == a[2] && ab[3] == a[3]);
        assert(ab.skip(4) =~= a.skip(4) + b);
        lemma_bytes_of_vals_concat(a.skip(4), b);
        assert(bytes_of_vals(a + b) =~= bytes_of_vals(a) + bytes_of_vals(b));
    }
}

/// The bytes carried by the symbols of a byte sequence are that sequence.
pub proof fn lemma_vals_roundtrip(b: Seq<u8>)
    ensures
        bytes_of_vals(b64_vals(b)) == b,
    decreases b.len(),
{
    if b.len() >= 3 {
        let g = seq![
            (b[0] / 4) as u8,
            ((b[0] % 4) * 16 + b[1] / 16) as u8,
            ((b[1] % 16) * 4 + b[2] / 64) as u8,
            (b[2] % 64) as u8,
        ];
        lemma_bytes_of_vals_concat(g, b64_vals(b.skip(3)));
        lemma_vals_roundtrip(b.skip(3));
        lemma_group_arith(b[0], b[1], b[2]);
        assert(g.skip(4) =~= Seq::<u8>::empty());
        assert(bytes_of_vals(g.skip(4)) =~= Seq::<u8>::empty());
        assert(bytes_of_vals(g) =~= seq![b[0], b[1], b[2]]);
        assert(b =~= seq![b[0], b[1], b[2]] + b.skip(3));
        assert(bytes_of_vals(b64_vals(b)) =~= b);
    } else if b.len() == 2 {
        lemma_group_arith(b[0], b[1], 0);
        assert(bytes_of_vals(b64_vals(b)) =~= b);
    } else if b.len() == 1 {
        lemma_group_arith(b[0], 0, 0);
        assert(bytes_of_vals(b64_vals(b)) =~= b);
    } else {
        assert(bytes_of_vals(b64_vals(b)) =~= b);
    }
}

/// Looking an alphabet symbol up again yields its value, and no symbol is
/// the padding character or the prefix separator.
pub proof fn lemma_code_char(v: u8)
    requires
        v < 64,
    ensures
        char_val(b64_code(v) as char) == Some(v),
        b64_code(v) as char != '=',
        b64_code(v) as char != '_',
{
}

/// Symbol values and padding counts split over concatenation.
pub proof fn lemma_vals_of_concat(a: Seq<char>, b: Seq<char>)
    ensures
        vals_of(a + b) == vals_of(a) + vals_of(b),
        pad_count(a + b) == pad_count(a) + pad_count(b),
    decreases a.len(),
{
    if a.len() == 0 {
        assert(a + b =~= b);
        assert(vals_of(a) + vals_of(b) =~= vals_of(b));
    } else {
        assert((a + b).drop_first() =~= a.drop_first() + b);
        lemma_vals_of_concat(a.drop_first(), b);
        assert(vals_of(a + b) =~= vals_of(a) + vals_of(b));
    }
}

/// A text without padding characters has padding count zero, and the
/// other way round.
pub proof fn lemma_pad_count_zero(s: Seq<char>)
    ensures
        pad_count(s) == 0 <==> (forall|i: int| 0 <= i < s.len() ==> s[i] != '='),
    decreases s.len(),
{
    if s.len() > 0 {
        lemma_pad_count_zero(s.drop_first());
        if pad_count(s) == 0 {
            assert forall|i: int| 0 <= i < s.len() implies s[i] != '=' by {
                if i > 0 {
                    assert(s.drop_first()[i - 1] == s[i]);
                }
            }
        } else {
            if s[0] != '=' {
                let i = choose|i: int| 0 <= i < s.drop_first().len() && s.drop_first()[i] == '=';
                assert(s[i + 1] == '=');
            }
        }
    }
}

/// The text of the alphabet symbols of a value sequence decodes back to
/// exactly those values, with no padding in it.
pub proof fn lemma_vals_of_mapped(v: Seq<u8>)
    requires
        forall|i: int| 0 <= i < v.len() ==> v[i] < 64,
    ensures
        vals_of(v.map_values(|x: u8| b64_code(x) as char)) == v,
        pad_count(v.map_values(|x: u8| b64_code(x) as char)) == 0,
        all_b64(v.map_values(|x: u8| b64_code(x) as char)),
    decreases v.len(),
{
    let m = v.map_values(|x: u8| b64_code(x) as char);
    if v.len() == 0 {
        assert(vals_of(m) =~= v);
    } else {
        lemma_code_char(v[0]);
        assert(m.drop_first() =~= v.drop_first().map_values(|x: u8| b64_code(x) as char));
        lemma_vals_of_mapped(v.drop_first());
        assert(all_b64(m)) by {
            assert forall|i: int| 0 <= i < m.len() implies m[i] == '=' || #[trigger] char_val(
                m[i],
            ) is Some by {
                lemma_code_char(v[i]);
            }
        }
        assert(vals_of(m) =~= v);
    }
}

/// A run of padding characters carries no values.
pub proof fn lemma_vals_of_padding(n: nat)
    ensures
        vals_of(Seq::new(n, |i| '=')) == Seq::<u8>::empty(),
        pad_count(Seq::new(n, |i| '=')) == n,
    decreases n,
{
    let s = Seq::new(n, |i| '=');
    if n > 0 {
        assert(s.drop_first() =~= Seq::new((n - 1) as nat, |i| '='));
        lemma_vals_of_padding((n - 1) as nat);
    }
}

/// How many symbols a byte sequence yields, against the group structure.
pub proof fn lemma_b64_vals_len(b: Seq<u8>)
    ensures
        b.len() % 3 == 0 ==> b64_vals(b).len() % 4 == 0,
        b.len() % 3 == 1 ==> b64_vals(b).len() % 4 == 2,
        b.len() % 3 == 2 ==> b64_vals(b).len() % 4 == 3,
    decreases b.len(),
{
    if b.len() >= 3 {
        lemma_b64_vals_len(b.skip(3));
    }
}

/// Decoding the unpadded symbols of any byte sequence restores it.
pub proof fn lemma_b64_chars_round_trip(b: Seq<u8>)
    ensures
        b64_decode(b64_chars(b)) == Some(b),
{
    let s = b64_chars(b);
    lemma_b64_vals_bound(b);
    lemma_vals_of_mapped(b64_vals(b));
    lemma_b64_vals_len(b);
    lemma_vals_roundtrip(b);
    assert(!pad_then_data(s)) by {
        lemma_pad_count_zero(s);
    }
}

/// Decoding is the exact inverse of encoding, for every byte sequence
/// including the empty one.
pub proof fn lemma_base64_round_trip(b: Seq<u8>)
    ensures
        b64_decode(b64_encode(b)) == Some(b),
{
    let chars = b64_chars(b);
    let pad = Seq::new(pad_len(b64_vals(b).len()), |i| '=');
    let s = b64_encode(b);
    lemma_b64_vals_bound(b);
    lemma_vals_of_mapped(b64_vals(b));
    lemma_vals_of_padding(pad_len(b64_vals(b).len()));
    lemma_vals_of_concat(chars, pad);
    lemma_pad_count_zero(chars);
    lemma_b64_vals_len(b);
    lemma_vals_roundtrip(b);
    assert(vals_of(s) =~= b64_vals(b));
    assert(all_b64(s)) by {
        assert forall|i: int| 0 <= i < s.len() implies s[i] == '=' || #[trigger] char_val(
            s[i],
        ) is Some by {
            if i < chars.len() {
                assert(s[i] == chars[i]);
            } else {
                assert(s[i] == pad[i - chars.len()]);
            }
        }
    }
    assert(pad_count(s) <= 2);
    assert(!pad_then_data(s)) by {
        if pad_then_data(s) {
            let (i, j) = choose|i: int, j: int|
                0 <= i < j < s.len() && s[i] == '=' && s[j] != '=';
            assert(i >= chars.len());
            assert(s[j] == pad[j - chars.len()]);
        }
    }
    assert(vals_of(s).len() % 4 != 1);
}

/// The alphabet symbol of a 6-bit value, as an ASCII code.
fn code_of(v: u8) -> (c: u8)
    requires
        v < 64,
    ensures
        c == b64_code(v),
        c < 128,
{
    if v < 26 {
        65 + v
    } else if v < 52 {
        97 + (v - 26)
    } else if v < 62 {
        48 + (v - 52)
    } else if v == 62 {
        43
    } else {
        47
    }
}

/// The 6-bit value of a character, or `None` outside the alphabet.
fn val_of_char(c: char) -> (r: Option<u8>)
    ensures
        r == char_val(c),
        r matches Some(v) ==> v < 64,
{
    let u = c as u32;
    if 65 <= u && u <= 90 {
        Some((u - 65) as u8)
    } else if 97 <= u && u <= 122 {
        Some((u - 97 + 26) as u8)
    } else if 48 <= u && u <= 57 {
        Some((u - 48 + 52) as u8)
    } else if u == 43 {
        Some(62)
    } else if u == 47 {
        Some(63)
    } else {
        None
    }
}

/// The ASCII codes of the unpadded base64 text of a byte sequence.
pub(crate) fn encode_codes_unpadded(b: &Vec<u8>) -> (r: Vec<u8>)
    ensures
        r@.map_values(|x: u8| x as char) == b64_chars(b@),
        r@ == b64_vals(b@).map_values(|v: u8| b64_code(v)),
        forall|i: int| 0 <= i < r@.len() ==> r@[i] < 128,
{
    let mut out: Vec<u8> = Vec::new();
    let mut i: usize = 0;
    proof {
        assert(b@.take(0) =~= Seq::<u8>::empty());
        assert(out@ =~= b64_vals(b@.take(0)).map_values(|x: u8| b64_code(x)));
    }
    while b.len() - i >= 3
        invariant
            i <= b@.len(),
            i % 3 == 0,
            out@ == b64_vals(b@.take(i as int)).map_values(|x: u8| b64_code(x)),
            forall|k: int| 0 <= k < out@.len() ==> out@[k] < 128,
        decreases b@.len() - i,
    {
        let x = b[i];
        let y = b[i + 1];
        let z = b[i + 2];
        proof {
            lemma_group_arith(x, y, z);
        }
        out.push(code_of(x / 4));
        out.push(code_of((x % 4) * 16 + y / 16));
        out.push(code_of((y % 16) * 4 + z / 64));
        out.push(code_of(z % 64));
        proof {
            let pre = b@.take(i as int);
            let g = b@.subrange(i as int, i + 3);
            assert(b@.take(i + 3) =~= pre + g);
            lemma_b64_vals_concat(pre, g);
            assert(g[0] == x && g[1] == y && g[2] == z);
            assert(g.skip(3) =~= Seq::<u8>::empty());
            assert(b64_vals(g.skip(3)) =~= Seq::<u8>::empty());
            assert(b64_vals(g) =~= seq![
                (x / 4) as u8,
                ((x % 4) * 16 + y / 16) as u8,
                ((y % 16) * 4 + z / 64) as u8,
                (z % 64) as u8,
            ]);
            assert(out@ =~= b64_vals(b@.take(i + 3)).map_values(|v: u8| b64_code(v)));
        }
        i = i + 3;
    }
    if b.len() - i == 1 {
        let x = b[i];
        proof {
            lemma_group_arith(x, 0, 0);
        }
        out.push(code_of(x / 4));
        out.push(code_of((x % 4) * 16));
        proof {
            let pre = b@.take(i as int);
            let g = b@.subrange(i as int, i + 1);
            assert(b@.take(i + 1) =~= pre + g);
            lemma_b64_vals_concat(pre, g);
            assert(b64_vals(g) =~= seq![(x / 4) as u8, ((x % 4) * 16) as u8]);
            assert(out@ =~= b64_vals(b@.take(i + 1)).map_values(|v: u8| b64_code(v)));
        }
    } else if b.len() - i == 2 {
        let x = b[i];
        let y = b[i + 1];
        proof {
            lemma_group_arith(x, y, 0);
        }
        out.push(code_of(x / 4));
        out.push(code_of((x % 4) * 16 + y / 16));
        out.push(code_of((y % 16) * 4));
        proof {
            let pre = b@.take(i as int);
            let g = b@.subrange(i as int, i + 2);
            assert(b@.take(i + 2) =~= pre + g);
            lemma_b64_vals_concat(pre, g);
            assert(b64_vals(g) =~= seq![
                (x / 4) as u8,
                ((x % 4) * 16 + y / 16) as u8,
                ((y % 16) * 4) as u8,
            ]);
            assert(out@ =~= b64_vals(b@.take(b@.len() as int)).map_values(|v: u8| b64_code(v)));
        }
    }
    proof {
        assert(b@.take(b@.len() as int) =~= b@);
        assert(out@ == b64_vals(b@).map_values(|v: u8| b64_code(v)));
        let vals = b64_vals(b@);
        let codes = vals.map_values(|v: u8| b64_code(v));
        lemma_b64_vals_bound(b@);
        assert forall|k: int| 0 <= k < out@.len() implies out@[k] < 128 by {
            assert(codes[k] == b64_code(vals[k]) && vals[k] < 64);
        }
        assert(out@.map_values(|x: u8| x as char) =~= b64_chars(b@));
    }
    out
}

/// The ASCII codes of the padded base64 text of a byte sequence.
pub(crate) fn encode_codes(b: &Vec<u8>) -> (r: Vec<u8>)
    ensures
        r@.map_values(|x: u8| x as char) == b64_encode(b@),
        forall|i: int| 0 <= i < r@.len() ==> r@[i] < 128,
{
    let mut out = encode_codes_unpadded(b);
    let n = out.len();
    let rem = n % 4;
    if rem == 2 {
        out.push(61);
        out.push(61);
    } else if rem == 3 {
        out.push(61);
    }
    proof {
        lemma_b64_vals_len(b@);
        let vals = b64_vals(b@);
        let codes = vals.map_values(|v: u8| b64_code(v));
        let pads = Seq::new(pad_len(vals.len()), |k| 61u8);
        assert(out@ =~= codes + pads);
        assert(out@.map_values(|x: u8| x as char) =~= b64_encode(b@));
    }
    out
}

/// Encodes the UTF-8 bytes of the input through the base64 alphabet,
/// padding the text with `=` to a multiple of four characters; empty
/// input yields empty output.
pub fn base64_encode(input: String) -> (r: String)
    ensures
        r@ == b64_encode(encode_utf8(input@)),
{
    let bytes: Vec<u8> = input.as_str().as_bytes_vec();
    let codes = encode_codes(&bytes);
    let r = crate::utils::ascii_to_string(codes);
    proof {
        assert(r@ =~= b64_encode(encode_utf8(input@)));
    }
    r
}

/// Appending one character extends the data-after-padding condition in
/// exactly one way.
proof fn lemma_ptd_push(s: Seq<char>, c: char)
    ensures
        pad_then_data(s.push(c)) == (pad_then_data(s) || (pad_count(s) > 0 && c != '=')),
{
    lemma_pad_count_zero(s);
    let t = s.push(c);
    if pad_then_data(t) {
        let (i, j) = choose|i: int, j: int| 0 <= i < j < t.len() && t[i] == '=' && t[j] != '=';
        if j < s.len() {
            assert(s[i] == '=' && s[j] != '=');
            assert(pad_then_data(s));
        } else {
            assert(t[i] == s[i]);
            assert(pad_count(s) > 0 && c != '=');
        }
    }
    if pad_then_data(s) {
        let (i, j) = choose|i: int, j: int| 0 <= i < j < s.len() && s[i] == '=' && s[j] != '=';
        assert(t[i] == '=' && t[j] != '=');
        assert(pad_then_data(t));
    }
    if pad_count(s) > 0 && c != '=' {
        assert(exists|i: int| 0 <= i < s.len() && s[i] == '=');
        let i = choose|i: int| 0 <= i < s.len() && s[i] == '=';
        assert(t[i] == '=' && t[s.len() as int] != '=');
        assert(pad_then_data(t));
    }
}

/// Decodes a base64 text back to bytes, ignoring `=` as a counted
/// padding marker (so unpadded text is tolerated) and rejecting a
/// character outside the alphabet, a lone trailing symbol, more than two
/// padding characters, and data after padding combined with leftover
/// bits.
pub fn base64_decode(encoded: &str) -> (r: Option<Vec<u8>>)
    ensures
        (r is Some) == (b64_decode(encoded@) is Some),
        r matches Some(v) ==> Some(v@) == b64_decode(encoded@),
{
    let n = encoded.unicode_len();
    let mut vals: Vec<u8> = Vec::new();
    let mut pad: usize = 0;
    let mut ptd = false;
    let mut i: usize = 0;
    proof {
        assert(encoded@.take(0) =~= Seq::<char>::empty());
    }
    while i < n
        invariant
            i <= n,
            n == encoded@.len(),
            vals@ == vals_of(encoded@.take(i as int)),
            forall|k: int| 0 <= k < vals@.len() ==> vals@[k] < 64,
            pad == pad_count(encoded@.take(i as int)),
            pad <= i,
            ptd == pad_then_data(encoded@.take(i as int)),
            forall|k: int|
                0 <= k < i ==> encoded@[k] == '=' || #[trigger] char_val(encoded@[k]) is Some,
        decreases n - i,
    {
        let c = encoded.get_char(i);
        let ghost pre = encoded@.take(i as int);
        let ghost cur = encoded@.take(i + 1);
        proof {
            assert(cur =~= pre.push(c));
            assert(cur =~= pre + seq![c]);
            lemma_vals_of_concat(pre, seq![c]);
            assert(seq![c].drop_first() =~= Seq::<char>::empty());
            assert(vals_of(Seq::<char>::empty()) == Seq::<u8>::empty());
            assert(pad_count(Seq::<char>::empty()) == 0);
            lemma_ptd_push(pre, c);
        }
        match val_of_char(c) {
            Some(v) => {
                proof {
                    assert(c != '=');
                    assert(vals_of(seq![c]) =~= seq![v]);
                    assert(pad_count(seq![c]) == 0);
                }
                if pad > 0 {
                    ptd = true;
                }
                vals.push(v);
            },
            None => {
                if c == '=' {
                    proof {
                        assert(vals_of(seq![c]) =~= Seq::<u8>::empty());
                        assert(pad_count(seq![c]) == 1);
                    }
                    pad = pad + 1;
                } else {
                    proof {
                        assert(!(encoded@[i as int] == '=' || char_val(encoded@[i as int])
                            is Some));
                        assert(!all_b64(encoded@));
                    }
                    return None;
                }
            },
        }
        i = i + 1;
    }
    proof {
        assert(encoded@.take(n as int) =~= encoded@);
    }
    let nv = vals.len();
    if nv % 4 == 1 {
        return None;
    }
    if pad > 2 {
        return None;
    }
    if ptd && nv % 4 != 0 {
        return None;
    }
    let mut out: Vec<u8> = Vec::new();
    let mut j: usize = 0;
    proof {
        assert(vals@.take(0) =~= Seq::<u8>::empty());
        assert(bytes_of_vals(vals@.take(0)) =~= Seq::<u8>::empty());
    }
    while nv - j >= 4
        invariant
            j <= nv,
            j % 4 == 0,
            nv == vals@.len(),
            forall|k: int| 0 <= k < vals@.len() ==> vals@[k] < 64,
            out@ == bytes_of_vals(vals@.take(j as int)),
        decreases nv - j,
    {
        let v0 = vals[j];
        let v1 = vals[j + 1];
        let v2 = vals[j + 2];
        let v3 = vals[j + 3];
        out.push(v0 * 4 + v1 / 16);
        out.push((v1 % 16) * 16 + v2 / 4);
        out.push((v2 % 4) * 64 + v3);
        proof {
            let pre = vals@.take(j as int);
            let g = vals@.subrange(j as int, j + 4);
            assert(vals@.take(j + 4) =~= pre + g);
            lemma_bytes_of_vals_concat(pre, g);
            assert(g[0] == v0 && g[1] == v1 && g[2] == v2 && g[3] == v3);
            assert(g.skip(4) =~= Seq::<u8>::empty());
            assert(bytes_of_vals(g.skip(4)) =~= Seq::<u8>::empty());
            assert(bytes_of_vals(g) =~= seq![
                (v0 * 4 + v1 / 16) as u8,
                ((v1 % 16) * 16 + v2 / 4) as u8,
                ((v2 % 4) * 64 + v3) as u8,
            ]);
            assert(out@ =~= bytes_of_vals(vals@.take(j + 4)));
        }
        j = j + 4;
    }
    if nv - j == 2 {
        let v0 = vals[j];
        let v1 = vals[j + 1];
        out.push(v0 * 4 + v1 / 16);
        proof {
            let pre = vals@.take(j as int);
            let g = vals@.subrange(j as int, j + 2);
            assert(vals@.take(j + 2) =~= pre + g);
            lemma_bytes_of_vals_concat(pre, g);
            assert(g[0] == v0 && g[1] == v1);
            assert(bytes_of_vals(g) =~= seq![(v0 * 4 + v1 / 16) as u8]);
            assert(out@ =~= bytes_of_vals(vals@.take(j + 2)));
        }
    } else if nv - j == 3 {
        let v0 = vals[j];
        let v1 = vals[j + 1];
        let v2 = vals[j + 2];
        out.push(v0 * 4 + v1 / 16);
        out.push((v1 % 16) * 16 + v2 / 4);
        proof {
            let pre = vals@.take(j as int);
            let g = vals@.subrange(j as int, j + 3);
            assert(vals@.take(j + 3) =~= pre + g);
            lemma_bytes_of_vals_concat(pre, g);
            assert(g[0] == v0 && g[1] == v1 && g[2] == v2);
            assert(bytes_of_vals(g) =~= seq![
                (v0 * 4 + v1 / 16) as u8,
                ((v1 % 16) * 16 + v2 / 4) as u8,
            ]);
            assert(out@ =~= bytes_of_vals(vals@.take(j + 3)));
        }
    }
    proof {
        assert(vals@.take(nv as int) =~= vals@);
        assert(out@ == bytes_of_vals(vals_of(encoded@)));
    }
    Some(out)
}

} // verus!
