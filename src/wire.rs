//! Byte-level building blocks of the MQTT wire format: the variable-length
//! Remaining Length field, big-endian integers and length-prefixed fields.
use vstd::prelude::*;

verus! {

/// How a Remaining Length field at the front of a byte sequence reads.
pub enum LengthField {
    /// The bytes end before the field does.
    Incomplete,
    /// The field runs past four bytes, so its value would reach 128^4.
    TooLarge,
    /// The field holds `value` and takes `size` bytes.
    Complete { value: nat, size: nat },
}

/// Reads a Remaining Length field at the front of `s`, allowing at most
/// `budget` more bytes: seven data bits per byte, least significant group
/// first, the high bit marking that another byte follows.
pub open spec fn varint(s: Seq<u8>, budget: nat) -> LengthField
    decreases budget,
{
    if s.len() == 0 {
        LengthField::Incomplete
    } else if s[0] < 128 {
        LengthField::Complete { value: s[0] as nat, size: 1 }
    } else if budget <= 1 {
        LengthField::TooLarge
    } else {
        match varint(s.drop_first(), (budget - 1) as nat) {
            LengthField::Complete { value, size } => LengthField::Complete {
                value: (s[0] - 128) as nat + 128 * value,
                size: size + 1,
            },
            other => other,
        }
    }
}

/// The Remaining Length field of a frame, which starts at its second byte.
pub open spec fn length_field(frame: Seq<u8>) -> LengthField {
    if frame.len() == 0 {
        LengthField::Incomplete
    } else {
        varint(frame.skip(1), 4)
    }
}

/// The bytes that encode `x` as a Remaining Length field.
pub open spec fn varint_bytes(x: nat) -> Seq<u8>
    decreases x,
{
    if x < 128 {
        seq![x as u8]
    } else {
        seq![(x % 128 + 128) as u8] + varint_bytes(x / 128)
    }
}

/// The largest value a Remaining Length field can hold.
pub const MAX_REMAINING_LENGTH: usize = 268435455;

/// A big-endian 16-bit integer at `pos`.
pub open spec fn u16_at(b: Seq<u8>, pos: int) -> u16 {
    (b[pos] as int * 256 + b[pos + 1] as int) as u16
}

/// A field of `b` at `pos` made of a big-endian 16-bit length and that many
/// bytes: its contents and the position after it.
pub open spec fn field_at(b: Seq<u8>, pos: int) -> Option<(Seq<u8>, int)> {
    if 0 <= pos && pos + 2 <= b.len() && pos + 2 + u16_at(b, pos) <= b.len() {
        let end = pos + 2 + u16_at(b, pos);
        Some((b.subrange(pos + 2, end), end))
    } else {
        None
    }
}

/// The two big-endian bytes of `x`.
pub open spec fn u16_bytes(x: u16) -> Seq<u8> {
    seq![(x / 256) as u8, (x % 256) as u8]
}

/// Reads the big-endian 16-bit integer at `pos`.
pub fn read_u16(b: &[u8], pos: usize) -> (r: u16)
    requires
        pos + 2 <= b@.len(),
    ensures
        r == u16_at(b@, pos as int),
{
    let hi = b[pos] as u16;
    let lo = b[pos + 1] as u16;
    hi * 256 + lo
}

/// Reads the length-prefixed field at `pos`; `None` where the bytes end first.
pub fn read_field(b: &[u8], pos: usize) -> (r: Option<(&[u8], usize)>)
    ensures
        match field_at(b@, pos as int) {
            None => r is None,
            Some((f, end)) => r matches Some((g, e)) && g@ == f && e == end,
        },
{
    if b.len() < 2 || pos > b.len() - 2 {
        return None;
    }
    let n = read_u16(b, pos) as usize;
    if n > b.len() - 2 - pos {
        return None;
    }
    let end = pos + 2 + n;
    Some((vstd::slice::slice_subrange(b, pos + 2, end), end))
}

/// Reads the Remaining Length field that starts at the second byte of `frame`:
/// its value and size, `Err(true)` where it is too large, `Err(false)` where
/// the bytes end first.
pub fn read_length_field(frame: &[u8]) -> (r: Result<(usize, usize), bool>)
    ensures
        match length_field(frame@) {
            LengthField::Incomplete => r == Err::<(usize, usize), bool>(false),
            LengthField::TooLarge => r == Err::<(usize, usize), bool>(true),
            LengthField::Complete { value, size } => r matches Ok((v, n)) && v == value && n
                == size,
        },
        r matches Ok((v, n)) ==> 1 <= n <= 4 && v <= MAX_REMAINING_LENGTH,
{
    let mut value: usize = 0;
    let mut multiplier: usize = 1;
    let mut i: usize = 0;
    loop
        invariant
            i < 4,
            i == 0 || i + 1 <= frame@.len(),
            multiplier == pow128(i as nat),
            value < multiplier,
            frame@.len() == 0 ==> length_field(frame@) == LengthField::Incomplete,
            // what remains to be read decides the result
            frame@.len() >= 1 + i ==> match varint(frame@.skip(1 + i as int), (4 - i) as nat) {
                LengthField::Complete { value: v2, size: n2 } => length_field(frame@)
                    == (LengthField::Complete { value: (value + multiplier * v2) as nat, size: (i + n2) as nat }),
                other => length_field(frame@) == other,
            },
        decreases 4 - i,
    {
        if i + 1 >= frame.len() {
            proof {
                if frame@.len() > 0 {
                    assert(frame@.skip(1 + i as int).len() == 0);
                }
            }
            return Err(false);
        }
        let byte = frame[i + 1];
        proof {
            assert(frame@.skip(1 + i as int)[0] == byte);
            assert(frame@.skip(1 + i as int).drop_first() =~= frame@.skip(1 + i as int + 1));
        }
        if byte < 128 {
            proof {
                lemma_pow128_bound(i as nat);
                assert(multiplier * byte <= 2097152 * 255) by (nonlinear_arith)
                    requires
                        multiplier <= 2097152,
                        byte < 128,
                ;
                assert(value + multiplier * byte <= MAX_REMAINING_LENGTH) by (nonlinear_arith)
                    requires
                        multiplier <= 2097152,
                        value < multiplier,
                        byte < 128,
                ;
            }
            return Ok((value + multiplier * byte as usize, i + 1));
        }
        if i == 3 {
            return Err(true);
        }
        proof {
            lemma_pow128_bound(i as nat);
            lemma_pow128_step(i as nat);
            assert(multiplier * (byte - 128) <= 2097152 * 127) by (nonlinear_arith)
                requires
                    multiplier <= 2097152,
                    byte - 128 < 128,
            ;
            assert(value + multiplier * (byte - 128) < multiplier * 128) by (nonlinear_arith)
                requires
                    value < multiplier,
                    byte - 128 < 128,
            ;
            let tail = frame@.skip(1 + i as int + 1);
            if let LengthField::Complete { value: v2, size: n2 } = varint(tail, (3 - i) as nat) {
                assert(multiplier * ((byte - 128) + 128 * v2) == multiplier * (byte - 128) + (
                multiplier * 128) * v2) by (nonlinear_arith);
            }
        }
        value = value + multiplier * (byte - 128) as usize;
        multiplier = multiplier * 128;
        i = i + 1;
    }
}

pub open spec fn pow128(n: nat) -> nat
    decreases n,
{
    if n == 0 {
        1
    } else {
        128 * pow128((n - 1) as nat)
    }
}

/// A Remaining Length field reads back as the value it was written from,
/// whatever follows it.
pub proof fn lemma_varint_round_trip(n: nat, budget: nat, rest: Seq<u8>)
    requires
        1 <= budget,
        n < pow128(budget),
    ensures
        varint(varint_bytes(n) + rest, budget) == (LengthField::Complete {
            value: n,
            size: varint_bytes(n).len(),
        }),
        1 <= varint_bytes(n).len() <= budget,
    decreases n,
{
    let s = varint_bytes(n) + rest;
    if n < 128 {
        assert(s[0] == n as u8);
    } else {
        assert(s[0] == (n % 128 + 128) as u8);
        if budget <= 1 {
            assert(pow128(budget) == 128) by {
                reveal_with_fuel(pow128, 2);
            }
        }
        assert(pow128(budget) == 128 * pow128((budget - 1) as nat));
        assert(n / 128 < pow128((budget - 1) as nat));
        lemma_varint_round_trip(n / 128, (budget - 1) as nat, rest);
        assert(s.drop_first() =~= varint_bytes(n / 128) + rest);
    }
}

/// A frame made of a header byte, a Remaining Length field for `data` and
/// `data` itself reads back as such.
pub proof fn lemma_frame_layout(header: u8, data: Seq<u8>)
    requires
        data.len() <= MAX_REMAINING_LENGTH,
    ensures
        ({
            let f = seq![header] + varint_bytes(data.len()) + data;
            let size = varint_bytes(data.len()).len();
            &&& length_field(f) == (LengthField::Complete { value: data.len(), size })
            &&& 1 <= size <= 4
            &&& f.len() == 1 + size + data.len()
            &&& f[0] == header
            &&& f.skip(1 + size as int) =~= data
        }),
{
    let f = seq![header] + varint_bytes(data.len()) + data;
    assert(pow128(4) == 268435456) by {
        reveal_with_fuel(pow128, 5);
    }
    lemma_varint_round_trip(data.len(), 4, data);
    assert(f.skip(1) =~= varint_bytes(data.len()) + data);
}

/// Reading a Remaining Length field that is not cut short does not depend on
/// what follows it.
pub proof fn lemma_varint_prefix(s: Seq<u8>, t: Seq<u8>, budget: nat)
    requires
        varint(s, budget) != LengthField::Incomplete,
    ensures
        varint(s + t, budget) == varint(s, budget),
    decreases budget,
{
    assert((s + t)[0] == s[0]);
    if s[0] >= 128 && budget > 1 {
        assert((s + t).drop_first() =~= s.drop_first() + t);
        lemma_varint_prefix(s.drop_first(), t, (budget - 1) as nat);
    }
}

/// A Remaining Length field holds less than 128 to the power of the bytes
/// it may take.
pub proof fn lemma_varint_bound(s: Seq<u8>, budget: nat)
    requires
        budget >= 1,
    ensures
        varint(s, budget) matches LengthField::Complete { value, size } ==> value < pow128(
            budget,
        ) && 1 <= size <= budget,
    decreases budget,
{
    if s.len() > 0 && s[0] >= 128 && budget > 1 {
        lemma_varint_bound(s.drop_first(), (budget - 1) as nat);
        if let LengthField::Complete { value, size } = varint(s.drop_first(), (budget - 1) as nat) {
            let b: int = s[0] - 128;
            let p: int = pow128((budget - 1) as nat) as int;
            assert(b + 128 * value < 128 * p) by (nonlinear_arith)
                requires
                    value < p,
                    0 <= b < 128,
            ;
        }
    } else if s.len() > 0 && s[0] < 128 && budget >= 1 {
        assert(pow128(budget) >= 128) by {
            lemma_pow128_grows(budget);
        }
    }
}

proof fn lemma_pow128_grows(n: nat)
    requires
        n >= 1,
    ensures
        pow128(n) >= 128,
    decreases n,
{
    if n > 1 {
        lemma_pow128_grows((n - 1) as nat);
    } else {
        reveal_with_fuel(pow128, 2);
    }
}

proof fn lemma_pow128_step(n: nat)
    ensures
        pow128(n + 1) == 128 * pow128(n),
{
}

proof fn lemma_pow128_bound(n: nat)
    requires
        n < 4,
    ensures
        pow128(n) <= 2097152,
{
    reveal_with_fuel(pow128, 4);
}

/// Appends the Remaining Length field that encodes `len`.
pub fn put_length(len: usize, dst: &mut Vec<u8>)
    requires
        len <= MAX_REMAINING_LENGTH,
    ensures
        final(dst)@ == old(dst)@ + varint_bytes(len as nat),
{
    let mut x = len;
    loop
        invariant_except_break
            dst@ + varint_bytes(x as nat) == old(dst)@ + varint_bytes(len as nat),
        ensures
            dst@ == old(dst)@ + varint_bytes(len as nat),
        decreases x,
    {
        if x < 128 {
            dst.push(x as u8);
            break;
        }
        dst.push((x % 128 + 128) as u8);
        x = x / 128;
    }
}

} // verus!
