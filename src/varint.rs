use vstd::prelude::*;
use crate::error::SchemError;

verus! {

/// The varint of `v`: seven bits per byte, least significant group first, the
/// high bit set on every byte but the last.
pub open spec fn varint(v: nat) -> Seq<u8>
    decreases v,
{
    if v < 128 {
        seq![v as u8]
    } else {
        seq![((v % 128) + 128) as u8] + varint(v / 128)
    }
}

/// The varints of `vs`, one after another.
pub open spec fn varints(vs: Seq<nat>) -> Seq<u8>
    decreases vs.len(),
{
    if vs.len() == 0 {
        Seq::empty()
    } else {
        varint(vs[0]) + varints(vs.drop_first())
    }
}

/// What reading a varint yields: its value and the number of bytes it took, or why
/// it could not be read.
pub enum VarintRead {
    Value(nat, nat),
    Overflow,
    Truncated,
}

/// Reads the varint whose byte number `k` (counted from zero) stands at index `i`
/// of `s`. A sixth byte is refused whatever it holds.
pub open spec fn read_varint(s: Seq<u8>, i: int, k: nat) -> VarintRead
    decreases 5 - k,
{
    if i < 0 || i >= s.len() {
        VarintRead::Truncated
    } else if k >= 5 {
        VarintRead::Overflow
    } else if s[i] < 128 {
        VarintRead::Value(s[i] as nat, 1)
    } else {
        match read_varint(s, i + 1, k + 1) {
            VarintRead::Value(v, n) => VarintRead::Value((s[i] - 128) as nat + 128 * v, n + 1),
            other => other,
        }
    }
}

pub open spec fn pow128(k: nat) -> nat
    decreases k,
{
    if k == 0 {
        1
    } else {
        128 * pow128((k - 1) as nat)
    }
}

/// What reading from byte number `k` gives, seen from the varint's first byte,
/// once the first `k` bytes have contributed `acc`.
pub open spec fn lift(r: VarintRead, acc: nat, k: nat) -> VarintRead {
    match r {
        VarintRead::Value(v, n) => VarintRead::Value(acc + pow128(k) * v, n + k),
        other => other,
    }
}

proof fn lemma_pow128_pos(k: nat)
    ensures
        pow128(k) >= 1,
        k >= 1 ==> pow128(k) >= 128,
    decreases k,
{
    if k > 0 {
        lemma_pow128_pos((k - 1) as nat);
    }
}

proof fn lemma_varint_len_bound(v: nat, k: nat)
    requires
        k >= 1,
    ensures
        varint(v).len() >= 1,
        varint(v).len() <= k <==> v < pow128(k),
    decreases v,
{
    lemma_pow128_pos(k);
    if v >= 128 {
        lemma_varint_len_bound(v / 128, 1);
        assert(varint(v).len() == 1 + varint(v / 128).len());
        assert(pow128(k) == 128 * pow128((k - 1) as nat));
        if k == 1 {
            assert(pow128(1) == 128) by {
                reveal_with_fuel(pow128, 2);
            }
        }
        if k >= 2 {
            let p = pow128((k - 1) as nat);
            lemma_varint_len_bound(v / 128, (k - 1) as nat);
            assert(v / 128 < p <==> v < 128 * p) by (nonlinear_arith);
        }
    }
}

proof fn lemma_varint_len(v: nat)
    ensures
        varint(v).len() >= 1,
        v < pow128(5) ==> varint(v).len() <= 5,
        v >= pow128(5) ==> varint(v).len() >= 6,
{
    lemma_varint_len_bound(v, 5);
}

proof fn lemma_read_own(v: nat, s: Seq<u8>, i: int, k: nat)
    requires
        0 <= i,
        i + varint(v).len() <= s.len(),
        s.subrange(i, i + varint(v).len()) == varint(v),
    ensures
        k + varint(v).len() <= 5 ==> read_varint(s, i, k) == VarintRead::Value(
            v,
            varint(v).len(),
        ),
        k + varint(v).len() > 5 ==> read_varint(s, i, k) == VarintRead::Overflow,
    decreases v,
{
    lemma_varint_len(v);
    assert(s[i] == varint(v)[0]);
    if v >= 128 {
        let w = varint(v / 128);
        assert(varint(v) == seq![((v % 128) + 128) as u8] + w);
        assert(s.subrange(i + 1, i + 1 + w.len()) == w) by {
            assert(s.subrange(i + 1, i + 1 + w.len()) =~= s.subrange(i, i + varint(v).len()).subrange(1, 1 + w.len() as int));
            assert(varint(v).subrange(1, 1 + w.len() as int) =~= w);
        }
        if k < 5 {
            lemma_read_own(v / 128, s, i + 1, k + 1);
        }
    }
}

/// A varint of a value below 2^35 reads back as that value and its length; one of a
/// larger value, which takes six bytes or more, is refused as an overflow.
pub proof fn lemma_varint_round_trip(v: nat, rest: Seq<u8>)
    ensures
        v < pow128(5) ==> read_varint(varint(v) + rest, 0, 0) == VarintRead::Value(
            v,
            varint(v).len(),
        ),
        v >= pow128(5) ==> read_varint(varint(v) + rest, 0, 0) == VarintRead::Overflow,
{
    let s = varint(v) + rest;
    lemma_varint_len(v);
    assert(s.subrange(0, varint(v).len() as int) =~= varint(v));
    lemma_read_own(v, s, 0, 0);
}

/// Appends the varint of `v` to `out`.
pub fn encode_varint(v: u64, out: &mut Vec<u8>)
    ensures
        final(out)@ == old(out)@ + varint(v as nat),
{
    let mut rest: u64 = v;
    while rest >= 128
        invariant
            old(out)@ + varint(v as nat) == out@ + varint(rest as nat),
        decreases rest,
    {
        let b: u8 = ((rest % 128) + 128) as u8;
        let ghost before = out@;
        out.push(b);
        proof {
            assert(varint(rest as nat) == seq![b] + varint((rest / 128) as nat));
            assert(before + (seq![b] + varint((rest / 128) as nat)) =~= out@ + varint(
                (rest / 128) as nat,
            ));
        }
        rest = rest / 128;
    }
    let ghost before = out@;
    out.push(rest as u8);
    assert(before + varint(rest as nat) =~= out@);
}

/// Reads the varint that starts at `start`.
pub fn decode_varint(data: &Vec<u8>, start: usize) -> (r: Result<(u64, usize), SchemError>)
    ensures
        match read_varint(data@, start as int, 0) {
            VarintRead::Value(v, n) => r matches Ok((a, b)) && a == v && b == n,
            VarintRead::Overflow => r matches Err(SchemError::VarintOverflow { offset }) && offset
                == start,
            VarintRead::Truncated => r matches Err(SchemError::TruncatedVarint { offset })
                && offset == start,
        },
        r matches Ok((v, n)) ==> v < pow128(5) && 1 <= n <= 5 && start + n <= data@.len(),
{
    let ghost s = data@;
    let mut i: usize = start;
    let mut k: usize = 0;
    let mut acc: u64 = 0;
    let mut scale: u64 = 1;
    proof {
        reveal_with_fuel(pow128, 6);
    }
    loop
        invariant
            s == data@,
            i == start + k,
            k <= 5,
            scale == pow128(k as nat),
            acc < scale,
            pow128(5) == 34359738368,
            read_varint(s, start as int, 0) == lift(read_varint(s, i as int, k as nat), acc as nat, k as nat),
        decreases 5 - k,
    {
        proof {
            lemma_pow_bounds(k as nat);
        }
        if i >= data.len() {
            assert(read_varint(s, start as int, 0) == VarintRead::Truncated);
            return Err(SchemError::TruncatedVarint { offset: start as u64 });
        }
        if k >= 5 {
            return Err(SchemError::VarintOverflow { offset: start as u64 });
        }
        let b: u8 = data[i];
        if b < 128 {
            proof {
                assert(acc + scale * b < scale * 128) by (nonlinear_arith)
                    requires acc < scale, b < 128;
            }
            return Ok((acc + scale * (b as u64), k + 1));
        }
        let ghost g = (b - 128) as nat;
        proof {
            assert(acc + scale * g < scale * 128) by (nonlinear_arith)
                requires acc < scale, g < 128;
            assert(scale * 128 <= 268435456 * 128) by (nonlinear_arith)
                requires scale <= 268435456;
        }
        let next: u64 = acc + scale * ((b - 128) as u64);
        proof {
            assert(acc + scale * g < scale * 128) by (nonlinear_arith)
                requires acc < scale, g < 128;
            assert(pow128((k + 1) as nat) == 128 * scale);
            match read_varint(s, i + 1, (k + 1) as nat) {
                VarintRead::Value(v, n) => {
                    assert(acc + scale * (g + 128 * v) == next + (128 * scale) * v) by (nonlinear_arith)
                        requires next == acc + scale * g;
                },
                _ => {},
            }
        }
        acc = next;
        scale = scale * 128;
        i = i + 1;
        k = k + 1;
    }
}

/// Reads varints from index `i` to the end of `s`; the first varint that cannot be
/// read ends it with its error.
pub open spec fn read_stream(s: Seq<u8>, i: int) -> Result<Seq<nat>, SchemError>
    decreases s.len() - i,
{
    if i < 0 || i >= s.len() {
        Ok(Seq::empty())
    } else {
        match read_varint(s, i, 0) {
            VarintRead::Value(v, n) => if n == 0 || i + n > s.len() {
                Ok(Seq::empty())
            } else {
                match read_stream(s, i + n) {
                    Ok(vs) => Ok(seq![v] + vs),
                    Err(e) => Err(e),
                }
            },
            VarintRead::Overflow => Err(SchemError::VarintOverflow { offset: i as u64 }),
            VarintRead::Truncated => Err(SchemError::TruncatedVarint { offset: i as u64 }),
        }
    }
}

pub open spec fn nats(vs: Seq<u64>) -> Seq<nat> {
    vs.map_values(|v: u64| v as nat)
}

/// Reads every varint of `data`, in order.
pub fn decode_varints(data: &Vec<u8>) -> (r: Result<Vec<u64>, SchemError>)
    ensures
        match read_stream(data@, 0) {
            Ok(vs) => r matches Ok(out) && nats(out@) == vs,
            Err(e) => r == Err::<Vec<u64>, SchemError>(e),
        },
        r matches Ok(out) ==> out@.len() <= data@.len() && forall|k: int|
            0 <= k < out@.len() ==> out@[k] < 0x8_0000_0000,
{
    let mut out: Vec<u64> = Vec::new();
    let mut i: usize = 0;
    while i < data.len()
        invariant
            i <= data@.len(),
            out@.len() <= i,
            forall|k: int| 0 <= k < out@.len() ==> out@[k] < 0x8_0000_0000,
            read_stream(data@, 0) == match read_stream(data@, i as int) {
                Ok(vs) => Ok(nats(out@) + vs),
                Err(e) => Err::<Seq<nat>, SchemError>(e),
            },
        decreases data@.len() - i,
    {
        let (v, n) = decode_varint(data, i)?;
        proof {
            lemma_pow_bounds(5);
        }
        let ghost before = out@;
        out.push(v);
        proof {
            assert(nats(out@) =~= nats(before) + seq![v as nat]);
            match read_stream(data@, i + n) {
                Ok(vs) => {
                    assert(nats(before) + (seq![v as nat] + vs) =~= nats(out@) + vs);
                },
                Err(e) => {},
            }
        }
        i = i + n;
    }
    proof {
        assert(nats(out@) + Seq::<nat>::empty() =~= nats(out@));
    }
    Ok(out)
}

proof fn lemma_read_varints(vs: Seq<nat>, s: Seq<u8>, i: int)
    requires
        0 <= i <= s.len(),
        s.subrange(i, s.len() as int) == varints(vs),
        forall|j: int| 0 <= j < vs.len() ==> vs[j] < pow128(5),
    ensures
        read_stream(s, i) == Ok::<Seq<nat>, SchemError>(vs),
    decreases vs.len(),
{
    if vs.len() == 0 {
        assert(s.subrange(i, s.len() as int).len() == 0);
        assert(vs =~= Seq::<nat>::empty());
    } else {
        let v = vs[0];
        let w = varint(v);
        lemma_varint_len(v);
        assert(varints(vs) == w + varints(vs.drop_first()));
        assert(s.subrange(i, i + w.len()) =~= s.subrange(i, s.len() as int).subrange(0, w.len() as int));
        assert((w + varints(vs.drop_first())).subrange(0, w.len() as int) =~= w);
        lemma_read_own(v, s, i, 0);
        assert(s.subrange(i + w.len(), s.len() as int) =~= s.subrange(i, s.len() as int).subrange(w.len() as int, s.len() - i));
        assert((w + varints(vs.drop_first())).subrange(w.len() as int, s.len() - i) =~= varints(vs.drop_first()));
        lemma_read_varints(vs.drop_first(), s, i + w.len());
        assert(seq![v] + vs.drop_first() =~= vs);
        assert(i < s.len());
        assert(read_varint(s, i, 0) == VarintRead::Value(v, w.len()));
    }
}

/// A stream of varints of values below 2^35 reads back as those values.
pub proof fn lemma_varints_round_trip(vs: Seq<nat>)
    requires
        forall|j: int| 0 <= j < vs.len() ==> vs[j] < pow128(5),
    ensures
        read_stream(varints(vs), 0) == Ok::<Seq<nat>, SchemError>(vs),
{
    assert(varints(vs).subrange(0, varints(vs).len() as int) =~= varints(vs));
    lemma_read_varints(vs, varints(vs), 0);
}

/// The varints of `vs` followed by that of `v` are the varints of `vs` with `v` added.
pub proof fn lemma_varints_push(vs: Seq<nat>, v: nat)
    ensures
        varints(vs.push(v)) == varints(vs) + varint(v),
    decreases vs.len(),
{
    if vs.len() == 0 {
        assert(vs.push(v).drop_first() =~= Seq::<nat>::empty());
        assert(vs.push(v)[0] == v);
        assert(varints(Seq::<nat>::empty()) =~= Seq::<u8>::empty());
        assert(varints(vs.push(v)) =~= varint(v) + Seq::<u8>::empty());
        assert(varints(vs) + varint(v) =~= varint(v));
    } else {
        assert(vs.push(v).drop_first() =~= vs.drop_first().push(v));
        lemma_varints_push(vs.drop_first(), v);
        assert(varints(vs.push(v)) =~= varint(vs[0]) + (varints(vs.drop_first()) + varint(v)));
    }
}

pub proof fn lemma_pow_bounds(k: nat)
    requires
        k <= 5,
    ensures
        pow128(k) <= 34359738368,
        k < 5 ==> pow128(k) <= 268435456,
{
    reveal_with_fuel(pow128, 6);
}

} // verus!
