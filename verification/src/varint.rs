//! Variable-length encoding of unsigned integers (LEB128): seven bits per
//! byte, lowest group first, the high bit set on every byte but the last.
use vstd::prelude::*;

verus! {

/// The encoding of `v`.
pub open spec fn varint_bytes(v: nat) -> Seq<u8>
    decreases v,
{
    if v < 128 {
        seq![v as u8]
    } else {
        seq![(v % 128 + 128) as u8] + varint_bytes(v / 128)
    }
}

/// `128^k`.
pub open spec fn pow128(k: nat) -> nat
    decreases k,
{
    if k == 0 {
        1
    } else {
        128 * pow128((k - 1) as nat)
    }
}

/// The number of bytes at the front of `d` with the high bit set.
pub open spec fn cont_run(d: Seq<u8>) -> nat
    decreases d.len(),
{
    if d.len() == 0 || d[0] < 128 {
        0
    } else {
        1 + cont_run(d.skip(1))
    }
}

/// The low seven bits of the bytes of `d`, byte `j` weighted by `128^j`.
pub open spec fn chunk_sum(d: Seq<u8>) -> nat
    decreases d.len(),
{
    if d.len() == 0 {
        0
    } else {
        (d[0] % 128) as nat + 128 * chunk_sum(d.skip(1))
    }
}

/// Why bytes do not start with the encoding of a `u32`.
#[derive(Clone, Copy, Debug, PartialEq, Eq, Structural)]
pub enum VarintError {
    /// Five bytes in a row carry the continuation bit and more follow.
    TooLong,
    /// The bytes end while the continuation bit is still set.
    Unterminated,
}

/// The `u32` encoded at the front of `d` and the number of bytes that
/// encode it; a value of more than 32 bits keeps its low 32 bits.
pub open spec fn varint_of(d: Seq<u8>) -> Result<(u32, usize), VarintError> {
    let c = cont_run(d);
    if c < 5 && c < d.len() {
        Ok(((chunk_sum(d.take(c + 1int)) % 0x1_0000_0000) as u32, (c + 1) as usize))
    } else if d.len() > 5 {
        Err(VarintError::TooLong)
    } else {
        Err(VarintError::Unterminated)
    }
}

/// Append the encoding of `value`.
pub fn write_varint(out: &mut Vec<u8>, value: u32)
    ensures
        final(out)@ == old(out)@ + varint_bytes(value as nat),
{
    let mut v = value;
    let ghost start = old(out)@;
    loop
        invariant
            start == old(out)@,
            out@ + varint_bytes(v as nat) == start + varint_bytes(value as nat),
        decreases v,
    {
        let low = (v & 0x7F) as u8;
        let rest = v >> 7;
        proof {
            assert(low == v % 128) by (bit_vector)
                requires
                    low == (v & 0x7F) as u8,
            ;
            assert(rest == v / 128) by (bit_vector)
                requires
                    rest == v >> 7,
            ;
        }
        let ghost before = out@;
        if rest != 0 {
            let byte = low | 0x80;
            proof {
                assert(byte == low + 128) by (bit_vector)
                    requires
                        byte == low | 0x80,
                        low < 128,
                ;
                assert(varint_bytes(v as nat) == seq![byte] + varint_bytes(rest as nat));
            }
            out.push(byte);
            proof {
                assert(out@ + varint_bytes(rest as nat) =~= before + varint_bytes(v as nat));
            }
            v = rest;
        } else {
            out.push(low);
            proof {
                assert(v < 128);
                assert(low as nat == v as nat);
                assert(varint_bytes(v as nat) =~= seq![low]);
                assert(out@ =~= before + varint_bytes(v as nat));
            }
            return;
        }
    }
}

/// Adding one more byte at the back of a prefix adds its low bits at the
/// weight of its position.
proof fn lemma_chunk_sum_push(d: Seq<u8>, i: nat)
    requires
        i < d.len(),
    ensures
        chunk_sum(d.take(i + 1int)) == chunk_sum(d.take(i as int)) + (d[i as int] % 128) as nat
            * pow128(i),
    decreases i,
{
    if i == 0 {
        assert(d.take(1).skip(1) =~= Seq::<u8>::empty());
        assert(d.take(0) =~= Seq::<u8>::empty());
        assert(chunk_sum(Seq::<u8>::empty()) == 0);
        assert(pow128(0) == 1);
        assert(d.take(1)[0] == d[0]);
        let x = (d[0] % 128) as nat;
        assert(x * pow128(0) == x) by (nonlinear_arith)
            requires
                pow128(0) == 1,
        ;
        assert(chunk_sum(d.take(1)) == x + 128 * chunk_sum(d.take(1).skip(1)));
    } else {
        let t = d.skip(1);
        assert(d.take(i + 1int)[0] == d[0]);
        assert(d.take(i as int)[0] == d[0]);
        assert(chunk_sum(d.take(i + 1int)) == (d[0] % 128) as nat + 128 * chunk_sum(d.take(i + 1int).skip(1)));
        assert(chunk_sum(d.take(i as int)) == (d[0] % 128) as nat + 128 * chunk_sum(d.take(i as int).skip(1)));
        lemma_chunk_sum_push(t, (i - 1) as nat);
        assert(d.take(i + 1int).skip(1) =~= t.take(i as int));
        assert(d.take(i as int).skip(1) =~= t.take(i - 1));
        assert(t[i - 1] == d[i as int]);
        let x = (d[i as int] % 128) as nat;
        assert(128 * (x * pow128((i - 1) as nat)) == x * pow128(i)) by (nonlinear_arith)
            requires
                pow128(i) == 128 * pow128((i - 1) as nat),
        ;
        let a = chunk_sum(t.take(i - 1));
        let p1 = pow128((i - 1) as nat);
        assert(chunk_sum(t.take(i as int)) == a + x * p1);
        assert(chunk_sum(d.take(i + 1int)) == (d[0] % 128) as nat + 128 * (a + x * p1));
        assert(chunk_sum(d.take(i as int)) == (d[0] % 128) as nat + 128 * a);
        assert(128 * (a + x * p1) == 128 * a + 128 * (x * p1)) by (nonlinear_arith);
    }
}

/// The run of continuation bytes goes on past the first `j` of them.
proof fn lemma_cont_run_step(d: Seq<u8>, j: nat)
    requires
        j < d.len(),
        cont_run(d) == j + cont_run(d.skip(j as int)),
    ensures
        d[j as int] >= 128 ==> cont_run(d) == (j + 1) + cont_run(d.skip(j + 1int)),
        d[j as int] < 128 ==> cont_run(d) == j,
{
    assert(d.skip(j as int).skip(1) =~= d.skip(j + 1int));
}

/// Read the encoding of a `u32` in `data` at `start`: the value and the
/// number of bytes read.
pub fn read_varint_at(data: &[u8], start: usize) -> (r: Result<(u32, usize), VarintError>)
    requires
        start <= data@.len(),
    ensures
        r == varint_of(data@.skip(start as int)),
{
    let total = data.len();
    let n = total - start;
    let ghost d = data@.skip(start as int);
    let mut acc: u64 = 0;
    let mut scale: u64 = 1;
    let mut i: usize = 0;
    proof {
        assert(d.take(0) =~= Seq::<u8>::empty());
        assert(d.skip(0) =~= d);
    }
    while i < n
        invariant
            n == d.len(),
            n == data@.len() - start,
            start <= data@.len(),
            total == data@.len(),
            d == data@.skip(start as int),
            i <= n,
            i <= 5,
            scale as nat == pow128(i as nat),
            acc as nat == chunk_sum(d.take(i as int)),
            acc < scale,
            cont_run(d) == i + cont_run(d.skip(i as int)),
        decreases n - i,
    {
        if i >= 5 {
            return Err(VarintError::TooLong);
        }
        let byte = data[start + i];
        proof {
            lemma_chunk_sum_push(d, i as nat);
            lemma_cont_run_step(d, i as nat);
            assert(scale <= 0x1000_0000) by {
                if i == 0 {
                } else if i == 1 {
                    assert(pow128(1) == 128 * pow128(0));
                } else if i == 2 {
                    assert(pow128(1) == 128 * pow128(0));
                    assert(pow128(2) == 128 * pow128(1));
                } else if i == 3 {
                    assert(pow128(1) == 128 * pow128(0));
                    assert(pow128(2) == 128 * pow128(1));
                    assert(pow128(3) == 128 * pow128(2));
                } else {
                    assert(pow128(1) == 128 * pow128(0));
                    assert(pow128(2) == 128 * pow128(1));
                    assert(pow128(3) == 128 * pow128(2));
                    assert(pow128(4) == 128 * pow128(3));
                }
            }
        }
        let low = (byte % 128) as u64;
        proof {
            assert(low * scale <= 127 * 0x1000_0000) by (nonlinear_arith)
                requires
                    low < 128,
                    scale <= 0x1000_0000,
            ;
            assert(acc + low * scale < 128 * scale) by (nonlinear_arith)
                requires
                    acc < scale,
                    low < 128,
            ;
        }
        acc = acc + low * scale;
        scale = scale * 128;
        if byte < 128 {
            proof {
                assert(cont_run(d) == i);
            }
            return Ok(((acc % 0x1_0000_0000) as u32, i + 1));
        }
        i += 1;
    }
    proof {
        assert(d.skip(n as int).len() == 0);
        assert(cont_run(d) == n);
    }
    Err(VarintError::Unterminated)
}

/// Read the encoding of a `u32` at the front of `data`: the value and the
/// number of bytes read.
pub fn read_varint(data: &[u8]) -> (r: Result<(u32, usize), VarintError>)
    ensures
        r == varint_of(data@),
{
    proof {
        assert(data@.skip(0) =~= data@);
    }
    read_varint_at(data, 0)
}

/// The encoding of a value below `128^k` takes at most `k` bytes, each
/// but the last with the continuation bit, and its bits add back up to
/// the value.
pub proof fn lemma_varint_shape(v: nat, rest: Seq<u8>)
    ensures
        cont_run(varint_bytes(v) + rest) == varint_bytes(v).len() - 1,
        chunk_sum(varint_bytes(v)) == v,
        varint_bytes(v).len() >= 1,
        v < 0x1_0000_0000 ==> varint_bytes(v).len() <= 5,
    decreases v,
{
    let b = varint_bytes(v);
    if v < 128 {
        assert((b + rest)[0] == v as u8);
        assert(b.skip(1) =~= Seq::<u8>::empty());
        assert(chunk_sum(b.skip(1)) == 0);
        assert(b[0] as nat == v);
        assert(chunk_sum(b) == (b[0] % 128) as nat + 128 * chunk_sum(b.skip(1)));
    } else {
        let tail = varint_bytes(v / 128);
        lemma_varint_shape(v / 128, rest);
        assert((b + rest).skip(1) =~= tail + rest);
        assert(b.skip(1) =~= tail);
        assert((b + rest)[0] == (v % 128 + 128) as u8);
        assert(b[0] == (v % 128 + 128) as u8);
        assert(((v % 128 + 128) as u8) as nat == v % 128 + 128);
        assert(chunk_sum(b) == (b[0] % 128) as nat + 128 * chunk_sum(b.skip(1)));
        assert(chunk_sum(tail) == v / 128);
        if v < 0x1_0000_0000 {
            assert(v / 128 < 0x200_0000);
            if v / 128 < 128 {
            } else {
                lemma_varint_len_bound(v / 128);
            }
        }
    }
}

/// Values below `2^25` take at most four bytes.
proof fn lemma_varint_len_bound(v: nat)
    requires
        v < 0x200_0000,
    ensures
        varint_bytes(v).len() <= 4,
{
    if v >= 128 {
        let a = v / 128;
        if a >= 128 {
            let b = a / 128;
            if b >= 128 {
                let c = b / 128;
                assert(c < 128);
                assert(varint_bytes(c).len() == 1);
                assert(varint_bytes(b).len() == 1 + varint_bytes(c).len());
            } else {
                assert(varint_bytes(b).len() == 1);
            }
            assert(varint_bytes(a).len() == 1 + varint_bytes(b).len());
        } else {
            assert(varint_bytes(a).len() == 1);
        }
        assert(varint_bytes(v).len() == 1 + varint_bytes(a).len());
    }
}

/// Reading back the encoding of a `u32` gives the value and the length of
/// its encoding, whatever follows it.
pub proof fn lemma_varint_round_trip(v: u32, rest: Seq<u8>)
    ensures
        varint_of(varint_bytes(v as nat) + rest) == Ok::<(u32, usize), VarintError>(
            (v, varint_bytes(v as nat).len() as usize),
        ),
{
    let b = varint_bytes(v as nat);
    let d = b + rest;
    lemma_varint_shape(v as nat, rest);
    assert(d.take(b.len() as int) =~= b);
}

} // verus!
