//! Byte-level building blocks of the wire format: little-endian words,
//! compact unsigned integers and length-prefixed byte strings.
use vstd::prelude::*;

verus! {

/// Why a byte buffer could not be decoded.
#[derive(Debug, Clone, Copy, PartialEq, Eq)]
pub enum DecodeError {
    /// The buffer ends before a tag, length or field is complete.
    UnexpectedEof,
    /// A tag byte names no variant of the expected type.
    UnknownVariant,
    /// A whole value was decoded but bytes remain after it.
    TrailingBytes,
    /// The bytes are complete but describe no valid value (a compact integer
    /// that is not in its shortest form, an integer out of range, or a name
    /// that breaks the naming rules).
    InvalidValue,
}

/// `s` stands in `buf` starting at `pos`.
pub open spec fn starts_at(buf: Seq<u8>, pos: int, s: Seq<u8>) -> bool {
    0 <= pos && pos + s.len() <= buf.len() && buf.subrange(pos, pos + s.len()) == s
}

/// What remains of `buf` from `pos` is a proper prefix of `s`: `s` was cut short.
pub open spec fn cut_at(buf: Seq<u8>, pos: int, s: Seq<u8>) -> bool {
    0 <= pos <= buf.len() && buf.len() - pos < s.len() && buf.subrange(pos, buf.len() as int)
        == s.subrange(0, buf.len() - pos)
}

pub proof fn lemma_starts_at_concat(buf: Seq<u8>, pos: int, a: Seq<u8>, b: Seq<u8>)
    ensures
        starts_at(buf, pos, a + b) <==> (starts_at(buf, pos, a) && starts_at(buf, pos + a.len(), b)),
{
    if starts_at(buf, pos, a + b) {
        assert(buf.subrange(pos, pos + a.len()) =~= (a + b).subrange(0, a.len() as int));
        assert((a + b).subrange(0, a.len() as int) =~= a);
        assert(buf.subrange(pos + a.len(), pos + a.len() + b.len()) =~= (a + b).subrange(
            a.len() as int,
            (a.len() + b.len()) as int,
        ));
        assert((a + b).subrange(a.len() as int, (a.len() + b.len()) as int) =~= b);
    }
    if starts_at(buf, pos, a) && starts_at(buf, pos + a.len(), b) {
        assert(buf.subrange(pos, pos + (a + b).len()) =~= a + b);
    }
}

pub proof fn lemma_cut_at_concat(buf: Seq<u8>, pos: int, a: Seq<u8>, b: Seq<u8>)
    requires
        cut_at(buf, pos, a + b),
    ensures
        cut_at(buf, pos, a) || (starts_at(buf, pos, a) && cut_at(buf, pos + a.len(), b)),
{
    let r = buf.len() - pos;
    if r < a.len() {
        assert(buf.subrange(pos, buf.len() as int) =~= a.subrange(0, r));
    } else {
        assert(buf.subrange(pos, pos + a.len()) =~= a);
        let t = buf.subrange(pos, buf.len() as int);
        assert(t == (a + b).subrange(0, r));
        assert forall|i: int| 0 <= i < r - a.len() implies buf[pos + a.len() + i] == b[i] by {
            assert(t[a.len() + i] == (a + b)[a.len() + i]);
        }
        assert(buf.subrange(pos + a.len(), buf.len() as int) =~= b.subrange(
            0,
            buf.len() - pos - a.len(),
        ));
    }
}

pub proof fn lemma_cut_at_nonempty(buf: Seq<u8>, pos: int, s: Seq<u8>)
    requires
        cut_at(buf, pos, s),
        pos < buf.len(),
    ensures
        buf[pos] == s[0],
{
    assert(buf.subrange(pos, buf.len() as int)[0] == s.subrange(0, buf.len() - pos)[0]);
}

pub open spec fn pow256(n: nat) -> nat
    decreases n,
{
    if n == 0 {
        1
    } else {
        256 * pow256((n - 1) as nat)
    }
}

/// The `n` low bytes of `v`, least significant first.
pub open spec fn le_bytes(v: nat, n: nat) -> Seq<u8>
    decreases n,
{
    if n == 0 {
        seq![]
    } else {
        seq![(v % 256) as u8] + le_bytes(v / 256, (n - 1) as nat)
    }
}

/// The number whose bytes, least significant first, are `s`.
pub open spec fn le_value(s: Seq<u8>) -> nat
    decreases s.len(),
{
    if s.len() == 0 {
        0
    } else {
        s[0] as nat + 256 * le_value(s.drop_first())
    }
}

pub proof fn lemma_le_bytes(v: nat, n: nat)
    requires
        v < pow256(n),
    ensures
        le_bytes(v, n).len() == n,
        le_value(le_bytes(v, n)) == v,
    decreases n,
{
    if n > 0 {
        let m = (n - 1) as nat;
        assert(v / 256 < pow256(m)) by (nonlinear_arith)
            requires
                v < 256 * pow256(m),
        ;
        lemma_le_bytes(v / 256, m);
        let s = le_bytes(v, n);
        assert(s.drop_first() =~= le_bytes(v / 256, m));
        assert(v == v % 256 + 256 * (v / 256)) by (nonlinear_arith);
    }
}

pub proof fn lemma_le_value(s: Seq<u8>)
    ensures
        le_value(s) < pow256(s.len()),
        le_bytes(le_value(s), s.len()) == s,
    decreases s.len(),
{
    if s.len() > 0 {
        let t = s.drop_first();
        lemma_le_value(t);
        let v = le_value(s);
        let w = le_value(t);
        assert(v % 256 == s[0] as nat && v / 256 == w) by (nonlinear_arith)
            requires
                v == s[0] as nat + 256 * w,
                (s[0] as nat) < 256,
        ;
        assert(v < pow256(s.len())) by (nonlinear_arith)
            requires
                v == s[0] as nat + 256 * w,
                (s[0] as nat) < 256,
                w < pow256(t.len()),
                pow256(s.len()) == 256 * pow256(t.len()),
        ;
        assert(le_bytes(v, s.len()) =~= s);
    }
}

proof fn lemma_pow256_8()
    ensures
        pow256(2) == 0x1_0000,
        pow256(4) == 0x1_0000_0000,
        pow256(7) == 0x100_0000_0000_0000,
        pow256(8) == 0x1_0000_0000_0000_0000,
{
    reveal_with_fuel(pow256, 9);
}

/// Appends the `n` low bytes of `v`, least significant first.
fn write_le(out: &mut Vec<u8>, v: u64, n: usize)
    requires
        (v as nat) < pow256(n as nat),
    ensures
        final(out)@ == old(out)@ + le_bytes(v as nat, n as nat),
    decreases n,
{
    if n > 0 {
        out.push((v % 256) as u8);
        assert(((v / 256) as nat) < pow256((n - 1) as nat)) by (nonlinear_arith)
            requires
                (v as nat) < 256 * pow256((n - 1) as nat),
        ;
        write_le(out, v / 256, n - 1);
        assert(final(out)@ =~= old(out)@ + le_bytes(v as nat, n as nat));
    }
}

/// Reads `n` bytes at `pos` as a little-endian number.
fn read_le(buf: &[u8], pos: usize, n: usize) -> (r: u64)
    requires
        n <= 8,
        pos + n <= buf@.len(),
    ensures
        r as nat == le_value(buf@.subrange(pos as int, pos + n)),
    decreases n,
{
    if n == 0 {
        0
    } else {
        assert(pos < buf.len());
        let rest = read_le(buf, pos + 1, n - 1);
        assert(buf@.subrange(pos as int, pos + n).drop_first() =~= buf@.subrange(pos + 1, pos + n));
        proof {
            lemma_le_value(buf@.subrange(pos + 1, pos + n));
            lemma_pow256_8();
            lemma_pow256_mono((n - 1) as nat, 7);
        }
        assert(256 * (rest as nat) + 255 < 0x1_0000_0000_0000_0000) by (nonlinear_arith)
            requires
                (rest as nat) < 0x100_0000_0000_0000,
        ;
        buf[pos] as u64 + 256 * rest
    }
}

proof fn lemma_pow256_mono(a: nat, b: nat)
    requires
        a <= b,
    ensures
        pow256(a) <= pow256(b),
    decreases b,
{
    if a < b {
        lemma_pow256_mono(a, (b - 1) as nat);
    }
}

pub proof fn lemma_starts_first(buf: Seq<u8>, pos: int, s: Seq<u8>)
    requires
        starts_at(buf, pos, s),
        s.len() > 0,
    ensures
        buf[pos] == s[0],
{
    assert(buf.subrange(pos, pos + s.len())[0] == s[0]);
}

proof fn lemma_le_low(s: Seq<u8>)
    requires
        s.len() > 0,
    ensures
        le_value(s) % 4 == s[0] % 4,
{
    let w = le_value(s.drop_first());
    assert((s[0] as nat + 256 * w) % 4 == (s[0] as nat) % 4) by (nonlinear_arith);
}

/// The compact form of `v`: one byte below 64, two below 2^14, four below
/// 2^30, else the marker byte 3 and eight bytes. The two low bits of the first
/// byte give the form; the value is shifted left by two in the first three.
pub open spec fn enc_compact(v: nat) -> Seq<u8> {
    if v < 64 {
        seq![(v * 4) as u8]
    } else if v < 0x4000 {
        le_bytes(v * 4 + 1, 2)
    } else if v < 0x4000_0000 {
        le_bytes(v * 4 + 2, 4)
    } else {
        seq![3u8] + le_bytes(v, 8)
    }
}

pub proof fn lemma_compact_shape(v: nat)
    requires
        v < 0x1_0000_0000_0000_0000,
    ensures
        v < 64 ==> enc_compact(v).len() == 1 && enc_compact(v)[0] % 4 == 0 && enc_compact(v)[0]
            / 4 == v,
        64 <= v < 0x4000 ==> enc_compact(v).len() == 2 && enc_compact(v)[0] % 4 == 1 && le_value(
            enc_compact(v),
        ) == v * 4 + 1,
        0x4000 <= v < 0x4000_0000 ==> enc_compact(v).len() == 4 && enc_compact(v)[0] % 4 == 2
            && le_value(enc_compact(v)) == v * 4 + 2,
        0x4000_0000 <= v ==> enc_compact(v).len() == 9 && enc_compact(v)[0] == 3 && le_value(
            enc_compact(v).subrange(1, 9),
        ) == v,
        1 <= enc_compact(v).len() <= 9,
{
    lemma_pow256_8();
    if v < 64 {
    } else if v < 0x4000 {
        lemma_le_bytes(v * 4 + 1, 2);
        lemma_le_low(enc_compact(v));
        assert((v * 4 + 1) % 4 == 1) by (nonlinear_arith);
    } else if v < 0x4000_0000 {
        lemma_le_bytes(v * 4 + 2, 4);
        lemma_le_low(enc_compact(v));
        assert((v * 4 + 2) % 4 == 2) by (nonlinear_arith);
    } else {
        lemma_le_bytes(v, 8);
        assert(enc_compact(v).subrange(1, 9) =~= le_bytes(v, 8));
    }
}

/// Appends the compact form of `v`.
pub fn encode_compact(v: u64, out: &mut Vec<u8>)
    ensures
        final(out)@ == old(out)@ + enc_compact(v as nat),
{
    proof {
        lemma_pow256_8();
    }
    if v < 64 {
        out.push((v * 4) as u8);
    } else if v < 0x4000 {
        write_le(out, v * 4 + 1, 2);
    } else if v < 0x4000_0000 {
        write_le(out, v * 4 + 2, 4);
    } else {
        out.push(3u8);
        write_le(out, v, 8);
        assert(final(out)@ =~= old(out)@ + enc_compact(v as nat));
    }
}

/// Reads a compact integer at `pos`; yields it and the position after it.
/// Only the shortest form of a value is accepted.
pub fn decode_compact(buf: &[u8], pos: usize) -> (r: Result<(u64, usize), DecodeError>)
    requires
        pos <= buf@.len(),
    ensures
        r is Ok ==> starts_at(buf@, pos as int, enc_compact(r->Ok_0.0 as nat)) && r->Ok_0.1 == pos
            + enc_compact(r->Ok_0.0 as nat).len(),
        forall|v: u64| #[trigger]
            starts_at(buf@, pos as int, enc_compact(v as nat)) ==> r == Ok::<
                (u64, usize),
                DecodeError,
            >((v, (pos + enc_compact(v as nat).len()) as usize)),
        forall|v: u64| #[trigger]
            cut_at(buf@, pos as int, enc_compact(v as nat)) ==> r == Err::<(u64, usize), DecodeError>(
                DecodeError::UnexpectedEof,
            ),
{
    proof {
        lemma_pow256_8();
        assert forall|v: u64| #[trigger]
            cut_at(buf@, pos as int, enc_compact(v as nat)) && pos < buf@.len() implies buf@[pos as int]
            == enc_compact(v as nat)[0] by {
            lemma_cut_at_nonempty(buf@, pos as int, enc_compact(v as nat));
        }
        assert forall|v: u64| #[trigger]
            starts_at(buf@, pos as int, enc_compact(v as nat)) implies buf@[pos as int] == enc_compact(
                v as nat,
            )[0] && buf@.subrange(pos as int, pos + enc_compact(v as nat).len()) == enc_compact(
                v as nat,
            ) by {
            lemma_compact_shape(v as nat);
            lemma_starts_first(buf@, pos as int, enc_compact(v as nat));
        }
    }
    if pos >= buf.len() {
        proof {
            assert forall|v: u64| !#[trigger] starts_at(buf@, pos as int, enc_compact(v as nat)) by {
                lemma_compact_shape(v as nat);
            }
        }
        return Err(DecodeError::UnexpectedEof);
    }
    let b0 = buf[pos];
    let mode = b0 % 4;
    if mode == 0 {
        let v = (b0 / 4) as u64;
        proof {
            assert forall|x: u64| #[trigger] starts_at(buf@, pos as int, enc_compact(x as nat)) implies x
                == v by {
                lemma_compact_shape(x as nat);
            }
            assert forall|x: u64| !#[trigger] cut_at(buf@, pos as int, enc_compact(x as nat)) by {
                lemma_compact_shape(x as nat);
            }
            lemma_compact_shape(v as nat);
            assert(buf@.subrange(pos as int, pos + 1) =~= enc_compact(v as nat));
        }
        Ok((v, pos + 1))
    } else if mode == 1 {
        if buf.len() - pos < 2 {
            proof {
                assert forall|x: u64| !#[trigger] starts_at(buf@, pos as int, enc_compact(x as nat)) by {
                    lemma_compact_shape(x as nat);
                }
            }
            return Err(DecodeError::UnexpectedEof);
        }
        let w = read_le(buf, pos, 2);
        let v = w / 4;
        proof {
            let s = buf@.subrange(pos as int, pos + 2);
            lemma_le_low(s);
            lemma_le_value(s);
            assert(w == v * 4 + 1 && v < 0x4000) by (nonlinear_arith)
                requires
                    w % 4 == 1,
                    v == w / 4,
                    w < 0x1_0000,
            ;
            assert forall|x: u64| !#[trigger] cut_at(buf@, pos as int, enc_compact(x as nat)) by {
                lemma_compact_shape(x as nat);
            }
            assert forall|x: u64| #[trigger] starts_at(buf@, pos as int, enc_compact(x as nat)) implies x
                == v by {
                lemma_compact_shape(x as nat);
                assert(x == v) by (nonlinear_arith)
                    requires
                        w == x * 4 + 1,
                        v == w / 4,
                ;
            }
        }
        if v < 64 {
            return Err(DecodeError::InvalidValue);
        }
        proof {
            lemma_compact_shape(v as nat);
        }
        Ok((v, pos + 2))
    } else if mode == 2 {
        if buf.len() - pos < 4 {
            proof {
                assert forall|x: u64| !#[trigger] starts_at(buf@, pos as int, enc_compact(x as nat)) by {
                    lemma_compact_shape(x as nat);
                }
            }
            return Err(DecodeError::UnexpectedEof);
        }
        let w = read_le(buf, pos, 4);
        let v = w / 4;
        proof {
            let s = buf@.subrange(pos as int, pos + 4);
            lemma_le_low(s);
            lemma_le_value(s);
            assert(w == v * 4 + 2 && v < 0x4000_0000) by (nonlinear_arith)
                requires
                    w % 4 == 2,
                    v == w / 4,
                    w < 0x1_0000_0000,
            ;
            assert forall|x: u64| !#[trigger] cut_at(buf@, pos as int, enc_compact(x as nat)) by {
                lemma_compact_shape(x as nat);
            }
            assert forall|x: u64| #[trigger] starts_at(buf@, pos as int, enc_compact(x as nat)) implies x
                == v by {
                lemma_compact_shape(x as nat);
                assert(x == v) by (nonlinear_arith)
                    requires
                        w == x * 4 + 2,
                        v == w / 4,
                ;
            }
        }
        if v < 0x4000 {
            return Err(DecodeError::InvalidValue);
        }
        proof {
            lemma_compact_shape(v as nat);
        }
        Ok((v, pos + 4))
    } else {
        if b0 != 3 {
            proof {
                assert forall|x: u64| !#[trigger] starts_at(buf@, pos as int, enc_compact(x as nat)) by {
                    lemma_compact_shape(x as nat);
                }
                assert forall|x: u64| !#[trigger] cut_at(buf@, pos as int, enc_compact(x as nat)) by {
                    lemma_compact_shape(x as nat);
                }
            }
            return Err(DecodeError::InvalidValue);
        }
        if buf.len() - pos < 9 {
            proof {
                assert forall|x: u64| !#[trigger] starts_at(buf@, pos as int, enc_compact(x as nat)) by {
                    lemma_compact_shape(x as nat);
                }
            }
            return Err(DecodeError::UnexpectedEof);
        }
        let v = read_le(buf, pos + 1, 8);
        proof {
            let s = buf@.subrange(pos + 1, pos + 9);
            lemma_le_value(s);
            assert forall|x: u64| !#[trigger] cut_at(buf@, pos as int, enc_compact(x as nat)) by {
                lemma_compact_shape(x as nat);
            }
            assert forall|x: u64| #[trigger] starts_at(buf@, pos as int, enc_compact(x as nat)) implies x
                == v by {
                lemma_compact_shape(x as nat);
                assert(enc_compact(x as nat).subrange(1, 9) =~= s);
            }
        }
        if v < 0x4000_0000 {
            return Err(DecodeError::InvalidValue);
        }
        proof {
            lemma_compact_shape(v as nat);
            let s = buf@.subrange(pos + 1, pos + 9);
            assert(enc_compact(v as nat) =~= seq![3u8] + s);
            assert(buf@.subrange(pos as int, pos + 9) =~= seq![3u8] + s);
        }
        Ok((v, pos + 9))
    }
}

/// A byte string: its length in compact form, then its bytes.
pub open spec fn enc_bytes(s: Seq<u8>) -> Seq<u8> {
    enc_compact(s.len()) + s
}

/// Appends `s` as a length-prefixed byte string.
pub fn encode_bytes(s: &Vec<u8>, out: &mut Vec<u8>)
    ensures
        final(out)@ == old(out)@ + enc_bytes(s@),
{
    encode_compact(s.len() as u64, out);
    let mut i: usize = 0;
    let ghost mid = out@;
    while i < s.len()
        invariant
            i <= s@.len(),
            out@ == mid + s@.subrange(0, i as int),
        decreases s@.len() - i,
    {
        out.push(s[i]);
        i = i + 1;
        assert(out@ =~= mid + s@.subrange(0, i as int));
    }
    assert(s@.subrange(0, s@.len() as int) =~= s@);
    assert(final(out)@ =~= old(out)@ + enc_bytes(s@));
}

/// Reads a length-prefixed byte string at `pos`.
pub fn decode_bytes(buf: &[u8], pos: usize) -> (r: Result<(Vec<u8>, usize), DecodeError>)
    requires
        pos <= buf@.len(),
    ensures
        r is Ok ==> starts_at(buf@, pos as int, enc_bytes(r->Ok_0.0@)) && r->Ok_0.1 == pos
            + enc_bytes(r->Ok_0.0@).len(),
        forall|s: Seq<u8>| #[trigger]
            starts_at(buf@, pos as int, enc_bytes(s)) ==> r is Ok && r->Ok_0.0@ == s && r->Ok_0.1
                == pos + enc_bytes(s).len(),
        forall|s: Seq<u8>|
            s.len() <= usize::MAX && #[trigger] cut_at(buf@, pos as int, enc_bytes(s)) ==> r
                == Err::<(Vec<u8>, usize), DecodeError>(DecodeError::UnexpectedEof),
{
    let blen = buf.len();
    proof {
        assert forall|s: Seq<u8>| #[trigger] starts_at(buf@, pos as int, enc_bytes(s)) implies starts_at(
            buf@,
            pos as int,
            enc_compact((s.len() as u64) as nat),
        ) && starts_at(buf@, pos + enc_compact(s.len()).len(), s) by {
            lemma_starts_at_concat(buf@, pos as int, enc_compact(s.len()), s);
            assert(s.len() <= blen);
            assert((s.len() as u64) as nat == s.len());
        }
    }
    match decode_compact(buf, pos) {
        Err(e) => {
            proof {
                assert forall|s: Seq<u8>|
                    s.len() <= usize::MAX && #[trigger] cut_at(
                        buf@,
                        pos as int,
                        enc_bytes(s),
                    ) implies e == DecodeError::UnexpectedEof by {
                    lemma_cut_at_concat(buf@, pos as int, enc_compact(s.len()), s);
                    assert(enc_compact((s.len() as u64) as nat) == enc_compact(s.len()));
                }
            }
            Err(e)
        },
        Ok((n, p1)) => {
            proof {
                lemma_compact_shape(n as nat);
                assert forall|s: Seq<u8>| s.len() <= usize::MAX && #[trigger] cut_at(
                    buf@,
                    pos as int,
                    enc_bytes(s),
                ) implies s.len() == n && cut_at(buf@, p1 as int, s) by {
                    lemma_cut_at_concat(buf@, pos as int, enc_compact(s.len()), s);
                    assert(enc_compact((s.len() as u64) as nat) == enc_compact(s.len()));
                }
            }
            if n > (buf.len() - p1) as u64 {
                return Err(DecodeError::UnexpectedEof);
            }
            let end = p1 + n as usize;
            let v = vstd::slice::slice_to_vec(vstd::slice::slice_subrange(buf, p1, end));
            proof {
                assert forall|s: Seq<u8>| s.len() <= usize::MAX && #[trigger] cut_at(
                    buf@,
                    pos as int,
                    enc_bytes(s),
                ) implies false by {}
                lemma_starts_at_concat(buf@, pos as int, enc_compact(n as nat), v@);
                assert(enc_compact(v@.len()) == enc_compact(n as nat));
            }
            Ok((v, end))
        },
    }
}

/// A whole buffer is `s` exactly when `s` stands at its start and fills it.
pub proof fn lemma_whole(buf: Seq<u8>, s: Seq<u8>)
    ensures
        buf == s <==> (starts_at(buf, 0, s) && buf.len() == s.len()),
{
    assert(buf.subrange(0, buf.len() as int) =~= buf);
}

/// A tag byte followed by the rest of an encoding.
pub proof fn lemma_tagged(buf: Seq<u8>, pos: int, t: u8, rest: Seq<u8>)
    ensures
        starts_at(buf, pos, seq![t] + rest) <==> (0 <= pos < buf.len() && buf[pos] == t && starts_at(
            buf,
            pos + 1,
            rest,
        )),
        cut_at(buf, pos, seq![t] + rest) ==> (pos == buf.len() || (buf[pos] == t && cut_at(
            buf,
            pos + 1,
            rest,
        ))),
{
    lemma_starts_at_concat(buf, pos, seq![t], rest);
    if starts_at(buf, pos, seq![t]) {
        lemma_starts_first(buf, pos, seq![t]);
    }
    if 0 <= pos < buf.len() && buf[pos] == t {
        assert(buf.subrange(pos, pos + 1) =~= seq![t]);
    }
    if cut_at(buf, pos, seq![t] + rest) {
        lemma_cut_at_concat(buf, pos, seq![t], rest);
        if pos < buf.len() {
            lemma_cut_at_nonempty(buf, pos, seq![t] + rest);
        }
    }
}

/// Appends `v` in compact form.
pub fn encode_u32(v: u32, out: &mut Vec<u8>)
    ensures
        final(out)@ == old(out)@ + enc_compact(v as nat),
{
    encode_compact(v as u64, out);
}

/// Reads a compact integer that must fit in 32 bits.
pub fn decode_u32(buf: &[u8], pos: usize) -> (r: Result<(u32, usize), DecodeError>)
    requires
        pos <= buf@.len(),
    ensures
        r is Ok ==> starts_at(buf@, pos as int, enc_compact(r->Ok_0.0 as nat)) && r->Ok_0.1 == pos
            + enc_compact(r->Ok_0.0 as nat).len(),
        forall|v: u32| #[trigger]
            starts_at(buf@, pos as int, enc_compact(v as nat)) ==> r == Ok::<(u32, usize), DecodeError>(
                (v, (pos + enc_compact(v as nat).len()) as usize),
            ),
        forall|v: u32| #[trigger]
            cut_at(buf@, pos as int, enc_compact(v as nat)) ==> r == Err::<(u32, usize), DecodeError>(
                DecodeError::UnexpectedEof,
            ),
{
    proof {
        assert forall|v: u32| #[trigger] starts_at(buf@, pos as int, enc_compact(v as nat)) implies starts_at(
            buf@,
            pos as int,
            enc_compact((v as u64) as nat),
        ) by {}
        assert forall|v: u32| #[trigger] cut_at(buf@, pos as int, enc_compact(v as nat)) implies cut_at(
            buf@,
            pos as int,
            enc_compact((v as u64) as nat),
        ) by {}
    }
    match decode_compact(buf, pos) {
        Err(e) => Err(e),
        Ok((v, p)) => {
            if v > 0xffff_ffff {
                Err(DecodeError::InvalidValue)
            } else {
                Ok((v as u32, p))
            }
        },
    }
}

/// Four encodings in a row.
pub proof fn lemma_four(buf: Seq<u8>, pos: int, a: Seq<u8>, b: Seq<u8>, c: Seq<u8>, d: Seq<u8>)
    ensures
        starts_at(buf, pos, a + b + c + d) <==> (starts_at(buf, pos, a) && starts_at(
            buf,
            pos + a.len(),
            b,
        ) && starts_at(buf, pos + a.len() + b.len(), c) && starts_at(
            buf,
            pos + a.len() + b.len() + c.len(),
            d,
        )),
        cut_at(buf, pos, a + b + c + d) ==> cut_at(buf, pos, a) || (starts_at(buf, pos, a) && cut_at(
            buf,
            pos + a.len(),
            b,
        )) || (starts_at(buf, pos, a) && starts_at(buf, pos + a.len(), b) && cut_at(
            buf,
            pos + a.len() + b.len(),
            c,
        )) || (starts_at(buf, pos, a) && starts_at(buf, pos + a.len(), b) && starts_at(
            buf,
            pos + a.len() + b.len(),
            c,
        ) && cut_at(buf, pos + a.len() + b.len() + c.len(), d)),
{
    lemma_starts_at_concat(buf, pos, a + b + c, d);
    lemma_starts_at_concat(buf, pos, a + b, c);
    lemma_starts_at_concat(buf, pos, a, b);
    if cut_at(buf, pos, a + b + c + d) {
        lemma_cut_at_concat(buf, pos, a + b + c, d);
        if cut_at(buf, pos, a + b + c) {
            lemma_cut_at_concat(buf, pos, a + b, c);
            if cut_at(buf, pos, a + b) {
                lemma_cut_at_concat(buf, pos, a, b);
            }
        }
    }
}

/// Two different numbers never share a compact form.
pub proof fn lemma_compact_injective(x: nat, y: nat)
    requires
        x < 0x1_0000_0000_0000_0000,
        y < 0x1_0000_0000_0000_0000,
        enc_compact(x) == enc_compact(y),
    ensures
        x == y,
{
    lemma_compact_shape(x);
    lemma_compact_shape(y);
    if x < 64 {
        assert(enc_compact(x)[0] / 4 == x);
    } else if x < 0x4000 {
        assert(x * 4 + 1 == y * 4 + 1);
    } else if x < 0x4000_0000 {
        assert(x * 4 + 2 == y * 4 + 2);
    }
}

} // verus!
