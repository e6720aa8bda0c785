use vstd::prelude::*;

verus! {

use crate::DecodeError;

/// Variable-length integer codec for `u64`.
///
/// A value is split into 7-bit little-endian groups. Each of the first
/// eight wire bytes carries 7 payload bits plus a continuation bit in
/// the top position (set when more bytes follow). A value that still
/// has bits beyond the eighth group gets a ninth byte carrying the top
/// 8 bits verbatim; the ninth byte is always terminal. The encoding
/// always uses the minimum number of bytes for the value, so equal
/// values encode to identical bytes.
pub trait VLI: Sized {
    /// Number of bytes in the wire encoding of `self`.
    spec fn vli_spec_len(self) -> nat;

    /// The wire encoding of `self`.
    spec fn vli_spec_bytes(self) -> Seq<u8>;

    /// Parse one value starting at `pos`: the value and the position
    /// one past its last byte, or `None` when the input ends first.
    spec fn vli_spec_parse(s: Seq<u8>, pos: int) -> Option<(Self, int)>;

    /// Encode `self`: the first `r.1` bytes of `r.0` are the wire form.
    fn to_vli_bytes(self) -> (r: ([u8; 9], usize))
        ensures
            r.1 == self.vli_spec_len(),
            1 <= r.1 <= 9,
            r.0@.take(r.1 as int) == self.vli_spec_bytes(),
    ;

    /// Decode one value from `bytes` starting at `pos`.
    fn read_vli_bytes(bytes: &[u8], pos: usize) -> (r: Result<(Self, usize), DecodeError>)
        ensures
            match r {
                Ok((v, end)) => Self::vli_spec_parse(bytes@, pos as int) == Some((v, end as int))
                    && pos < end <= bytes@.len(),
                Err(e) => e == DecodeError::TruncatedInput && Self::vli_spec_parse(
                    bytes@,
                    pos as int,
                ) is None,
            },
    ;
}

/// Minimal number of wire bytes for `v`.
pub open spec fn vli_len(v: u64) -> nat {
    if v >> 7 == 0 {
        1
    } else if v >> 14 == 0 {
        2
    } else if v >> 21 == 0 {
        3
    } else if v >> 28 == 0 {
        4
    } else if v >> 35 == 0 {
        5
    } else if v >> 42 == 0 {
        6
    } else if v >> 49 == 0 {
        7
    } else if v >> 56 == 0 {
        8
    } else {
        9
    }
}

/// Byte `k` (0-based) of the encoding of `v`, for `0 <= k < vli_len(v)`.
pub open spec fn vli_byte_at(v: u64, k: int) -> u8 {
    if k == 8 {
        (v >> 56) as u8
    } else if k + 1 < vli_len(v) {
        (((v >> ((7 * k) as u64)) & 0x7f) | 0x80) as u8
    } else {
        ((v >> ((7 * k) as u64)) & 0x7f) as u8
    }
}

/// The full wire encoding of `v`: `vli_len(v)` bytes.
pub open spec fn vli_bytes(v: u64) -> Seq<u8> {
    Seq::new(vli_len(v), |k: int| vli_byte_at(v, k))
}

/// One step of parsing: group index `i` (0-based) with `acc` holding
/// the groups already read.
pub open spec fn vli_parse_at(s: Seq<u8>, pos: int, i: nat, acc: u64) -> Option<(u64, int)>
    decreases 8 - i,
{
    if !(0 <= pos < s.len()) {
        None
    } else {
        let b = s[pos];
        if i >= 8 {
            Some((acc | ((b as u64) << 56), pos + 1))
        } else if b & 0x80 == 0 {
            Some((acc | ((b as u64) << ((7 * i) as u64)), pos + 1))
        } else {
            vli_parse_at(s, pos + 1, i + 1, acc | (((b & 0x7f) as u64) << ((7 * i) as u64)))
        }
    }
}

/// Parse one variable-length integer starting at `pos`.
pub open spec fn vli_parse(s: Seq<u8>, pos: int) -> Option<(u64, int)> {
    vli_parse_at(s, pos, 0, 0)
}

impl VLI for u64 {
    open spec fn vli_spec_len(self) -> nat {
        vli_len(self)
    }

    open spec fn vli_spec_bytes(self) -> Seq<u8> {
        vli_bytes(self)
    }

    open spec fn vli_spec_parse(s: Seq<u8>, pos: int) -> Option<(u64, int)> {
        vli_parse(s, pos)
    }

    fn to_vli_bytes(self) -> (r: ([u8; 9], usize)) {
        let v = self;
        let l: usize = if v >> 7 == 0 {
            1
        } else if v >> 14 == 0 {
            2
        } else if v >> 21 == 0 {
            3
        } else if v >> 28 == 0 {
            4
        } else if v >> 35 == 0 {
            5
        } else if v >> 42 == 0 {
            6
        } else if v >> 49 == 0 {
            7
        } else if v >> 56 == 0 {
            8
        } else {
            9
        };
        let b0 = if l > 1 {
            ((v & 0x7f) | 0x80) as u8
        } else {
            (v & 0x7f) as u8
        };
        let b1 = if l > 2 {
            (((v >> 7) & 0x7f) | 0x80) as u8
        } else {
            ((v >> 7) & 0x7f) as u8
        };
        let b2 = if l > 3 {
            (((v >> 14) & 0x7f) | 0x80) as u8
        } else {
            ((v >> 14) & 0x7f) as u8
        };
        let b3 = if l > 4 {
            (((v >> 21) & 0x7f) | 0x80) as u8
        } else {
            ((v >> 21) & 0x7f) as u8
        };
        let b4 = if l > 5 {
            (((v >> 28) & 0x7f) | 0x80) as u8
        } else {
            ((v >> 28) & 0x7f) as u8
        };
        let b5 = if l > 6 {
            (((v >> 35) & 0x7f) | 0x80) as u8
        } else {
            ((v >> 35) & 0x7f) as u8
        };
        let b6 = if l > 7 {
            (((v >> 42) & 0x7f) | 0x80) as u8
        } else {
            ((v >> 42) & 0x7f) as u8
        };
        let b7 = if l > 8 {
            (((v >> 49) & 0x7f) | 0x80) as u8
        } else {
            ((v >> 49) & 0x7f) as u8
        };
        let b8 = (v >> 56) as u8;
        let arr = [b0, b1, b2, b3, b4, b5, b6, b7, b8];
        proof {
            assert((v & 0x7f) == (v >> 0) & 0x7f) by (bit_vector);
            assert(((v & 0x7f) | 0x80) == ((v >> 0) & 0x7f) | 0x80) by (bit_vector);
            assert(arr@.take(l as int) =~= vli_bytes(v));
        }
        (arr, l)
    }

    fn read_vli_bytes(bytes: &[u8], pos: usize) -> (r: Result<(u64, usize), DecodeError>) {
        let mut acc: u64 = 0;
        let mut i: usize = 0;
        let mut p: usize = pos;
        loop
            invariant
                i <= 8,
                p == pos + i,
                vli_parse(bytes@, pos as int) == vli_parse_at(bytes@, p as int, i as nat, acc),
            decreases 8 - i,
        {
            if p >= bytes.len() {
                return Err(DecodeError::TruncatedInput);
            }
            let b = bytes[p];
            if i >= 8 {
                return Ok((acc | ((b as u64) << 56u64), p + 1));
            }
            if b & 0x80 == 0 {
                return Ok((acc | ((b as u64) << ((7 * i) as u64)), p + 1));
            }
            acc = acc | (((b & 0x7f) as u64) << ((7 * i) as u64));
            i = i + 1;
            p = p + 1;
        }
    }
}

/// A successful parse consumes between 1 and 9 bytes and stays
/// inside the input.
pub proof fn lemma_vli_parse_bounds(s: Seq<u8>, pos: int)
    ensures
        vli_parse(s, pos) matches Some(r) ==> pos + 1 <= r.1 <= pos + 9 && r.1 <= s.len(),
{
    lemma_vli_parse_at_bounds(s, pos, 0, 0);
}

proof fn lemma_vli_parse_at_bounds(s: Seq<u8>, pos: int, i: nat, acc: u64)
    requires
        i <= 8,
    ensures
        vli_parse_at(s, pos, i, acc) matches Some(r) ==> pos + 1 <= r.1 <= pos + (9 - i) && r.1
            <= s.len(),
    decreases 8 - i,
{
    if 0 <= pos < s.len() {
        let b = s[pos];
        if i < 8 && b & 0x80 != 0 {
            lemma_vli_parse_at_bounds(
                s,
                pos + 1,
                i + 1,
                acc | (((b & 0x7f) as u64) << ((7 * i) as u64)),
            );
        }
    }
}

/// Parsing sees only the bytes it consumes: on the truncation
/// `s.take(n)`, a parse that ended by `n` is unchanged, and one that
/// needed a byte at or past `n` fails.
pub proof fn lemma_vli_parse_prefix(s: Seq<u8>, n: int, pos: int)
    requires
        0 <= n <= s.len(),
    ensures
        vli_parse(s, pos) matches Some(r) ==> vli_parse(s.take(n), pos) == (if r.1 <= n {
            vli_parse(s, pos)
        } else {
            None::<(u64, int)>
        }),
        vli_parse(s, pos) is None ==> vli_parse(s.take(n), pos) is None,
{
    lemma_vli_parse_at_prefix(s, n, pos, 0, 0);
}

proof fn lemma_vli_parse_at_prefix(s: Seq<u8>, n: int, pos: int, i: nat, acc: u64)
    requires
        0 <= n <= s.len(),
        i <= 8,
    ensures
        vli_parse_at(s, pos, i, acc) matches Some(r) ==> vli_parse_at(s.take(n), pos, i, acc) == (
        if r.1 <= n {
            vli_parse_at(s, pos, i, acc)
        } else {
            None::<(u64, int)>
        }),
        vli_parse_at(s, pos, i, acc) is None ==> vli_parse_at(s.take(n), pos, i, acc) is None,
    decreases 8 - i,
{
    lemma_vli_parse_at_bounds(s, pos, i, acc);
    if 0 <= pos < s.len() {
        let b = s[pos];
        if i < 8 && b & 0x80 != 0 {
            lemma_vli_parse_at_prefix(
                s,
                n,
                pos + 1,
                i + 1,
                acc | (((b & 0x7f) as u64) << ((7 * i) as u64)),
            );
        }
    }
}

/// The low `7 * i` bits of `v`: what the first `i` groups carry.
pub open spec fn vli_low(v: u64, i: nat) -> u64 {
    v & (((1u64 << ((7 * i) as u64)) - 1) as u64)
}

/// The encoding of any value parses back to that value, wherever it
/// stands inside a larger buffer.
pub proof fn lemma_vli_round_trip(s: Seq<u8>, pos: int, v: u64)
    requires
        0 <= pos,
        pos + vli_len(v) <= s.len(),
        s.subrange(pos, pos + vli_len(v) as int) == vli_bytes(v),
    ensures
        vli_parse(s, pos) == Some((v, pos + vli_len(v))),
{
    assert(v & (((1u64 << 0u64) - 1) as u64) == 0) by (bit_vector);
    lemma_vli_round_trip_at(s, pos, v, 0);
}

proof fn lemma_vli_round_trip_at(s: Seq<u8>, pos: int, v: u64, i: nat)
    requires
        0 <= pos,
        pos + vli_len(v) <= s.len(),
        s.subrange(pos, pos + vli_len(v) as int) == vli_bytes(v),
        i < vli_len(v),
    ensures
        vli_parse_at(s, pos + i, i, vli_low(v, i)) == Some((v, pos + vli_len(v))),
    decreases vli_len(v) - i,
{
    let l = vli_len(v) as int;
    assert(1 <= l <= 9);
    assert(i <= 8);
    let j = (7 * i) as u64;
    let j7 = (7 * (i + 1)) as u64;
    assert(j7 == j + 7);
    let b = s[pos + i];
    assert(b == vli_byte_at(v, i as int)) by {
        assert(s.subrange(pos, pos + l)[i as int] == s[pos + i]);
        assert(vli_bytes(v)[i as int] == vli_byte_at(v, i as int));
    }
    let acc = vli_low(v, i);
    if i == 8 {
        assert(b == (v >> 56) as u8);
        assert((v & (((1u64 << 56u64) - 1) as u64)) | ((((v >> 56) as u8) as u64) << 56u64) == v)
            by (bit_vector);
        assert(j == 56u64);
    } else if i + 1 == l {
        // `b` is the terminal byte: continuation bit clear.
        assert((((v >> j) & 0x7f) as u8) & 0x80 == 0) by (bit_vector);
        assert(v >> j7 == 0) by {
            if i == 0 {
                assert(j7 == 7u64);
            } else if i == 1 {
                assert(j7 == 14u64);
            } else if i == 2 {
                assert(j7 == 21u64);
            } else if i == 3 {
                assert(j7 == 28u64);
            } else if i == 4 {
                assert(j7 == 35u64);
            } else if i == 5 {
                assert(j7 == 42u64);
            } else if i == 6 {
                assert(j7 == 49u64);
            } else {
                assert(j7 == 56u64);
            }
        }
        assert((j + 7) as u64 == j7);
        assert((v & (((1u64 << j) - 1) as u64)) | (((((v >> j) & 0x7f) as u8) as u64) << j) == v)
            by (bit_vector)
            requires
                j <= 49 && v >> ((j + 7) as u64) == 0,
        ;
    } else {
        // `b` continues: accumulate its 7 payload bits and recurse.
        assert(((((v >> j) & 0x7f) | 0x80) as u8) & 0x80 != 0) by (bit_vector);
        assert((v & (((1u64 << j) - 1) as u64)) | (((((((v >> j) & 0x7f) | 0x80) as u8) & 0x7f)
            as u64) << j) == v & (((1u64 << ((j + 7) as u64)) - 1) as u64)) by (bit_vector)
            requires
                j <= 49,
        ;
        assert((j + 7) as u64 == j7);
        assert(acc | (((b & 0x7f) as u64) << j) == vli_low(v, i + 1));
        lemma_vli_round_trip_at(s, pos, v, i + 1);
    }
}


} // verus!
