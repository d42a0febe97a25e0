//! The binary container of (title, body) article records: each record is an
//! 8-byte little-endian length, that many bytes of title text, another
//! 8-byte little-endian length, and that many bytes of body text. A
//! truncated trailing record ends the stream.

use vstd::prelude::*;

verus! {

/// The value of eight bytes read little-endian.
pub open spec fn spec_le64(s: Seq<u8>) -> int {
    s[0] + s[1] * 0x100 + s[2] * 0x1_0000 + s[3] * 0x100_0000 + s[4] * 0x1_0000_0000 + s[5]
        * 0x100_0000_0000 + s[6] * 0x1_0000_0000_0000 + s[7] * 0x100_0000_0000_0000
}

/// Read the little-endian length at position `i`.
fn read_le64(s: &Vec<u8>, i: usize) -> (r: u64)
    requires
        i + 8 <= s@.len(),
    ensures
        r == spec_le64(s@.subrange(i as int, i + 8)),
{
    let _bound = s.len();
    let r = (s[i] as u64) + (s[i + 1] as u64) * 0x100 + (s[i + 2] as u64) * 0x1_0000 + (s[i + 3]
        as u64) * 0x100_0000 + (s[i + 4] as u64) * 0x1_0000_0000 + (s[i + 5] as u64)
        * 0x100_0000_0000 + (s[i + 6] as u64) * 0x1_0000_0000_0000 + (s[i + 7] as u64)
        * 0x100_0000_0000_0000;
    proof {
        let sub = s@.subrange(i as int, i + 8);
        assert(sub[0] == s@[i as int]);
        assert(sub[1] == s@[i + 1]);
        assert(sub[2] == s@[i + 2]);
        assert(sub[3] == s@[i + 3]);
        assert(sub[4] == s@[i + 4]);
        assert(sub[5] == s@[i + 5]);
        assert(sub[6] == s@[i + 6]);
        assert(sub[7] == s@[i + 7]);
    }
    r
}

/// A copy of `s[a..b]`.
fn copy_bytes(s: &Vec<u8>, a: usize, b: usize) -> (r: Vec<u8>)
    requires
        a <= b <= s@.len(),
    ensures
        r@ == s@.subrange(a as int, b as int),
{
    let mut out: Vec<u8> = Vec::new();
    let mut k: usize = a;
    while k < b
        invariant
            a <= k <= b <= s@.len(),
            out@ == s@.subrange(a as int, k as int),
        decreases b - k,
    {
        out.push(s[k]);
        proof {
            assert(s@.subrange(a as int, k + 1) == s@.subrange(a as int, k as int).push(
                s@[k as int],
            ));
        }
        k += 1;
    }
    out
}

/// The records framed in `bytes` from position `i` on: each one a length-
/// prefixed title and a length-prefixed body; anything truncated ends the
/// stream.
pub open spec fn spec_records(bytes: Seq<u8>, i: int) -> Seq<(Seq<u8>, Seq<u8>)>
    decreases bytes.len() - i,
{
    if i < 0 || i + 8 > bytes.len() {
        Seq::empty()
    } else {
        let n1 = spec_le64(bytes.subrange(i, i + 8));
        if i + 8 + n1 + 8 > bytes.len() {
            Seq::empty()
        } else {
            let n2 = spec_le64(bytes.subrange(i + 8 + n1, i + 16 + n1));
            if i + 16 + n1 + n2 > bytes.len() {
                Seq::empty()
            } else {
                seq![
                    (
                        bytes.subrange(i + 8, i + 8 + n1),
                        bytes.subrange(i + 16 + n1, i + 16 + n1 + n2),
                    ),
                ] + spec_records(bytes, i + 16 + n1 + n2)
            }
        }
    }
}

/// Split a container into its (title, body) records, stopping at the first
/// truncated record.
pub fn decode_records(bytes: &Vec<u8>) -> (r: Vec<(Vec<u8>, Vec<u8>)>)
    ensures
        r.deep_view() == spec_records(bytes@, 0),
{
    let n = bytes.len();
    let mut out: Vec<(Vec<u8>, Vec<u8>)> = Vec::new();
    let mut i: usize = 0;
    proof {
        assert(out.deep_view() =~= Seq::<(Seq<u8>, Seq<u8>)>::empty());
    }
    loop
        invariant
            n == bytes@.len(),
            0 <= i <= n,
            spec_records(bytes@, 0) == out.deep_view() + spec_records(bytes@, i as int),
        decreases n - i,
    {
        if n - i < 8 {
            proof {
                assert(spec_records(bytes@, i as int) =~= Seq::<(Seq<u8>, Seq<u8>)>::empty());
            }
            return out;
        }
        let n1 = read_le64(bytes, i);
        if n - i < 16 || n1 > (n - i - 16) as u64 {
            proof {
                assert(i + 8 + spec_le64(bytes@.subrange(i as int, i + 8)) + 8 > bytes@.len());
                assert(spec_records(bytes@, i as int) =~= Seq::<(Seq<u8>, Seq<u8>)>::empty());
            }
            return out;
        }
        let n1u = n1 as usize;
        let n2 = read_le64(bytes, i + 8 + n1u);
        if n2 > (n - i - 16 - n1u) as u64 {
            proof {
                assert(spec_records(bytes@, i as int) =~= Seq::<(Seq<u8>, Seq<u8>)>::empty());
            }
            return out;
        }
        let n2u = n2 as usize;
        let title = copy_bytes(bytes, i + 8, i + 8 + n1u);
        let body = copy_bytes(bytes, i + 16 + n1u, i + 16 + n1u + n2u);
        let ghost prevdv = out.deep_view();
        out.push((title, body));
        proof {
            assert(out.deep_view() =~~= prevdv.push(
                (
                    bytes@.subrange(i + 8, i + 8 + n1 as int),
                    bytes@.subrange(i + 16 + n1 as int, i + 16 + n1 as int + n2 as int),
                ),
            ));
            assert(prevdv + spec_records(bytes@, i as int) =~= out.deep_view() + spec_records(
                bytes@,
                i + 16 + n1 as int + n2 as int,
            ));
        }
        i = i + 16 + n1u + n2u;
    }
}

} // verus!
