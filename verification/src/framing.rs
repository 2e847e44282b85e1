//! The BCS layout of sequences: a ULEB128 length, then the items.
use crate::bytes::copy_bytes;
use vstd::prelude::*;

verus! {

/// The ULEB128 encoding of `n`: seven bits per byte, least significant
/// first, the high bit set on every byte but the last.
pub open spec fn uleb128(n: nat) -> Seq<u8>
    decreases n,
{
    if n < 128 {
        seq![n as u8]
    } else {
        seq![(n % 128 + 128) as u8] + uleb128(n / 128)
    }
}

/// The items, one after the other.
pub open spec fn concat_all(items: Seq<Seq<u8>>) -> Seq<u8>
    decreases items.len(),
{
    if items.len() == 0 {
        Seq::empty()
    } else {
        concat_all(items.drop_last()) + items.last()
    }
}

/// The longest sequence that BCS writes.
pub open spec fn max_sequence_length() -> nat {
    0x7fff_ffff
}

/// A sequence of items already in BCS form, as BCS writes it: its length,
/// then the items.
pub open spec fn bcs_seq(items: Seq<Seq<u8>>) -> Seq<u8> {
    uleb128(items.len()) + concat_all(items)
}

/// The ULEB128 encoding of `n`.
pub fn uleb128_bytes(n: usize) -> (r: Vec<u8>)
    ensures
        r@ == uleb128(n as nat),
{
    let mut out: Vec<u8> = Vec::new();
    let mut v: usize = n;
    while v >= 128
        invariant
            out@ + uleb128(v as nat) == uleb128(n as nat),
        decreases v,
    {
        let byte: u8 = ((v % 128) + 128) as u8;
        let ghost before = out@;
        out.push(byte);
        proof {
            assert(uleb128(v as nat) == seq![byte] + uleb128((v / 128) as nat));
            assert(out@ + uleb128((v / 128) as nat) =~= before + (seq![byte] + uleb128((v / 128) as nat)));
        }
        v = v / 128;
    }
    let last: u8 = v as u8;
    let ghost before = out@;
    out.push(last);
    proof {
        assert(uleb128(v as nat) == seq![last]);
        assert(out@ =~= before + seq![last]);
    }
    out
}

/// Appends the bytes `b` to `out`.
pub fn push_bytes(out: &mut Vec<u8>, b: &[u8])
    ensures
        final(out)@ == old(out)@ + b@,
{
    let mut copy = copy_bytes(b);
    out.append(&mut copy);
}

/// Writes the items of `items`, already in BCS form, as BCS writes a
/// sequence of them.
pub fn write_seq(out: &mut Vec<u8>, items: &Vec<Vec<u8>>)
    ensures
        final(out)@ == old(out)@ + bcs_seq(Seq::new(items@.len(), |i: int| items@[i]@)),
{
    let ghost s = Seq::new(items@.len(), |i: int| items@[i]@);
    let ghost start = out@;
    let len = uleb128_bytes(items.len());
    push_bytes(out, len.as_slice());
    let mut i: usize = 0;
    assert(s.take(0) =~= Seq::<Seq<u8>>::empty());
    while i < items.len()
        invariant
            i <= items@.len(),
            s == Seq::new(items@.len(), |i: int| items@[i]@),
            out@ == start + uleb128(items@.len() as nat) + concat_all(s.take(i as int)),
        decreases items@.len() - i,
    {
        push_bytes(out, items[i].as_slice());
        proof {
            let t = s.take(i + 1);
            assert(t.drop_last() =~= s.take(i as int));
            assert(t.last() == items@[i as int]@);
        }
        i += 1;
    }
    proof {
        assert(s.take(s.len() as int) =~= s);
        assert(out@ =~= start + bcs_seq(s));
    }
}

} // verus!
