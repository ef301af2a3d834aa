//! ByteRun1 run-length decompression.
//!
//! The packed stream is consumed left to right, one control byte at a time:
//! `0x80` is a no-op, a control below `0x80` introduces a literal run of
//! `control + 1` bytes, and a control above `0x80` repeats the single
//! following byte `control - 0x80` times.  A run whose bytes would lie past
//! the end of the input is not emitted at all: decoding stops there and the
//! caller is told that the stream was truncated.

use vstd::prelude::*;

verus! {

/// What ByteRun1 decompression yields on `s`: runs are emitted until the
/// input ends or a run would need bytes past the end of the input.
pub open spec fn rle_decode(s: Seq<u8>) -> Seq<u8>
    decreases s.len(),
{
    if s.len() == 0 {
        Seq::empty()
    } else {
        let c = s[0];
        if c == 0x80 {
            rle_decode(s.skip(1))
        } else if c < 0x80 {
            let n = c + 1;
            if 1 + n <= s.len() {
                s.subrange(1, 1 + n) + rle_decode(s.skip(1 + n))
            } else {
                Seq::empty()
            }
        } else {
            if s.len() >= 2 {
                Seq::new((c - 0x80) as nat, |j: int| s[1]) + rle_decode(s.skip(2))
            } else {
                Seq::empty()
            }
        }
    }
}

/// Whether ByteRun1 decompression of `s` runs off the end of the input:
/// some run's declared length exceeds the bytes that remain.
pub open spec fn rle_truncated(s: Seq<u8>) -> bool
    decreases s.len(),
{
    if s.len() == 0 {
        false
    } else {
        let c = s[0];
        if c == 0x80 {
            rle_truncated(s.skip(1))
        } else if c < 0x80 {
            let n = c + 1;
            if 1 + n <= s.len() {
                rle_truncated(s.skip(1 + n))
            } else {
                true
            }
        } else {
            if s.len() >= 2 {
                rle_truncated(s.skip(2))
            } else {
                true
            }
        }
    }
}

/// Decompresses the ByteRun1 stream `data`, appending the output to `dest`.
/// Returns whether the stream was truncated (a run needed bytes past the
/// end of `data`); in that case everything decoded before the bad run has
/// still been appended.
pub fn decompress_body(data: &Vec<u8>, dest: &mut Vec<u8>) -> (truncated: bool)
    ensures
        final(dest)@ == old(dest)@ + rle_decode(data@),
        truncated == rle_truncated(data@),
{
    let ghost orig: Seq<u8> = dest@;
    let ghost mut emitted: Seq<u8> = Seq::empty();
    let mut i: usize = 0;
    proof {
        assert(dest@ =~= orig + emitted);
        assert(data@.skip(0) =~= data@);
    }
    loop
        invariant
            i <= data@.len(),
            orig == old(dest)@,
            dest@ == orig + emitted,
            rle_decode(data@) == emitted + rle_decode(data@.skip(i as int)),
            rle_truncated(data@) == rle_truncated(data@.skip(i as int)),
        ensures
            dest@ == orig + rle_decode(data@),
            !rle_truncated(data@),
        decreases data@.len() - i,
    {
        if i >= data.len() {
            assert(data@.skip(i as int) =~= Seq::<u8>::empty());
            assert(rle_decode(data@) =~= emitted);
            break ;
        }
        let ghost rest: Seq<u8> = data@.skip(i as int);
        assert(rest.len() == data@.len() - i);
        let c = data[i];
        assert(rest[0] == c);
        if c == 0x80 {
            // no-op control byte
            assert(rest.skip(1) =~= data@.skip(i + 1));
            i = i + 1;
        } else if c < 0x80 {
            let n: usize = c as usize + 1;
            if data.len() - i - 1 < n {
                // the literal run would read past the end of the input
                assert(1 + (c + 1) > rest.len());
                assert(rle_decode(rest) =~= Seq::<u8>::empty());
                assert(rle_decode(data@) =~= emitted);
                return true;
            }
            assert(rest.skip(1 + c + 1) =~= data@.skip(i + 1 + n));
            assert(rest.subrange(1, 1 + c + 1) =~= data@.subrange(i + 1, i + 1 + n));
            let stop: usize = i + 1 + n;
            let mut j: usize = i + 1;
            while j < stop
                invariant
                    i + 1 <= j <= stop,
                    stop == i + 1 + n,
                    stop <= data@.len(),
                    dest@ == orig + emitted + data@.subrange(i + 1, j as int),
                decreases stop - j,
            {
                let b = data[j];
                dest.push(b);
                assert(data@.subrange(i + 1, j + 1) =~= data@.subrange(i + 1, j as int)
                    + seq![b]);
                j = j + 1;
            }
            proof {
                emitted = emitted + data@.subrange(i + 1, stop as int);
            }
            i = stop;
        } else {
            if data.len() - i < 2 {
                // the replicate run's byte lies past the end of the input
                assert(rest.len() < 2);
                assert(rle_decode(rest) =~= Seq::<u8>::empty());
                assert(rle_decode(data@) =~= emitted);
                return true;
            }
            let b = data[i + 1];
            assert(rest[1] == b);
            assert(rest.skip(2) =~= data@.skip(i + 2));
            let n: usize = c as usize - 0x80;
            let ghost before: Seq<u8> = dest@;
            let mut j: usize = 0;
            while j < n
                invariant
                    j <= n,
                    dest@ == before + Seq::new(j as nat, |k: int| b),
                decreases n - j,
            {
                dest.push(b);
                assert(Seq::new((j + 1) as nat, |k: int| b) =~= Seq::new(j as nat, |k: int| b)
                    + seq![b]);
                j = j + 1;
            }
            proof {
                assert(Seq::new((c - 0x80) as nat, |k: int| rest[1]) =~= Seq::new(
                    n as nat,
                    |k: int| b,
                ));
                emitted = emitted + Seq::new(n as nat, |k: int| b);
                assert(dest@ == orig + emitted);
            }
            i = i + 2;
        }
    }
    false
}

/// Law: a stream made solely of `0x80` control bytes decodes to nothing.
pub proof fn lemma_all_nop_decodes_empty(s: Seq<u8>)
    requires
        forall|i: int| 0 <= i < s.len() ==> s[i] == 0x80,
    ensures
        rle_decode(s) =~= Seq::<u8>::empty(),
        !rle_truncated(s),
    decreases s.len(),
{
    if s.len() > 0 {
        assert(forall|i: int| 0 <= i < s.skip(1).len() ==> s.skip(1)[i] == 0x80);
        lemma_all_nop_decodes_empty(s.skip(1));
    }
}

/// Law: a literal run of three bytes decodes to exactly those three bytes.
pub proof fn lemma_literal_run(a: u8, b: u8, c: u8)
    ensures
        rle_decode(seq![2u8, a, b, c]) =~= seq![a, b, c],
        !rle_truncated(seq![2u8, a, b, c]),
{
    let s: Seq<u8> = seq![2u8, a, b, c];
    reveal_with_fuel(rle_decode, 2);
    reveal_with_fuel(rle_truncated, 2);
    assert(s.skip(4) =~= Seq::<u8>::empty());
    assert(s.subrange(1, 4) =~= seq![a, b, c]);
}

/// Law: a replicate run with count three decodes to the following byte,
/// three times over.
pub proof fn lemma_replicate_run(z: u8)
    ensures
        rle_decode(seq![0x83u8, z]) =~= seq![z, z, z],
        !rle_truncated(seq![0x83u8, z]),
{
    let s: Seq<u8> = seq![0x83u8, z];
    reveal_with_fuel(rle_decode, 2);
    reveal_with_fuel(rle_truncated, 2);
    assert(s.skip(2) =~= Seq::<u8>::empty());
    assert(Seq::new(3nat, |j: int| s[1]) =~= seq![z, z, z]);
}

} // verus!
