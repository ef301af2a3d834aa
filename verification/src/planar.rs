//! Planar-to-chunky pixel transposition.
//!
//! ILBM stores a scanline as consecutive bit-planes: each group of
//! `plane_count` bytes (one more when a mask plane is interleaved) encodes
//! 8 horizontally adjacent pixels, one bit per plane per pixel.  The
//! decoder rebuilds one index byte per pixel: pixel `j` of a group takes
//! bit `7 - j` of each plane byte (most significant bit first, left to
//! right), shifted into bit position `p` for plane `p`.  The mask plane's
//! byte, when present, is the last of the group and contributes no bits.

use vstd::prelude::*;
use vstd::pervasive::VecAdditionalExecFns;

verus! {

/// The index byte that planes `0 .. n_planes` of `group` give pixel `j`:
/// bit `7 - j` of plane `p`'s byte lands in bit `p` of the result.
pub open spec fn pixel_value(group: Seq<u8>, n_planes: int, j: int) -> u8
    decreases n_planes,
{
    if n_planes <= 0 {
        0u8
    } else {
        pixel_value(group, n_planes - 1, j) | (((group[n_planes - 1] >> (7 - j) as u8) & 1u8)
            << (n_planes - 1) as u8)
    }
}

/// The 8 index bytes that one plane group yields.
pub open spec fn group_pixels(group: Seq<u8>, n_planes: int) -> Seq<u8> {
    Seq::new(8, |j: int| pixel_value(group, n_planes, j))
}

/// What planar decoding yields on `data`: one group of `group_size` bytes
/// after another, each emitting 8 pixels from its first `n_planes` bytes,
/// until fewer than `group_size` bytes remain.
pub open spec fn planar_decode(data: Seq<u8>, n_planes: int, group_size: int) -> Seq<u8>
    decreases data.len(),
{
    if group_size <= 0 || data.len() < group_size {
        Seq::empty()
    } else {
        group_pixels(data.take(group_size), n_planes) + planar_decode(
            data.skip(group_size),
            n_planes,
            group_size,
        )
    }
}

/// Whether planar decoding of `data` ends mid-group: the bytes do not
/// divide evenly into groups of `group_size`.
pub open spec fn planar_truncated(data: Seq<u8>, group_size: int) -> bool {
    group_size > 0 && data.len() as int % group_size != 0
}

/// Decodes plane-interleaved bytes into one index byte per pixel, appending
/// to `dest`.  `n_pixel_planes` is the number of colour planes (at most 8,
/// so that an index fits one byte); `mask_plane` says whether one extra
/// interleaved mask byte trails each group.  Returns whether the input
/// ended mid-group; the pixels of all complete groups have been appended
/// either way.
pub fn decode_body(data: &Vec<u8>, dest: &mut Vec<u8>, n_pixel_planes: u8, mask_plane: bool) -> (truncated: bool)
    requires
        n_pixel_planes <= 8,
    ensures
        final(dest)@ == old(dest)@ + planar_decode(
            data@,
            n_pixel_planes as int,
            n_pixel_planes as int + (if mask_plane { 1int } else { 0int }),
        ),
        truncated == planar_truncated(
            data@,
            n_pixel_planes as int + (if mask_plane { 1int } else { 0int }),
        ),
{
    let n_planes: usize = if mask_plane {
        n_pixel_planes as usize + 1
    } else {
        n_pixel_planes as usize
    };
    let ghost gs: int = n_planes as int;
    if n_planes == 0 {
        // no colour planes and no mask: a group is empty, nothing decodes
        assert(dest@ =~= old(dest)@ + planar_decode(data@, 0, 0));
        return false;
    }
    let ghost orig: Seq<u8> = dest@;
    let ghost mut emitted: Seq<u8> = Seq::empty();
    let mut i: usize = 0;
    proof {
        assert(dest@ =~= orig + emitted);
        assert(data@.skip(0) =~= data@);
    }
    while i < data.len() && data.len() - i >= n_planes
        invariant
            0 < n_planes <= 9,
            n_pixel_planes <= 8,
            gs == n_planes as int,
            gs == n_pixel_planes as int + (if mask_plane { 1int } else { 0int }),
            i <= data@.len(),
            (data@.len() as int - i as int) % gs == data@.len() as int % gs,
            orig == old(dest)@,
            dest@ == orig + emitted,
            planar_decode(data@, n_pixel_planes as int, gs) == emitted + planar_decode(
                data@.skip(i as int),
                n_pixel_planes as int,
                gs,
            ),
        decreases data@.len() - i,
    {
        let ghost rest: Seq<u8> = data@.skip(i as int);
        let ghost group: Seq<u8> = rest.take(gs);
        let base: usize = dest.len();
        // start the 8 pixels of this group at zero
        let mut j: usize = 0;
        while j < 8
            invariant
                j <= 8,
                dest@.len() == base + j,
                base == orig.len() + emitted.len(),
                dest@ == orig + emitted + Seq::new(j as nat, |k: int| 0u8),
            decreases 8 - j,
        {
            dest.push(0);
            assert(Seq::new((j + 1) as nat, |k: int| 0u8) =~= Seq::new(j as nat, |k: int| 0u8)
                + seq![0u8]);
            j = j + 1;
        }
        // fold each colour plane's byte into the 8 pixels
        let limit: usize = dest.len();
        assert(limit == base + 8);
        let mut p: usize = 0;
        while p < n_pixel_planes as usize
            invariant
                p <= n_pixel_planes as usize,
                n_pixel_planes <= 8,
                0 < n_planes <= 9,
                n_pixel_planes as usize <= n_planes,
                gs == n_planes as int,
                data@.len() <= usize::MAX,
                limit == base + 8,
                i + n_planes <= data@.len(),
                group == data@.skip(i as int).take(gs),
                base == orig.len() + emitted.len(),
                dest@.len() == base + 8,
                dest@ == orig + emitted + Seq::new(8, |k: int| pixel_value(group, p as int, k)),
            decreases n_pixel_planes as usize - p,
        {
            let plane: u8 = data[i + p];
            assert(group[p as int] == plane);
            let mut j: usize = 0;
            while j < 8
                invariant
                    j <= 8,
                    p < n_pixel_planes as usize <= 8,
                    plane == group[p as int],
                    limit == base + 8,
                    base == orig.len() + emitted.len(),
                    dest@.len() == base + 8,
                    dest@ == orig + emitted + Seq::new(
                        8,
                        |k: int|
                            if k < j {
                                pixel_value(group, p as int + 1, k)
                            } else {
                                pixel_value(group, p as int, k)
                            },
                    ),
                decreases 8 - j,
            {
                let idx: usize = base + j;
                let bit: u8 = (plane >> (7 - j as u8)) & 1;
                let cur: u8 = dest[idx];
                dest.set(idx, cur | (bit << p as u8));
                proof {
                    assert(cur == pixel_value(group, p as int, j as int));
                    assert(cur | (bit << p as u8) == pixel_value(group, p as int + 1, j as int));
                    assert(dest@ =~= orig + emitted + Seq::new(
                        8,
                        |k: int|
                            if k < j + 1 {
                                pixel_value(group, p as int + 1, k)
                            } else {
                                pixel_value(group, p as int, k)
                            },
                    ));
                }
                j = j + 1;
            }
            proof {
                assert(Seq::new(8, |k: int| if k < 8 { pixel_value(group, p as int + 1, k) } else { pixel_value(group, p as int, k) })
                    =~= Seq::new(8, |k: int| pixel_value(group, p as int + 1, k)));
            }
            p = p + 1;
        }
        proof {
            assert(dest@ == orig + emitted + group_pixels(group, n_pixel_planes as int));
            assert(rest.skip(gs) =~= data@.skip(i as int + gs));
            assert(planar_decode(rest, n_pixel_planes as int, gs) == group_pixels(
                group,
                n_pixel_planes as int,
            ) + planar_decode(rest.skip(gs), n_pixel_planes as int, gs));
            emitted = emitted + group_pixels(group, n_pixel_planes as int);
            assert(dest@ =~= orig + emitted);
            vstd::arithmetic::div_mod::lemma_mod_sub_multiples_vanish(
                data@.len() as int - i as int,
                gs,
            );
        }
        i = i + n_planes;
    }
    proof {
        assert(data@.skip(i as int).len() < gs);
        assert(planar_decode(data@.skip(i as int), n_pixel_planes as int, gs)
            =~= Seq::<u8>::empty());
        assert(planar_decode(data@, n_pixel_planes as int, gs) =~= emitted);
        vstd::arithmetic::div_mod::lemma_small_mod((data@.len() - i) as nat, gs as nat);
    }
    i != data.len()
}

} // verus!
