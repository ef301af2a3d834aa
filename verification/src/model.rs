//! Mathematical model of the chunk tree and of parsing.
//!
//! `ChunkModel` is the abstract value of one chunk; the executable types in
//! `iff` have it as their view.  `spec_parse` and `spec_parse_forest` state
//! what parsing a byte sequence yields: they are the reference that the
//! executable parser is proved against.

use vstd::prelude::*;

use crate::byte_order::spec_i16_be;
use crate::byte_order::spec_u16_be;
use crate::byte_order::spec_u32_be;
use crate::errors::Diagnostic;

verus! {

/// Abstract value of one chunk: its 4-byte tag, the declared payload size
/// (for a container, already less the 4 subtype bytes), the level-order
/// ordinal once assigned, the enumeration bookkeeping flag, the decoded
/// content, and the diagnostics recorded while decoding it.
#[verifier::ext_equal]
pub struct ChunkModel {
    pub tag: Seq<u8>,
    pub size: nat,
    pub number: Option<nat>,
    pub complete: bool,
    pub content: ContentModel,
    pub diags: Seq<Diagnostic>,
}

/// Abstract value of a chunk's decoded content.
#[verifier::ext_equal]
pub enum ContentModel {
    /// Payload kept verbatim: an unrecognized tag, or a recognized one whose
    /// fixed-size fields could not be read from a clipped payload.
    Generic { data: Seq<u8> },
    /// A container: the nested subtype tag and the child chunks parsed from
    /// the inner byte range.
    Container { fourcc: Seq<u8>, children: Seq<ChunkModel> },
    /// Bitmap header fields, in the byte order of the 20-byte layout.
    Bmhd {
        width: u16,
        height: u16,
        x_origin: i16,
        y_origin: i16,
        n_planes: u8,
        mask: u8,
        compression: u8,
        transparent_color: u16,
        x_aspect: u8,
        y_aspect: u8,
        page_width: i16,
        page_height: i16,
    },
    /// Palette entries: one red-green-blue triple per 3 payload bytes.
    Cmap { n_colors: nat, colors: Seq<(u8, u8, u8)> },
    /// One colour-cycling range.
    Crng { rate: i16, flags: u16, active: bool, cycle_downwards: bool, low: u8, high: u8 },
    /// Pixel body: the raw payload plus the two lazily filled caches.
    Body { raw: Seq<u8>, decompressed: Option<Seq<u8>>, pixels: Option<Seq<u8>> },
}

/// The container tag "FORM".
pub open spec fn tag_form() -> Seq<u8> {
    seq![0x46u8, 0x4Fu8, 0x52u8, 0x4Du8]
}

/// The bitmap-header tag "BMHD".
pub open spec fn tag_bmhd() -> Seq<u8> {
    seq![0x42u8, 0x4Du8, 0x48u8, 0x44u8]
}

/// The palette tag "CMAP".
pub open spec fn tag_cmap() -> Seq<u8> {
    seq![0x43u8, 0x4Du8, 0x41u8, 0x50u8]
}

/// The cycling-range tag "CRNG".
pub open spec fn tag_crng() -> Seq<u8> {
    seq![0x43u8, 0x52u8, 0x4Eu8, 0x47u8]
}

/// The pixel-body tag "BODY".
pub open spec fn tag_body() -> Seq<u8> {
    seq![0x42u8, 0x4Fu8, 0x44u8, 0x59u8]
}

/// The declared (big-endian) payload length of the chunk that starts `s`.
pub open spec fn spec_declared(s: Seq<u8>) -> int
    recommends
        s.len() >= 8,
{
    spec_u32_be(s[4], s[5], s[6], s[7])
}

/// Whether the chunk that starts `s` is parsed as a container: tagged FORM,
/// with a declared length that covers the 4 subtype bytes, which must also
/// actually be present.
pub open spec fn spec_is_container(s: Seq<u8>) -> bool
    recommends
        s.len() >= 8,
{
    s.subrange(0, 4) == tag_form() && spec_declared(s) >= 4 && s.len() >= 12
}

/// The payload size of the chunk that starts `s`: the declared length, less
/// the 4 subtype bytes for a container.
pub open spec fn spec_chunk_size(s: Seq<u8>) -> nat
    recommends
        s.len() >= 8,
{
    if spec_is_container(s) {
        (spec_declared(s) - 4) as nat
    } else {
        spec_declared(s) as nat
    }
}

/// How many bytes the chunk that starts `s` accounts for: its header (8, or
/// 12 with the subtype tag) plus its declared payload size, whether or not
/// that many bytes are present.
pub open spec fn spec_consumed(s: Seq<u8>) -> nat
    recommends
        s.len() >= 8,
{
    if spec_is_container(s) {
        12 + spec_chunk_size(s)
    } else {
        8 + spec_chunk_size(s)
    }
}

/// The offset of the next chunk header relative to this chunk's: what the
/// chunk consumed, plus one skipped padding byte when its declared payload
/// length is odd.
pub open spec fn spec_step(s: Seq<u8>) -> nat
    recommends
        s.len() >= 8,
{
    if spec_consumed(s) % 2 == 1 {
        spec_consumed(s) + 1
    } else {
        spec_consumed(s)
    }
}

/// The payload bytes of the chunk that starts `s`: the declared size worth
/// of bytes after the header, clipped to the bytes actually present.
pub open spec fn spec_payload(s: Seq<u8>) -> Seq<u8>
    recommends
        s.len() >= 8,
{
    let header: int = if spec_is_container(s) {
        12
    } else {
        8
    };
    let avail: int = s.len() - header;
    let clipped: int = if spec_chunk_size(s) <= avail {
        spec_chunk_size(s) as int
    } else {
        avail
    };
    s.subrange(header, header + clipped)
}

/// Whether the chunk that starts `s` is truncated: its declared payload
/// size exceeds the bytes that remain after the header.
pub open spec fn spec_truncated(s: Seq<u8>) -> bool
    recommends
        s.len() >= 8,
{
    spec_chunk_size(s) > s.len() - (if spec_is_container(s) {
        12int
    } else {
        8int
    })
}

/// What decoding a non-container payload yields for a given tag, with the
/// diagnostics recorded while decoding it.  Dispatch never fails on an
/// unknown tag: the payload is kept verbatim.  A recognized tag whose
/// fixed-size fields extend past the (possibly clipped) payload also falls
/// back to the verbatim payload, with a diagnostic.
pub open spec fn spec_decode(tag: Seq<u8>, payload: Seq<u8>) -> (ContentModel, Seq<Diagnostic>) {
    if tag == tag_bmhd() {
        if payload.len() >= 20 {
            (
                ContentModel::Bmhd {
                    width: spec_u16_be(payload[0], payload[1]) as u16,
                    height: spec_u16_be(payload[2], payload[3]) as u16,
                    x_origin: spec_i16_be(payload[4], payload[5]) as i16,
                    y_origin: spec_i16_be(payload[6], payload[7]) as i16,
                    n_planes: payload[8],
                    mask: payload[9],
                    compression: payload[10],
                    transparent_color: spec_u16_be(payload[12], payload[13]) as u16,
                    x_aspect: payload[14],
                    y_aspect: payload[15],
                    page_width: spec_i16_be(payload[16], payload[17]) as i16,
                    page_height: spec_i16_be(payload[18], payload[19]) as i16,
                },
                Seq::empty(),
            )
        } else {
            (ContentModel::Generic { data: payload }, seq![Diagnostic::MalformedFixedField])
        }
    } else if tag == tag_cmap() {
        (
            ContentModel::Cmap {
                n_colors: (payload.len() / 3) as nat,
                colors: Seq::new(
                    payload.len() / 3,
                    |i: int| (payload[3 * i], payload[3 * i + 1], payload[3 * i + 2]),
                ),
            },
            Seq::empty(),
        )
    } else if tag == tag_crng() {
        if payload.len() >= 8 {
            (
                ContentModel::Crng {
                    rate: spec_i16_be(payload[2], payload[3]) as i16,
                    flags: spec_u16_be(payload[4], payload[5]) as u16,
                    active: spec_u16_be(payload[4], payload[5]) as u16 & 0x1 != 0,
                    cycle_downwards: spec_u16_be(payload[4], payload[5]) as u16 & 0x2 != 0,
                    low: payload[6],
                    high: payload[7],
                },
                Seq::empty(),
            )
        } else {
            (ContentModel::Generic { data: payload }, seq![Diagnostic::MalformedFixedField])
        }
    } else if tag == tag_body() {
        (ContentModel::Body { raw: payload, decompressed: None, pixels: None }, Seq::empty())
    } else {
        (ContentModel::Generic { data: payload }, Seq::empty())
    }
}

/// What parsing the chunk that starts `s` yields.  A container's children
/// are parsed recursively from its clipped payload; any other payload is
/// decoded by tag.  A truncation diagnostic comes first, then the decoder's
/// own diagnostics.
pub open spec fn spec_parse(s: Seq<u8>) -> ChunkModel
    recommends
        s.len() >= 8,
    decreases s.len(), 0int,
{
    let tdiags: Seq<Diagnostic> = if spec_truncated(s) {
        seq![Diagnostic::StructuralTruncation]
    } else {
        Seq::empty()
    };
    if spec_is_container(s) {
        ChunkModel {
            tag: s.subrange(0, 4),
            size: spec_chunk_size(s),
            number: None,
            complete: false,
            content: ContentModel::Container {
                fourcc: s.subrange(8, 12),
                children: spec_parse_forest(spec_payload(s)),
            },
            diags: tdiags,
        }
    } else {
        let decoded = spec_decode(s.subrange(0, 4), spec_payload(s));
        ChunkModel {
            tag: s.subrange(0, 4),
            size: spec_chunk_size(s),
            number: None,
            complete: false,
            content: decoded.0,
            diags: tdiags + decoded.1,
        }
    }
}

/// The children of a chunk: a container's sub-chunks, nothing otherwise.
pub open spec fn kids(c: ChunkModel) -> Seq<ChunkModel> {
    match c.content {
        ContentModel::Container { children, .. } => children,
        _ => Seq::empty(),
    }
}

/// Depth-first pre-order search for the first chunk tagged `tag` in the
/// forest suffix `f[i..]`: a chunk's own tag is checked before its
/// children, children before later siblings.  Yields the child-index path
/// from the forest root, or nothing.
pub open spec fn spec_find(f: Seq<ChunkModel>, i: int, tag: Seq<u8>) -> Option<Seq<usize>>
    decreases f, f.len() - i,
{
    if i < 0 || i >= f.len() {
        None
    } else if f[i].tag == tag {
        Some(seq![i as usize])
    } else {
        let sub = match f[i].content {
            ContentModel::Container { children, .. } => spec_find(children, 0, tag),
            _ => None,
        };
        match sub {
            Some(p) => Some(seq![i as usize] + p),
            None => spec_find(f, i + 1, tag),
        }
    }
}

/// What ByteRun1 decompression leaves in a pixel body's first cache: the
/// raw payload itself under compression method 0 (or any method other
/// than 1), the decoded stream under method 1.
pub open spec fn spec_decompressed(raw: Seq<u8>, compression: u8) -> Seq<u8> {
    if compression == 1 {
        crate::rle::rle_decode(raw)
    } else {
        raw
    }
}

/// The plane-group size for a pixel body: the colour planes plus one
/// interleaved mask byte when bit 0 of the header's mask field is set.
pub open spec fn spec_group_size(n_planes: u8, mask: u8) -> int {
    n_planes as int + (if mask & 1 == 1 {
        1int
    } else {
        0int
    })
}

/// What preparing a pixel body's content yields: each cache keeps its value
/// if already filled, and is computed exactly once otherwise — the first
/// from the raw payload and the compression method, the second from the
/// first cache and the header's plane count and mask flag.  Content other
/// than a pixel body is left unchanged.
pub open spec fn spec_prepare_content(c: ContentModel, n_planes: u8, mask: u8, compression: u8) -> ContentModel {
    match c {
        ContentModel::Body { raw, decompressed, pixels } => {
            let dec = match decompressed {
                Some(d) => d,
                None => spec_decompressed(raw, compression),
            };
            let pix = match pixels {
                Some(p) => p,
                None => crate::planar::planar_decode(
                    dec,
                    n_planes as int,
                    spec_group_size(n_planes, mask),
                ),
            };
            ContentModel::Body { raw, decompressed: Some(dec), pixels: Some(pix) }
        },
        _ => c,
    }
}

/// The diagnostics that preparing a pixel body adds: one truncation note
/// per cache that is computed this time and runs out of input bytes.  A
/// cache that is already filled adds nothing.
pub open spec fn spec_prepare_diags(c: ContentModel, n_planes: u8, mask: u8, compression: u8) -> Seq<Diagnostic> {
    match c {
        ContentModel::Body { raw, decompressed, pixels } => {
            let first: Seq<Diagnostic> = match decompressed {
                Some(d) => Seq::empty(),
                None => if compression == 1 && crate::rle::rle_truncated(raw) {
                    seq![Diagnostic::StructuralTruncation]
                } else {
                    Seq::empty()
                },
            };
            let dec = match decompressed {
                Some(d) => d,
                None => spec_decompressed(raw, compression),
            };
            let second: Seq<Diagnostic> = match pixels {
                Some(p) => Seq::empty(),
                None => if crate::planar::planar_truncated(
                    dec,
                    spec_group_size(n_planes, mask),
                ) {
                    seq![Diagnostic::StructuralTruncation]
                } else {
                    Seq::empty()
                },
            };
            first + second
        },
        _ => Seq::empty(),
    }
}

/// Law: preparing a pixel body is idempotent — once both caches are
/// filled, preparing again changes nothing and records no new diagnostic,
/// so recomputation always yields byte-identical buffers.
pub proof fn lemma_prepare_idempotent(c: ContentModel, n_planes: u8, mask: u8, compression: u8)
    ensures
        spec_prepare_content(
            spec_prepare_content(c, n_planes, mask, compression),
            n_planes,
            mask,
            compression,
        ) == spec_prepare_content(c, n_planes, mask, compression),
        spec_prepare_diags(
            spec_prepare_content(c, n_planes, mask, compression),
            n_planes,
            mask,
            compression,
        ) =~= Seq::<Diagnostic>::empty(),
{
}

/// What parsing a byte buffer yields: a forest of sibling chunks, read one
/// after another while at least 8 bytes (one chunk header) remain.
pub open spec fn spec_parse_forest(s: Seq<u8>) -> Seq<ChunkModel>
    decreases s.len(), 1int,
{
    if s.len() < 8 {
        Seq::empty()
    } else {
        let node = spec_parse(s);
        let step = spec_step(s);
        if step + 8 <= s.len() {
            seq![node] + spec_parse_forest(s.skip(step as int))
        } else {
            seq![node]
        }
    }
}

/// Law: a chunk whose declared payload length is odd is followed by
/// exactly one skipped padding byte — when enough bytes remain, the next
/// sibling chunk is read starting one byte past the bytes the chunk
/// consumed, not at them.
pub proof fn lemma_odd_padding(s: Seq<u8>)
    requires
        s.len() >= 8,
        spec_consumed(s) % 2 == 1,
        spec_consumed(s) + 1 + 8 <= s.len(),
    ensures
        spec_parse_forest(s) == seq![spec_parse(s)] + spec_parse_forest(
            s.skip(spec_consumed(s) as int + 1),
        ),
{
}

} // verus!
