//! The chunk tree: executable types, parser, enumerator and lookup.
//!
//! A buffer is split into a forest of tagged, length-prefixed chunks;
//! container chunks own their children by value.  Parsing is proved to
//! yield exactly `model::spec_parse_forest` of the input bytes.

use vstd::prelude::*;

use crate::byte_order::u16_from_be_bytes;
use crate::byte_order::i16_from_be_bytes;
use crate::byte_order::u32_from_be_bytes;
use crate::errors::Diagnostic;
use crate::errors::IffError;
use crate::model::ChunkModel;
use crate::model::ContentModel;
use crate::model::spec_parse;
use crate::model::spec_parse_forest;
use crate::model::spec_declared;
use crate::model::spec_is_container;
use crate::model::spec_chunk_size;
use crate::model::spec_consumed;
use crate::model::spec_step;
use crate::model::spec_payload;
use crate::model::spec_truncated;
use crate::model::spec_find;
use crate::model::spec_prepare_content;
use crate::model::spec_prepare_diags;
use crate::model::spec_group_size;
use crate::model::kids;
use crate::enumeration::pass_node;
use crate::enumeration::prefix_next;
use crate::enumeration::passed_forest;
use crate::enumeration::spec_passes;
use crate::enumeration::forest_height;
use crate::enumeration::lemma_prefix_next_mono;
use crate::enumeration::lemma_prefix_next_assign;
use crate::enumeration::lemma_passes_snoc;
use crate::enumeration::lemma_passes_mono;
use crate::enumeration::lemma_passed_forest_height;
use crate::enumeration::enumeration_fits;
use crate::enumeration::is_enumerated;
use crate::model::tag_form;
use crate::model::tag_bmhd;
use crate::model::tag_cmap;
use crate::model::tag_crng;
use crate::model::tag_body;

verus! {

broadcast use vstd::std_specs::vec::group_vec_axioms;

/// The container kind of a container chunk, with its nested subtype tag.
#[derive(Debug)]
pub enum Container {
    FORM { fourcc: [u8; 4] },
}

/// A chunk's decoded content.
#[derive(Debug)]
pub enum ChunkContent {
    /// Payload kept verbatim: an unrecognized tag, or a recognized one
    /// whose fixed-size fields could not be read from a clipped payload.
    GenericChunk { data: Vec<u8> },
    /// A container chunk owning its child chunks.
    Container { sub_chunks: Vec<IFFChunk>, container: Container },
    /// Bitmap header.
    BMHD {
        width: u16,
        height: u16,
        x_origin: i16,
        y_origin: i16,
        n_planes: u8,
        mask: u8,
        compression: u8,
        transparent_color: u16,
        x_aspect: u8,
        y_aspect: u8,
        page_width: i16,
        page_height: i16,
    },
    /// Palette: one red-green-blue triple per 3 payload bytes.
    CMAP { n_colors: usize, colors: Vec<(u8, u8, u8)> },
    /// Colour-cycling range.
    CRNG { rate: i16, flags: u16, active: bool, cycle_downwards: bool, low: u8, high: u8 },
    /// Pixel body: raw payload plus the two lazily filled caches.
    BODY { raw_data: Vec<u8>, decompressed_data: Option<Vec<u8>>, pixel_data: Option<Vec<u8>> },
}

/// One chunk of the tree.
#[derive(Debug)]
pub struct IFFChunk {
    /// The 4-byte tag, captured verbatim (text or not).
    pub chunk_type: [u8; 4],
    /// The declared payload size; for a container, already less the 4
    /// subtype bytes.  A truncated chunk keeps its declared size and its
    /// payload is clipped, with a diagnostic recorded.
    pub size: usize,
    /// Enumeration bookkeeping: no descendant gained an ordinal during the
    /// most recent enumeration pass.
    pub enumeration_complete: bool,
    /// The level-order ordinal, once `enumerate` has assigned it.
    pub chunk_number: Option<usize>,
    /// The decoded content.
    pub data: ChunkContent,
    /// Advisory diagnostics recorded while this chunk was decoded.
    pub diagnostics: Vec<Diagnostic>,
}

/// The views of a sequence of chunks, elementwise.
pub open spec fn views(s: Seq<IFFChunk>) -> Seq<ChunkModel>
    decreases s,
{
    Seq::new(
        s.len(),
        |i: int|
            if 0 <= i < s.len() {
                s[i]@
            } else {
                vstd::pervasive::arbitrary()
            },
    )
}

impl View for ChunkContent {
    type V = ContentModel;

    open spec fn view(&self) -> ContentModel
        decreases self,
    {
        match self {
            ChunkContent::GenericChunk { data } => ContentModel::Generic { data: data@ },
            ChunkContent::Container { sub_chunks, container } => ContentModel::Container {
                fourcc: match container {
                    Container::FORM { fourcc } => fourcc@,
                },
                children: views(sub_chunks@),
            },
            ChunkContent::BMHD {
                width,
                height,
                x_origin,
                y_origin,
                n_planes,
                mask,
                compression,
                transparent_color,
                x_aspect,
                y_aspect,
                page_width,
                page_height,
            } => ContentModel::Bmhd {
                width: *width,
                height: *height,
                x_origin: *x_origin,
                y_origin: *y_origin,
                n_planes: *n_planes,
                mask: *mask,
                compression: *compression,
                transparent_color: *transparent_color,
                x_aspect: *x_aspect,
                y_aspect: *y_aspect,
                page_width: *page_width,
                page_height: *page_height,
            },
            ChunkContent::CMAP { n_colors, colors } => ContentModel::Cmap {
                n_colors: *n_colors as nat,
                colors: colors@,
            },
            ChunkContent::CRNG { rate, flags, active, cycle_downwards, low, high } => ContentModel::Crng {
                rate: *rate,
                flags: *flags,
                active: *active,
                cycle_downwards: *cycle_downwards,
                low: *low,
                high: *high,
            },
            ChunkContent::BODY { raw_data, decompressed_data, pixel_data } => ContentModel::Body {
                raw: raw_data@,
                decompressed: match decompressed_data {
                    Some(d) => Some(d@),
                    None => None,
                },
                pixels: match pixel_data {
                    Some(p) => Some(p@),
                    None => None,
                },
            },
        }
    }
}

impl View for IFFChunk {
    type V = ChunkModel;

    open spec fn view(&self) -> ChunkModel
        decreases self,
    {
        ChunkModel {
            tag: self.chunk_type@,
            size: self.size as nat,
            number: match self.chunk_number {
                Some(n) => Some(n as nat),
                None => None,
            },
            complete: self.enumeration_complete,
            content: self.data@,
            diags: self.diagnostics@,
        }
    }
}

impl IFFChunk {
    /// Reads 4 consecutive bytes into a fixed array (a tag or subtype tag),
    /// captured verbatim whether or not they are text.
    pub fn parse_4_bytes(data: &Vec<u8>, offset: usize) -> (r: [u8; 4])
        requires
            offset + 4 <= data@.len(),
        ensures
            r@ == data@.subrange(offset as int, offset as int + 4),
    {
        let n: usize = data.len();
        assert(offset + 4 <= n);
        let r = [data[offset], data[offset + 1], data[offset + 2], data[offset + 3]];
        proof {
            assert(r@ =~= data@.subrange(offset as int, offset as int + 4));
        }
        r
    }

    /// Whether `tag` is exactly the 4 given bytes.
    fn tag_is(tag: &[u8; 4], a: u8, b: u8, c: u8, d: u8) -> (r: bool)
        ensures
            r <==> tag@ == seq![a, b, c, d],
    {
        let r = tag[0] == a && tag[1] == b && tag[2] == c && tag[3] == d;
        proof {
            if r {
                assert(tag@ =~= seq![a, b, c, d]);
            }
        }
        r
    }

    /// Splits `data` into a forest of chunks, appended to `chunks`: chunks
    /// are read one after another while at least 8 bytes (one header)
    /// remain, each followed by one padding byte when its declared length
    /// is odd.  The result is exactly `spec_parse_forest(data@)`.
    pub fn find_chunks(data: &Vec<u8>, chunks: &mut Vec<IFFChunk>)
        ensures
            views(final(chunks)@) == views(old(chunks)@) + spec_parse_forest(data@),
        decreases data@.len(), 1int,
    {
        let ghost orig: Seq<ChunkModel> = views(chunks@);
        let ghost mut done: Seq<ChunkModel> = Seq::empty();
        let n_bytes: usize = data.len();
        let mut offset: usize = 0;
        proof {
            assert(views(chunks@) =~= orig + done);
            assert(data@.skip(0) =~= data@);
        }
        loop
            invariant_except_break
                views(chunks@) == orig + done,
                spec_parse_forest(data@) == done + spec_parse_forest(data@.skip(offset as int)),
            invariant
                offset <= n_bytes,
                n_bytes == data@.len(),
                orig == views(old(chunks)@),
            ensures
                views(chunks@) == orig + spec_parse_forest(data@),
            decreases data@.len() - offset,
        {
            let ghost rest: Seq<u8> = data@.skip(offset as int);
            if n_bytes - offset < 8 {
                assert(spec_parse_forest(rest) =~= Seq::<ChunkModel>::empty());
                assert(views(chunks@) =~= orig + spec_parse_forest(data@));
                break ;
            }
            let (chunk, consumed) = IFFChunk::parse(data, offset);
            let ghost node: ChunkModel = chunk@;
            let ghost pre: Seq<IFFChunk> = chunks@;
            chunks.push(chunk);
            proof {
                lemma_views_push(pre, chunk);
                done = done + seq![node];
                assert(views(chunks@) =~= orig + done);
            }
            // skip the payload and, for an odd declared length, one pad byte
            let step: u128 = if consumed % 2 == 1 {
                consumed as u128 + 1
            } else {
                consumed as u128
            };
            assert(step == spec_step(rest));
            let next: u128 = offset as u128 + step;
            if next + 8 <= n_bytes as u128 {
                proof {
                    assert(rest.skip(spec_step(rest) as int) =~= data@.skip(
                        offset as int + spec_step(rest) as int,
                    ));
                }
                offset = next as usize;
            } else {
                // the next header would start past the end: this chunk, as
                // parsed, ends the forest
                assert(spec_parse_forest(rest) =~= seq![node]);
                assert(views(chunks@) =~= orig + spec_parse_forest(data@));
                break ;
            }
        }
    }

    /// Parses the chunk whose header starts at `offset`: reads the tag and
    /// declared length, clips the payload to the bytes present (recording a
    /// diagnostic when clipped), decodes the payload by tag — recursing
    /// into a container's inner byte range — and returns the chunk together
    /// with the bytes it accounts for (header plus declared payload size).
    fn parse(data: &Vec<u8>, offset: usize) -> (r: (IFFChunk, u64))
        requires
            offset + 8 <= data@.len(),
        ensures
            r.0@ == spec_parse(data@.skip(offset as int)),
            r.1 == spec_consumed(data@.skip(offset as int)),
        decreases data@.len() - offset, 0int,
    {
        let ghost rest: Seq<u8> = data@.skip(offset as int);
        let n_bytes: usize = data.len();
        let chunk_type = IFFChunk::parse_4_bytes(data, offset);
        let size_bytes = IFFChunk::parse_4_bytes(data, offset + 4);
        let declared: u32 = u32_from_be_bytes(size_bytes);
        proof {
            assert(chunk_type@ =~= rest.subrange(0, 4));
            assert(rest.subrange(0, 4).len() == 4);
            assert(size_bytes@ =~= rest.subrange(4, 8));
            assert(size_bytes[0] == rest[4] && size_bytes[1] == rest[5] && size_bytes[2] == rest[6]
                && size_bytes[3] == rest[7]);
            assert(declared == spec_declared(rest));
        }
        let is_form: bool = IFFChunk::tag_is(&chunk_type, 0x46, 0x4F, 0x52, 0x4D) && declared >= 4
            && n_bytes - offset >= 12;
        proof {
            assert(tag_form() =~= seq![0x46u8, 0x4Fu8, 0x52u8, 0x4Du8]);
            assert(is_form == spec_is_container(rest));
        }
        let header: usize = if is_form {
            12
        } else {
            8
        };
        let size64: u64 = if is_form {
            declared as u64 - 4
        } else {
            declared as u64
        };
        assert(size64 == spec_chunk_size(rest));
        let avail: usize = n_bytes - offset - header;
        let truncated: bool = size64 > avail as u64;
        assert(truncated == spec_truncated(rest));
        let clipped: usize = if truncated {
            avail
        } else {
            size64 as usize
        };
        // copy the clipped payload out of the buffer
        let start: usize = offset + header;
        let mut payload: Vec<u8> = Vec::new();
        let mut k: usize = 0;
        proof {
            assert(payload@ =~= data@.subrange(start as int, start as int));
        }
        while k < clipped
            invariant
                k <= clipped,
                n_bytes == data@.len(),
                start + clipped <= n_bytes,
                payload@ == data@.subrange(start as int, start as int + k),
            decreases clipped - k,
        {
            let b = data[start + k];
            payload.push(b);
            proof {
                assert(data@.subrange(start as int, start as int + k + 1) =~= data@.subrange(
                    start as int,
                    start as int + k,
                ).push(b));
            }
            k = k + 1;
        }
        proof {
            assert(payload@ =~= spec_payload(rest));
        }
        let mut diagnostics: Vec<Diagnostic> = Vec::new();
        if truncated {
            diagnostics.push(Diagnostic::StructuralTruncation);
        }
        let ghost tdiags: Seq<Diagnostic> = diagnostics@;
        proof {
            if truncated {
                assert(tdiags =~= seq![Diagnostic::StructuralTruncation]);
            } else {
                assert(tdiags =~= Seq::<Diagnostic>::empty());
            }
        }
        // decode the payload by tag
        let content: ChunkContent = if is_form {
            let fourcc = IFFChunk::parse_4_bytes(data, offset + 8);
            proof {
                assert(fourcc@ =~= rest.subrange(8, 12));
            }
            let mut sub_chunks: Vec<IFFChunk> = Vec::new();
            let ghost sub_pre: Seq<IFFChunk> = sub_chunks@;
            proof {
                assert(views(sub_pre) =~= Seq::<ChunkModel>::empty());
            }
            IFFChunk::find_chunks(&payload, &mut sub_chunks);
            let ghost subs: Seq<IFFChunk> = sub_chunks@;
            let c = ChunkContent::Container {
                sub_chunks,
                container: Container::FORM { fourcc },
            };
            proof {
                assert(views(sub_pre) + spec_parse_forest(payload@) =~= spec_parse_forest(
                    payload@,
                ));
                assert(views(subs) == spec_parse_forest(spec_payload(rest)));
                assert(c@ =~~= spec_parse(rest).content);
            }
            c
        } else if IFFChunk::tag_is(&chunk_type, 0x42, 0x4D, 0x48, 0x44) {
            // bitmap header
            proof {
                assert(tag_bmhd() =~= seq![0x42u8, 0x4Du8, 0x48u8, 0x44u8]);
            }
            if payload.len() >= 20 {
                ChunkContent::BMHD {
                    width: u16_from_be_bytes([payload[0], payload[1]]),
                    height: u16_from_be_bytes([payload[2], payload[3]]),
                    x_origin: i16_from_be_bytes([payload[4], payload[5]]),
                    y_origin: i16_from_be_bytes([payload[6], payload[7]]),
                    n_planes: payload[8],
                    mask: payload[9],
                    compression: payload[10],
                    transparent_color: u16_from_be_bytes([payload[12], payload[13]]),
                    x_aspect: payload[14],
                    y_aspect: payload[15],
                    page_width: i16_from_be_bytes([payload[16], payload[17]]),
                    page_height: i16_from_be_bytes([payload[18], payload[19]]),
                }
            } else {
                diagnostics.push(Diagnostic::MalformedFixedField);
                ChunkContent::GenericChunk { data: payload }
            }
        } else if IFFChunk::tag_is(&chunk_type, 0x43, 0x4D, 0x41, 0x50) {
            // palette: one red-green-blue triple per 3 bytes, a trailing
            // byte or two beyond a full multiple of 3 is ignored
            proof {
                assert(tag_cmap() =~= seq![0x43u8, 0x4Du8, 0x41u8, 0x50u8]);
            }
            let n_colors: usize = payload.len() / 3;
            let mut colors: Vec<(u8, u8, u8)> = Vec::new();
            let mut i: usize = 0;
            while i < n_colors
                invariant
                    i <= n_colors,
                    n_colors == payload@.len() / 3,
                    payload@.len() <= usize::MAX,
                    3 * (n_colors as int) <= payload@.len(),
                    colors@.len() == i,
                    forall|j: int|
                        0 <= j < i ==> colors@[j] == (
                            payload@[3 * j],
                            payload@[3 * j + 1],
                            payload@[3 * j + 2],
                        ),
                decreases n_colors - i,
            {
                let c = (payload[3 * i], payload[3 * i + 1], payload[3 * i + 2]);
                colors.push(c);
                i = i + 1;
            }
            proof {
                assert(colors@ =~= Seq::new(
                    payload@.len() / 3,
                    |j: int| (payload@[3 * j], payload@[3 * j + 1], payload@[3 * j + 2]),
                ));
            }
            ChunkContent::CMAP { n_colors, colors }
        } else if IFFChunk::tag_is(&chunk_type, 0x43, 0x52, 0x4E, 0x47) {
            // colour-cycling range: 2 padding bytes, rate, flags, low, high
            proof {
                assert(tag_crng() =~= seq![0x43u8, 0x52u8, 0x4Eu8, 0x47u8]);
            }
            if payload.len() >= 8 {
                let flags: u16 = u16_from_be_bytes([payload[4], payload[5]]);
                ChunkContent::CRNG {
                    rate: i16_from_be_bytes([payload[2], payload[3]]),
                    flags,
                    active: (flags & 0x1) != 0,
                    cycle_downwards: (flags & 0x2) != 0,
                    low: payload[6],
                    high: payload[7],
                }
            } else {
                diagnostics.push(Diagnostic::MalformedFixedField);
                ChunkContent::GenericChunk { data: payload }
            }
        } else if IFFChunk::tag_is(&chunk_type, 0x42, 0x4F, 0x44, 0x59) {
            // pixel body: kept raw; decompression and planar decoding are
            // deferred until a caller supplies the sibling header
            proof {
                assert(tag_body() =~= seq![0x42u8, 0x4Fu8, 0x44u8, 0x59u8]);
            }
            ChunkContent::BODY { raw_data: payload, decompressed_data: None, pixel_data: None }
        } else {
            ChunkContent::GenericChunk { data: payload }
        };
        let consumed: u64 = header as u64 + size64;
        let chunk = IFFChunk {
            chunk_type,
            size: size64 as usize,
            enumeration_complete: false,
            chunk_number: None,
            data: content,
            diagnostics,
        };
        proof {
            assert(chunk@.diags =~= spec_parse(rest).diags);
            assert(chunk@.content =~~= spec_parse(rest).content);
            assert(chunk@ =~~= spec_parse(rest));
        }
        (chunk, consumed)
    }
}

/// Appending a chunk appends its view.
proof fn lemma_views_push(s: Seq<IFFChunk>, c: IFFChunk)
    ensures
        views(s.push(c)) == views(s).push(c@),
{
    assert(views(s.push(c)) =~= views(s).push(c@));
}

impl IFFChunk {
    /// Whether two 4-byte tags hold the same bytes.
    pub fn tags_match(a: &[u8; 4], b: &[u8; 4]) -> (r: bool)
        ensures
            r <==> a@ == b@,
    {
        let r = a[0] == b[0] && a[1] == b[1] && a[2] == b[2] && a[3] == b[3];
        proof {
            if r {
                assert(a@ =~= b@);
            }
        }
        r
    }

    /// Copies a byte vector.
    fn copy_bytes(v: &Vec<u8>) -> (r: Vec<u8>)
        ensures
            r@ == v@,
    {
        let mut r: Vec<u8> = Vec::new();
        let n = v.len();
        let mut i: usize = 0;
        proof {
            assert(r@ =~= v@.subrange(0, 0));
        }
        while i < n
            invariant
                i <= n,
                n == v@.len(),
                r@ == v@.subrange(0, i as int),
            decreases n - i,
        {
            let b = v[i];
            r.push(b);
            proof {
                assert(v@.subrange(0, i + 1) =~= v@.subrange(0, i as int).push(b));
            }
            i = i + 1;
        }
        proof {
            assert(v@.subrange(0, n as int) =~= v@);
        }
        r
    }

    /// Fills a pixel body's derived caches, each at most once, using the
    /// sibling bitmap header's plane count, mask flag and compression
    /// method: the raw payload is decompressed (ByteRun1 under compression
    /// method 1, kept as is otherwise), then transposed into one index
    /// byte per pixel.  A cache already filled is returned as it is, so
    /// recomputation is idempotent.  Fails — leaving all other chunks
    /// usable — when `self` is not a pixel body, when `bmhd` is not a
    /// bitmap header, or when the header declares more than 8 planes.
    pub fn prepare_body(self, bmhd: &IFFChunk) -> (r: Result<IFFChunk, IffError>)
        ensures
            !(self@.content matches ContentModel::Body { .. }) ==> r == Err::<
                IFFChunk,
                IffError,
            >(IffError::NotBodyChunk),
            self@.content matches ContentModel::Body { .. } && !(bmhd@.content
                matches ContentModel::Bmhd { .. }) ==> r == Err::<IFFChunk, IffError>(
                IffError::NotHeaderChunk,
            ),
            self@.content matches ContentModel::Body { .. } ==> bmhd@.content
                matches ContentModel::Bmhd { n_planes, mask, compression, .. } ==> {
                &&& n_planes > 8 ==> r == Err::<IFFChunk, IffError>(
                    IffError::UnsupportedPlaneCount,
                )
                &&& n_planes <= 8 ==> (r matches Ok(c) && c@ == (ChunkModel {
                    content: spec_prepare_content(self@.content, n_planes, mask, compression),
                    diags: self@.diags + spec_prepare_diags(
                        self@.content,
                        n_planes,
                        mask,
                        compression,
                    ),
                    ..self@
                }))
            },
    {
        let IFFChunk { chunk_type, size, enumeration_complete, chunk_number, data, diagnostics } =
            self;
        let mut diagnostics = diagnostics;
        match data {
            ChunkContent::BODY { raw_data, decompressed_data, pixel_data } => {
                match &bmhd.data {
                    ChunkContent::BMHD { n_planes, mask, compression, .. } => {
                        let n_planes: u8 = *n_planes;
                        let mask: u8 = *mask;
                        let compression: u8 = *compression;
                        if n_planes > 8 {
                            return Err(IffError::UnsupportedPlaneCount);
                        }
                        proof {
                            assert((mask & 0x1u8) == 0 || (mask & 0x1u8) == 1) by (bit_vector);
                            assert(spec_group_size(n_planes, mask) == n_planes as int + (
                            if (mask & 0x1) != 0 {
                                1int
                            } else {
                                0int
                            }));
                        }
                        let dec: Vec<u8> = match decompressed_data {
                            None => {
                                if compression == 1 {
                                    let mut buf: Vec<u8> = Vec::new();
                                    let tr = crate::rle::decompress_body(&raw_data, &mut buf);
                                    if tr {
                                        diagnostics.push(Diagnostic::StructuralTruncation);
                                    }
                                    buf
                                } else {
                                    IFFChunk::copy_bytes(&raw_data)
                                }
                            },
                            Some(d) => d,
                        };
                        let pix: Vec<u8> = match pixel_data {
                            None => {
                                let mut buf: Vec<u8> = Vec::new();
                                let tr = crate::planar::decode_body(
                                    &dec,
                                    &mut buf,
                                    n_planes,
                                    (mask & 0x1) != 0,
                                );
                                if tr {
                                    diagnostics.push(Diagnostic::StructuralTruncation);
                                }
                                buf
                            },
                            Some(p) => p,
                        };
                        let out = IFFChunk {
                            chunk_type,
                            size,
                            enumeration_complete,
                            chunk_number,
                            data: ChunkContent::BODY {
                                raw_data,
                                decompressed_data: Some(dec),
                                pixel_data: Some(pix),
                            },
                            diagnostics,
                        };
                        proof {
                            assert(Seq::<u8>::empty() + crate::rle::rle_decode(raw_data@)
                                =~= crate::rle::rle_decode(raw_data@));
                            assert(Seq::<u8>::empty() + crate::planar::planar_decode(
                                dec@,
                                n_planes as int,
                                spec_group_size(n_planes, mask),
                            ) =~= crate::planar::planar_decode(
                                dec@,
                                n_planes as int,
                                spec_group_size(n_planes, mask),
                            ));
                            assert(out@.content =~~= spec_prepare_content(
                                self@.content,
                                n_planes,
                                mask,
                                compression,
                            ));
                            assert(out@.diags =~= self@.diags + spec_prepare_diags(
                                self@.content,
                                n_planes,
                                mask,
                                compression,
                            ));
                            assert(out@ =~~= ChunkModel {
                                content: spec_prepare_content(
                                    self@.content,
                                    n_planes,
                                    mask,
                                    compression,
                                ),
                                diags: self@.diags + spec_prepare_diags(
                                    self@.content,
                                    n_planes,
                                    mask,
                                    compression,
                                ),
                                ..self@
                            });
                        }
                        Ok(out)
                    },
                    _ => Err(IffError::NotHeaderChunk),
                }
            },
            _ => Err(IffError::NotBodyChunk),
        }
    }
}

impl IFFChunk {
    /// One enumeration pass, for one chunk: a complete chunk is skipped; at
    /// level 0 the chunk takes the next free ordinal; otherwise the pass
    /// recurses into the children one level down, and the chunk becomes
    /// complete when none of them took an ordinal.  Returns the chunk and
    /// the next free ordinal, exactly as `pass_node` states.
    pub fn enumerate_rec(c: IFFChunk, next_index: usize, level: usize) -> (r: (IFFChunk, usize))
        requires
            pass_node(c@, next_index as nat, level as nat).1 <= usize::MAX,
        ensures
            r.0@ == pass_node(c@, next_index as nat, level as nat).0,
            r.1 as nat == pass_node(c@, next_index as nat, level as nat).1,
        decreases c,
    {
        let ghost c0: ChunkModel = c@;
        if c.enumeration_complete {
            return (c, next_index);
        }
        if level == 0 {
            let mut c = c;
            c.chunk_number = Some(next_index);
            proof {
                assert(c@ =~~= pass_node(c0, next_index as nat, 0).0);
            }
            return (c, next_index + 1);
        }
        let IFFChunk { chunk_type, size, enumeration_complete: _, chunk_number, data, diagnostics }
            = c;
        let ghost d0: ChunkContent = data;
        match data {
            ChunkContent::Container { sub_chunks, container } => {
                let ghost v0: Vec<IFFChunk> = sub_chunks;
                let mut sub_chunks = sub_chunks;
                let ghost sub0: Seq<IFFChunk> = sub_chunks@;
                let ghost korig: Seq<ChunkModel> = views(sub0);
                let ghost lvl: nat = (level - 1) as nat;
                let ghost n0: nat = next_index as nat;
                proof {
                    assert(kids(c0) == korig);
                    assert(pass_node(c0, n0, level as nat).1 == prefix_next(
                        korig,
                        korig.len() as int,
                        n0,
                        lvl,
                    ));
                    assert(decreases_to!(c => d0));
                    assert(decreases_to!(d0 => v0));
                    assert(decreases_to!(v0 => v0@));
                    assert(decreases_to!(c => v0@));
                }
                let mut next: usize = next_index;
                let n = sub_chunks.len();
                let mut j: usize = 0;
                while j < n
                    invariant
                        j <= n,
                        n == sub_chunks@.len(),
                        n == korig.len(),
                        n == sub0.len(),
                        1 <= level,
                        lvl == (level - 1) as nat,
                        n0 == next_index as nat,
                        korig == views(sub0),
                        sub0 == v0@,
                        decreases_to!(c => v0@),
                        prefix_next(korig, n as int, n0, lvl) <= usize::MAX,
                        next as nat == prefix_next(korig, j as int, n0, lvl),
                        forall|k: int|
                            j <= k < n ==> sub_chunks@[k] == sub0[k],
                        forall|k: int|
                            0 <= k < j ==> #[trigger] sub_chunks@[k]@ == pass_node(
                                korig[k],
                                prefix_next(korig, k, n0, lvl),
                                lvl,
                            ).0,
                    decreases n - j,
                {
                    let ghost pre: Seq<IFFChunk> = sub_chunks@;
                    let sc = sub_chunks.remove(j);
                    proof {
                        assert(sc == sub0[j as int]);
                        assert(sc@ == korig[j as int]);
                        lemma_prefix_next_mono(korig, n as int, n0, lvl);
                        assert(pass_node(sc@, next as nat, lvl).1 == prefix_next(
                            korig,
                            j + 1,
                            n0,
                            lvl,
                        ));
                        assert(prefix_next(korig, j + 1, n0, lvl) <= prefix_next(
                            korig,
                            n as int,
                            n0,
                            lvl,
                        ));
                        assert(decreases_to!(v0@ => sc));
                        assert(decreases_to!(c => sc));
                    }
                    let (sc2, nx) = IFFChunk::enumerate_rec(sc, next, level - 1);
                    sub_chunks.insert(j, sc2);
                    proof {
                        assert(sub_chunks@ =~= pre.update(j as int, sc2));
                    }
                    next = nx;
                    j = j + 1;
                }
                proof {
                    assert forall|k: int| 0 <= k < n implies views(sub_chunks@)[k]
                        == passed_forest(korig, n0, lvl)[k] by {
                        assert(views(sub_chunks@)[k] == sub_chunks@[k]@);
                        assert(passed_forest(korig, n0, lvl)[k] == pass_node(
                            korig[k],
                            prefix_next(korig, k, n0, lvl),
                            lvl,
                        ).0);
                    }
                    assert(views(sub_chunks@) =~= passed_forest(korig, n0, lvl));
                }
                let out = IFFChunk {
                    chunk_type,
                    size,
                    enumeration_complete: next == next_index,
                    chunk_number,
                    data: ChunkContent::Container { sub_chunks, container },
                    diagnostics,
                };
                proof {
                    assert(out@ =~~= pass_node(c0, n0, level as nat).0);
                }
                (out, next)
            },
            other => {
                let out = IFFChunk {
                    chunk_type,
                    size,
                    enumeration_complete: true,
                    chunk_number,
                    data: other,
                    diagnostics,
                };
                proof {
                    assert(out@ =~~= pass_node(c0, next_index as nat, level as nat).0);
                }
                (out, next_index)
            },
        }
    }

    /// Assigns every chunk of the forest a level-order ordinal: all depth-0
    /// chunks first, in encounter order, then all depth-1 children across
    /// the whole forest, and so on — passes run level by level until a full
    /// pass assigns nothing.  The result is the chain of `passed_forest`
    /// passes at its first fixpoint.
    pub fn enumerate(cs: &mut Vec<IFFChunk>)
        requires
            enumeration_fits(views(old(cs)@)),
        ensures
            is_enumerated(views(old(cs)@), views(final(cs)@)),
    {
        let ghost f0: Seq<ChunkModel> = views(cs@);
        let ghost hh: nat = forest_height(f0, 0);
        let mut next: usize = 0;
        let mut level: usize = 0;
        proof {
            assert(spec_passes(f0, 0, 0, 0) == (f0, 0nat));
        }
        loop
            invariant_except_break
                level as nat <= hh,
                next as nat == spec_passes(f0, 0, 0, level as nat).1,
                views(cs@) == spec_passes(f0, 0, 0, level as nat).0,
                forest_height(views(cs@), 0) == hh,
                forall|i: nat|
                    i + 1 <= level ==> #[trigger] spec_passes(f0, 0, 0, i).1 < spec_passes(
                        f0,
                        0,
                        0,
                        i + 1,
                    ).1,
            invariant
                f0 == views(old(cs)@),
                hh == forest_height(f0, 0),
                hh < usize::MAX,
                spec_passes(f0, 0, 0, hh + 1).1 <= usize::MAX,
            ensures
                exists|k: nat|
                    #![trigger spec_passes(f0, 0, 0, k)]
                    {
                        let r = spec_passes(f0, 0, 0, k);
                        &&& 1 <= k <= hh + 1
                        &&& views(cs@) == r.0
                        &&& spec_passes(f0, 0, 0, (k - 1) as nat).1 == r.1
                        &&& forall|i: nat|
                            i + 1 < k ==> #[trigger] spec_passes(f0, 0, 0, i).1 < spec_passes(
                                f0,
                                0,
                                0,
                                i + 1,
                            ).1
                    },
            decreases hh + 1 - level,
        {
            let old_next = next;
            let ghost pre_pass: Seq<IFFChunk> = cs@;
            let ghost cur: Seq<ChunkModel> = views(cs@);
            let ghost lvl: nat = level as nat;
            let ghost nn: nat = old_next as nat;
            // one full pass over the roots at the current level
            let n = cs.len();
            let mut j: usize = 0;
            proof {
                lemma_passes_snoc(f0, 0, 0, lvl);
                lemma_passes_mono(f0, 0, 0, hh + 1);
                assert(spec_passes(f0, 0, 0, lvl + 1).1 == prefix_next(cur, n as int, nn, lvl));
                assert(prefix_next(cur, n as int, nn, lvl) <= usize::MAX);
            }
            while j < n
                invariant
                    j <= n,
                    n == cs@.len(),
                    n == cur.len(),
                    lvl == level as nat,
                    nn == old_next as nat,
                    prefix_next(cur, n as int, nn, lvl) <= usize::MAX,
                    next as nat == prefix_next(cur, j as int, nn, lvl),
                    n == pre_pass.len(),
                    cur == views(pre_pass),
                    forall|k: int|
                        j <= k < n ==> cs@[k] == pre_pass[k],
                    forall|k: int|
                        0 <= k < j ==> #[trigger] cs@[k]@ == pass_node(
                            cur[k],
                            prefix_next(cur, k, nn, lvl),
                            lvl,
                        ).0,
                decreases n - j,
            {
                let ghost pre: Seq<IFFChunk> = cs@;
                let sc = cs.remove(j);
                proof {
                    assert(sc == pre_pass[j as int]);
                    assert(sc@ == cur[j as int]);
                    lemma_prefix_next_mono(cur, n as int, nn, lvl);
                    assert(pass_node(sc@, next as nat, lvl).1 == prefix_next(cur, j + 1, nn, lvl));
                }
                let (sc2, nx) = IFFChunk::enumerate_rec(sc, next, level);
                cs.insert(j, sc2);
                proof {
                    assert(cs@ =~= pre.update(j as int, sc2));
                }
                next = nx;
                j = j + 1;
            }
            proof {
                assert forall|k: int| 0 <= k < n implies views(cs@)[k] == passed_forest(
                    cur,
                    nn,
                    lvl,
                )[k] by {
                    assert(views(cs@)[k] == cs@[k]@);
                    assert(passed_forest(cur, nn, lvl)[k] == pass_node(
                        cur[k],
                        prefix_next(cur, k, nn, lvl),
                        lvl,
                    ).0);
                }
                assert(views(cs@) =~= passed_forest(cur, nn, lvl));
                lemma_passes_snoc(f0, 0, 0, lvl);
                lemma_passed_forest_height(cur, nn, lvl, 0);
                lemma_prefix_next_mono(cur, cur.len() as int, nn, lvl);
            }
            level = level + 1;
            if old_next == next {
                proof {
                    let k = level as nat;
                    assert(spec_passes(f0, 0, 0, k).0 == views(cs@) && spec_passes(
                        f0,
                        0,
                        0,
                        (k - 1) as nat,
                    ).1 == spec_passes(f0, 0, 0, k).1);
                }
                break ;
            }
            proof {
                lemma_prefix_next_assign(cur, cur.len() as int, nn, lvl);
                assert(lvl < forest_height(cur, 0));
            }
        }
    }
}

/// A whole decoded file: the forest of its top-level chunks.
pub struct IFFFile {
    pub chunks: Vec<IFFChunk>,
}

impl IFFFile {
    /// Decodes a whole buffer: parses the byte sequence into the forest of
    /// its top-level chunks and assigns every chunk its level-order
    /// ordinal.  Accepts a byte sequence of arbitrary length: a parsed
    /// forest's nesting depth and chunk count are bounded by the buffer
    /// length, so its ordinals always fit `usize`.
    pub fn from_bytes(bytes: &Vec<u8>) -> (r: IFFFile)
        ensures
            is_enumerated(spec_parse_forest(bytes@), views(r.chunks@)),
    {
        let n_bytes: usize = bytes.len();
        proof {
            assert(bytes@.len() == n_bytes);
            crate::enumeration::lemma_parse_enumeration_fits(bytes@);
        }
        let mut chunks: Vec<IFFChunk> = Vec::new();
        proof {
            assert(views(chunks@) =~= Seq::<ChunkModel>::empty());
        }
        IFFChunk::find_chunks(bytes, &mut chunks);
        proof {
            assert(Seq::<ChunkModel>::empty() + spec_parse_forest(bytes@) =~= spec_parse_forest(
                bytes@,
            ));
        }
        IFFChunk::enumerate(&mut chunks);
        IFFFile { chunks }
    }

    /// Depth-first pre-order search for the first chunk tagged
    /// `chunk_type`: a chunk's own tag is checked first, then its children,
    /// then its later siblings.  Returns the child-index path from the
    /// forest root to the match, or an error when no chunk matches.
    pub fn find_chunk(chunks: &Vec<IFFChunk>, chunk_type: &[u8; 4]) -> (r: Result<
        Vec<usize>,
        IffError,
    >)
        ensures
            match spec_find(views(chunks@), 0, chunk_type@) {
                Some(p) => r matches Ok(v) && v@ == p,
                None => r == Err::<Vec<usize>, IffError>(IffError::ChunkNotFound),
            },
        decreases chunks,
    {
        let ghost f: Seq<ChunkModel> = views(chunks@);
        let n = chunks.len();
        let mut i: usize = 0;
        while i < n
            invariant
                i <= n,
                n == chunks@.len(),
                f == views(chunks@),
                spec_find(f, 0, chunk_type@) == spec_find(f, i as int, chunk_type@),
            decreases n - i,
        {
            let ch = &chunks[i];
            assert(f[i as int] == ch@);
            if IFFChunk::tags_match(&ch.chunk_type, chunk_type) {
                let mut v: Vec<usize> = Vec::new();
                v.push(i);
                proof {
                    assert(v@ =~= seq![i]);
                }
                return Ok(v);
            }
            match &ch.data {
                ChunkContent::Container { sub_chunks, .. } => {
                    match IFFFile::find_chunk(sub_chunks, chunk_type) {
                        Ok(mut path) => {
                            path.insert(0, i);
                            proof {
                                let sub = spec_find(views(sub_chunks@), 0, chunk_type@);
                                assert(path@ =~= seq![i] + sub.unwrap());
                            }
                            return Ok(path);
                        },
                        Err(_) => {
                            assert(spec_find(views(sub_chunks@), 0, chunk_type@) is None);
                        },
                    }
                },
                _ => {},
            }
            assert(spec_find(f, i as int, chunk_type@) == spec_find(f, i + 1, chunk_type@));
            i = i + 1;
        }
        assert(spec_find(f, n as int, chunk_type@) is None);
        Err(IffError::ChunkNotFound)
    }
}

} // verus!
