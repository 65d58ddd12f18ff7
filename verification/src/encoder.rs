//! Animation encoder: serializes an ordered sequence of equally-sized RGBA
//! bitmaps plus a per-frame display duration into one self-contained animated
//! PNG byte stream.
//!
//! The container layout is stated byte for byte by spec functions: a PNG
//! signature, an IHDR chunk, an acTL chunk declaring the frame count, then
//! for each frame one fcTL chunk (carrying the exact rational frame delay)
//! followed by its pixel data — an IDAT chunk for the first frame, which
//! doubles as the static fallback image, and an fdAT chunk for every later
//! one — and finally an IEND chunk. Pixel data is the frame's filtered
//! scanlines run through a zlib compressor.

use vstd::prelude::*;

use crate::bitmap::bitmap_views;
use crate::bitmap::BitmapBuffer;
use crate::bitmap::BitmapV;
use crate::codec::crc32_of;
use crate::codec::zlib_of;

verus! {

/// Compression level handed to the zlib compressor for every frame.
pub const COMPRESSION_LEVEL: u8 = 6;

/// Largest chunk data length the encoder ever emits, comfortably within the
/// PNG limit of `2^31 - 1` even after an fdAT sequence-number prefix.
pub const MAX_CHUNK_DATA: usize = 0x7fff_fffb;

/// Timing and dimension configuration for one export: every frame must have
/// exactly these pixel dimensions, and every frame is displayed for
/// `delay_num / delay_den` seconds.
#[derive(Clone, Copy, Debug, PartialEq, Eq, Structural)]
pub struct AnimationConfig {
    pub canvas_width: u32,
    pub canvas_height: u32,
    pub delay_num: u16,
    pub delay_den: u16,
}

impl AnimationConfig {
    /// Validity: nonzero dimensions that a frame buffer of this size, plus
    /// one filter byte per row, can be indexed with.
    pub open spec fn wf(self) -> bool {
        &&& 1 <= self.canvas_width
        &&& 1 <= self.canvas_height
        &&& self.canvas_width * self.canvas_height * 4 + self.canvas_height <= usize::MAX
    }
}

/// Why an export failed. A failed export never produces output bytes.
#[derive(Clone, Copy, Debug, PartialEq, Eq, Structural)]
pub enum EncodeError {
    /// Export was requested with zero captured frames.
    EmptyAnimation,
    /// The frame at `index` does not have the configured canvas dimensions.
    DimensionMismatch { index: usize },
    /// The codec output for the frame at `index` cannot be carried in one
    /// data chunk.
    FrameEncodeFailed { index: usize },
}

/// The four bytes of `x` in big-endian order.
pub open spec fn be32(x: int) -> Seq<u8> {
    seq![
        (x / 0x1000000 % 256) as u8,
        (x / 0x10000 % 256) as u8,
        (x / 0x100 % 256) as u8,
        (x % 256) as u8,
    ]
}

/// The two bytes of `x` in big-endian order.
pub open spec fn be16(x: int) -> Seq<u8> {
    seq![(x / 0x100 % 256) as u8, (x % 256) as u8]
}

/// The eight-byte PNG signature.
pub open spec fn png_signature() -> Seq<u8> {
    seq![137u8, 80u8, 78u8, 71u8, 13u8, 10u8, 26u8, 10u8]
}

/// One PNG chunk: big-endian data length, four type bytes, the data, and the
/// CRC-32 of type and data.
pub open spec fn chunk_bytes(ty: Seq<u8>, data: Seq<u8>) -> Seq<u8> {
    be32(data.len() as int) + ty + data + be32(crc32_of(ty + data) as int)
}

/// Chunk type `IHDR`.
pub open spec fn ihdr_type() -> Seq<u8> {
    seq![73u8, 72u8, 68u8, 82u8]
}

/// Chunk type `acTL`.
pub open spec fn actl_type() -> Seq<u8> {
    seq![97u8, 99u8, 84u8, 76u8]
}

/// Chunk type `fcTL`.
pub open spec fn fctl_type() -> Seq<u8> {
    seq![102u8, 99u8, 84u8, 76u8]
}

/// Chunk type `IDAT`.
pub open spec fn idat_type() -> Seq<u8> {
    seq![73u8, 68u8, 65u8, 84u8]
}

/// Chunk type `fdAT`.
pub open spec fn fdat_type() -> Seq<u8> {
    seq![102u8, 100u8, 65u8, 84u8]
}

/// Chunk type `IEND`.
pub open spec fn iend_type() -> Seq<u8> {
    seq![73u8, 69u8, 78u8, 68u8]
}

/// IHDR data: dimensions, eight bits per channel, RGBA color, standard
/// compression, standard filtering, no interlacing.
pub open spec fn ihdr_data(w: int, h: int) -> Seq<u8> {
    be32(w) + be32(h) + seq![8u8, 6u8, 0u8, 0u8, 0u8]
}

/// acTL data: total frame count, looping forever.
pub open spec fn actl_data(num_frames: int) -> Seq<u8> {
    be32(num_frames) + be32(0)
}

/// fcTL data for one frame: its sequence number, the full canvas dimensions
/// at offset zero, the exact rational frame delay, and a disposal and blend
/// policy of full overwrite.
pub open spec fn fctl_data(seq_no: int, w: int, h: int, dnum: int, dden: int) -> Seq<u8> {
    be32(seq_no) + be32(w) + be32(h) + be32(0) + be32(0) + be16(dnum) + be16(dden) + seq![0u8, 0u8]
}

/// The bytes of row `y` of a bitmap.
pub open spec fn row_bytes(b: BitmapV, y: int) -> Seq<u8> {
    b.pixels.subrange(y * b.width * 4, (y + 1) * b.width * 4)
}

/// The first `rows` filtered scanlines of a bitmap: each row prefixed with a
/// zero filter byte.
pub open spec fn scanlines_prefix(b: BitmapV, rows: int) -> Seq<u8>
    decreases rows,
{
    if rows <= 0 {
        Seq::empty()
    } else {
        scanlines_prefix(b, rows - 1) + seq![0u8] + row_bytes(b, rows - 1)
    }
}

/// The filtered scanlines of a whole bitmap, the input to the compressor.
pub open spec fn scanlines(b: BitmapV) -> Seq<u8> {
    scanlines_prefix(b, b.height as int)
}

/// The compressed pixel data of one frame.
pub open spec fn frame_payload(b: BitmapV) -> Seq<u8> {
    zlib_of(scanlines(b), COMPRESSION_LEVEL)
}

/// The compressed pixel data of every frame, in frame order.
pub open spec fn payloads_of(frames: Seq<BitmapV>) -> Seq<Seq<u8>> {
    frames.map_values(|b: BitmapV| frame_payload(b))
}

/// Sequence number of the fcTL chunk of frame `i`: control and data units
/// share one counter, so frame zero's control unit is number zero and frame
/// `i`'s control unit follows frame `i - 1`'s data unit.
pub open spec fn fctl_seq_no(i: int) -> int {
    if i == 0 {
        0
    } else {
        2 * i - 1
    }
}

/// The chunks of frame `i` given its compressed payload: its fcTL control
/// chunk, then its data — inside an IDAT chunk for frame zero, which is also
/// the static fallback image, and inside an fdAT chunk tagged with the next
/// sequence number for every later frame.
pub open spec fn frame_segment(
    payload: Seq<u8>,
    i: int,
    w: int,
    h: int,
    dnum: int,
    dden: int,
) -> Seq<u8> {
    let fctl = chunk_bytes(fctl_type(), fctl_data(fctl_seq_no(i), w, h, dnum, dden));
    if i == 0 {
        fctl + chunk_bytes(idat_type(), payload)
    } else {
        fctl + chunk_bytes(fdat_type(), be32(2 * i) + payload)
    }
}

/// The chunks of every frame, concatenated in frame order.
pub open spec fn frame_segments(
    payloads: Seq<Seq<u8>>,
    w: int,
    h: int,
    dnum: int,
    dden: int,
) -> Seq<u8>
    decreases payloads.len(),
{
    if payloads.len() == 0 {
        Seq::empty()
    } else {
        frame_segments(payloads.drop_last(), w, h, dnum, dden) + frame_segment(
            payloads.last(),
            payloads.len() - 1,
            w,
            h,
            dnum,
            dden,
        )
    }
}

/// The whole container for the given per-frame payloads: signature, header
/// chunk, animation control chunk, every frame's chunks in order, trailer.
pub open spec fn container_bytes(
    payloads: Seq<Seq<u8>>,
    w: int,
    h: int,
    dnum: int,
    dden: int,
) -> Seq<u8> {
    png_signature() + chunk_bytes(ihdr_type(), ihdr_data(w, h)) + chunk_bytes(
        actl_type(),
        actl_data(payloads.len() as int),
    ) + frame_segments(payloads, w, h, dnum, dden) + chunk_bytes(iend_type(), Seq::empty())
}

/// The byte stream an export of `frames` under `config` produces.
pub open spec fn apng_bytes(frames: Seq<BitmapV>, config: AnimationConfig) -> Seq<u8> {
    container_bytes(
        payloads_of(frames),
        config.canvas_width as int,
        config.canvas_height as int,
        config.delay_num as int,
        config.delay_den as int,
    )
}

/// Append `data` to `out`.
fn push_bytes(out: &mut Vec<u8>, data: &[u8])
    ensures
        final(out)@ == old(out)@ + data@,
{
    let mut i: usize = 0;
    while i < data.len()
        invariant
            i <= data@.len(),
            out@ == old(out)@ + data@.subrange(0, i as int),
        decreases data@.len() - i,
    {
        out.push(data[i]);
        proof {
            assert(old(out)@ + data@.subrange(0, i as int + 1) =~= (old(out)@ + data@.subrange(
                0,
                i as int,
            )).push(data@[i as int]));
        }
        i = i + 1;
    }
    proof {
        assert(data@.subrange(0, data@.len() as int) =~= data@);
    }
}

/// Append the four big-endian bytes of `x` to `out`.
fn push_be32(out: &mut Vec<u8>, x: u32)
    ensures
        final(out)@ == old(out)@ + be32(x as int),
{
    proof {
        assert(x / 0x1000000 < 256 && x / 0x10000 < 0x10000 && x / 0x100 < 0x1000000)
            by (nonlinear_arith)
            requires
                x <= u32::MAX,
        ;
        assert(x as int / 0x1000000 % 256 == x as int / 0x1000000) by (nonlinear_arith)
            requires
                0 <= x as int / 0x1000000 < 256,
        ;
    }
    out.push((x / 0x1000000) as u8);
    out.push((x / 0x10000 % 256) as u8);
    out.push((x / 0x100 % 256) as u8);
    out.push((x % 256) as u8);
    proof {
        assert(final(out)@ =~= old(out)@ + be32(x as int));
    }
}

/// Append the two big-endian bytes of `x` to `out`.
fn push_be16(out: &mut Vec<u8>, x: u16)
    ensures
        final(out)@ == old(out)@ + be16(x as int),
{
    out.push((x / 0x100) as u8);
    out.push((x % 256) as u8);
    proof {
        assert(x as int / 0x100 % 256 == x as int / 0x100) by (nonlinear_arith)
            requires
                x <= u16::MAX,
        ;
        assert(final(out)@ =~= old(out)@ + be16(x as int));
    }
}

/// Append one whole chunk with type bytes `t0 t1 t2 t3` and the given data.
fn push_chunk(out: &mut Vec<u8>, t0: u8, t1: u8, t2: u8, t3: u8, data: &Vec<u8>)
    requires
        data@.len() <= 0x7fff_ffff,
    ensures
        final(out)@ == old(out)@ + chunk_bytes(seq![t0, t1, t2, t3], data@),
{
    let mut tagged: Vec<u8> = Vec::new();
    tagged.push(t0);
    tagged.push(t1);
    tagged.push(t2);
    tagged.push(t3);
    push_bytes(&mut tagged, data.as_slice());
    proof {
        assert(tagged@ =~= seq![t0, t1, t2, t3] + data@);
    }
    let crc = crate::codec::crc32(tagged.as_slice());
    push_be32(out, data.len() as u32);
    push_bytes(out, tagged.as_slice());
    push_be32(out, crc);
    proof {
        assert(final(out)@ =~= old(out)@ + chunk_bytes(seq![t0, t1, t2, t3], data@));
    }
}

/// The byte sequences held by a vector of byte vectors, element by element.
pub open spec fn byte_seqs(s: Seq<Vec<u8>>) -> Seq<Seq<u8>> {
    s.map_values(|v: Vec<u8>| v@)
}

/// Build the filtered scanlines of one frame: each row of pixel bytes
/// prefixed with a zero filter byte.
fn build_scanlines(frame: &BitmapBuffer) -> (r: Vec<u8>)
    requires
        frame@.wf(),
    ensures
        r@ == scanlines(frame@),
{
    let ghost b = frame@;
    let w = frame.width;
    let h = frame.height;
    proof {
        assert(4 * (w as int) <= (w as int) * (h as int) * 4 && (w as int) * (h as int) * 4
            + h as int <= usize::MAX) by (nonlinear_arith)
            requires
                1 <= w,
                1 <= h,
                (w as int) * (h as int) * 4 + h as int <= usize::MAX,
        ;
    }
    let stride: usize = (w as usize) * 4;
    let mut out: Vec<u8> = Vec::new();
    let mut y: u32 = 0;
    proof {
        assert(out@ =~= scanlines_prefix(b, 0));
    }
    while y < h
        invariant
            b.wf(),
            frame@ == b,
            w == b.width,
            h == b.height,
            stride == b.width * 4,
            y <= h,
            out@ == scanlines_prefix(b, y as int),
        decreases h - y,
    {
        proof {
            assert((y as int) * (stride as int) + stride as int <= (w as int) * (h as int) * 4)
                by (nonlinear_arith)
                requires
                    0 <= y < h,
                    stride == (w as int) * 4,
                    1 <= w,
            ;
        }
        out.push(0u8);
        let base: usize = (y as usize) * stride;
        let ghost row_start = out@;
        let mut x: usize = 0;
        while x < stride
            invariant
                b.wf(),
                frame@ == b,
                w == b.width,
                h == b.height,
                stride == b.width * 4,
                y < h,
                x <= stride,
                base == (y as int) * (stride as int),
                base + stride <= b.pixels.len(),
                out@ == row_start + b.pixels.subrange(base as int, base as int + x as int),
                row_start == scanlines_prefix(b, y as int) + seq![0u8],
            decreases stride - x,
        {
            out.push(frame.pixels[base + x]);
            proof {
                assert(row_start + b.pixels.subrange(base as int, base as int + x as int + 1)
                    =~= (row_start + b.pixels.subrange(base as int, base as int + x as int)).push(
                    b.pixels[base as int + x as int],
                ));
            }
            x = x + 1;
        }
        proof {
            assert((y as int) * (b.width as int) * 4 == (y as int) * (stride as int)
                && (y as int + 1) * (b.width as int) * 4 == (y as int) * (stride as int)
                + stride as int) by (nonlinear_arith)
                requires
                    stride == (b.width as int) * 4,
            ;
            assert(b.pixels.subrange(base as int, base as int + stride as int) =~= row_bytes(
                b,
                y as int,
            ));
            assert(out@ =~= scanlines_prefix(b, y as int + 1));
        }
        y = y + 1;
    }
    out
}

/// Compress one frame's scanlines into its chunk payload.
fn frame_payload_vec(frame: &BitmapBuffer) -> (r: Vec<u8>)
    requires
        frame@.wf(),
    ensures
        r@ == frame_payload(frame@),
{
    let sl = build_scanlines(frame);
    crate::codec::zlib_compress(sl.as_slice(), COMPRESSION_LEVEL)
}

/// Append the chunks of frame `i`: its fcTL control chunk, then its data
/// chunk.
fn push_frame_segment(
    out: &mut Vec<u8>,
    width: u32,
    height: u32,
    delay_num: u16,
    delay_den: u16,
    i: usize,
    payload: &Vec<u8>,
)
    requires
        i < 0x8000_0000,
        payload@.len() <= MAX_CHUNK_DATA,
    ensures
        final(out)@ == old(out)@ + frame_segment(
            payload@,
            i as int,
            width as int,
            height as int,
            delay_num as int,
            delay_den as int,
        ),
{
    let ghost wi = width as int;
    let ghost hi = height as int;
    let ghost dn = delay_num as int;
    let ghost dd = delay_den as int;
    let seq_no: u32 = if i == 0 {
        0
    } else {
        proof {
            assert(2 * (i as int) - 1 < 0x1_0000_0000);
        }
        (2 * (i as u64) - 1) as u32
    };
    proof {
        assert(seq_no == fctl_seq_no(i as int));
    }
    let mut fctl: Vec<u8> = Vec::new();
    push_be32(&mut fctl, seq_no);
    push_be32(&mut fctl, width);
    push_be32(&mut fctl, height);
    push_be32(&mut fctl, 0);
    push_be32(&mut fctl, 0);
    push_be16(&mut fctl, delay_num);
    push_be16(&mut fctl, delay_den);
    fctl.push(0);
    fctl.push(0);
    proof {
        assert(fctl@ =~= fctl_data(fctl_seq_no(i as int), wi, hi, dn, dd));
        assert(fctl_type() =~= seq![102u8, 99u8, 84u8, 76u8]);
    }
    push_chunk(out, 102, 99, 84, 76, &fctl);
    if i == 0 {
        proof {
            assert(idat_type() =~= seq![73u8, 68u8, 65u8, 84u8]);
        }
        push_chunk(out, 73, 68, 65, 84, payload);
    } else {
        let mut fdat: Vec<u8> = Vec::new();
        push_be32(&mut fdat, (2 * (i as u64)) as u32);
        push_bytes(&mut fdat, payload.as_slice());
        proof {
            assert(fdat@ =~= be32(2 * (i as int)) + payload@);
            assert(fdat_type() =~= seq![102u8, 100u8, 65u8, 84u8]);
        }
        push_chunk(out, 102, 100, 65, 84, &fdat);
    }
    proof {
        assert(final(out)@ =~= old(out)@ + frame_segment(payload@, i as int, wi, hi, dn, dd));
    }
}

/// One step of the frame walk: the chunks of the first `i + 1` frames are
/// the chunks of the first `i` frames followed by frame `i`'s own.
pub proof fn lemma_segments_step(
    payloads: Seq<Seq<u8>>,
    i: int,
    w: int,
    h: int,
    dnum: int,
    dden: int,
)
    requires
        0 <= i < payloads.len(),
    ensures
        frame_segments(payloads.subrange(0, i + 1), w, h, dnum, dden) == frame_segments(
            payloads.subrange(0, i),
            w,
            h,
            dnum,
            dden,
        ) + frame_segment(payloads[i], i, w, h, dnum, dden),
{
    let sub = payloads.subrange(0, i + 1);
    assert(sub.drop_last() =~= payloads.subrange(0, i));
    assert(sub.last() == payloads[i]);
}

/// Assemble the whole container from per-frame compressed payloads that are
/// already known to fit in one chunk each.
#[verifier::rlimit(100)]
#[verifier::spinoff_prover]
pub fn build_container(
    width: u32,
    height: u32,
    delay_num: u16,
    delay_den: u16,
    payloads: &Vec<Vec<u8>>,
) -> (r: Vec<u8>)
    requires
        1 <= payloads@.len() < 0x8000_0000,
        forall|i: int| 0 <= i < payloads@.len() ==> (#[trigger] payloads@[i])@.len()
            <= MAX_CHUNK_DATA,
    ensures
        r@ == container_bytes(
            byte_seqs(payloads@),
            width as int,
            height as int,
            delay_num as int,
            delay_den as int,
        ),
{
    let ghost wi = width as int;
    let ghost hi = height as int;
    let ghost dn = delay_num as int;
    let ghost dd = delay_den as int;
    let ghost ps = byte_seqs(payloads@);
    let mut out: Vec<u8> = Vec::new();
    out.push(137);
    out.push(80);
    out.push(78);
    out.push(71);
    out.push(13);
    out.push(10);
    out.push(26);
    out.push(10);
    proof {
        assert(out@ =~= png_signature());
    }
    let mut ihdr: Vec<u8> = Vec::new();
    push_be32(&mut ihdr, width);
    push_be32(&mut ihdr, height);
    ihdr.push(8);
    ihdr.push(6);
    ihdr.push(0);
    ihdr.push(0);
    ihdr.push(0);
    proof {
        assert(ihdr@ =~= ihdr_data(wi, hi));
    }
    push_chunk(&mut out, 73, 72, 68, 82, &ihdr);
    let count: u32 = payloads.len() as u32;
    let mut actl: Vec<u8> = Vec::new();
    push_be32(&mut actl, count);
    push_be32(&mut actl, 0);
    proof {
        assert(actl@ =~= actl_data(ps.len() as int));
    }
    push_chunk(&mut out, 97, 99, 84, 76, &actl);
    let ghost header = png_signature() + chunk_bytes(ihdr_type(), ihdr_data(wi, hi)) + chunk_bytes(
        actl_type(),
        actl_data(ps.len() as int),
    );
    proof {
        assert(ihdr_type() =~= seq![73u8, 72u8, 68u8, 82u8]);
        assert(actl_type() =~= seq![97u8, 99u8, 84u8, 76u8]);
        assert(out@ == header);
        assert(header + frame_segments(ps.subrange(0, 0), wi, hi, dn, dd) =~= header);
    }
    let mut i: usize = 0;
    while i < payloads.len()
        invariant
            ps == byte_seqs(payloads@),
            wi == width as int,
            hi == height as int,
            dn == delay_num as int,
            dd == delay_den as int,
            1 <= payloads@.len() < 0x8000_0000,
            forall|k: int| 0 <= k < payloads@.len() ==> (#[trigger] payloads@[k])@.len()
                <= MAX_CHUNK_DATA,
            i <= payloads@.len(),
            out@ == header + frame_segments(ps.subrange(0, i as int), wi, hi, dn, dd),
        decreases payloads@.len() - i,
    {
        proof {
            assert(ps[i as int] == payloads@[i as int]@);
        }
        push_frame_segment(&mut out, width, height, delay_num, delay_den, i, &payloads[i]);
        proof {
            lemma_segments_step(ps, i as int, wi, hi, dn, dd);
            vstd::seq_lib::lemma_concat_associative(
                header,
                frame_segments(ps.subrange(0, i as int), wi, hi, dn, dd),
                frame_segment(ps[i as int], i as int, wi, hi, dn, dd),
            );
        }
        i = i + 1;
    }
    proof {
        assert(ps.subrange(0, ps.len() as int) =~= ps);
    }
    let empty_data: Vec<u8> = Vec::new();
    proof {
        assert(iend_type() =~= seq![73u8, 69u8, 78u8, 68u8]);
        assert(empty_data@ =~= Seq::<u8>::empty());
    }
    push_chunk(&mut out, 73, 69, 78, 68, &empty_data);
    proof {
        assert(out@ == container_bytes(ps, wi, hi, dn, dd));
    }
    out
}

/// Whether a frame has exactly the configured canvas dimensions.
pub open spec fn dims_ok(b: BitmapV, config: AnimationConfig) -> bool {
    b.width == config.canvas_width && b.height == config.canvas_height
}

/// Whether a frame's compressed payload fits in one data chunk.
pub open spec fn payload_fits(b: BitmapV) -> bool {
    frame_payload(b).len() <= MAX_CHUNK_DATA
}

/// The media type of the encoder's output.
pub fn media_type() -> (r: &'static str)
    ensures
        r@ == "image/png"@,
{
    "image/png"
}

/// Serialize `frames` plus `config` into one animated PNG byte stream.
///
/// Succeeds exactly when there is at least one frame, every frame has the
/// configured dimensions, and every frame's compressed payload fits in one
/// chunk; the output is then exactly `apng_bytes` of the inputs. Each error
/// reports the first offending frame, and a failed encode produces no bytes.
pub fn encode_apng(frames: &Vec<BitmapBuffer>, config: &AnimationConfig) -> (r: Result<
    Vec<u8>,
    EncodeError,
>)
    requires
        config.wf(),
        frames@.len() < 0x8000_0000,
        forall|i: int| 0 <= i < frames@.len() ==> (#[trigger] bitmap_views(frames@)[i]).wf(),
    ensures
        match r {
            Ok(bytes) => {
                &&& 1 <= frames@.len()
                &&& forall|i: int|
                    0 <= i < frames@.len() ==> dims_ok(#[trigger] bitmap_views(frames@)[i], *config)
                &&& forall|i: int|
                    0 <= i < frames@.len() ==> payload_fits(#[trigger] bitmap_views(frames@)[i])
                &&& bytes@ == apng_bytes(bitmap_views(frames@), *config)
            },
            Err(EncodeError::EmptyAnimation) => frames@.len() == 0,
            Err(EncodeError::DimensionMismatch { index }) => {
                &&& 1 <= frames@.len()
                &&& index < frames@.len()
                &&& !dims_ok(bitmap_views(frames@)[index as int], *config)
                &&& forall|j: int|
                    0 <= j < index ==> dims_ok(#[trigger] bitmap_views(frames@)[j], *config)
            },
            Err(EncodeError::FrameEncodeFailed { index }) => {
                &&& 1 <= frames@.len()
                &&& index < frames@.len()
                &&& forall|i: int|
                    0 <= i < frames@.len() ==> dims_ok(#[trigger] bitmap_views(frames@)[i], *config)
                &&& !payload_fits(bitmap_views(frames@)[index as int])
                &&& forall|j: int|
                    0 <= j < index ==> payload_fits(#[trigger] bitmap_views(frames@)[j])
            },
        },
{
    let ghost views = bitmap_views(frames@);
    if frames.len() == 0 {
        return Err(EncodeError::EmptyAnimation);
    }
    let mut i: usize = 0;
    while i < frames.len()
        invariant
            views == bitmap_views(frames@),
            i <= frames@.len(),
            forall|j: int| 0 <= j < i ==> dims_ok(#[trigger] views[j], *config),
        decreases frames@.len() - i,
    {
        if frames[i].width() != config.canvas_width || frames[i].height() != config.canvas_height {
            return Err(EncodeError::DimensionMismatch { index: i });
        }
        i = i + 1;
    }
    let mut payloads: Vec<Vec<u8>> = Vec::new();
    let mut i: usize = 0;
    while i < frames.len()
        invariant
            views == bitmap_views(frames@),
            config.wf(),
            1 <= frames@.len() < 0x8000_0000,
            forall|k: int| 0 <= k < frames@.len() ==> (#[trigger] views[k]).wf(),
            forall|k: int| 0 <= k < frames@.len() ==> dims_ok(#[trigger] views[k], *config),
            i <= frames@.len(),
            payloads@.len() == i,
            forall|j: int| 0 <= j < i ==> #[trigger] byte_seqs(payloads@)[j] == frame_payload(
                views[j],
            ),
            forall|j: int| 0 <= j < i ==> payload_fits(#[trigger] views[j]),
        decreases frames@.len() - i,
    {
        proof {
            assert(views[i as int] == frames@[i as int]@);
            assert(views[i as int].wf());
        }
        let p = frame_payload_vec(&frames[i]);
        if p.len() > MAX_CHUNK_DATA {
            return Err(EncodeError::FrameEncodeFailed { index: i });
        }
        let ghost prev = payloads@;
        payloads.push(p);
        proof {
            assert forall|j: int| 0 <= j < i as int + 1 implies #[trigger] byte_seqs(payloads@)[j]
                == frame_payload(views[j]) by {
                if j < i as int {
                    assert(byte_seqs(prev)[j] == frame_payload(views[j]));
                }
            }
        }
        i = i + 1;
    }
    proof {
        assert forall|k: int| 0 <= k < payloads@.len() implies (#[trigger] payloads@[k])@.len()
            <= MAX_CHUNK_DATA by {
            assert(byte_seqs(payloads@)[k] == frame_payload(views[k]));
        }
    }
    let bytes = build_container(
        config.canvas_width,
        config.canvas_height,
        config.delay_num,
        config.delay_den,
        &payloads,
    );
    proof {
        assert(byte_seqs(payloads@) =~= payloads_of(views));
    }
    Ok(bytes)
}

/// Byte position of frame `i`'s chunks inside the container: right after the
/// signature, the header chunk, the animation control chunk, and the chunks
/// of every earlier frame.
pub open spec fn segment_offset(
    payloads: Seq<Seq<u8>>,
    w: int,
    h: int,
    dnum: int,
    dden: int,
    i: int,
) -> int {
    (png_signature() + chunk_bytes(ihdr_type(), ihdr_data(w, h)) + chunk_bytes(
        actl_type(),
        actl_data(payloads.len() as int),
    )).len() as int + frame_segments(payloads.subrange(0, i), w, h, dnum, dden).len() as int
}

/// Inside the concatenated frame chunks, frame `i`'s own chunks stand exactly
/// after those of frames `0 .. i`, contiguously and in frame order.
pub proof fn lemma_segments_order(payloads: Seq<Seq<u8>>, w: int, h: int, dnum: int, dden: int)
    ensures
        forall|i: int|
            0 <= i < payloads.len() ==> {
                let pre = frame_segments(payloads.subrange(0, i), w, h, dnum, dden).len() as int;
                let seg = #[trigger] frame_segment(payloads[i], i, w, h, dnum, dden);
                &&& frame_segments(payloads.subrange(0, i + 1), w, h, dnum, dden).len() == pre
                    + seg.len()
                &&& pre + seg.len() <= frame_segments(payloads, w, h, dnum, dden).len()
                &&& frame_segments(payloads, w, h, dnum, dden).subrange(pre, pre + seg.len())
                    == seg
            },
    decreases payloads.len(),
{
    if payloads.len() == 0 {
    } else {
        let dl = payloads.drop_last();
        lemma_segments_order(dl, w, h, dnum, dden);
        let n = payloads.len() - 1;
        let a = frame_segments(dl, w, h, dnum, dden);
        let segn = frame_segment(payloads[n], n, w, h, dnum, dden);
        assert(frame_segments(payloads, w, h, dnum, dden) == a + segn);
        assert forall|i: int| 0 <= i < payloads.len() implies {
            let pre = frame_segments(payloads.subrange(0, i), w, h, dnum, dden).len() as int;
            let seg = #[trigger] frame_segment(payloads[i], i, w, h, dnum, dden);
            &&& frame_segments(payloads.subrange(0, i + 1), w, h, dnum, dden).len() == pre
                + seg.len()
            &&& pre + seg.len() <= frame_segments(payloads, w, h, dnum, dden).len()
            &&& frame_segments(payloads, w, h, dnum, dden).subrange(pre, pre + seg.len()) == seg
        } by {
            let pre = frame_segments(payloads.subrange(0, i), w, h, dnum, dden).len() as int;
            let seg = frame_segment(payloads[i], i, w, h, dnum, dden);
            if i == n {
                assert(payloads.subrange(0, n) =~= dl);
                assert(payloads.subrange(0, n + 1) =~= payloads);
                assert(pre == a.len());
                assert((a + segn).subrange(a.len() as int, a.len() as int + segn.len() as int)
                    =~= segn);
            } else {
                assert(dl.subrange(0, i) =~= payloads.subrange(0, i));
                assert(dl.subrange(0, i + 1) =~= payloads.subrange(0, i + 1));
                assert(dl[i] == payloads[i]);
                assert(a.subrange(pre, pre + seg.len()) == seg);
                assert((a + segn).subrange(pre, pre + seg.len()) =~= a.subrange(
                    pre,
                    pre + seg.len(),
                ));
            }
        }
    }
}

/// Frame order is preserved byte for byte: frame `i`'s chunks stand in the
/// container exactly at `segment_offset(i)`, and frame `i + 1`'s chunks begin
/// exactly where frame `i`'s end — the container carries the frames
/// contiguously, in the order they were handed in.
pub proof fn lemma_container_frame_order(
    payloads: Seq<Seq<u8>>,
    w: int,
    h: int,
    dnum: int,
    dden: int,
)
    ensures
        forall|i: int|
            0 <= i < payloads.len() ==> {
                let off = segment_offset(payloads, w, h, dnum, dden, i);
                let seg = #[trigger] frame_segment(payloads[i], i, w, h, dnum, dden);
                &&& 0 <= off
                &&& off + seg.len() <= container_bytes(payloads, w, h, dnum, dden).len()
                &&& container_bytes(payloads, w, h, dnum, dden).subrange(off, off + seg.len())
                    == seg
                &&& segment_offset(payloads, w, h, dnum, dden, i + 1) == off + seg.len()
            },
{
    lemma_segments_order(payloads, w, h, dnum, dden);
    let header = png_signature() + chunk_bytes(ihdr_type(), ihdr_data(w, h)) + chunk_bytes(
        actl_type(),
        actl_data(payloads.len() as int),
    );
    let segs = frame_segments(payloads, w, h, dnum, dden);
    let iend = chunk_bytes(iend_type(), Seq::empty());
    let container = container_bytes(payloads, w, h, dnum, dden);
    assert(container == header + segs + iend);
    assert forall|i: int| 0 <= i < payloads.len() implies {
        let off = segment_offset(payloads, w, h, dnum, dden, i);
        let seg = #[trigger] frame_segment(payloads[i], i, w, h, dnum, dden);
        &&& 0 <= off
        &&& off + seg.len() <= container_bytes(payloads, w, h, dnum, dden).len()
        &&& container_bytes(payloads, w, h, dnum, dden).subrange(off, off + seg.len()) == seg
        &&& segment_offset(payloads, w, h, dnum, dden, i + 1) == off + seg.len()
    } by {
        let off = segment_offset(payloads, w, h, dnum, dden, i);
        let seg = frame_segment(payloads[i], i, w, h, dnum, dden);
        let pre = frame_segments(payloads.subrange(0, i), w, h, dnum, dden).len() as int;
        assert(off == header.len() + pre);
        assert(container.subrange(off, off + seg.len()) =~= segs.subrange(pre, pre + seg.len()));
    }
}

/// A frame-control chunk is 38 bytes long: length, type, 26 data bytes, and
/// checksum.
proof fn lemma_fctl_chunk_len(i: int, w: int, h: int, dnum: int, dden: int)
    ensures
        chunk_bytes(fctl_type(), fctl_data(fctl_seq_no(i), w, h, dnum, dden)).len() == 38,
        fctl_data(fctl_seq_no(i), w, h, dnum, dden).len() == 26,
{
}

/// Every frame-control chunk in the container reports exactly the configured
/// rational delay: frame `i`'s fcTL chunk stands at `segment_offset(i)`, and
/// inside its 26 data bytes the delay numerator and denominator stand
/// big-endian at positions 20 and 22.
#[verifier::rlimit(100)]
#[verifier::spinoff_prover]
pub proof fn lemma_container_frame_delays(
    payloads: Seq<Seq<u8>>,
    w: int,
    h: int,
    dnum: int,
    dden: int,
)
    ensures
        forall|i: int|
            0 <= i < payloads.len() ==> {
                let off = segment_offset(payloads, w, h, dnum, dden, i);
                container_bytes(payloads, w, h, dnum, dden).subrange(off, off + 38)
                    == chunk_bytes(
                    fctl_type(),
                    #[trigger] fctl_data(fctl_seq_no(i), w, h, dnum, dden),
                )
            },
        forall|sn: int|
            (#[trigger] fctl_data(sn, w, h, dnum, dden)).subrange(20, 22) == be16(dnum)
                && fctl_data(sn, w, h, dnum, dden).subrange(22, 24) == be16(dden),
{
    lemma_container_frame_order(payloads, w, h, dnum, dden);
    let container = container_bytes(payloads, w, h, dnum, dden);
    assert forall|i: int| 0 <= i < payloads.len() implies {
        let off = segment_offset(payloads, w, h, dnum, dden, i);
        container.subrange(off, off + 38) == chunk_bytes(
            fctl_type(),
            #[trigger] fctl_data(fctl_seq_no(i), w, h, dnum, dden),
        )
    } by {
        let off = segment_offset(payloads, w, h, dnum, dden, i);
        let seg = frame_segment(payloads[i], i, w, h, dnum, dden);
        let fctl = chunk_bytes(fctl_type(), fctl_data(fctl_seq_no(i), w, h, dnum, dden));
        lemma_fctl_chunk_len(i, w, h, dnum, dden);
        assert(container.subrange(off, off + seg.len()) == seg);
        let rest = if i == 0 {
            chunk_bytes(idat_type(), payloads[i])
        } else {
            chunk_bytes(fdat_type(), be32(2 * i) + payloads[i])
        };
        assert(seg == fctl + rest);
        assert(container.subrange(off, off + 38) =~= fctl);
    }
    assert forall|sn: int|
        (#[trigger] fctl_data(sn, w, h, dnum, dden)).subrange(20, 22) == be16(dnum) && fctl_data(
        sn,
        w,
        h,
        dnum,
        dden,
    ).subrange(22, 24) == be16(dden) by {
        assert(fctl_data(sn, w, h, dnum, dden).subrange(20, 22) =~= be16(dnum));
        assert(fctl_data(sn, w, h, dnum, dden).subrange(22, 24) =~= be16(dden));
    }
}

} // verus!
