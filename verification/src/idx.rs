use vstd::prelude::*;
use vstd::arithmetic::div_mod::lemma_fundamental_div_mod_converse;

use crate::orient::{fix_item, fix_payload, fix_src, lemma_fix_src_bounds};
use crate::paths::{copy_range, is_gz_path, is_gz_path_exec};
use crate::{read_be32, spec_be32};

verus! {

/// Magic number marking an image file.
pub const IMAGE_MAGIC: u32 = 2051;

/// Magic number marking a label file.
pub const LABEL_MAGIC: u32 = 2049;

/// A decoded IDX dataset: the declared dimensions and the flat payload.
#[derive(Debug)]
pub struct MnistData {
    pub sizes: Vec<u32>,
    pub data: Vec<u8>,
}

/// Why a decode failed.
#[derive(Debug)]
pub enum DecodeError {
    /// The stream ended before a header field could be read in full.
    TruncatedHeader,
    /// The path carries the gzip suffix but the stored bytes are not a valid
    /// gzip stream.
    CorruptCompression,
    /// The leading four bytes are neither the image nor the label magic
    /// number; carries the offending value and the path.
    InvalidMagicNumber { magic: u32, path: Vec<u8> },
    /// The orientation fix was requested but the payload is shorter than the
    /// declared item count times the declared item size (or that size does
    /// not fit the machine), so the in-place rewrite cannot be applied.
    ShortPayload,
}

/// What the decompression of a gzip stream yields: the decompressed bytes,
/// or nothing when the stream is not valid gzip.
pub uninterp spec fn gunzip_of(raw: Seq<u8>) -> Option<Seq<u8>>;

/// Relies on flate2::read::GzDecoder: decompressing a gzip byte stream is a
/// deterministic function of the stored bytes alone, and a corrupt stream is
/// reported as an error.
#[verifier::external_body]
fn gunzip(raw: &Vec<u8>) -> (r: Option<Vec<u8>>)
    ensures
        r is Some <==> gunzip_of(raw@) is Some,
        r matches Some(v) ==> Some(v@) == gunzip_of(raw@),
{
    let mut decoder = flate2::read::GzDecoder::new(raw.as_slice());
    let mut out: Vec<u8> = Vec::new();
    match std::io::Read::read_to_end(&mut decoder, &mut out) {
        Ok(_) => Some(out),
        Err(_) => None,
    }
}

/// The bytes the decoder actually parses: the stored bytes, run through
/// decompression when the path carries the gzip suffix.
pub open spec fn effective_bytes(path: Seq<u8>, raw: Seq<u8>) -> Option<Seq<u8>> {
    if is_gz_path(path) {
        gunzip_of(raw)
    } else {
        Some(raw)
    }
}

/// Whether the in-place orientation fix can be applied to a complete image
/// stream: the declared item size fits the machine and the declared items fit
/// inside the payload.
pub open spec fn rotate_applicable(b: Seq<u8>) -> bool
    recommends
        b.len() >= 16,
{
    let n = spec_be32(b, 4) as int;
    let rows = spec_be32(b, 8) as int;
    let cols = spec_be32(b, 12) as int;
    rows * cols <= usize::MAX && n * (rows * cols) <= b.len() - 16
}

/// Whether decoding succeeds for the given path, stored bytes and fix flag.
pub open spec fn decode_ok(path: Seq<u8>, raw: Seq<u8>, emnist_rotate: bool) -> bool {
    match effective_bytes(path, raw) {
        Option::None => false,
        Option::Some(b) => {
            if b.len() < 4 {
                false
            } else if spec_be32(b, 0) == IMAGE_MAGIC {
                b.len() >= 16 && (emnist_rotate ==> rotate_applicable(b))
            } else {
                spec_be32(b, 0) == LABEL_MAGIC && b.len() >= 8
            }
        },
    }
}

/// The dimensions of a successfully decoded stream: item count, rows and
/// columns for an image file, item count alone for a label file.
pub open spec fn decode_sizes(path: Seq<u8>, raw: Seq<u8>) -> Seq<u32>
    recommends
        exists|r: bool| decode_ok(path, raw, r),
{
    let b = effective_bytes(path, raw).unwrap();
    if spec_be32(b, 0) == IMAGE_MAGIC {
        seq![spec_be32(b, 4), spec_be32(b, 8), spec_be32(b, 12)]
    } else {
        seq![spec_be32(b, 4)]
    }
}

/// The payload of a successfully decoded stream: every byte after the header,
/// rewritten by the orientation fix when it was requested on an image file.
pub open spec fn decode_data(path: Seq<u8>, raw: Seq<u8>, emnist_rotate: bool) -> Seq<u8>
    recommends
        decode_ok(path, raw, emnist_rotate),
{
    let b = effective_bytes(path, raw).unwrap();
    if spec_be32(b, 0) == IMAGE_MAGIC {
        let payload = b.skip(16);
        if emnist_rotate {
            fix_payload(
                payload,
                spec_be32(b, 4) as int,
                spec_be32(b, 8) as int,
                spec_be32(b, 12) as int,
            )
        } else {
            payload
        }
    } else {
        b.skip(8)
    }
}

/// The stored bytes carry the gzip suffix but do not decompress.
pub open spec fn gzip_rejected(path: Seq<u8>, raw: Seq<u8>) -> bool {
    is_gz_path(path) && gunzip_of(raw) is None
}

/// The decompressed stream ends before a header field could be read.
pub open spec fn header_truncated(path: Seq<u8>, raw: Seq<u8>) -> bool {
    match effective_bytes(path, raw) {
        Option::None => false,
        Option::Some(b) => b.len() < 4 || (spec_be32(b, 0) == IMAGE_MAGIC && b.len() < 16) || (
        spec_be32(b, 0) == LABEL_MAGIC && b.len() < 8),
    }
}

/// The leading four bytes decode to neither magic number.
pub open spec fn magic_rejected(path: Seq<u8>, raw: Seq<u8>) -> bool {
    match effective_bytes(path, raw) {
        Option::None => false,
        Option::Some(b) => b.len() >= 4 && spec_be32(b, 0) != IMAGE_MAGIC && spec_be32(b, 0)
            != LABEL_MAGIC,
    }
}

/// A complete image header whose declared items do not fit its payload, with
/// the fix requested.
pub open spec fn payload_rejected(path: Seq<u8>, raw: Seq<u8>, emnist_rotate: bool) -> bool {
    emnist_rotate && match effective_bytes(path, raw) {
        Option::None => false,
        Option::Some(b) => b.len() >= 16 && spec_be32(b, 0) == IMAGE_MAGIC && !rotate_applicable(
            b,
        ),
    }
}

impl MnistData {
    /// Decodes one IDX stream. `path` is the file's path and `raw` its bytes
    /// exactly as stored; a gzip-suffixed path is transparently decompressed
    /// before the header is parsed. When `emnist_rotate` is set and the file
    /// is an image file, every item of the payload is rewritten in place by
    /// the orientation fix; a payload too short for that rewrite is rejected
    /// rather than read out of bounds.
    pub fn new(path: &Vec<u8>, raw: Vec<u8>, emnist_rotate: bool) -> (r: Result<
        MnistData,
        DecodeError,
    >)
        ensures
            r is Ok <==> decode_ok(path@, raw@, emnist_rotate),
            r matches Ok(d) ==> d.sizes@ == decode_sizes(path@, raw@),
            r matches Ok(d) ==> d.data@ == decode_data(path@, raw@, emnist_rotate),
            r matches Err(e) ==> ((e is CorruptCompression) == gzip_rejected(path@, raw@)),
            r matches Err(e) ==> ((e is TruncatedHeader) == header_truncated(path@, raw@)),
            r matches Err(e) ==> ((e is InvalidMagicNumber) == magic_rejected(path@, raw@)),
            r matches Err(e) ==> ((e is ShortPayload) == payload_rejected(
                path@,
                raw@,
                emnist_rotate,
            )),
            r matches Err(DecodeError::InvalidMagicNumber { magic, path: p }) ==> magic
                == spec_be32(effective_bytes(path@, raw@).unwrap(), 0) && p@ == path@,
    {
        let mut bytes: Vec<u8>;
        if is_gz_path_exec(path) {
            match gunzip(&raw) {
                Some(b) => {
                    bytes = b;
                },
                None => {
                    return Err(DecodeError::CorruptCompression);
                },
            }
        } else {
            bytes = raw;
        }
        assert(Some(bytes@) == effective_bytes(path@, raw@));
        let blen = bytes.len();
        if blen < 4 {
            return Err(DecodeError::TruncatedHeader);
        }
        let magic = read_be32(&bytes, 0);
        if magic == IMAGE_MAGIC {
            if blen < 16 {
                return Err(DecodeError::TruncatedHeader);
            }
            let num_images = read_be32(&bytes, 4);
            let num_rows = read_be32(&bytes, 8);
            let num_cols = read_be32(&bytes, 12);
            let mut sizes: Vec<u32> = Vec::new();
            sizes.push(num_images);
            sizes.push(num_rows);
            sizes.push(num_cols);
            let mut data = bytes.split_off(16);
            if emnist_rotate {
                proof {
                    assert((num_rows as u128) * (num_cols as u128) < 0x1_0000_0000_0000_0000u128
                        && (num_images as u128) * ((num_rows as u128) * (num_cols as u128))
                        < 0x1_0000_0000_0000_0000_0000_0000u128)
                        by (nonlinear_arith)
                        requires
                            num_images <= 0xffff_ffffu32,
                            num_rows <= 0xffff_ffffu32,
                            num_cols <= 0xffff_ffffu32,
                    ;
                }
                let rc = (num_rows as u128) * (num_cols as u128);
                let total = (num_images as u128) * rc;
                if rc > (usize::MAX as u128) || total > (data.len() as u128) {
                    return Err(DecodeError::ShortPayload);
                }
                MnistData::rotate_and_mirror_images(
                    &mut data,
                    num_images as usize,
                    num_rows as usize,
                    num_cols as usize,
                );
            }
            Ok(MnistData { sizes, data })
        } else if magic == LABEL_MAGIC {
            if blen < 8 {
                return Err(DecodeError::TruncatedHeader);
            }
            let num_labels = read_be32(&bytes, 4);
            let mut sizes: Vec<u32> = Vec::new();
            sizes.push(num_labels);
            let data = bytes.split_off(8);
            Ok(MnistData { sizes, data })
        } else {
            Err(
                DecodeError::InvalidMagicNumber {
                    magic,
                    path: copy_range(path, 0, path.len()),
                },
            )
        }
    }

    /// Rewrites each of the first `num_images` items of an image payload in
    /// place with the two-step orientation fix; bytes past those items are
    /// left unchanged.
    pub fn rotate_and_mirror_images(
        data: &mut Vec<u8>,
        num_images: usize,
        rows: usize,
        cols: usize,
    )
        requires
            (rows as int) * (cols as int) <= usize::MAX,
            (num_images as int) * ((rows as int) * (cols as int)) <= old(data)@.len(),
        ensures
            final(data)@ == fix_payload(old(data)@, num_images as int, rows as int, cols as int),
    {
        let ghost orig = old(data)@;
        let ghost target = fix_payload(orig, num_images as int, rows as int, cols as int);
        let data_len: usize = data.len();
        let image_size: usize = rows * cols;
        let mut i: usize = 0;
        while i < num_images
            invariant
                i <= num_images,
                image_size == (rows as int) * (cols as int),
                (num_images as int) * (image_size as int) <= orig.len(),
                data_len == orig.len(),
                data@.len() == orig.len(),
                orig == old(data)@,
                target == fix_payload(orig, num_images as int, rows as int, cols as int),
                target.len() == orig.len(),
                forall|k: int| 0 <= k < i * image_size ==> #[trigger] data@[k] == target[k],
                forall|k: int| i * image_size <= k < orig.len() ==> #[trigger] data@[k] == orig[k],
            decreases num_images - i,
        {
            proof {
                assert((i as int) * (image_size as int) + image_size <= (num_images as int) * (
                image_size as int)) by (nonlinear_arith)
                    requires
                        0 <= i < num_images,
                        image_size >= 0,
                ;
            }
            let start = i * image_size;
            let end = start + image_size;
            let item = copy_range(data, start, end);
            assert(item@ =~= orig.subrange(start as int, end as int));
            let fixed = crate::orient::fix_one_image(&item, rows, cols);
            let mut k: usize = 0;
            while k < image_size
                invariant
                    k <= image_size,
                    i < num_images,
                    image_size == (rows as int) * (cols as int),
                    start == i * image_size,
                    end == start + image_size,
                    end <= data@.len(),
                    data@.len() == orig.len(),
                    item@.len() == image_size,
                    fixed@.len() == image_size,
                    fixed@ == fix_item(item@, rows as int, cols as int),
                    item@ == orig.subrange(start as int, end as int),
                    target == fix_payload(orig, num_images as int, rows as int, cols as int),
                    target.len() == orig.len(),
                    forall|j: int| 0 <= j < start ==> #[trigger] data@[j] == target[j],
                    forall|j: int| 0 <= j < k ==> #[trigger] data@[start + j] == fixed@[j],
                    forall|j: int|
                        start + k <= j < orig.len() ==> #[trigger] data@[j] == orig[j],
                decreases image_size - k,
            {
                data.set(start + k, fixed[k]);
                k = k + 1;
            }
            i = i + 1;
            proof {
                assert((i - 1) * (image_size as int) == start);
                assert((i as int) * (image_size as int) == start + image_size)
                    by (nonlinear_arith)
                    requires
                        start == (i - 1) * (image_size as int),
                ;
                assert forall|k0: int| 0 <= k0 < i * image_size implies #[trigger] data@[k0]
                    == target[k0] by {
                    if k0 >= start {
                        let j = k0 - start;
                        assert(0 <= j < image_size);
                        assert(rows > 0 && cols > 0) by (nonlinear_arith)
                            requires
                                (rows as int) * (cols as int) == image_size,
                                0 < image_size,
                        ;
                        assert(data@[start + j] == fixed@[j]);
                        lemma_fix_src_bounds(rows as int, cols as int, j);
                        assert(fixed@[j] == item@[fix_src(rows as int, cols as int, j)]);
                        lemma_fundamental_div_mod_converse(k0, image_size as int, i - 1, j);
                        assert(k0 < (num_images as int) * ((rows as int) * (cols as int)))
                            by (nonlinear_arith)
                            requires
                                k0 < i * image_size,
                                i <= num_images,
                                image_size == (rows as int) * (cols as int),
                                image_size >= 0,
                        ;
                        assert(target[k0] == orig[(k0 / (image_size as int)) * (image_size as int)
                            + fix_src(rows as int, cols as int, k0 % (image_size as int))]);
                        assert((k0 / (image_size as int)) * (image_size as int) == start);
                    }
                }
            }
        }
        proof {
            assert forall|k: int| 0 <= k < orig.len() implies data@[k] == target[k] by {
                if k >= (num_images as int) * (image_size as int) {
                    assert(data@[k] == orig[k]);
                    assert(target[k] == orig[k]);
                }
            }
            assert(data@ =~= target);
        }
    }
}

/// Whether the image and label datasets declare different item counts: the
/// non-fatal warning surfaced after a pair is decoded.
pub fn count_mismatch(images: &MnistData, labels: &MnistData) -> (r: bool)
    requires
        images.sizes@.len() > 0,
        labels.sizes@.len() > 0,
    ensures
        r == (images.sizes@[0] != labels.sizes@[0]),
{
    images.sizes[0] != labels.sizes[0]
}

/// A valid image header decodes to the dimensions [itemCount, rows, cols] in
/// that order, and the payload is every byte past the 16-byte header, so a
/// stream holding exactly itemCount*rows*cols payload bytes decodes to a
/// payload of exactly that length.
pub proof fn lemma_image_decode_shape(path: Seq<u8>, raw: Seq<u8>, emnist_rotate: bool)
    requires
        decode_ok(path, raw, emnist_rotate),
        spec_be32(effective_bytes(path, raw).unwrap(), 0) == IMAGE_MAGIC,
    ensures
        ({
            let b = effective_bytes(path, raw).unwrap();
            decode_sizes(path, raw) =~= seq![
                spec_be32(b, 4),
                spec_be32(b, 8),
                spec_be32(b, 12),
            ] && decode_data(path, raw, emnist_rotate).len() == b.len() - 16
        }),
{
}

/// A valid label header decodes to the single dimension [itemCount], and the
/// payload is every byte past the 8-byte header, so a stream holding exactly
/// itemCount payload bytes decodes to a payload of exactly that length.
pub proof fn lemma_label_decode_shape(path: Seq<u8>, raw: Seq<u8>, emnist_rotate: bool)
    requires
        decode_ok(path, raw, emnist_rotate),
        spec_be32(effective_bytes(path, raw).unwrap(), 0) == LABEL_MAGIC,
    ensures
        ({
            let b = effective_bytes(path, raw).unwrap();
            decode_sizes(path, raw) =~= seq![spec_be32(b, 4)] && decode_data(
                path,
                raw,
                emnist_rotate,
            ).len() == b.len() - 8
        }),
{
}

/// Decoding the same stored bytes twice yields identical dimensions and
/// payload: the decoded dataset is a function of the path, the stored bytes
/// and the fix flag alone, with no state shared between calls.
pub proof fn lemma_decode_deterministic(
    path: Seq<u8>,
    raw: Seq<u8>,
    emnist_rotate: bool,
    a: MnistData,
    b: MnistData,
)
    requires
        a.sizes@ == decode_sizes(path, raw),
        a.data@ == decode_data(path, raw, emnist_rotate),
        b.sizes@ == decode_sizes(path, raw),
        b.data@ == decode_data(path, raw, emnist_rotate),
    ensures
        a.sizes@ == b.sizes@,
        a.data@ == b.data@,
{
}

/// Decompression transparency: when the bytes stored at a gzip-suffixed path
/// decompress to exactly the bytes stored at a plain path, both decode to the
/// same outcome, the same dimensions and the same payload.
pub proof fn lemma_decompression_transparent(
    gz_path: Seq<u8>,
    plain_path: Seq<u8>,
    compressed: Seq<u8>,
    plain: Seq<u8>,
    emnist_rotate: bool,
)
    requires
        is_gz_path(gz_path),
        !is_gz_path(plain_path),
        gunzip_of(compressed) == Some(plain),
    ensures
        decode_ok(gz_path, compressed, emnist_rotate) == decode_ok(
            plain_path,
            plain,
            emnist_rotate,
        ),
        decode_ok(gz_path, compressed, emnist_rotate) ==> decode_sizes(gz_path, compressed)
            == decode_sizes(plain_path, plain),
        decode_ok(gz_path, compressed, emnist_rotate) ==> decode_data(
            gz_path,
            compressed,
            emnist_rotate,
        ) == decode_data(plain_path, plain, emnist_rotate),
{
    assert(effective_bytes(gz_path, compressed) == effective_bytes(plain_path, plain));
}

} // verus!
