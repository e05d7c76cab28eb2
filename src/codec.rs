//! Dictionary-compressed deltas between two byte buffers.
use vstd::prelude::*;
use vstd::arithmetic::power2::{lemma2_to64, lemma2_to64_rest, lemma_pow2_unfold, pow2};
use zstd::zstd_safe::CParameter;

verus! {

/// Position of the highest set bit of `x`, with `0` for both `0` and `1`.
pub open spec fn high_bit(x: nat) -> nat
    decreases x,
{
    if x <= 1 {
        0
    } else {
        1 + high_bit(x / 2)
    }
}

/// Smallest window logarithm the delta encoder is configured with.
pub const WINDOW_LOG_MIN: u32 = 10;

/// Largest window logarithm the delta encoder is configured with.
pub const WINDOW_LOG_MAX: u32 = 31;

/// The base-2 logarithm of `x`, rounded up (`0` for `0` and `1`).
pub open spec fn ceil_log2(x: nat) -> nat {
    if x <= 1 {
        0
    } else {
        high_bit((x - 1) as nat) + 1
    }
}

/// Window logarithm used to encode against a dictionary of `dict_len` bytes:
/// one more than the rounded-up logarithm of its length, clamped to the
/// supported range.
pub open spec fn window_log_spec(dict_len: nat) -> nat {
    let w = ceil_log2(dict_len) + 1;
    if w < WINDOW_LOG_MIN {
        WINDOW_LOG_MIN as nat
    } else if w > WINDOW_LOG_MAX {
        WINDOW_LOG_MAX as nat
    } else {
        w
    }
}

/// How many times `x` can still be halved before it reaches zero.
spec fn bits_left(x: nat) -> nat {
    if x == 0 {
        0
    } else {
        1 + high_bit(x)
    }
}

proof fn lemma_high_bit_below(x: nat, k: nat)
    requires
        1 <= k,
        x < pow2(k),
    ensures
        high_bit(x) < k,
    decreases k,
{
    if x > 1 {
        lemma_pow2_unfold(k);
        if k == 1 {
            lemma2_to64();
        } else {
            lemma_high_bit_below(x / 2, (k - 1) as nat);
        }
    }
}

/// Returns the index of the highest set bit of `x` (`0` for `0` and `1`).
pub fn fio_high_bit64(x: usize) -> (r: u32)
    ensures
        r as nat == high_bit(x as nat),
        r < 64,
{
    proof {
        lemma2_to64_rest();
        lemma_high_bit_below(x as nat, 64);
    }
    assert(x >> 1 == x / 2) by (bit_vector);
    let mut y: usize = x >> 1;
    let mut count: u32 = 0;
    while y != 0
        invariant
            count as nat + bits_left(y as nat) == high_bit(x as nat),
            high_bit(x as nat) < 64,
        decreases y,
    {
        assert(y >> 1 == y / 2) by (bit_vector);
        y = y >> 1;
        count = count + 1;
    }
    count
}

/// Window logarithm for encoding against a dictionary of `dict_len` bytes.
pub fn window_log(dict_len: usize) -> (r: u32)
    ensures
        r as nat == window_log_spec(dict_len as nat),
        WINDOW_LOG_MIN <= r <= WINDOW_LOG_MAX,
{
    let c: u32 = if dict_len <= 1 {
        0
    } else {
        fio_high_bit64(dict_len - 1) + 1
    };
    let w = c + 1;
    if w < WINDOW_LOG_MIN {
        WINDOW_LOG_MIN
    } else if w > WINDOW_LOG_MAX {
        WINDOW_LOG_MAX
    } else {
        w
    }
}

/// Whether zstd accepts `w` as window logarithm: from 10 up to 31 on a 64-bit
/// target, up to 30 on a 32-bit one.
pub open spec fn window_log_accepted(w: u32) -> bool {
    WINDOW_LOG_MIN <= w && w <= WINDOW_LOG_MAX && (w <= 30 || usize::MAX == u64::MAX)
}

/// Whether a dictionary of `n` bytes gives a window that zstd accepts on this
/// target: always on a 64-bit one, up to 512 MiB on a 32-bit one.
pub open spec fn window_fits(n: nat) -> bool {
    n <= 0x2000_0000 || usize::MAX == u64::MAX
}

/// The window for a dictionary that fits is accepted.
pub proof fn lemma_window_accepted(n: nat)
    requires
        window_fits(n),
    ensures
        window_log_accepted(window_log_spec(n) as u32),
{
    if n > 1 && n <= 0x2000_0000 {
        lemma2_to64();
        lemma_high_bit_below((n - 1) as nat, 29);
    }
}

/// Whether a target of `n` bytes can be encoded: its worst-case encoding,
/// `compress_bound(n)`, must fit in a buffer.
pub open spec fn encodable_len(n: nat) -> bool {
    n <= (isize::MAX as nat) / 2
}

/// The content size recorded in the header of `frame`, if it has one.
pub uninterp spec fn zstd_content_size(frame: Seq<u8>) -> Option<u64>;

/// What zstd decodes from `frame` with `dict` referenced as a raw-content
/// prefix, into a buffer of `capacity` bytes.
pub uninterp spec fn zstd_decoded(frame: Seq<u8>, dict: Seq<u8>, capacity: nat) -> Option<Seq<u8>>;

/// What `apply` reconstructs from `frame` against the dictionary `dict`: the
/// frame decoded into a buffer of its recorded content size.
pub open spec fn decode_spec(dict: Seq<u8>, frame: Seq<u8>) -> Option<Seq<u8>> {
    match zstd_content_size(frame) {
        Some(n) => if n <= isize::MAX {
            zstd_decoded(frame, dict, n as nat)
        } else {
            None
        },
        None => None,
    }
}

/// The configuration step of the encoder that failed.
#[derive(Debug, Clone, Copy, PartialEq, Eq, Structural)]
pub enum CodecError {
    /// The compression level was refused.
    CompressionLevel,
    /// The window logarithm (carried) was refused.
    WindowLog(u32),
    /// Long-distance matching could not be enabled.
    LongDistanceMatching,
    /// The dictionary could not be referenced as a prefix.
    Prefix,
    /// Compression itself failed.
    Compress,
}

/// Relies on zstd_safe's `CCtx`: `set_parameter` for the level (which zstd
/// clamps to its range), the window logarithm and long-distance matching,
/// `ref_prefix` with `dict`, then `compress2` of `target` into a buffer of
/// `compress_bound` bytes, which always holds the frame. zstd is lossless and
/// `compress2` records the input size in the frame header.
#[verifier::external_body]
fn compress_with_prefix(dict: &[u8], target: &[u8], level: i32, window_log: u32) -> (r: Result<Vec<u8>, CodecError>)
    requires
        encodable_len(target@.len()),
    ensures
        window_log_accepted(window_log) ==> r is Ok,
        r is Ok ==> zstd_content_size(r->Ok_0@) == Some(target@.len() as u64),
        r is Ok ==> zstd_decoded(r->Ok_0@, dict@, target@.len()) == Some(target@),
        r matches Err(e) ==> e is CompressionLevel || e == CodecError::WindowLog(window_log) || e is LongDistanceMatching || e is Prefix || e is Compress,
{
    let mut c = zstd::zstd_safe::CCtx::create();
    c.set_parameter(CParameter::CompressionLevel(level)).map_err(|_| CodecError::CompressionLevel)?;
    c.set_parameter(CParameter::WindowLog(window_log)).map_err(|_| CodecError::WindowLog(window_log))?;
    c.set_parameter(CParameter::EnableLongDistanceMatching(true)).map_err(|_| CodecError::LongDistanceMatching)?;
    c.ref_prefix(dict).map_err(|_| CodecError::Prefix)?;
    let mut out = Vec::with_capacity(zstd::zstd_safe::compress_bound(target.len()));
    c.compress2(&mut out, target).map_err(|_| CodecError::Compress)?;
    Ok(out)
}

/// Relies on zstd_safe::get_frame_content_size: the size in the frame header.
#[verifier::external_body]
fn frame_content_size(frame: &[u8]) -> (r: Option<u64>)
    ensures
        r == zstd_content_size(frame@),
{
    zstd::zstd_safe::get_frame_content_size(frame).ok().flatten()
}

/// Relies on zstd_safe's `DCtx`: `ref_prefix` with `dict` as raw content, then
/// `decompress` into a buffer of exactly `capacity` bytes, of which the
/// written prefix is kept. A frame whose header records `capacity` as its
/// content size decodes to exactly that many bytes, or fails.
#[verifier::external_body]
fn decompress_with_prefix(frame: &[u8], dict: &[u8], capacity: usize) -> (r: Option<Vec<u8>>)
    requires
        capacity <= isize::MAX,
    ensures
        r is Some ==> zstd_decoded(frame@, dict@, capacity as nat) == Some(r->0@),
        r is None ==> zstd_decoded(frame@, dict@, capacity as nat) is None,
        zstd_content_size(frame@) == Some(capacity as u64) && r is Some ==> r->0@.len() == capacity,
{
    let mut d = zstd::zstd_safe::DCtx::create();
    d.ref_prefix(dict).ok()?;
    let mut out = vec![0u8; capacity];
    let written = d.decompress(&mut out[..], frame).ok()?;
    out.truncate(written);
    Some(out)
}

/// Encodes `new_data` as a delta against the dictionary `old_data`, with a
/// window sized to the dictionary and long-distance matching enabled. The
/// delta records the length of `new_data` and `apply` decodes it back.
pub fn create(old_data: &[u8], new_data: &[u8], lvl: i32) -> (r: Result<Vec<u8>, CodecError>)
    requires
        encodable_len(new_data@.len()),
    ensures
        window_fits(old_data@.len()) ==> r is Ok,
        r is Ok ==> zstd_content_size(r->Ok_0@) == Some(new_data@.len() as u64),
        r is Ok ==> decode_spec(old_data@, r->Ok_0@) == Some(new_data@),
        r is Err ==> !window_fits(old_data@.len()),
{
    proof {
        if window_fits(old_data@.len()) {
            lemma_window_accepted(old_data@.len());
        }
    }
    let w = window_log(old_data.len());
    compress_with_prefix(old_data, new_data, lvl, w)
}

/// Reconstructs the target of the delta `patch_data` against the dictionary
/// `old_data`: the frame decoded into a buffer of the size its header records.
/// Never panics; a corrupt or truncated delta, or one whose header records no
/// size or one too large for a buffer, gives `Err`.
pub fn apply(old_data: &[u8], patch_data: &[u8]) -> (r: Result<Vec<u8>, ()>)
    ensures
        r is Ok ==> decode_spec(old_data@, patch_data@) == Some(r->Ok_0@),
        r is Err ==> decode_spec(old_data@, patch_data@) is None,
        r is Ok ==> zstd_content_size(patch_data@) == Some(r->Ok_0@.len() as u64),
{
    match frame_content_size(patch_data) {
        Some(n) => {
            if n > isize::MAX as u64 {
                return Err(());
            }
            match decompress_with_prefix(patch_data, old_data, n as usize) {
                Some(v) => Ok(v),
                None => Err(()),
            }
        },
        None => Err(()),
    }
}

} // verus!
