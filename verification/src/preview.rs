//! The WebSocket preview: change detection, downscaling and optional
//! compression of the frames streamed to browser clients.
use vstd::prelude::*;
use crate::frames::{frame_hash, fast_hash, downscaled, downscale_fits};
use crate::gzip::gzip_fast;
use crate::gzip::gzip_compress;

verus! {

/// What a preview compression gives: the gzip stream of `data` when
/// compression is on, `data` has at least 1024 bytes, and the stream is under
/// three quarters of the size of `data`; nothing otherwise.
pub open spec fn compressed_preview(use_compression: bool, data: Seq<u8>) -> Option<Seq<u8>> {
    if use_compression && data.len() >= 1024 && gzip_fast(data).len() < data.len() * 3 / 4 {
        Some(gzip_fast(data))
    } else {
        None
    }
}

/// Buffers and change-detection state of one preview stream.
pub struct FrameProcessor {
    preview_buffer: Vec<u8>,
    last_frame_hash: u64,
    last_spectrum_hash: u64,
    use_compression: bool,
}

impl FrameProcessor {
    /// The last preview produced.
    pub closed spec fn spec_preview(&self) -> Seq<u8> {
        self.preview_buffer@
    }

    /// The hash of the last frame sent.
    pub closed spec fn spec_last_frame_hash(&self) -> u64 {
        self.last_frame_hash
    }

    /// The hash of the last spectrum sent.
    pub closed spec fn spec_last_spectrum_hash(&self) -> u64 {
        self.last_spectrum_hash
    }

    /// Whether previews are compressed.
    pub closed spec fn spec_use_compression(&self) -> bool {
        self.use_compression
    }

    /// A stream that has sent nothing yet, with compression on.
    pub fn new() -> (p: Self)
        ensures
            p.spec_preview() == Seq::<u8>::empty(),
            p.spec_last_frame_hash() == 0,
            p.spec_last_spectrum_hash() == 0,
            p.spec_use_compression(),
    {
        FrameProcessor { preview_buffer: Vec::with_capacity(64 * 64 * 3), last_frame_hash: 0, last_spectrum_hash: 0, use_compression: true }
    }

    /// The last preview produced.
    pub fn preview_buffer(&self) -> (b: &Vec<u8>)
        ensures
            b@ == self.spec_preview(),
    {
        &self.preview_buffer
    }

    /// The change-detection hash of `data` (see `frame_hash`).
    pub fn fast_hash(data: &[u8]) -> (h: u64)
        ensures
            h == frame_hash(data@),
    {
        fast_hash(data)
    }

    /// Replaces the preview with `src` downscaled to `dst_width` x
    /// `dst_height` (see `downscaled`).
    pub fn downscale_frame(&mut self, src: &[u8], src_width: usize, dst_width: usize, dst_height: usize)
        requires
            dst_width > 0,
            downscale_fits(src_width as int, dst_width as int, dst_height as int),
        ensures
            final(self).spec_preview() == downscaled(src@, src_width as int, dst_width as nat, dst_height as nat),
            final(self).spec_last_frame_hash() == old(self).spec_last_frame_hash(),
            final(self).spec_last_spectrum_hash() == old(self).spec_last_spectrum_hash(),
            final(self).spec_use_compression() == old(self).spec_use_compression(),
    {
        self.preview_buffer.clear();
        crate::frames::downscale_into(&mut self.preview_buffer, src, src_width, dst_width, dst_height);
        assert(self.preview_buffer@ =~= downscaled(src@, src_width as int, dst_width as nat, dst_height as nat));
    }

    /// Decides whether the frame with hash `hash` is sent in round
    /// `frame_counter`: when the hash differs from the last one sent, and at
    /// least every 30th round.  A frame that is sent becomes the last one sent.
    pub fn note_frame(&mut self, hash: u64, frame_counter: u32) -> (send: bool)
        ensures
            send == (hash != old(self).spec_last_frame_hash() || frame_counter % 30 == 0),
            final(self).spec_last_frame_hash() == if send { hash } else { old(self).spec_last_frame_hash() },
            final(self).spec_last_spectrum_hash() == old(self).spec_last_spectrum_hash(),
            final(self).spec_preview() == old(self).spec_preview(),
            final(self).spec_use_compression() == old(self).spec_use_compression(),
    {
        if hash != self.last_frame_hash || frame_counter % 30 == 0 {
            self.last_frame_hash = hash;
            true
        } else {
            false
        }
    }

    /// Decides whether the spectrum with hash `hash` is sent: when it differs
    /// from the last one sent, which it then becomes.
    pub fn note_spectrum(&mut self, hash: u64) -> (send: bool)
        ensures
            send == (hash != old(self).spec_last_spectrum_hash()),
            final(self).spec_last_spectrum_hash() == hash,
            final(self).spec_last_frame_hash() == old(self).spec_last_frame_hash(),
            final(self).spec_preview() == old(self).spec_preview(),
            final(self).spec_use_compression() == old(self).spec_use_compression(),
    {
        let send = hash != self.last_spectrum_hash;
        self.last_spectrum_hash = hash;
        send
    }

    /// The gzip stream of `data`, when compression is on, `data` is at least
    /// 1 KiB and the stream saves a quarter of the size (see
    /// `compressed_preview`).
    pub fn compress_frame(&mut self, data: &[u8]) -> (r: Option<Vec<u8>>)
        requires
            data@.len() * 3 <= usize::MAX,
        ensures
            compressed_preview(old(self).spec_use_compression(), data@) == match r { Some(v) => Some(v@), None => None },
            *final(self) == *old(self),
    {
        if !self.use_compression || data.len() < 1024 {
            return None;
        }
        let compressed = gzip_compress(data);
        if compressed.len() < data.len() * 3 / 4 {
            Some(compressed)
        } else {
            None
        }
    }
}

} // verus!
