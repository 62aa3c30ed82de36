//! What the mock messages of a conversation epoch say: the timestamp, the
//! text and the attachment's type and size of each slot. The sender and the
//! attachment's identifiers and keys are random and drawn by the caller.

use vstd::prelude::*;
use crate::hashing::bytes_of;

verus! {

/// Timestamp, in milliseconds, of the first slot of an epoch.
pub const BASE_TS_MS: u64 = 1_730_000_000_000;

/// Milliseconds between two slots.
pub const SLOT_GAP_MS: u64 = 60_000;

/// Size in bytes of the photo attachment (about 240 KB).
pub const PHOTO_SIZE: u64 = 245_000;

/// Size in bytes of the clip attachment (about 4.6 MB).
pub const CLIP_SIZE: u64 = 4_800_000;

/// Text of a short message, before the slot number: `hey, slot `.
pub const TEXT_SHORT_HEAD: [u8; 10] = [104, 101, 121, 44, 32, 115, 108, 111, 116, 32];

/// Text of a short message, after the slot number: ` text-only message ⚡`.
pub const TEXT_SHORT_TAIL: [u8; 22] = [32, 116, 101, 120, 116, 45, 111, 110, 108, 121, 32, 109, 101, 115, 115, 97, 103, 101, 32, 226, 154, 161];

/// Text of a long message, before the slot number: `slot `.
pub const TEXT_LONG_HEAD: [u8; 5] = [115, 108, 111, 116, 32];

/// Text of a long message, after the slot number.
pub const TEXT_LONG_TAIL: [u8; 109] = [58, 32, 106, 117, 115, 116, 32, 97, 32, 108, 111, 110, 103, 101, 114, 32, 116, 104, 111, 117, 103, 104, 116, 45, 115, 116, 114, 101, 97, 109, 32, 109, 101, 115, 115, 97, 103, 101, 32, 116, 104, 97, 116, 32, 116, 97, 107, 101, 115, 32, 117, 112, 32, 115, 111, 109, 101, 32, 114, 101, 97, 108, 32, 98, 121, 116, 101, 115, 32, 115, 111, 32, 119, 101, 39, 114, 101, 32, 110, 111, 116, 32, 98, 101, 110, 99, 104, 105, 110, 103, 32, 116, 105, 110, 121, 32, 112, 97, 121, 108, 111, 97, 100, 115, 32, 111, 110, 108, 121];

/// Caption of a clip, before the slot number: `check this out — slot `.
pub const TEXT_CAPTION_HEAD: [u8; 24] = [99, 104, 101, 99, 107, 32, 116, 104, 105, 115, 32, 111, 117, 116, 32, 226, 128, 148, 32, 115, 108, 111, 116, 32];

/// MIME type of a photo: `image/jpeg`.
pub const MIME_JPEG: [u8; 10] = [105, 109, 97, 103, 101, 47, 106, 112, 101, 103];

/// MIME type of a clip: `video/mp4`.
pub const MIME_MP4: [u8; 9] = [118, 105, 100, 101, 111, 47, 109, 112, 52];

/// The ASCII decimal digits of `n`, most significant first.
pub open spec fn decimal(n: nat) -> Seq<u8>
    decreases n,
{
    if n < 10 {
        seq![(48 + n) as u8]
    } else {
        decimal(n / 10).push((48 + n % 10) as u8)
    }
}

/// The text of a slot's message, as UTF-8 bytes: slots cycle through a
/// short text, a photo with no text, a long text and a captioned clip.
pub open spec fn text_of(slot: nat) -> Option<Seq<u8>> {
    if slot % 4 == 0 {
        Some(TEXT_SHORT_HEAD@ + decimal(slot) + TEXT_SHORT_TAIL@)
    } else if slot % 4 == 1 {
        None
    } else if slot % 4 == 2 {
        Some(TEXT_LONG_HEAD@ + decimal(slot) + TEXT_LONG_TAIL@)
    } else {
        Some(TEXT_CAPTION_HEAD@ + decimal(slot))
    }
}

/// The MIME type and size of a slot's attachment, if it has one.
pub open spec fn attachment_of(slot: nat) -> Option<(Seq<u8>, u64)> {
    if slot % 4 == 1 {
        Some((MIME_JPEG@, PHOTO_SIZE))
    } else if slot % 4 == 3 {
        Some((MIME_MP4@, CLIP_SIZE))
    } else {
        None
    }
}

/// The type and size of an attachment.
pub struct AttachmentMeta {
    pub mime: Vec<u8>,
    pub size: u64,
}

/// What a slot's mock message says.
pub struct MockContent {
    pub ts_ms: u64,
    pub text: Option<Vec<u8>>,
    pub attachment: Option<AttachmentMeta>,
}

/// The decimal digits of `n` in ASCII.
pub fn decimal_bytes(n: usize) -> (d: Vec<u8>)
    ensures
        d@ == decimal(n as nat),
    decreases n,
{
    if n < 10 {
        vec![48u8 + n as u8]
    } else {
        let mut d = decimal_bytes(n / 10);
        d.push(48u8 + (n % 10) as u8);
        d
    }
}

/// `head`, then `middle`, then `tail`.
fn concat3(head: Vec<u8>, middle: Vec<u8>, tail: Vec<u8>) -> (v: Vec<u8>)
    ensures
        v@ == head@ + middle@ + tail@,
{
    let mut v = head;
    let mut m = middle;
    let mut t = tail;
    v.append(&mut m);
    v.append(&mut t);
    v
}

/// What the mock message of `slot` says: it is sent `slot` minutes after
/// the epoch's first timestamp, and its text and attachment follow the
/// four-slot cycle of [`text_of`] and [`attachment_of`].
pub fn mock_content(slot: usize) -> (m: MockContent)
    requires
        BASE_TS_MS + slot * SLOT_GAP_MS <= u64::MAX,
    ensures
        m.ts_ms == BASE_TS_MS + slot * SLOT_GAP_MS,
        match text_of(slot as nat) {
            Some(t) => m.text matches Some(v) && v@ == t,
            None => m.text is None,
        },
        match attachment_of(slot as nat) {
            Some((mime, size)) => m.attachment matches Some(a) && a.mime@ == mime && a.size == size,
            None => m.attachment is None,
        },
{
    let ts_ms = BASE_TS_MS + slot as u64 * SLOT_GAP_MS;
    let kind = slot % 4;
    if kind == 0 {
        let text = concat3(bytes_of(&TEXT_SHORT_HEAD), decimal_bytes(slot), bytes_of(&TEXT_SHORT_TAIL));
        MockContent { ts_ms, text: Some(text), attachment: None }
    } else if kind == 1 {
        let a = AttachmentMeta { mime: bytes_of(&MIME_JPEG), size: PHOTO_SIZE };
        MockContent { ts_ms, text: None, attachment: Some(a) }
    } else if kind == 2 {
        let text = concat3(bytes_of(&TEXT_LONG_HEAD), decimal_bytes(slot), bytes_of(&TEXT_LONG_TAIL));
        MockContent { ts_ms, text: Some(text), attachment: None }
    } else {
        let text = concat3(bytes_of(&TEXT_CAPTION_HEAD), decimal_bytes(slot), Vec::new());
        proof {
            assert(text@ =~= TEXT_CAPTION_HEAD@ + decimal(slot as nat));
        }
        let a = AttachmentMeta { mime: bytes_of(&MIME_MP4), size: CLIP_SIZE };
        MockContent { ts_ms, text: Some(text), attachment: Some(a) }
    }
}

} // verus!
