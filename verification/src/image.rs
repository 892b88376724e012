//! The byte image of records, and what decoding makes of it.

use crate::ntfs::{
    decode_from, record_at, spec_header, spec_name_units, spec_record, spec_record_type,
    spec_u16_le, spec_u32_le, spec_u64_le, utf16_lossy_text, UsnRecordView, HEADER_SIZE,
    TOKEN_SIZE,
};
use vstd::prelude::*;

verus! {

/// The two bytes of a 16-bit number, low byte first.
pub open spec fn le16(value: int) -> Seq<u8> {
    seq![(value % 256) as u8, (value / 256 % 256) as u8]
}

/// The four bytes of a 32-bit number, low byte first.
pub open spec fn le32(value: int) -> Seq<u8> {
    le16(value % 65536) + le16(value / 65536)
}

/// The eight bytes of a 64-bit number, low byte first.
pub open spec fn le64(value: int) -> Seq<u8> {
    le32(value % 4294967296) + le32(value / 4294967296)
}

/// The bytes of a name, two for each 16-bit unit, low byte first.
pub open spec fn name_bytes(name: Seq<u16>) -> Seq<u8> {
    Seq::new(
        2 * name.len(),
        |i: int|
            if i % 2 == 0 {
                (name[i / 2] % 256) as u8
            } else {
                (name[i / 2] / 256) as u8
            },
    )
}

/// What a volume writes for one entry: the fields that decoding reads, the
/// 28 bytes between the parent's reference number and the attribute flags
/// (update sequence number, time stamp, reason, source and security
/// identifier), and the bytes that pad the record behind the name.
pub struct RecordImage {
    pub id: u64,
    pub parent_id: u64,
    pub attributes: u32,
    pub name: Seq<u16>,
    pub major_version: u16,
    pub minor_version: u16,
    pub journal_fields: Seq<u8>,
    pub padding: Seq<u8>,
}

impl RecordImage {
    /// The record's length in bytes.
    pub open spec fn len(&self) -> int {
        HEADER_SIZE + 2 * self.name.len() + self.padding.len()
    }

    /// The lengths fit the fields that hold them.
    pub open spec fn fits(&self) -> bool {
        &&& self.journal_fields.len() == 28
        &&& 2 * self.name.len() <= u16::MAX
        &&& self.len() <= u32::MAX
    }

    /// The fixed part of the record: 60 bytes.
    #[verifier::opaque]
    pub open spec fn header_bytes(&self) -> Seq<u8> {
        le32(self.len()) + le16(self.major_version as int) + le16(self.minor_version as int)
            + le64(self.id as int) + le64(self.parent_id as int) + self.journal_fields + le32(
            self.attributes as int,
        ) + le16(2 * self.name.len() as int) + le16(HEADER_SIZE as int)
    }

    /// The record's bytes, with the name right behind the fixed part.
    #[verifier::opaque]
    pub open spec fn bytes(&self) -> Seq<u8> {
        self.header_bytes() + name_bytes(self.name) + self.padding
    }

    /// The record that the image stands for.
    pub open spec fn record(&self) -> UsnRecordView {
        UsnRecordView {
            id: self.id,
            parent_id: self.parent_id,
            record_type: spec_record_type(self.attributes),
            filename: utf16_lossy_text(self.name),
        }
    }
}

/// The bytes of a run of records, one behind the other.
pub open spec fn images_bytes(images: Seq<RecordImage>) -> Seq<u8>
    decreases images.len(),
{
    if images.len() == 0 {
        Seq::empty()
    } else {
        images[0].bytes() + images_bytes(images.skip(1))
    }
}

/// The records that a run of images stands for.
pub open spec fn images_records(images: Seq<RecordImage>) -> Seq<UsnRecordView> {
    images.map_values(|image: RecordImage| image.record())
}

proof fn lemma_le16(bytes: Seq<u8>, at: int, value: int)
    requires
        0 <= at,
        at + 2 <= bytes.len(),
        0 <= value <= u16::MAX,
        bytes.subrange(at, at + 2) == le16(value),
    ensures
        spec_u16_le(bytes, at) == value,
{
    assert(bytes[at] == bytes.subrange(at, at + 2)[0]);
    assert(bytes[at + 1] == bytes.subrange(at, at + 2)[1]);
}

proof fn lemma_le32(bytes: Seq<u8>, at: int, value: int)
    requires
        0 <= at,
        at + 4 <= bytes.len(),
        0 <= value <= u32::MAX,
        bytes.subrange(at, at + 4) == le32(value),
    ensures
        spec_u32_le(bytes, at) == value,
{
    let part = bytes.subrange(at, at + 4);
    assert(bytes.subrange(at, at + 2) =~= part.subrange(0, 2));
    assert(bytes.subrange(at + 2, at + 4) =~= part.subrange(2, 4));
    assert(part.subrange(0, 2) =~= le16(value % 65536));
    assert(part.subrange(2, 4) =~= le16(value / 65536));
    lemma_le16(bytes, at, value % 65536);
    lemma_le16(bytes, at + 2, value / 65536);
}

proof fn lemma_le64(bytes: Seq<u8>, at: int, value: int)
    requires
        0 <= at,
        at + 8 <= bytes.len(),
        0 <= value <= u64::MAX,
        bytes.subrange(at, at + 8) == le64(value),
    ensures
        spec_u64_le(bytes, at) == value,
{
    let part = bytes.subrange(at, at + 8);
    assert(bytes.subrange(at, at + 4) =~= part.subrange(0, 4));
    assert(bytes.subrange(at + 4, at + 8) =~= part.subrange(4, 8));
    assert(part.subrange(0, 4) =~= le32(value % 4294967296));
    assert(part.subrange(4, 8) =~= le32(value / 4294967296));
    lemma_le32(bytes, at, value % 4294967296);
    lemma_le32(bytes, at + 4, value / 4294967296);
}

proof fn lemma_header_bytes(image: RecordImage)
    requires
        image.fits(),
    ensures
        ({
            let h = image.header_bytes();
            &&& h.len() == HEADER_SIZE
            &&& spec_u32_le(h, 0) == image.len()
            &&& spec_u64_le(h, 8) == image.id
            &&& spec_u64_le(h, 16) == image.parent_id
            &&& spec_u32_le(h, 52) == image.attributes
            &&& spec_u16_le(h, 56) == 2 * image.name.len()
            &&& spec_u16_le(h, 58) == HEADER_SIZE
        }),
{
    reveal(RecordImage::header_bytes);
    let h = image.header_bytes();
    assert(h.len() == 60);
    assert(h.subrange(0, 4) =~= le32(image.len()));
    assert(h.subrange(8, 16) =~= le64(image.id as int));
    assert(h.subrange(16, 24) =~= le64(image.parent_id as int));
    assert(h.subrange(52, 56) =~= le32(image.attributes as int));
    assert(h.subrange(56, 58) =~= le16(2 * image.name.len() as int));
    assert(h.subrange(58, 60) =~= le16(HEADER_SIZE as int));
    lemma_le32(h, 0, image.len());
    lemma_le64(h, 8, image.id as int);
    lemma_le64(h, 16, image.parent_id as int);
    lemma_le32(h, 52, image.attributes as int);
    lemma_le16(h, 56, 2 * image.name.len() as int);
    lemma_le16(h, 58, HEADER_SIZE as int);
}

/// Decoding reads back what an image holds: wherever the bytes of an image
/// lie within a page, a whole record lies there, as long as the image, with
/// the image's fields and name.
pub proof fn lemma_decode_image(before: Seq<u8>, image: RecordImage, after: Seq<u8>)
    requires
        image.fits(),
    ensures
        ({
            let bytes = before + image.bytes() + after;
            let at = before.len() as int;
            &&& image.bytes().len() == image.len()
            &&& record_at(bytes, at)
            &&& spec_header(bytes, at).RecordLength == image.len()
            &&& spec_header(bytes, at).FileReferenceNumber == image.id
            &&& spec_header(bytes, at).ParentFileReferenceNumber == image.parent_id
            &&& spec_header(bytes, at).FileAttributes == image.attributes
            &&& spec_name_units(bytes, at) == image.name
            &&& spec_record(bytes, at) == image.record()
        }),
{
    let bytes = before + image.bytes() + after;
    let at = before.len() as int;
    let h = image.header_bytes();
    let names = name_bytes(image.name);
    lemma_header_bytes(image);
    assert(image.bytes() == h + names + image.padding) by {
        reveal(RecordImage::bytes);
    }
    assert(image.bytes().len() == image.len());
    assert forall|k: int| 0 <= k < 60 implies #[trigger] bytes[at + k] == h[k] by {}
    assert forall|k: int| 0 <= k < names.len() implies #[trigger] bytes[at + 60 + k]
        == names[k] by {}
    assert(spec_u32_le(bytes, at + 0) == spec_u32_le(h, 0)) by {
        assert(bytes[at + 0] == h[0] && bytes[at + 1] == h[1] && bytes[at + 2] == h[2] && bytes[at
            + 3] == h[3]);
    }
    assert(spec_u64_le(bytes, at + 8) == spec_u64_le(h, 8)) by {
        assert(bytes[at + 8] == h[8] && bytes[at + 9] == h[9] && bytes[at + 10] == h[10]
            && bytes[at + 11] == h[11]);
        assert(bytes[at + 12] == h[12] && bytes[at + 13] == h[13] && bytes[at + 14] == h[14]
            && bytes[at + 15] == h[15]);
    }
    assert(spec_u64_le(bytes, at + 16) == spec_u64_le(h, 16)) by {
        assert(bytes[at + 16] == h[16] && bytes[at + 17] == h[17] && bytes[at + 18] == h[18]
            && bytes[at + 19] == h[19]);
        assert(bytes[at + 20] == h[20] && bytes[at + 21] == h[21] && bytes[at + 22] == h[22]
            && bytes[at + 23] == h[23]);
    }
    assert(spec_u32_le(bytes, at + 52) == spec_u32_le(h, 52)) by {
        assert(bytes[at + 52] == h[52] && bytes[at + 53] == h[53] && bytes[at + 54] == h[54]
            && bytes[at + 55] == h[55]);
    }
    assert(spec_u16_le(bytes, at + 56) == spec_u16_le(h, 56)) by {
        assert(bytes[at + 56] == h[56] && bytes[at + 57] == h[57]);
    }
    assert(spec_u16_le(bytes, at + 58) == spec_u16_le(h, 58)) by {
        assert(bytes[at + 58] == h[58] && bytes[at + 59] == h[59]);
    }
    let header = spec_header(bytes, at);
    assert(header.RecordLength == image.len());
    assert(header.FileNameLength == 2 * image.name.len());
    assert(header.FileNameOffset == 60);
    assert(spec_name_units(bytes, at).len() == image.name.len());
    assert forall|i: int| 0 <= i < image.name.len() implies spec_name_units(bytes, at)[i]
        == image.name[i] by {
        assert(bytes[at + 60 + 2 * i] == names[2 * i]);
        assert(bytes[at + 60 + (2 * i + 1)] == names[2 * i + 1]);
    }
    assert(spec_name_units(bytes, at) =~= image.name);
}

/// Decoding a run of images gives exactly their records, in order, whatever
/// stands before the run.
pub proof fn lemma_decode_images(before: Seq<u8>, images: Seq<RecordImage>)
    requires
        forall|i: int| 0 <= i < images.len() ==> (#[trigger] images[i]).fits(),
    ensures
        decode_from(before + images_bytes(images), before.len() as int) == images_records(images),
    decreases images.len(),
{
    let bytes = before + images_bytes(images);
    let at = before.len() as int;
    if images.len() == 0 {
        assert(!record_at(bytes, at));
        assert(images_records(images) =~= Seq::empty());
    } else {
        let first = images[0];
        let rest = images.skip(1);
        let later = before + first.bytes();
        lemma_decode_image(before, first, images_bytes(rest));
        assert(bytes =~= before + first.bytes() + images_bytes(rest));
        assert(bytes =~= later + images_bytes(rest));
        assert forall|i: int| 0 <= i < rest.len() implies (#[trigger] rest[i]).fits() by {
            assert(rest[i] == images[i + 1]);
        }
        lemma_decode_images(later, rest);
        assert(later.len() == at + spec_header(bytes, at).RecordLength);
        assert(decode_from(bytes, at) == seq![spec_record(bytes, at)] + decode_from(
            bytes,
            later.len() as int,
        ));
        assert(images_records(images) =~= seq![first.record()] + images_records(rest));
    }
}

/// The page that a volume returns for a run of images: a continuation
/// token, then the images.
pub open spec fn page_of(token: Seq<u8>, images: Seq<RecordImage>) -> Seq<u8> {
    token + images_bytes(images)
}

/// The pages that a volume returns when it cuts its images into `windows`
/// and opens the page of each window with the token of the same number.
pub open spec fn pages_of(tokens: Seq<Seq<u8>>, windows: Seq<Seq<RecordImage>>) -> Seq<Seq<u8>> {
    Seq::new(windows.len(), |w: int| page_of(tokens[w], windows[w]))
}

/// The images of all windows, in order.
pub open spec fn all_images(windows: Seq<Seq<RecordImage>>) -> Seq<RecordImage>
    decreases windows.len(),
{
    if windows.len() == 0 {
        Seq::empty()
    } else {
        all_images(windows.drop_last()) + windows.last()
    }
}

/// The records of a run of pages, each page decoded from behind its
/// continuation token.
pub open spec fn decode_pages(pages: Seq<Seq<u8>>) -> Seq<UsnRecordView>
    decreases pages.len(),
{
    if pages.len() == 0 {
        Seq::empty()
    } else {
        decode_pages(pages.drop_last()) + decode_from(pages.last(), TOKEN_SIZE as int)
    }
}

/// Decoding does not depend on how the records are cut into pages: however
/// a volume cuts its images into windows, and whatever tokens open the
/// pages, the pages decode to the records of all images, in order.
pub proof fn lemma_decode_windowed(tokens: Seq<Seq<u8>>, windows: Seq<Seq<RecordImage>>)
    requires
        tokens.len() == windows.len(),
        forall|w: int| 0 <= w < tokens.len() ==> (#[trigger] tokens[w]).len() == TOKEN_SIZE,
        forall|w: int, i: int|
            0 <= w < windows.len() && 0 <= i < windows[w].len() ==> (
            #[trigger] windows[w][i]).fits(),
    ensures
        decode_pages(pages_of(tokens, windows)) == images_records(all_images(windows)),
    decreases windows.len(),
{
    let pages = pages_of(tokens, windows);
    if windows.len() == 0 {
        assert(images_records(all_images(windows)) =~= Seq::empty());
    } else {
        let last = windows.len() - 1;
        let earlier = windows.drop_last();
        assert forall|w: int, i: int|
            0 <= w < earlier.len() && 0 <= i < earlier[w].len() implies (
        #[trigger] earlier[w][i]).fits() by {
            assert(earlier[w][i] == windows[w][i]);
        }
        lemma_decode_windowed(tokens.drop_last(), earlier);
        assert(pages.drop_last() =~= pages_of(tokens.drop_last(), earlier));
        assert forall|i: int| 0 <= i < windows[last].len() implies (
        #[trigger] windows[last][i]).fits() by {
            assert(windows[last][i].fits());
        }
        lemma_decode_images(tokens[last], windows[last]);
        assert(pages.last() == page_of(tokens[last], windows[last]));
        assert(images_records(all_images(windows)) =~= images_records(all_images(earlier))
            + images_records(windows[last]));
    }
}

} // verus!
