//! The `OSMHeader` block: feature lists, bounding box and writing program.
use vstd::prelude::*;
use vstd::utf8::encode_utf8;
use crate::write::bbox::Bbox;
use crate::write::blob::{create_blob, framed, BlobError};
use crate::write::encode::embedded;
use crate::write::wire::{bytes_field, sint_field, put_bytes_field, put_sint_field};

verus! {

/// The `HeaderBBox` message: `left` (1), `right` (2), `top` (3), `bottom` (4).
pub open spec fn bbox_message(b: Bbox) -> Seq<u8> {
    sint_field(1, b.left) + sint_field(2, b.right) + sint_field(3, b.top) + sint_field(
        4,
        b.bottom,
    )
}

/// The UTF-8 bytes of each string.
pub open spec fn utf8_all(ss: Seq<String>) -> Seq<Seq<u8>> {
    ss.map_values(|s: String| encode_utf8(s@))
}

/// The contents of a file's header block.
#[derive(Debug)]
pub struct HeaderBlock {
    /// Features a reader must understand to read the file.
    pub required_features: Vec<String>,
    /// Features a reader may make use of.
    pub optional_features: Vec<String>,
    /// The area the file covers, in nanodegrees.
    pub bbox: Option<Bbox>,
    /// The program that wrote the file.
    pub writing_program: Option<String>,
}

impl Default for HeaderBlock {
    /// No features, no bounding box, no writing program.
    fn default() -> (r: Self)
        ensures
            r.required_features@.len() == 0,
            r.optional_features@.len() == 0,
            r.bbox is None,
            r.writing_program is None,
    {
        HeaderBlock {
            required_features: Vec::new(),
            optional_features: Vec::new(),
            bbox: None,
            writing_program: None,
        }
    }
}

impl HeaderBlock {
    /// Replaces the required features.
    pub fn set_required_features(&mut self, features: Vec<String>)
        ensures
            final(self).required_features@ == features@,
            final(self).optional_features == old(self).optional_features,
            final(self).bbox == old(self).bbox,
            final(self).writing_program == old(self).writing_program,
    {
        self.required_features = features;
    }

    /// Replaces the optional features.
    pub fn set_optional_features(&mut self, features: Vec<String>)
        ensures
            final(self).optional_features@ == features@,
            final(self).required_features == old(self).required_features,
            final(self).bbox == old(self).bbox,
            final(self).writing_program == old(self).writing_program,
    {
        self.optional_features = features;
    }

    /// Replaces the bounding box.
    pub fn set_bbox(&mut self, bbox: Option<Bbox>)
        ensures
            final(self).bbox == bbox,
            final(self).required_features == old(self).required_features,
            final(self).optional_features == old(self).optional_features,
            final(self).writing_program == old(self).writing_program,
    {
        self.bbox = bbox;
    }

    /// Replaces the name of the writing program.
    pub fn set_writing_program(&mut self, program: Option<String>)
        ensures
            final(self).writing_program == program,
            final(self).required_features == old(self).required_features,
            final(self).optional_features == old(self).optional_features,
            final(self).bbox == old(self).bbox,
    {
        self.writing_program = program;
    }

    /// The `HeaderBlock` message: the bounding box (1) when set, each
    /// required feature (4), each optional feature (5), and the writing
    /// program (16) when set.
    pub open spec fn header_message(&self) -> Seq<u8> {
        (match self.bbox {
            Some(b) => bytes_field(1, bbox_message(b)),
            None => Seq::empty(),
        }) + embedded(4, utf8_all(self.required_features@)) + embedded(
            5,
            utf8_all(self.optional_features@),
        ) + (match self.writing_program {
            Some(p) => bytes_field(16, encode_utf8(p@)),
            None => Seq::empty(),
        })
    }

    /// Frames the header as an uncompressed `OSMHeader` blob.
    pub fn finalize(self) -> (r: Result<Vec<u8>, BlobError>)
        ensures
            framed(encode_utf8("OSMHeader"@), self.header_message(), r),
    {
        let mut raw: Vec<u8> = Vec::new();
        if let Some(b) = self.bbox {
            let mut m: Vec<u8> = Vec::new();
            put_sint_field(&mut m, 1, b.left);
            put_sint_field(&mut m, 2, b.right);
            put_sint_field(&mut m, 3, b.top);
            put_sint_field(&mut m, 4, b.bottom);
            assert(m@ =~= bbox_message(b));
            put_bytes_field(&mut raw, 1, m.as_slice());
        }
        put_features(&mut raw, 4, &self.required_features);
        put_features(&mut raw, 5, &self.optional_features);
        if let Some(p) = &self.writing_program {
            put_bytes_field(&mut raw, 16, p.as_str().as_bytes());
        }
        assert(raw@ =~= self.header_message());
        create_blob(raw.as_slice(), "OSMHeader")
    }
}

/// Appends each string of `features` in field `field`.
fn put_features(out: &mut Vec<u8>, field: u64, features: &Vec<String>)
    requires
        field < 0x1000_0000,
    ensures
        final(out)@ == old(out)@ + embedded(field, utf8_all(features@)),
{
    let ghost start = out@;
    let ghost all = utf8_all(features@);
    let mut i: usize = 0;
    while i < features.len()
        invariant
            0 <= i <= features@.len(),
            field < 0x1000_0000,
            all == utf8_all(features@),
            out@ == start + embedded(field, all.take(i as int)),
        decreases features@.len() - i,
    {
        put_bytes_field(out, field, features[i].as_str().as_bytes());
        i = i + 1;
        assert(all.take(i as int).drop_last() =~= all.take(i - 1));
        assert(out@ =~= start + embedded(field, all.take(i as int)));
    }
    assert(all.take(i as int) =~= all);
}

} // verus!
