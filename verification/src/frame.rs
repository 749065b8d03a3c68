//! The frame slot and the decoder boundary.
//!
//! [`FrameSlot`] is the single-slot, overwrite-always holder of the most
//! recently decoded frame.  Its model is the byte span the current frame was
//! decoded from (`None` while empty); the slot never holds a frame whose
//! bytes the decoder rejected, so no corrupt or torn frame is ever
//! observable.

use vstd::prelude::*;

verus! {

/// `image::DynamicImage`, declared so decoded frames can stand in fields
/// and signatures.  Its values are opaque to the proofs.
#[verifier::external_type_specification]
#[verifier::external_body]
pub struct ExDynamicImage(image::DynamicImage);

/// Whether the built-in JPEG decoder accepts a byte span as an image.  The
/// outcome depends on the bytes alone.
pub uninterp spec fn jpeg_decodes(b: Seq<u8>) -> bool;

/// Relies on `image::load_from_memory_with_format` with the built-in JPEG
/// format: that path never consults the crate's runtime hook registries, so
/// decoding yields a bitmap or fails on malformed input as a function of the
/// bytes alone.
#[verifier::external_body]
fn decode_frame(b: &Vec<u8>) -> (r: Option<image::DynamicImage>)
    ensures
        r is Some <==> jpeg_decodes(b@),
{
    image::load_from_memory_with_format(b, image::ImageFormat::Jpeg).ok()
}

/// Relies on `image::DynamicImage::clone`: the copy equals the original
/// (the impl reproduces the variant and its pixel buffer).
#[verifier::external_body]
fn clone_image(img: &image::DynamicImage) -> (r: image::DynamicImage)
    ensures
        r == *img,
{
    img.clone()
}

/// The slot's content after a run of completed spans is offered to it: the
/// last span the decoder accepts replaces the content; rejected spans and
/// superseded frames are dropped silently.
pub open spec fn publish_spec(slot: Option<Seq<u8>>, spans: Seq<Seq<u8>>) -> Option<Seq<u8>>
    decreases spans.len(),
{
    if spans.len() == 0 {
        slot
    } else if jpeg_decodes(spans.last()) {
        Some(spans.last())
    } else {
        publish_spec(slot, spans.drop_last())
    }
}

/// Single-slot, overwrite-always holder of the most recently decoded frame.
pub struct FrameSlot {
    img: Option<image::DynamicImage>,
    src: Ghost<Option<Seq<u8>>>,
}

impl View for FrameSlot {
    type V = Option<Seq<u8>>;

    /// The byte span the current frame was decoded from, if any.
    closed spec fn view(&self) -> Option<Seq<u8>> {
        self.src@
    }
}

impl FrameSlot {
    /// The bitmap the slot holds right now, if any: what a read hands out.
    pub closed spec fn shown(&self) -> Option<image::DynamicImage> {
        self.img
    }

    /// The slot holds a frame exactly when it holds that frame's source
    /// bytes, and only bytes the decoder accepted.
    pub closed spec fn wf(&self) -> bool {
        &&& self.img is Some <==> self.src@ is Some
        &&& (self.src@ matches Some(b) ==> jpeg_decodes(b))
    }

    /// Whatever the slot shows was successfully decoded: an ill-formed span
    /// can never become the visible frame.
    pub proof fn lemma_visible_frame_decodes(&self)
        requires
            self.wf(),
        ensures
            self@ matches Some(b) ==> jpeg_decodes(b),
    {
    }

    /// The slot shows a bitmap exactly when it holds a frame's bytes.
    pub proof fn lemma_shown_iff_held(&self)
        requires
            self.wf(),
        ensures
            self.shown() is Some <==> self@ is Some,
    {
    }

    /// An empty slot.
    pub fn new() -> (s: Self)
        ensures
            s@ is None,
            s.shown() is None,
            s.wf(),
    {
        FrameSlot { img: None, src: Ghost(None) }
    }

    /// Offer one completed span: if it decodes it becomes the latest frame,
    /// replacing (never queuing behind) the previous one; if not, the slot
    /// is untouched and the span is dropped silently.
    pub fn publish(&mut self, span: &Vec<u8>) -> (ok: bool)
        requires
            old(self).wf(),
        ensures
            final(self).wf(),
            ok == jpeg_decodes(span@),
            final(self)@ == if jpeg_decodes(span@) {
                Some(span@)
            } else {
                old(self)@
            },
            !jpeg_decodes(span@) ==> final(self).shown() == old(self).shown(),
    {
        match decode_frame(span) {
            Some(img) => {
                self.img = Some(img);
                self.src = Ghost(Some(span@));
                true
            },
            None => false,
        }
    }

    /// Offer a run of completed spans in order.  While paused nothing is
    /// published and the spans are discarded; otherwise the last decodable
    /// span becomes the latest frame.
    pub fn publish_all(&mut self, spans: &Vec<Vec<u8>>, paused: bool)
        requires
            old(self).wf(),
        ensures
            final(self).wf(),
            final(self)@ == if paused {
                old(self)@
            } else {
                publish_spec(old(self)@, spans@.map_values(|v: Vec<u8>| v@))
            },
            paused ==> final(self).shown() == old(self).shown(),
            (forall|i: int| 0 <= i < spans@.len() ==> !jpeg_decodes(#[trigger] spans@[i]@))
                ==> final(self).shown() == old(self).shown(),
    {
        if paused {
            return ;
        }
        let ghost all = spans@.map_values(|v: Vec<u8>| v@);
        let mut i: usize = 0;
        proof {
            assert(all.subrange(0, 0) =~= Seq::<Seq<u8>>::empty());
        }
        while i < spans.len()
            invariant
                0 <= i <= spans@.len(),
                all == spans@.map_values(|v: Vec<u8>| v@),
                self.wf(),
                self@ == publish_spec(old(self)@, all.subrange(0, i as int)),
                (forall|j: int| 0 <= j < i ==> !jpeg_decodes(#[trigger] all[j])) ==> self.shown()
                    == old(self).shown(),
            decreases spans@.len() - i,
        {
            self.publish(&spans[i]);
            i += 1;
            proof {
                assert(all.subrange(0, i as int).drop_last() =~= all.subrange(0, i - 1));
                assert(all.subrange(0, i as int).last() == all[i - 1]);
            }
        }
        proof {
            assert(all.subrange(0, all.len() as int) =~= all);
        }
    }

    /// The latest decoded frame, cloned out, or nothing: exactly a copy of
    /// what the slot holds.  Reading never changes the slot and never yields
    /// a torn frame.
    pub fn latest(&self) -> (r: Option<image::DynamicImage>)
        requires
            self.wf(),
        ensures
            r == self.shown(),
            r is Some <==> self@ is Some,
    {
        match &self.img {
            Some(img) => Some(clone_image(img)),
            None => None,
        }
    }
}

} // verus!
