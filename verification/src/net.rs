//! Handlers for fetched resources.
use vstd::prelude::*;

verus! {

/// What a fetched image is for.
#[derive(Debug, Copy, Clone, PartialEq, Eq, Structural)]
pub enum ImageType {
    /// The image of an `<img>` element.
    Image,
    /// The background image at the given index of an element's backgrounds.
    Background(usize),
}

/// The handler of a fetched image: remembers what the image is for.
pub struct ImageHandler {
    pub kind: ImageType,
}

impl ImageHandler {
    /// A handler for an image used as `kind`.
    pub fn new(kind: ImageType) -> (r: Self)
        ensures
            r.kind == kind,
    {
        ImageHandler { kind }
    }
}

} // verus!
