//! Values shared with the styling layer. The style serializer itself works
//! on floating-point units and lives outside the verified library; the image
//! source value below is plain data and is kept here.

use vstd::prelude::*;

verus! {

/// An image source, held as the bytes of its locator.
#[derive(Debug, Clone, PartialEq, Eq)]
pub struct ImageSrc(pub Vec<u8>);

impl ImageSrc {
    /// Serialize the source value as bytes.
    pub fn as_bytes(&self) -> (r: &[u8])
        ensures
            r@ == self.0@,
    {
        self.0.as_slice()
    }
}

} // verus!
