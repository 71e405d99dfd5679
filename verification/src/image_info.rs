use vstd::prelude::*;

verus! {

/// One image's identity and fingerprint at a point in time.
///
/// `hash` is only meaningful for the resize configuration (width, height)
/// it was computed under: `hash` holds `width * height` significant bits,
/// and records produced under different configurations must not be compared.
#[derive(Debug, Eq, Hash, Ord, PartialEq, PartialOrd)]
pub struct ImageInfo {
    pub path: String,
    pub modified: u64,
    pub file_size: u64,
    pub hash: u64,
}

/// The mathematical value of an `ImageInfo`: the path as a character
/// sequence together with the three numeric fields.
pub struct ImageInfoV {
    pub path: Seq<char>,
    pub modified: u64,
    pub file_size: u64,
    pub hash: u64,
}

impl View for ImageInfo {
    type V = ImageInfoV;

    open spec fn view(&self) -> ImageInfoV {
        ImageInfoV {
            path: self.path@,
            modified: self.modified,
            file_size: self.file_size,
            hash: self.hash,
        }
    }
}

impl Clone for ImageInfo {
    fn clone(&self) -> (res: Self)
        ensures
            res@ == self@,
    {
        ImageInfo {
            path: self.path.clone(),
            modified: self.modified,
            file_size: self.file_size,
            hash: self.hash,
        }
    }
}

} // verus!
