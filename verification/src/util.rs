//! Small helpers around the tray icon.

use vstd::prelude::*;

verus! {

/// A tray icon identified by the image file it is loaded from.  Decoding
/// the image and handing it to the tray belong to the caller; this type
/// pins down which file that is.
pub struct CustomIcon {
    file_path: String,
}

impl View for CustomIcon {
    type V = Seq<char>;

    closed spec fn view(&self) -> Seq<char> {
        self.file_path@
    }
}

impl CustomIcon {
    /// An icon backed by the image file at `file_path`.
    pub fn new(file_path: &str) -> (icon: CustomIcon)
        ensures
            icon@ == file_path@,
    {
        CustomIcon { file_path: file_path.to_owned() }
    }

    /// The path of the image file the icon is loaded from.
    pub fn path(&self) -> (r: &str)
        ensures
            r@ == self@,
    {
        self.file_path.as_str()
    }
}

} // verus!
