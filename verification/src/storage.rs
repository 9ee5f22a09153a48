//! What a stored file holds, told by its extension: an image, or the masks
//! drawn on one.
use crate::bytes::same_bytes;
use vstd::prelude::*;
use vstd::string::StringSliceAdditionalSpecFns;

verus! {

/// What a stored file holds; masks order before images.
#[derive(Debug, Clone, Copy, PartialEq, Eq, Structural, PartialOrd, Ord)]
pub enum Kind {
    Mask,
    Image,
}

/// The extensions of image files.
pub open spec fn is_image_extension(ext: Seq<u8>) -> bool {
    ||| ext == "jpeg".spec_bytes()
    ||| ext == "jpg".spec_bytes()
    ||| ext == "png".spec_bytes()
    ||| ext == "tiff".spec_bytes()
    ||| ext == "tif".spec_bytes()
}

/// The extension of mask files.
pub open spec fn is_mask_extension(ext: Seq<u8>) -> bool {
    ext == "masks".spec_bytes()
}

impl Kind {
    /// The kind of a file with extension `s`; any other extension is refused.
    pub fn from_str(s: &str) -> (r: Result<Kind, ()>)
        ensures
            r == Ok::<Kind, ()>(Kind::Image) <==> is_image_extension(s.spec_bytes()),
            r == Ok::<Kind, ()>(Kind::Mask) <==> is_mask_extension(s.spec_bytes()),
            r is Err <==> !is_image_extension(s.spec_bytes()) && !is_mask_extension(s.spec_bytes()),
    {
        proof {
            broadcast use vstd::string::is_ascii_spec_bytes;
            reveal_strlit("jpeg");
            reveal_strlit("jpg");
            reveal_strlit("masks");
            reveal_strlit("png");
            reveal_strlit("tiff");
            reveal_strlit("tif");
            assert(vstd::string::is_ascii("jpeg"));
            assert(vstd::string::is_ascii("jpg"));
            assert(vstd::string::is_ascii("masks"));
            assert(vstd::string::is_ascii("png"));
            assert(vstd::string::is_ascii("tiff"));
            assert(vstd::string::is_ascii("tif"));
            assert("masks".spec_bytes().len() == 5);
            assert("jpeg".spec_bytes().len() == 4);
            assert("tiff".spec_bytes().len() == 4);
            assert("jpg".spec_bytes().len() == 3);
            assert("png".spec_bytes().len() == 3);
            assert("tif".spec_bytes().len() == 3);
        }
        let b = s.as_bytes();
        if same_bytes(b, "jpeg".as_bytes()) {
            Ok(Kind::Image)
        } else if same_bytes(b, "jpg".as_bytes()) {
            Ok(Kind::Image)
        } else if same_bytes(b, "masks".as_bytes()) {
            Ok(Kind::Mask)
        } else if same_bytes(b, "png".as_bytes()) {
            Ok(Kind::Image)
        } else if same_bytes(b, "tiff".as_bytes()) {
            Ok(Kind::Image)
        } else if same_bytes(b, "tif".as_bytes()) {
            Ok(Kind::Image)
        } else {
            Err(())
        }
    }
}

/// `c` in upper case where it is an ASCII lower-case letter, else `c`.
pub open spec fn ascii_upper(c: char) -> char {
    if 'a' <= c <= 'z' {
        ((c as int) - 32) as char
    } else {
        c
    }
}

/// The name shown for an image: its identifier with the first character in
/// upper case where that is an ASCII lower-case letter.
pub open spec fn shown_name(id: Seq<char>) -> Seq<char> {
    if id.len() == 0 {
        id
    } else {
        id.update(0, ascii_upper(id[0]))
    }
}

/// The name shown in the image list for the image `id`.
pub fn display_name(id: &str) -> (name: Vec<char>)
    ensures
        name@ == shown_name(id@),
{
    let mut name: Vec<char> = Vec::new();
    for c in it: id.chars()
        invariant
            it.seq() == id@,
            name@.len() == it.index(),
            forall|k: int| 0 < k < it.index() ==> name@[k] == id@[k],
            it.index() > 0 ==> name@[0] == ascii_upper(id@[0]),
    {
        if name.len() == 0 && 'a' <= c && c <= 'z' {
            let upper: u8 = (c as u8) - 32;
            name.push(upper as char);
        } else {
            name.push(c);
        }
    }
    proof {
        assert(name@ =~= shown_name(id@));
    }
    name
}

} // verus!
