//! Which cursor image to show: tools ask for one each frame, and a change is
//! handed on only when it differs from the one shown.
use crate::bytes::same_bytes;
use vstd::prelude::*;
use vstd::string::StringSliceAdditionalSpecFns;

verus! {

/// A cursor image: base64 PNG bytes and the hot spot.
#[derive(Debug, Clone, Copy, PartialEq, Eq, Hash)]
pub struct CursorImage {
    pub bytes: &'static str,
    pub offset_x: u8,
    pub offset_y: u8,
}

/// Two cursor images are the same image with the same hot spot.
pub open spec fn same_cursor(a: CursorImage, b: CursorImage) -> bool {
    a.bytes.spec_bytes() == b.bytes.spec_bytes() && a.offset_x == b.offset_x && a.offset_y == b.offset_y
}

/// Both are absent, or both present and the same.
pub open spec fn same_option(a: Option<CursorImage>, b: Option<CursorImage>) -> bool {
    match (a, b) {
        (None, None) => true,
        (Some(x), Some(y)) => same_cursor(x, y),
        _ => false,
    }
}

fn same_option_exec(a: &Option<CursorImage>, b: &Option<CursorImage>) -> (r: bool)
    ensures
        r == same_option(*a, *b),
{
    match (a, b) {
        (None, None) => true,
        (Some(x), Some(y)) => {
            x.offset_x == y.offset_x && x.offset_y == y.offset_y && same_bytes(x.bytes.as_bytes(), y.bytes.as_bytes())
        },
        _ => false,
    }
}

/// The cursor image asked for in this frame and the one last handed on.
pub struct CursorImageSystem {
    current: Option<CursorImage>,
    published: Option<CursorImage>,
}

impl CursorImageSystem {
    pub closed spec fn current_spec(&self) -> Option<CursorImage> {
        self.current
    }

    pub closed spec fn published_spec(&self) -> Option<CursorImage> {
        self.published
    }

    /// No cursor image asked for or shown.
    pub fn new() -> (s: Self)
        ensures
            s.current_spec() is None,
            s.published_spec() is None,
    {
        Self { current: None, published: None }
    }

    /// Asks for `current` in this frame.
    pub fn set(&mut self, current: CursorImage)
        ensures
            final(self).current_spec() == Some(current),
            final(self).published_spec() == old(self).published_spec(),
    {
        self.current = Some(current);
    }

    /// Ends a frame. The cursor image wanted is the one asked for while the
    /// cursor is over the image, else none; the request is used up only over
    /// the image. Returns `Some(wanted)` when it differs from the one shown,
    /// which then becomes the one shown; the caller shows it.
    pub fn apply(&mut self, cursor_in_image: bool) -> (publish: Option<Option<CursorImage>>)
        ensures
            final(self).current_spec() == if cursor_in_image { None } else { old(self).current_spec() },
            ({
                let wanted = if cursor_in_image { old(self).current_spec() } else { None };
                if same_option(wanted, old(self).published_spec()) {
                    publish is None && final(self).published_spec() == old(self).published_spec()
                } else {
                    publish == Some(wanted) && final(self).published_spec() == wanted
                }
            }),
    {
        let current = if cursor_in_image {
            self.current.take()
        } else {
            None
        };
        if !same_option_exec(&current, &self.published) {
            self.published = current;
            Some(current)
        } else {
            None
        }
    }
}

} // verus!
