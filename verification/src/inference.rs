//! The segmentation model around its outside runtime: the rectangle prompt
//! that waits for the image's embeddings, the runs of pixels the model marked,
//! and the image data with its sizes before and after resizing.
use crate::pixel_range::PixelRange;
use crate::runs::{is_mask_runs, mask_runs};
use vstd::prelude::*;

verus! {

/// Why running the segmentation model failed, with the message of the cause.
#[derive(Debug, Clone)]
pub enum InferenceError {
    AllocationError(String),
    Other(String),
    UnexpectedOutput(String),
}

/// The runs of pixels that the model marked, for an image `width` pixels
/// wide: `marked` holds one entry per pixel, row by row, set where the model's
/// score is above zero. Consecutive marked pixels of a row form one run.
pub fn extract_pixel_ranges(marked: &Vec<bool>, width: u32) -> (out: Vec<PixelRange>)
    requires
        1 <= width <= 65535,
        marked@.len() <= u32::MAX,
    ensures
        is_mask_runs(out@, marked@, width as int),
{
    mask_runs(marked, width as usize)
}

/// Image data of a resized image, with the sizes before and after resizing.
#[derive(Debug)]
pub struct ResizedImageData<T> {
    pub image_data: T,
    pub original_width: u32,
    pub original_height: u32,
    pub resized_width: u32,
    pub resized_height: u32,
}

impl<T> ResizedImageData<T> {
    /// Transforms the image data and keeps the sizes.
    pub fn map<TNew, F: FnOnce(T) -> TNew>(self, x: F) -> (r: ResizedImageData<TNew>)
        requires
            x.requires((self.image_data,)),
        ensures
            x.ensures((self.image_data,), r.image_data),
            r.original_width == self.original_width,
            r.original_height == self.original_height,
            r.resized_width == self.resized_width,
            r.resized_height == self.resized_height,
    {
        ResizedImageData {
            image_data: x(self.image_data),
            original_width: self.original_width,
            original_height: self.original_height,
            resized_width: self.resized_width,
            resized_height: self.resized_height,
        }
    }
}

/// The rectangle that waits to be decoded: the one just finished, or else the
/// one that waited before.
pub open spec fn waiting_after(waiting: Option<[[usize; 2]; 2]>, finished: Option<[[usize; 2]; 2]>) -> Option<
    [[usize; 2]; 2],
> {
    if finished is Some {
        finished
    } else {
        waiting
    }
}

/// A rectangle prompt for the segmentation model that waits until the
/// embeddings of the image have been computed.
#[derive(Debug, Clone, Copy, PartialEq, Eq)]
pub struct PendingPrompt {
    pub waiting: Option<[[usize; 2]; 2]>,
}

impl PendingPrompt {
    /// Nothing waits.
    pub fn new() -> (p: Self)
        ensures
            p.waiting is None,
    {
        PendingPrompt { waiting: None }
    }

    /// One frame of the tool: a rectangle `finished` in this frame replaces
    /// the waiting one; where the embeddings are ready, the waiting rectangle
    /// is handed out to be decoded and nothing waits any more.
    pub fn step(&mut self, finished: Option<[[usize; 2]; 2]>, embeddings_ready: bool) -> (prompt: Option<
        [[usize; 2]; 2],
    >)
        ensures
            prompt == (if embeddings_ready {
                waiting_after(old(self).waiting, finished)
            } else {
                None
            }),
            final(self).waiting == (if embeddings_ready {
                None
            } else {
                waiting_after(old(self).waiting, finished)
            }),
    {
        if finished.is_some() {
            self.waiting = finished;
        }
        if embeddings_ready {
            let p = self.waiting;
            self.waiting = None;
            p
        } else {
            None
        }
    }
}

} // verus!
