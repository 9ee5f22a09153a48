//! Verified pixel-mask bookkeeping for image annotation.
pub mod bytes;
pub mod intervals;
pub mod pixel_range;
pub mod sub_group;
pub mod merge_sorted;
pub mod history;
pub mod mask;
pub mod rect_selection;
pub mod cursor_image;
pub mod image_state;
pub mod brush;
pub mod contrast;
pub mod decode;
pub mod runs;
pub mod inference;
pub mod image_selector;
pub mod pixel_area_stack;
pub mod generator;
pub mod range_format;
pub mod layers;
pub mod registry;
pub mod overlay;
pub mod storage;
