//! Recognition of binary words in images: binarisation, framing, digit
//! segmentation and decoding.
pub mod grid;
pub mod flood;
pub mod component_box;
pub mod segmentation_laws;
pub mod digit_laws;
pub mod matrix;
pub mod midsized_letter;
pub mod position_sort;
pub mod extent;
pub mod text;
pub mod solution;
pub mod find_edge;
pub mod resizing;
pub mod formats;
pub mod listing;
pub mod cut;
pub mod binarisation;
pub mod pgm_text;
pub mod imaging;
pub mod viewer;
pub mod read_csv;
pub mod actions_client;
pub mod engine;
pub mod pgm_round_trip;
