//! Screen capture: frames, what changed between two of them, and what is worth
//! sending.

pub mod codec;
pub mod diff;
pub mod encode;
pub mod frame;
pub mod grab;
pub mod observe;
pub mod prep;

pub use diff::{changed_box, compare_frames, ChangedRegion, Share};
pub use encode::{encode_png, EncodeError, Prep};
pub use frame::{crop, crop_frame, Frame};
pub use grab::{capture_window, check_screen, check_window, grab, GrabError, Scan};
pub use observe::{observe_bytes, observe_frame, Look, Note, Observation, Pending};
pub use prep::{
    encode_png_scaled, encode_resized, frame_from_png, gray_histogram, preprocess, stretch,
};
