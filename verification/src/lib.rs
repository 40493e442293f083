//! Desktop automation core: key chords, synthetic input, frame capture and
//! comparison, and the rules by which an element is found, leased and acted on.

pub mod capture;
pub mod cli;
pub mod dpi;
pub mod input;
pub mod keys;
pub mod lease;
pub mod macos;
pub mod ocr;
pub mod strings;
pub mod text;
pub mod uia;
