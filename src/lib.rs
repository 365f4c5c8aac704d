//! A symbolic source transpiler: rewrites configured symbol tokens to their
//! replacement text, leaving string literals and comments untouched and
//! refusing replacements that contain dangerous constructs.

pub mod literals;
pub mod matching;
pub mod text;
pub mod threat_detector;
pub mod transpiler;
