//! Compiler diagnostics and their caret-annotated rendering against a source
//! map: a severity, a message, and the offending source with an underline
//! aligned exactly under the characters at fault.
//!
//! A [`Diagnostic`] carries a [`Severity`], a headline message, a primary
//! [`Label`] and optional secondary labels, notes and help lines. A
//! [`Renderer`] resolves each label's [`Span`] against a [`SourceMap`] and
//! draws one frame per source file, the underlines aligned in display columns:
//! a multi-byte character is one column, a tab advances to the next multiple
//! of four. [`Renderer::with_color`] wraps the same text in terminal styling.

pub mod diagnostic;
pub mod label;
pub mod properties;
pub mod plain;
pub mod render;
pub mod reorder;
pub mod severity;
pub mod sources;
pub mod span;
pub mod text;

pub use diagnostic::Diagnostic;
pub use label::Label;
pub use render::Renderer;
pub use severity::Severity;
pub use source_lang::SourceMap;
pub use span::Span;
pub use text::{decimal_width, expand_tabs, floor_boundary, visual_width};
