//! A terminal viewer for CommonMark markdown: styled spans, word wrapping,
//! ANSI serialization and the pager's state machine.

pub mod text;
pub mod style;
pub mod wrap;
pub mod ansi;
pub mod pager;
pub mod highlight;
pub mod table;
pub mod fit;
pub mod markdown;
pub mod url;
pub mod html;
pub mod render;
pub mod cli;
