//! The diagram formats, and rendering a schema in one of them.
pub mod dot;
pub mod mermaid;
pub mod route;
pub mod unicode;

use vstd::prelude::*;
use crate::emit::route::spec_routes;
use crate::emit::unicode::{diagram_text, render_ready};
use crate::layout::Layout;
use crate::schema::Schema;

verus! {

/// The output formats.
#[derive(Debug, Clone, Copy, PartialEq, Eq, Structural)]
pub enum Format {
    Unicode,
    Ascii,
    Dot,
    Mermaid,
}

/// Renders a schema. The text formats draw `layout`, the placement of the
/// schema's boxes; Graphviz and Mermaid lay the diagram out themselves and
/// do not read it.
pub fn render(format: Format, schema: &Schema, layout: &Layout) -> (out: String)
    requires
        format == Format::Unicode || format == Format::Ascii ==> render_ready(*layout),
    ensures
        match format {
            Format::Unicode => out@ == diagram_text(*layout, spec_routes(*layout), false),
            Format::Ascii => out@ == diagram_text(*layout, spec_routes(*layout), true),
            Format::Dot => out@ == dot::spec_render(schema@),
            Format::Mermaid => out@ == mermaid::spec_render(schema@),
        },
{
    match format {
        Format::Unicode => unicode::render(layout, false),
        Format::Ascii => unicode::render(layout, true),
        Format::Dot => dot::render(schema),
        Format::Mermaid => mermaid::render(schema),
    }
}

} // verus!
