use vstd::prelude::*;
use crate::print_items::{PNode, PrintItems};
use crate::print_write_items::{NewlineKind, PrintWriteItemsOptions, print_write_items, render};
use crate::printer::{GetWriteItemsOptions, PrintError, get_write_items, spec_get_write_items};

verus! {

/// Configuration for a whole print operation: resolving and serializing.
#[derive(Clone, Copy, Debug, PartialEq, Eq)]
pub struct PrintOptions {
    /// The rendering width budget, in columns; must be at least one.
    pub max_width: u32,
    /// Columns per indent level and the tab size; must be at least one.
    pub indent_width: u32,
    /// Indent with tab characters instead of spaces.
    pub use_tabs: bool,
    pub newline_kind: NewlineKind,
}

pub open spec fn resolve_options(o: PrintOptions) -> GetWriteItemsOptions {
    GetWriteItemsOptions { max_width: o.max_width, indent_width: o.indent_width }
}

pub open spec fn writer_options(o: PrintOptions) -> PrintWriteItemsOptions {
    PrintWriteItemsOptions {
        indent_width: o.indent_width,
        use_tabs: o.use_tabs,
        newline_kind: o.newline_kind,
    }
}

/// The whole print operation as a function of the tree and the
/// configuration alone: resolve into write items, then serialize.
pub open spec fn spec_print(prog: Seq<PNode>, o: PrintOptions) -> Result<Seq<char>, PrintError> {
    match spec_get_write_items(prog, resolve_options(o)) {
        Ok(ws) => Ok(render(ws, writer_options(o))),
        Err(e) => Err(e),
    }
}

/// Resolves every condition of the tree and returns the final rendered
/// text, or the exact error the model assigns. No partial output is ever
/// returned on failure.
pub fn print(items: &PrintItems, o: PrintOptions) -> (r: Result<String, PrintError>)
    ensures
        match r {
            Ok(s) => spec_print(items@, o) == Ok::<Seq<char>, PrintError>(s@),
            Err(e) => spec_print(items@, o) == Err::<Seq<char>, PrintError>(e),
        },
{
    let gw = GetWriteItemsOptions { max_width: o.max_width, indent_width: o.indent_width };
    match get_write_items(items, gw) {
        Ok(ws) => {
            let wo = PrintWriteItemsOptions {
                indent_width: o.indent_width,
                use_tabs: o.use_tabs,
                newline_kind: o.newline_kind,
            };
            Ok(print_write_items(&ws, wo))
        },
        Err(e) => Err(e),
    }
}

/// Determinism: a print operation is a pure function of the tree and the
/// configuration, so printing the same tree with the same configuration
/// twice yields identical output, byte for byte.
pub proof fn lemma_print_deterministic(
    prog: Seq<PNode>,
    o: PrintOptions,
    r1: Result<Seq<char>, PrintError>,
    r2: Result<Seq<char>, PrintError>,
)
    requires
        r1 == spec_print(prog, o),
        r2 == spec_print(prog, o),
    ensures
        r1 == r2,
{
}

} // verus!
