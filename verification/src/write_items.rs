use vstd::prelude::*;

verus! {

/// A fully resolved output primitive. Once the printer has emitted a write
/// item, no further decision is needed to serialize it: only the configured
/// tab width (for `Tab` and `Indent`) and the newline style remain, and both
/// are global writer configuration.
#[derive(Debug, Clone, PartialEq, Eq)]
pub enum WriteItem {
    /// A literal text run, written verbatim.
    Text(String),
    /// A committed line break.
    NewLine,
    /// A single tab character requested by the tree.
    Tab,
    /// Indentation of the given depth (in indent levels), emitted at the
    /// start of a line before its first content.
    Indent(u32),
}

/// The mathematical shape of a write item: text is a sequence of characters.
pub enum WItem {
    Text(Seq<char>),
    NewLine,
    Tab,
    Indent(u32),
}

impl View for WriteItem {
    type V = WItem;

    open spec fn view(&self) -> WItem {
        match self {
            WriteItem::Text(s) => WItem::Text(s@),
            WriteItem::NewLine => WItem::NewLine,
            WriteItem::Tab => WItem::Tab,
            WriteItem::Indent(d) => WItem::Indent(*d),
        }
    }
}

/// The view of a whole write-item sequence.
pub open spec fn witems_view(v: Seq<WriteItem>) -> Seq<WItem> {
    v.map_values(|w: WriteItem| w@)
}

} // verus!
