pub mod download;
pub mod print;
pub mod print_items;
pub mod print_write_items;
pub mod printer;
pub mod write_items;

pub use print::{print, PrintOptions};
pub use print_items::{ConditionResolver, PrintItems, PrintNode, Signal};
pub use print_write_items::{print_write_items, rendered_end_position, NewlineKind, PrintWriteItemsOptions};
pub use printer::{get_resolved_infos, get_write_items, GetWriteItemsOptions, InfoPos, PrintError};
pub use write_items::WriteItem;
