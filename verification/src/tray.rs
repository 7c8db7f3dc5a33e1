//! Commands the system-tray thread hands to the UI loop.

use vstd::prelude::*;

verus! {

/// Commands the tray thread sends to the GTK main loop.
#[derive(Debug, Clone, Copy)]
pub enum TrayCmd {
    Toggle,
    Quit,
}

} // verus!
