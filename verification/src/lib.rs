//! Building blocks of a retained-mode, canvas-rendered user interface:
//! exact rectangle arithmetic on the logical viewport, and registries that
//! observe shared elements without keeping them alive.

pub mod util;
