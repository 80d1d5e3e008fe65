//! The tab model of a docking editor window: which tabs are open and what
//! each shows, when a tab may be closed, and which tab a pane moves to when
//! the user cycles through its tabs.
use vstd::prelude::*;

pub mod buffers;
pub mod cycle;

verus! {

} // verus!
