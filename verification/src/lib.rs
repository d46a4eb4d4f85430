//! `jot-core`: the note format, its parsing and rendering, the thread algebra, and the queries a
//! vault of markdown notes answers, each stated as a contract and proved.

pub mod block;
pub mod error;
pub mod frontmatter;
pub mod index;
pub mod link;
pub mod fs;
pub mod note;
pub mod query;
pub mod registry;
pub mod roots;
pub mod shortid;
pub mod snapshot;
pub mod text;
pub mod thread;
pub mod watch;

use vstd::prelude::*;

verus! {

} // verus!
