//! Bookkeeping core of a multi-surface compositor.
//!
//! The library tracks a set of independently rendered content surfaces
//! ("webviews"), groups them into rendering groups that each own one GPU
//! pipeline instance, and maintains a deterministic back-to-front painting
//! order per group.  Everything here is plain in-memory state with verified
//! contracts; the GPU pipeline itself is an external collaborator that the
//! embedding drives through the handles stored in each group's
//! `WebRenderInstance`.
//!
//! Alongside the compositor core sit two smaller pieces of the same
//! system: the encoded string bytes a scripting engine hands out
//! (`encoded_bytes`), and the shared-memory byte buffer used to move
//! data between processes (`shared_memory`).

pub mod alist;
pub mod encoded_bytes;
pub mod ids;
pub mod notifier;
pub mod shared_memory;
pub mod webview_manager;
