//! Identifier and error types of the compositor core.

use vstd::prelude::*;

verus! {

/// Identifier of one rendering group: a set of webviews that share a GPU
/// pipeline instance and a drawing surface.  Allocated starting at 1 and
/// strictly increasing; an id is never reused within a process lifetime,
/// even after its group is torn down.
pub type RenderingGroupId = u64;

/// Process-unique identifier of a webview (a content surface).
///
/// Identity is the pair of pipeline namespace and index; equality and
/// hashing go by that pair alone.
#[derive(Clone, Copy, PartialEq, Eq, Structural, Hash, Debug)]
pub struct WebViewId {
    pub namespace_id: u32,
    pub index: u32,
}

/// Identifier of the logical document a rendering group draws into,
/// allocated from the rendering pipeline when the group is created.
#[derive(Clone, Copy, PartialEq, Eq, Structural, Hash, Debug)]
pub struct DocumentId {
    pub namespace_id: u32,
    pub id: u32,
}

/// An operation referenced a webview that the registry does not know,
/// or that is not attached to any live rendering group.
#[derive(Clone, Copy, PartialEq, Eq, Structural, Debug)]
pub struct UnknownWebView(pub WebViewId);

/// An operation referenced a rendering group with no live pipeline instance.
#[derive(Clone, Copy, PartialEq, Eq, Structural, Debug)]
pub struct UnknownRenderingGroup(pub RenderingGroupId);

} // verus!
