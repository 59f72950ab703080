//! Event classifier: maps a raw notification kind to either "drop" or a
//! classified change event.
//!
//! Direct classification is used only for kinds whose reported paths are
//! exact; imprecise kinds are classified as indirect ancestor signals,
//! which may over-invalidate but never under-invalidate.  Kinds that
//! cannot affect cached file contents are dropped.

use vstd::prelude::*;

use crate::paths::AbsPath;

verus! {

/// Kind of a creation notification.
pub enum CreateKind {
    Any,
    File,
    Folder,
    Other,
}

/// Kind of a mutation notification.  Payload details that the policy
/// ignores (which datum changed, which metadata, which rename half) are
/// not represented.
pub enum ModifyKind {
    Any,
    Data,
    Metadata,
    Name,
    Other,
}

/// Kind of a removal notification.
pub enum RemoveKind {
    Any,
    File,
    Folder,
    Other,
}

/// Raw notification kind, as the notification backend reports it.
pub enum EventKind {
    Any,
    Access,
    Create(CreateKind),
    Modify(ModifyKind),
    Remove(RemoveKind),
    Other,
}

/// Outcome of classifying a raw notification kind.
pub enum Classification {
    /// Irrelevant to cached file contents: no change event is produced.
    Dropped,
    /// The event's paths are exact: invalidate watched paths equal to one
    /// of them.
    Direct,
    /// The event's paths are ancestor hints: invalidate every watched
    /// descendant.
    Indirect,
    /// Ancestor hint from an unclassifiable notification; the caller
    /// should additionally surface a diagnostic warning.
    IndirectWarn,
}

/// The classification policy: file-level creations, data modifications
/// and file removals carry exact paths; imprecise creations,
/// modifications and removals (including directory removal) are ancestor
/// signals; an unclassifiable notification is an ancestor signal with a
/// warning; metadata-only, access, rename and folder-creation
/// notifications are dropped.
pub open spec fn classify_spec(kind: EventKind) -> Classification {
    match kind {
        EventKind::Any => Classification::IndirectWarn,
        EventKind::Access => Classification::Dropped,
        EventKind::Create(CreateKind::File) => Classification::Direct,
        EventKind::Create(CreateKind::Any) => Classification::Indirect,
        EventKind::Create(CreateKind::Other) => Classification::Indirect,
        EventKind::Create(CreateKind::Folder) => Classification::Dropped,
        EventKind::Modify(ModifyKind::Data) => Classification::Direct,
        EventKind::Modify(ModifyKind::Any) => Classification::Indirect,
        EventKind::Modify(ModifyKind::Other) => Classification::Indirect,
        EventKind::Modify(ModifyKind::Metadata) => Classification::Dropped,
        EventKind::Modify(ModifyKind::Name) => Classification::Dropped,
        EventKind::Remove(RemoveKind::File) => Classification::Direct,
        EventKind::Remove(RemoveKind::Folder) => Classification::Indirect,
        EventKind::Remove(RemoveKind::Any) => Classification::Indirect,
        EventKind::Remove(RemoveKind::Other) => Classification::Indirect,
        EventKind::Other => Classification::Dropped,
    }
}

/// Classify a raw notification kind.
pub fn classify(kind: &EventKind) -> (r: Classification)
    ensures
        r == classify_spec(*kind),
{
    match kind {
        EventKind::Any => Classification::IndirectWarn,
        EventKind::Access => Classification::Dropped,
        EventKind::Create(CreateKind::File) => Classification::Direct,
        EventKind::Create(CreateKind::Any) => Classification::Indirect,
        EventKind::Create(CreateKind::Other) => Classification::Indirect,
        EventKind::Create(CreateKind::Folder) => Classification::Dropped,
        EventKind::Modify(ModifyKind::Data) => Classification::Direct,
        EventKind::Modify(ModifyKind::Any) => Classification::Indirect,
        EventKind::Modify(ModifyKind::Other) => Classification::Indirect,
        EventKind::Modify(ModifyKind::Metadata) => Classification::Dropped,
        EventKind::Modify(ModifyKind::Name) => Classification::Dropped,
        EventKind::Remove(RemoveKind::File) => Classification::Direct,
        EventKind::Remove(RemoveKind::Folder) => Classification::Indirect,
        EventKind::Remove(RemoveKind::Any) => Classification::Indirect,
        EventKind::Remove(RemoveKind::Other) => Classification::Indirect,
        EventKind::Other => Classification::Dropped,
    }
}

/// A classified change event: the affected paths, and whether they are
/// exact (`is_direct`) or ancestor hints.
pub struct ChangeEvent {
    pub paths: Vec<AbsPath>,
    pub is_direct: bool,
}

/// Ghost form of a change event.
pub struct ChangeEventView {
    pub paths: Seq<Seq<Seq<u8>>>,
    pub is_direct: bool,
}

/// A list of paths as a sequence of component sequences.
pub open spec fn paths_view(v: Seq<AbsPath>) -> Seq<Seq<Seq<u8>>> {
    Seq::new(v.len(), |i: int| v[i]@)
}

/// Appending a path commutes with taking the view.
pub proof fn lemma_paths_view_push(pre: Seq<AbsPath>, x: AbsPath)
    ensures
        paths_view(pre.push(x)) =~= paths_view(pre).push(x@),
{
    assert forall|j: int| 0 <= j <= pre.len() implies paths_view(pre.push(x))[j] == paths_view(
        pre,
    ).push(x@)[j] by {
        if j < pre.len() {
            assert(pre.push(x)[j] == pre[j]);
        } else {
            assert(pre.push(x)[j] == x);
        }
    }
}

impl View for ChangeEvent {
    type V = ChangeEventView;

    open spec fn view(&self) -> ChangeEventView {
        (ChangeEventView { paths: paths_view(self.paths@), is_direct: self.is_direct })
    }
}

/// Build the change event for a classified notification on `paths`, or
/// `None` when the notification kind is dropped by the policy.
pub fn classify_event(kind: &EventKind, paths: Vec<AbsPath>) -> (r: Option<ChangeEvent>)
    ensures
        match r {
            Option::Some(ev) => classify_spec(*kind) != Classification::Dropped && ev@.paths
                == paths_view(paths@) && ev@.is_direct == (classify_spec(*kind)
                == Classification::Direct),
            Option::None => classify_spec(*kind) == Classification::Dropped,
        },
{
    match classify(kind) {
        Classification::Dropped => Option::None,
        Classification::Direct => Option::Some(ChangeEvent { paths, is_direct: true }),
        Classification::Indirect => Option::Some(ChangeEvent { paths, is_direct: false }),
        Classification::IndirectWarn => Option::Some(ChangeEvent { paths, is_direct: false }),
    }
}

} // verus!
