use vfsx::classify::Classification;
use vfsx::classify::CreateKind;
use vfsx::classify::EventKind;
use vfsx::classify::ModifyKind;
use vfsx::classify::RemoveKind;
use vfsx::classify::classify;
use vfsx::classify::classify_event;
use vfsx::paths::AbsPath;

fn abs(comps: &[&str]) -> AbsPath {
    AbsPath { components: comps.iter().map(|c| c.as_bytes().to_vec()).collect() }
}

#[test]
fn exact_kinds_classify_direct() {
    assert!(matches!(classify(&EventKind::Create(CreateKind::File)), Classification::Direct));
    assert!(matches!(classify(&EventKind::Modify(ModifyKind::Data)), Classification::Direct));
    assert!(matches!(classify(&EventKind::Remove(RemoveKind::File)), Classification::Direct));
}

#[test]
fn imprecise_kinds_classify_indirect() {
    assert!(matches!(classify(&EventKind::Create(CreateKind::Any)), Classification::Indirect));
    assert!(matches!(classify(&EventKind::Create(CreateKind::Other)), Classification::Indirect));
    assert!(matches!(classify(&EventKind::Modify(ModifyKind::Any)), Classification::Indirect));
    assert!(matches!(classify(&EventKind::Modify(ModifyKind::Other)), Classification::Indirect));
    assert!(matches!(classify(&EventKind::Remove(RemoveKind::Any)), Classification::Indirect));
    assert!(matches!(classify(&EventKind::Remove(RemoveKind::Folder)), Classification::Indirect));
    assert!(matches!(classify(&EventKind::Remove(RemoveKind::Other)), Classification::Indirect));
}

#[test]
fn irrelevant_kinds_are_dropped() {
    assert!(matches!(classify(&EventKind::Access), Classification::Dropped));
    assert!(matches!(classify(&EventKind::Create(CreateKind::Folder)), Classification::Dropped));
    assert!(matches!(classify(&EventKind::Modify(ModifyKind::Metadata)), Classification::Dropped));
    assert!(matches!(classify(&EventKind::Modify(ModifyKind::Name)), Classification::Dropped));
    assert!(matches!(classify(&EventKind::Other), Classification::Dropped));
}

#[test]
fn unclassifiable_kind_is_indirect_with_warning() {
    assert!(matches!(classify(&EventKind::Any), Classification::IndirectWarn));
}

#[test]
fn classify_event_builds_direct_change_event() {
    let ev = classify_event(&EventKind::Modify(ModifyKind::Data), vec![abs(&["abs", "a.txt"])]);
    let ev = ev.unwrap();
    assert!(ev.is_direct);
    assert_eq!(ev.paths.len(), 1);
    assert_eq!(ev.paths[0].components, vec![b"abs".to_vec(), b"a.txt".to_vec()]);
}

#[test]
fn classify_event_builds_indirect_change_event() {
    let ev = classify_event(&EventKind::Remove(RemoveKind::Folder), vec![abs(&["abs"])]);
    let ev = ev.unwrap();
    assert!(!ev.is_direct);
}

#[test]
fn classify_event_drops_irrelevant_notification() {
    assert!(classify_event(&EventKind::Access, vec![abs(&["abs"])]).is_none());
}

#[test]
fn unclassifiable_notification_still_produces_indirect_event() {
    let ev = classify_event(&EventKind::Any, vec![abs(&["abs"])]).unwrap();
    assert!(!ev.is_direct);
    assert_eq!(ev.paths.len(), 1);
}
