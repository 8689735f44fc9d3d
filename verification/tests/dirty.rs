use sigmut::runtime::dirty::max_dirty;
use sigmut::runtime::{Dirty, DirtyLevel};

#[test]
fn dirty_state_helpers() {
    let mut d = Dirty::Clean;
    d.apply_notify(DirtyLevel::MaybeDirty);
    let after_maybe = d;
    d.apply_notify(DirtyLevel::Dirty);
    let after_dirty = d;

    assert!(Dirty::from_is_dirty(true).is_dirty());
    assert!(Dirty::from_is_dirty(false).is_clean());
    assert!(Dirty::MaybeDirty.is_maybe_dirty());
    assert!(Dirty::Clean.needs_notify());
    assert_eq!(after_maybe, Dirty::MaybeDirty);
    assert_eq!(after_dirty, Dirty::Dirty);
}

#[test]
fn dirty_bitor() {
    let mut d = Dirty::Clean;
    d |= Dirty::MaybeDirty;
    assert_eq!(Dirty::Clean | Dirty::Dirty, Dirty::Dirty);
    assert_eq!(d, Dirty::MaybeDirty);
}

const ALL: [Dirty; 3] = [Dirty::Clean, Dirty::MaybeDirty, Dirty::Dirty];

#[test]
fn dirty_join_is_commutative_associative_and_idempotent() {
    for a in ALL {
        assert_eq!(a | a, a);
        assert_eq!(a | Dirty::Clean, a);
        assert_eq!(a | Dirty::Dirty, Dirty::Dirty);
        for b in ALL {
            assert_eq!(a | b, b | a);
            assert_eq!(a | b, max_dirty(a, b));
            for c in ALL {
                assert_eq!((a | b) | c, a | (b | c));
            }
        }
    }
}

#[test]
fn dirty_notify_never_lowers_the_state() {
    let mut d = Dirty::Dirty;
    d.apply_notify(DirtyLevel::MaybeDirty);
    assert_eq!(d, Dirty::Dirty);
    let mut d = Dirty::MaybeDirty;
    d.apply_notify(DirtyLevel::MaybeDirty);
    assert_eq!(d, Dirty::MaybeDirty);
    assert!(!Dirty::MaybeDirty.needs_notify());
    assert!(!Dirty::Dirty.needs_notify());
}

#[test]
fn dirty_from_level() {
    assert_eq!(Dirty::from(DirtyLevel::Dirty), Dirty::Dirty);
    assert_eq!(Dirty::from(DirtyLevel::MaybeDirty), Dirty::MaybeDirty);
    assert!(!Dirty::Clean.is_dirty());
    assert!(!Dirty::Dirty.is_maybe_dirty());
    assert!(!Dirty::MaybeDirty.is_clean());
}

#[test]
fn dirty_level_helpers() {
    assert_eq!(DirtyLevel::Dirty.maybe_if(true), DirtyLevel::MaybeDirty);
    assert_eq!(DirtyLevel::Dirty.maybe_if(false), DirtyLevel::Dirty);
    assert_eq!(DirtyLevel::MaybeDirty.maybe_if(false), DirtyLevel::MaybeDirty);
    assert!(DirtyLevel::Dirty.is_dirty());
    assert!(!DirtyLevel::Dirty.is_maybe_dirty());
    assert!(DirtyLevel::MaybeDirty.is_maybe_dirty());
    assert!(!DirtyLevel::MaybeDirty.is_dirty());
}
