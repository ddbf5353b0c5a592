use htn::{BeingContext, Variant};

#[test]
fn rollback_works() {
    let mut ctx = BeingContext::new();
    ctx.state_mut().begin_transaction();
    ctx.state_mut().set("test1", Variant::Int32(10));
    ctx.state_mut().set("test2", Variant::Bool(true));
    ctx.state_mut().rollback_transaction();

    assert!(ctx.state().get("test1").is_none());
    assert!(ctx.state().get("test2").is_none());
    assert!(ctx.state().transaction_depth() == 0);

    ctx.state_mut().set("test3", Variant::Int32(20));
    assert!(ctx.state().transaction_depth() == 0);
}

#[test]
fn commit_works() {
    let mut ctx = BeingContext::new();
    ctx.state_mut().begin_transaction();
    ctx.state_mut().set("test1", Variant::Int32(10));
    ctx.state_mut().set("test2", Variant::Bool(true));
    ctx.state_mut().commit_transaction();

    assert!(ctx.state().get("test1").is_some());
    assert!(ctx.state().get("test2").is_some());
    assert!(ctx.state().transaction_depth() == 0);

    ctx.state_mut().set("test3", Variant::Int32(20));
    assert!(ctx.state().transaction_depth() == 0);
}

#[test]
fn transaction_round_trip_leaves_no_trace() {
    let mut ctx = BeingContext::default();
    ctx.state_mut().set("stays", Variant::Int32(7));
    let depth_before = ctx.state().transaction_depth();
    ctx.state_mut().begin_transaction();
    ctx.state_mut().set("fresh", Variant::Bool(true));
    ctx.state_mut().rollback_transaction();
    assert!(ctx.state().get("fresh").is_none());
    assert_eq!(ctx.state().transaction_depth(), depth_before);
    assert_eq!(ctx.state().get("stays").unwrap(), &Variant::Int32(7));
}

#[test]
fn nested_transactions_roll_back_in_order() {
    let mut ctx = BeingContext::default();
    ctx.state_mut().begin_transaction();
    ctx.state_mut().set("outer", Variant::Int32(1));
    ctx.state_mut().begin_transaction();
    ctx.state_mut().set("inner", Variant::Int32(2));
    ctx.state_mut().rollback_transaction();
    assert!(ctx.state().get("inner").is_none());
    assert_eq!(ctx.state().get("outer").unwrap(), &Variant::Int32(1));
    ctx.state_mut().rollback_transaction();
    assert!(ctx.state().get("outer").is_none());
    assert_eq!(ctx.state().transaction_depth(), 0);
}

#[test]
fn add_inserts_fresh_key() {
    let mut ctx = BeingContext::default();
    ctx.state_mut().add("k", Variant::Location);
    assert_eq!(ctx.state().get("k").unwrap(), &Variant::Location);
}

#[test]
fn remove_deletes_and_unlogs() {
    let mut ctx = BeingContext::default();
    ctx.state_mut().begin_transaction();
    ctx.state_mut().set("gone", Variant::Int32(3));
    ctx.state_mut().remove("gone");
    assert!(ctx.state().get("gone").is_none());
    // the rollback has nothing left to undo for the removed key
    ctx.state_mut().rollback_transaction();
    assert!(ctx.state().get("gone").is_none());
    assert_eq!(ctx.state().transaction_depth(), 0);
}

#[test]
fn test_value_distinguishes_absent_from_unequal() {
    let mut ctx = BeingContext::default();
    assert!(ctx.state().test_value("k", &Variant::Bool(true)).is_none());
    ctx.state_mut().set("k", Variant::Bool(true));
    assert_eq!(ctx.state().test_value("k", &Variant::Bool(true)), Some(true));
    assert_eq!(ctx.state().test_value("k", &Variant::Bool(false)), Some(false));
    assert_eq!(ctx.state().test_value("k", &Variant::Int32(1)), Some(false));
}

#[test]
fn variant_equality_is_deep() {
    assert_eq!(Variant::Entities(vec![1, 2, 3]), Variant::Entities(vec![1, 2, 3]));
    assert_ne!(Variant::Entities(vec![1, 2, 3]), Variant::Entities(vec![1, 2, 4]));
    assert_ne!(Variant::Entities(vec![1, 2]), Variant::Entities(vec![1, 2, 3]));
    assert_eq!(Variant::Entity(9), Variant::Entity(9));
    assert_ne!(Variant::Entity(9), Variant::Int32(9));
    assert_eq!(Variant::Location, Variant::Location);
    let v = Variant::Entities(vec![4, 5]);
    assert_eq!(v.clone(), v);
}

#[test]
fn overwriting_set_is_not_undone_by_rollback() {
    // only keys first written inside the transaction are logged, so an
    // overwrite of an existing key survives a rollback
    let mut ctx = BeingContext::default();
    ctx.state_mut().set("k", Variant::Int32(1));
    ctx.state_mut().begin_transaction();
    ctx.state_mut().set("k", Variant::Int32(2));
    ctx.state_mut().rollback_transaction();
    assert_eq!(ctx.state().get("k").unwrap(), &Variant::Int32(2));
}

#[test]
fn new_context_starts_dirty_default_does_not() {
    let ctx = BeingContext::new();
    assert!(ctx.state().dirty());
    let ctx2 = BeingContext::default();
    assert!(!ctx2.state().dirty());
}
