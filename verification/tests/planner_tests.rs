use htn::behaviour::BehaviourBuilder;
use htn::{BeingContext, Operator, Planner, TaskStatus, Variant};

#[test]
fn planner_has_no_plan_at_start() {
    let planner = Planner::default();
    assert_eq!(planner.current_task(), None);
    assert!(!planner.has_plan());
}

#[test]
fn tick_primitive_no_operator_expectedbehav() {
    let mut ctx = BeingContext::default();
    let mut builder = BehaviourBuilder::new("test");
    builder
        .sequence("super")
            .primitive("primitive")
            .end()
        .end();
    let b = builder.build().unwrap();
    let mut p = Planner::default();

    p.tick(&b, &mut ctx);

    assert_eq!(p.current_task(), None);
    assert_eq!(p.last_status(), TaskStatus::Failure);
}

#[test]
fn tick_with_empty_func_operator_expectedbehav() {
    let mut ctx = BeingContext::default();
    let mut builder = BehaviourBuilder::new("test");
    builder
        .selector("super")
            .primitive("primitive")
                .do_action("test", Operator::Respond(TaskStatus::Success))
            .end()
        .end();
    let b = builder.build().unwrap();
    let mut p = Planner::default();

    p.tick(&b, &mut ctx);

    assert_eq!(p.last_status(), TaskStatus::Success);
}

#[test]
fn trivial_success_retires_the_plan() {
    let mut ctx = BeingContext::default();
    let mut builder = BehaviourBuilder::new("test");
    builder
        .sequence("super")
            .primitive("primitive")
                .do_action("ok", Operator::Respond(TaskStatus::Success))
            .end()
        .end();
    let b = builder.build().unwrap();
    let mut p = Planner::default();

    p.tick(&b, &mut ctx);

    assert_eq!(p.last_status(), TaskStatus::Success);
    assert!(!p.has_plan());
    assert_eq!(p.current_task(), None);
}

#[test]
fn continue_keeps_the_task_current() {
    let mut ctx = BeingContext::default();
    let mut builder = BehaviourBuilder::new("test");
    builder
        .sequence("super")
            .primitive("slow")
                .do_action("wait", Operator::Respond(TaskStatus::Continue))
            .end()
        .end();
    let b = builder.build().unwrap();
    let mut p = Planner::default();

    p.tick(&b, &mut ctx);
    assert_eq!(p.last_status(), TaskStatus::Continue);
    assert_eq!(p.current_task(), Some(1));

    p.tick(&b, &mut ctx);
    assert_eq!(p.last_status(), TaskStatus::Continue);
    assert_eq!(p.current_task(), Some(1));
}

#[test]
fn operator_failure_aborts_everything() {
    let mut ctx = BeingContext::default();
    let mut builder = BehaviourBuilder::new("test");
    builder
        .sequence("super")
            .primitive("doomed")
                .do_action("fail", Operator::Respond(TaskStatus::Failure))
            .end()
            .primitive("never")
                .do_action("ok", Operator::Respond(TaskStatus::Success))
            .end()
        .end();
    let b = builder.build().unwrap();
    let mut p = Planner::default();

    p.tick(&b, &mut ctx);

    assert_eq!(p.last_status(), TaskStatus::Failure);
    assert!(!p.has_plan());
    assert_eq!(p.current_task(), None);
    assert!(!ctx.state().paused());
    assert!(!ctx.state().dirty());
}

#[test]
fn dirty_context_forces_a_replan() {
    let mut ctx = BeingContext::default();
    let mut builder = BehaviourBuilder::new("test");
    builder
        .selector("pick")
            .primitive("preferred")
                .condition("flag is up", htn::Condition::Has("flag".to_owned()))
                .do_action("good", Operator::SetAndSucceed("ran".to_owned(), Variant::Bool(true)))
            .end()
            .primitive("fallback")
                .do_action("idle", Operator::Respond(TaskStatus::Success))
            .end()
        .end();
    let b = builder.build().unwrap();
    let mut p = Planner::default();

    p.tick(&b, &mut ctx);
    assert_eq!(p.last_status(), TaskStatus::Success);
    assert!(ctx.state().get("ran").is_none());

    ctx.state_mut().set("flag", Variant::Bool(true));
    ctx.state_mut().set_dirty(true);
    p.tick(&b, &mut ctx);
    assert_eq!(p.last_status(), TaskStatus::Success);
    assert_eq!(ctx.state().test_value("ran", &Variant::Bool(true)), Some(true));
}

#[test]
fn equals_condition_gates_planning() {
    let mut ctx = BeingContext::default();
    ctx.state_mut().set("mode", Variant::Int32(2));
    let mut builder = BehaviourBuilder::new("test");
    builder
        .selector("pick")
            .primitive("wrong mode")
                .condition("mode is one", htn::Condition::Equals("mode".to_owned(), Variant::Int32(1)))
                .do_action("a", Operator::SetAndSucceed("chose".to_owned(), Variant::Int32(1)))
            .end()
            .primitive("right mode")
                .condition("mode is two", htn::Condition::Equals("mode".to_owned(), Variant::Int32(2)))
                .condition("and always", htn::Condition::Always)
                .do_action("b", Operator::SetAndSucceed("chose".to_owned(), Variant::Int32(2)))
            .end()
        .end();
    let b = builder.build().unwrap();
    let mut p = Planner::default();

    p.tick(&b, &mut ctx);
    assert_eq!(p.last_status(), TaskStatus::Success);
    assert_eq!(ctx.state().get("chose").unwrap(), &Variant::Int32(2));
}

#[test]
fn successful_replan_preempts_the_running_primitive() {
    // while "busy" is still reporting Continue, the host forces a replan;
    // the new plan pre-empts the running primitive, which is stopped and
    // cleared, and the new plan's head runs on the same tick
    let mut ctx = BeingContext::default();
    let mut builder = BehaviourBuilder::new("test");
    builder
        .selector("pick")
            .primitive("preferred")
                .condition("flag is up", htn::Condition::Has("flag".to_owned()))
                .do_action("good", Operator::SetAndSucceed("ran".to_owned(), Variant::Bool(true)))
            .end()
            .primitive("busy")
                .do_action("work", Operator::Respond(TaskStatus::Continue))
            .end()
        .end();
    let b = builder.build().unwrap();
    let mut p = Planner::default();

    p.tick(&b, &mut ctx);
    assert_eq!(p.current_task(), Some(2));
    assert_eq!(p.last_status(), TaskStatus::Continue);

    ctx.state_mut().set("flag", Variant::Bool(true));
    ctx.state_mut().set_dirty(true);
    p.tick(&b, &mut ctx);
    assert_eq!(p.current_task(), None);
    assert_eq!(p.last_status(), TaskStatus::Success);
    assert_eq!(ctx.state().test_value("ran", &Variant::Bool(true)), Some(true));
}
