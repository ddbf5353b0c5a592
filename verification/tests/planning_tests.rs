use htn::behaviour::BehaviourBuilder;
use htn::{BeingContext, Condition, Effect, Operator, Planner, TaskStatus, Variant};
use htn::Variant::{Bool, Int32};

#[test]
fn basic_planning_works() {
    let mut builder = BehaviourBuilder::new("test");
    builder
        .sequence("sequence1")
            .sequence("subsequence1")
            .end()
        .end();
    let b = builder.build().unwrap();
    let mut p = Planner::default();
    let mut ctx = BeingContext::default();

    p.tick(&b, &mut ctx);
}

#[test]
fn more_complex_planning_works() {
    let mut builder = BehaviourBuilder::new("test");
    builder
        .sequence("sequence1")
            .sequence("subsequence1")
            .end()
        .end();
    let b = builder.build().unwrap();
    let mut p = Planner::default();
    let mut ctx = BeingContext::default();

    p.tick(&b, &mut ctx);
}

#[test]
fn selector_continues_after_failed_task() {
    let mut builder = BehaviourBuilder::new("test");
    builder
    .selector("sel1")
        .sequence("i will fail")
            .primitive("Base_False")
                .condition("always_false", Condition::Never)
                .do_action("set_wrong_flag", Operator::SetAndSucceed("wrong".to_owned(), Bool(true)))
            .end()
        .end()
        .selector("i should be chosen")
            .primitive("Base_Real")
                .do_action("set_flag", Operator::SetAndSucceed("test".to_owned(), Bool(true)))
            .end()
        .end()
    .end();
    let b = builder.build().unwrap();
    let mut p = Planner::default();
    let mut ctx = BeingContext::default();

    p.tick(&b, &mut ctx);
    assert!(ctx.state().test_value("wrong", &Bool(true)).is_none());
    assert_eq!(ctx.state().get("test").unwrap(), &Bool(true));
}

#[test]
fn sequence_with_failed_task_gives_no_plan() {
    let mut builder = BehaviourBuilder::new("test");
    builder
    .sequence("i should give no plan")
        .primitive("I should run successfully")
            .do_action("durr", Operator::SetAndSucceed("yeh".to_owned(), Bool(true)))
        .end()
        .primitive("I should also run")
            .do_action("hurr", Operator::SetAndSucceed("yeh m8 lmfao".to_owned(), Bool(true)))
        .end()
        .primitive("I should fail")
            .condition("always invalid", Condition::Has("nothing".to_owned()))
            .do_action("nah", Operator::SetAndSucceed("nahhh".to_owned(), Bool(true)))
        .end()
    .end();
    let b = builder.build().unwrap();
    let mut p = Planner::default();
    let mut ctx = BeingContext::default();

    p.tick(&b, &mut ctx);
    assert!(!p.has_plan());
    assert!(ctx.state().get("yeh").is_none());
    assert!(ctx.state().get("hurr").is_none());
    assert!(ctx.state().get("nahhh").is_none());
}

#[test]
fn failed_sequence_does_not_pollute_context() {
    let mut builder = BehaviourBuilder::new("test");
    builder
    .sequence("i should fail but not pollute")
        .selector("Some of mine run")
            .primitive("I should run successfully")
                .effect("pollute", Effect::Assign("pollution".to_owned(), Bool(true)))
            .end()
            .primitive("I should run successfully too")
                .effect("pollute2", Effect::Assign("pollution2".to_owned(), Bool(true)))
            .end()
        .end()
        .primitive("I should fail")
            .condition("always fails", Condition::Never)
        .end()
    .end();
    let b = builder.build().unwrap();
    let mut p = Planner::default();
    let mut ctx = BeingContext::default();

    p.tick(&b, &mut ctx);
    assert!(ctx.state().get("pollution").is_none());
    assert!(ctx.state().get("pollution2").is_none());
}

#[test]
fn find_plan_twice_yields_identical_plans() {
    // an effect-free, pause-free behaviour replans reproducibly
    let mut builder = BehaviourBuilder::new("test");
    builder
        .selector("pick")
            .primitive("blocked")
                .condition("needs a flag", Condition::Has("flag".to_owned()))
            .end()
            .primitive("always works")
                .do_action("ok", Operator::Respond(TaskStatus::Success))
            .end()
        .end();
    let b = builder.build().unwrap();
    let mut ctx = BeingContext::default();

    let (plan1, status1) = b.find_plan(ctx.state_mut());
    let (plan2, status2) = b.find_plan(ctx.state_mut());
    assert_eq!(plan1, plan2);
    assert_eq!(status1, status2);
    assert_eq!(plan1, std::collections::VecDeque::from(vec![2usize]));
}

#[test]
fn committed_sequence_applies_its_effects() {
    let mut builder = BehaviourBuilder::new("test");
    builder
        .sequence("all good")
            .primitive("one")
                .effect("mark", Effect::Assign("a".to_owned(), Int32(1)))
            .end()
            .primitive("two")
                .effect("mark2", Effect::Assign("b".to_owned(), Int32(2)))
            .end()
        .end();
    let b = builder.build().unwrap();
    let mut ctx = BeingContext::default();

    let (plan, status) = b.find_plan(ctx.state_mut());
    assert_eq!(status, htn::DecompositionStatus::Succeeded);
    assert_eq!(plan, std::collections::VecDeque::from(vec![1usize, 2usize]));
    assert_eq!(ctx.state().get("a").unwrap(), &Int32(1));
    assert_eq!(ctx.state().get("b").unwrap(), &Int32(2));
    assert_eq!(ctx.state().transaction_depth(), 0);
    assert_eq!(ctx.state().exec_state(), htn::ExecutionState::Executing);
}

#[test]
fn pause_suspends_and_queues_the_pass() {
    let mut builder = BehaviourBuilder::new("test");
    builder
        .sequence("root")
            .primitive("first")
                .do_action("ok", Operator::Respond(TaskStatus::Success))
            .end()
            .pause()
            .end()
        .end();
    let b = builder.build().unwrap();
    let mut ctx = BeingContext::default();

    let (_plan, status) = b.find_plan(ctx.state_mut());
    assert_eq!(status, htn::DecompositionStatus::Partial);
    assert!(ctx.state().paused());
    assert_eq!(ctx.state().partial_len(), 1);
}

#[test]
fn resume_drains_queued_entries_in_order() {
    // two queued entries: the first feeds the plan, the second is appended
    // when it succeeds — multi-entry resumption per the planning contract
    let mut builder = BehaviourBuilder::new("test");
    builder
        .selector("root")
            .primitive("left")
                .do_action("l", Operator::Respond(TaskStatus::Success))
            .end()
            .primitive("right")
                .do_action("r", Operator::Respond(TaskStatus::Success))
            .end()
        .end();
    let b = builder.build().unwrap();
    let mut ctx = BeingContext::default();
    ctx.state_mut().set_paused(true);
    ctx.state_mut().push_partial(1);
    ctx.state_mut().push_partial(2);

    let (plan, status) = b.find_plan(ctx.state_mut());
    assert_eq!(status, htn::DecompositionStatus::Succeeded);
    assert_eq!(plan, std::collections::VecDeque::from(vec![1usize, 2usize]));
    assert_eq!(ctx.state().partial_len(), 0);
    assert!(!ctx.state().paused());
}

#[test]
fn resume_with_spent_queue_falls_back_to_the_root() {
    // paused with nothing queued: the drain yields nothing, so planning
    // falls back to a full decomposition from the root
    let mut builder = BehaviourBuilder::new("test");
    builder
        .selector("root")
            .primitive("only")
                .do_action("ok", Operator::Respond(TaskStatus::Success))
            .end()
        .end();
    let b = builder.build().unwrap();
    let mut ctx = BeingContext::default();
    ctx.state_mut().set_paused(true);

    let (plan, status) = b.find_plan(ctx.state_mut());
    assert_eq!(status, htn::DecompositionStatus::Succeeded);
    assert_eq!(plan, std::collections::VecDeque::from(vec![1usize]));
    assert!(!ctx.state().paused());
}
