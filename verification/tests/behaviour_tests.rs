use htn::behaviour::{BehaviourBuilder, TaskMacro};
use htn::task::Task;
use htn::{BeingContext, Behaviour, Operator, TaskStatus, TaskType};

#[test]
fn behaviour_basic_init() {
    let mut builder = BehaviourBuilder::new("test");
    builder.selector("test").end();
    let behaviour = builder.build().unwrap();

    assert!(behaviour.num_tasks() == 1);
    assert_eq!(behaviour.name, "test");
}

#[test]
fn add_subtask_works() {
    let mut builder = BehaviourBuilder::new("test");
    builder.sequence("test_parent").sequence("test_child").end().end();
    let behav = builder.build().unwrap();
    assert_eq!(behav.num_tasks(), 2);
    assert_eq!(behav.get_task(0).sub_tasks.len(), 1);
}

#[test]
fn behaviour_behaviour_basic_init() {
    let mut builder = BehaviourBuilder::new("test");
    builder.selector("test").end();
    let behaviour = builder.build().unwrap();

    assert!(behaviour.num_tasks() == 1);
    assert_eq!(behaviour.name, "test");
}

#[test]
fn behaviour_add_subtask_works() {
    let mut builder = BehaviourBuilder::new("test");
    builder.sequence("test_parent").sequence("test_child").end().end();
    let behav = builder.build().unwrap();
    assert_eq!(behav.num_tasks(), 2);
    assert_eq!(behav.get_task(0).sub_tasks.len(), 1);
}

#[test]
fn empty_behaviour_is_rejected() {
    let builder = BehaviourBuilder::new("test");
    assert!(builder.build().is_none());
}

struct TestTask;

impl TaskMacro for TestTask {
    fn build(&self, builder: &mut BehaviourBuilder) {
        builder
            .selector("testyboi")
                .primitive("dur")
                    .do_action("print", Operator::Respond(TaskStatus::Success))
                .end()
            .end();
    }
}

#[test]
fn test_task_macro() {
    let mut ctx = BeingContext::default();
    let mut builder = BehaviourBuilder::new("test");
    builder.task_macro(TestTask);
    let b = builder.build().unwrap();
    assert_eq!(b.num_tasks(), 2);
    let _ = &mut ctx;
}

#[test]
fn outline_lists_tasks_in_preorder_with_depth() {
    let mut builder = BehaviourBuilder::new("test");
    builder
        .sequence("root")
            .primitive("first")
            .end()
            .selector("pick")
                .primitive("second")
                .end()
            .end()
        .end();
    let b = builder.build().unwrap();
    let lines = b.outline();
    let expected = vec![
        ("root".to_owned(), 0usize),
        ("first".to_owned(), 1usize),
        ("pick".to_owned(), 1usize),
        ("second".to_owned(), 2usize),
    ];
    assert_eq!(lines, expected);
}

#[test]
fn builder_links_parent_and_child() {
    let mut builder = BehaviourBuilder::new("t");
    builder.sequence("p").primitive("c").end().end();
    let b = builder.build().unwrap();
    assert_eq!(b.get_task(1).parent, Some(0));
    assert_eq!(b.get_task(0).parent, None);
    assert_eq!(b.get_task(0).sub_tasks, vec![1]);
}

#[test]
fn operator_on_compound_is_rejected() {
    let mut t = Task::new("sel", 0, None, TaskType::Selector);
    t.operator = Some(Operator::Respond(TaskStatus::Success));
    assert!(Behaviour::new("bad", vec![t]).is_none());
}

#[test]
fn child_on_primitive_is_rejected() {
    let mut p = Task::new("prim", 0, None, TaskType::Primitive);
    p.sub_tasks.push(1);
    let c = Task::new("c", 1, Some(0), TaskType::Primitive);
    assert!(Behaviour::new("bad", vec![p, c]).is_none());
}

#[test]
fn ill_linked_arena_is_rejected() {
    let mut s = Task::new("seq", 0, None, TaskType::Sequence);
    s.sub_tasks.push(5);
    assert!(Behaviour::new("bad", vec![s]).is_none());
}
