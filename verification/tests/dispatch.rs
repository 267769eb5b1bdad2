use weaver::dispatch::{DirectDispatch, DispatchStrategy};

#[test]
fn test_direct_dispatch() {
    let dispatcher = DirectDispatch::new();
    let task_type = "example_task";
    let handler_id = dispatcher.select_handler(task_type).unwrap();
    assert_eq!(handler_id, task_type);
}
