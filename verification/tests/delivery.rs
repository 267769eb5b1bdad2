use weaver::delivery::InMemoryDeliveryQueue;
use weaver::ids::TaskId;

#[test]
fn test_push_pop_roundtrip() {
    let mut queue = InMemoryDeliveryQueue::new();
    let task_id = TaskId::new(7);
    queue.push("default", task_id);
    let popped = queue.try_pop("default");
    assert_eq!(popped, Some(task_id));
    assert_eq!(queue.try_pop("default"), None);
}

#[test]
fn test_multiple_namespaces() {
    let mut queue = InMemoryDeliveryQueue::new();
    let task_id1 = TaskId::new(1);
    let task_id2 = TaskId::new(2);
    queue.push("ns1", task_id1);
    queue.push("ns2", task_id2);

    let popped1 = queue.try_pop("ns1");
    let popped2 = queue.try_pop("ns2");

    assert_eq!(popped1, Some(task_id1));
    assert_eq!(popped2, Some(task_id2));
}

#[test]
fn delivery_is_fifo_per_namespace() {
    let mut queue = InMemoryDeliveryQueue::new();
    queue.push("ns", TaskId::new(1));
    queue.push("ns", TaskId::new(2));
    assert_eq!(queue.try_pop("ns"), Some(TaskId::new(1)));
    assert_eq!(queue.try_pop("ns"), Some(TaskId::new(2)));
}
