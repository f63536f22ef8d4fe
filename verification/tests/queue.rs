use tokio_tar::queue::UnpackQueue;
use tokio_tar::EntryType;

#[test]
fn directories_come_out_last() {
    let members = [
        (EntryType::Directory, "a"),
        (EntryType::Regular, "a/x"),
        (EntryType::Directory, "a/b"),
        (EntryType::Symlink, "a/b/y"),
        (EntryType::Directory, "c"),
        (EntryType::Directory, "a"),
    ];
    let mut queue = UnpackQueue::new();
    let mut out = Vec::new();
    for (i, (kind, path)) in members.iter().enumerate() {
        out.extend(queue.offer(*kind, (i, *path)));
    }
    assert_eq!(out, [(1, "a/x"), (3, "a/b/y")]);
    let paths: Vec<Vec<u8>> = queue
        .waiting()
        .iter()
        .map(|(_, path)| path.as_bytes().to_vec())
        .collect();
    assert_eq!(paths.len(), 4);
    out.extend(queue.finish(&paths));
    let places: Vec<usize> = out.iter().map(|(i, _)| *i).collect();
    assert_eq!(places, [1, 3, 4, 2, 0, 5]);
}

#[test]
fn an_empty_queue_has_nothing_left() {
    let mut queue = UnpackQueue::new();
    assert_eq!(queue.offer(EntryType::Link, 7), Some(7));
    assert!(queue.waiting().is_empty());
    assert!(queue.finish(&Vec::new()).is_empty());
}
