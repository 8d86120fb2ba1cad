use encrpt::failure::Failure;
use encrpt::shred::{shred_file, ShredAction, ShredEvent};

/// Shreds a file of `size` bytes. Gives the names of the actions and what was written.
fn shred(size: u64) -> (Vec<&'static str>, Vec<Vec<u8>>) {
    let mut job = shred_file("plain.txt");
    let mut action = job.first_action();
    assert!(matches!(action, ShredAction::Measure));
    let mut names = Vec::new();
    let mut writes = Vec::new();
    loop {
        let (name, event) = match action {
            ShredAction::Measure => ("measure", ShredEvent::Size(size)),
            ShredAction::Open => ("open", ShredEvent::Done),
            ShredAction::Write(bytes) => {
                writes.push(bytes);
                ("write", ShredEvent::Done)
            }
            ShredAction::Sync => ("sync", ShredEvent::Done),
            ShredAction::Truncate => ("truncate", ShredEvent::Done),
            ShredAction::Remove => ("remove", ShredEvent::Done),
            ShredAction::Finish(result) => {
                assert_eq!(result, Ok(()));
                return (names, writes);
            }
        };
        names.push(name);
        action = job.step(event);
    }
}

#[test]
fn empty_file_is_only_removed() {
    assert_eq!(shred(0), (vec!["measure", "remove"], vec![]));
}

#[test]
fn small_file_is_overwritten_once() {
    let (names, writes) = shred(10);
    assert_eq!(names, ["measure", "open", "write", "sync", "truncate", "remove"]);
    assert_eq!(writes.len(), 1);
    assert_eq!(writes[0].len(), 10);
}

#[test]
fn file_is_overwritten_in_blocks_up_to_its_size() {
    let lengths = |size| shred(size).1.iter().map(|w| w.len()).collect::<Vec<usize>>();
    assert_eq!(lengths(1), [1]);
    assert_eq!(lengths(4095), [4095]);
    assert_eq!(lengths(4096), [4096]);
    assert_eq!(lengths(4097), [4096, 1]);
    assert_eq!(lengths(12288), [4096, 4096, 4096]);
}

#[test]
fn every_block_is_drawn_anew() {
    let (_, writes) = shred(8192);
    assert_ne!(writes[0], writes[1]);
    assert_ne!(writes[0], vec![0; 4096]);
}

#[test]
fn given_block_is_written_as_far_as_needed() {
    let mut job = shred_file("plain.txt");
    job.step(ShredEvent::Size(4100));
    let block: Vec<u8> = (0..4096).map(|i| (i % 255) as u8).collect();
    match job.overwrite(&block) {
        ShredAction::Write(bytes) => assert_eq!(bytes, block),
        _ => panic!("nothing is written"),
    }
    match job.overwrite(&block) {
        ShredAction::Write(bytes) => assert_eq!(bytes, [0, 1, 2, 3]),
        _ => panic!("nothing is written"),
    }
    assert!(matches!(job.step(ShredEvent::Done), ShredAction::Sync));
}

#[test]
fn job_names_the_file_to_shred() {
    assert_eq!(shred_file("plain.txt").path(), "plain.txt");
}

/// Lets the shredding of one byte fail after the given number of steps.
fn break_shredding(after: usize) -> Failure {
    let mut job = shred_file("plain.txt");
    for i in 0..after {
        job.step(if i == 0 {
            ShredEvent::Size(1)
        } else {
            ShredEvent::Done
        });
    }
    match job.step(ShredEvent::Failed) {
        ShredAction::Finish(Err(failure)) => failure,
        _ => panic!("the job goes on"),
    }
}

#[test]
fn broken_shredding_stops() {
    assert_eq!(break_shredding(0), Failure::Io);
    assert_eq!(break_shredding(1), Failure::OpenForShredding);
    for after in 2..6 {
        assert_eq!(break_shredding(after), Failure::Io);
    }
}
