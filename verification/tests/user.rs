use acore::user::get_alloc_num;
use acore::user::process::buffer::{read_from_buffer, write_to_buffer};
use acore::user::process::manager::{decode_request, init_processes, ProcessManager, Request, INIT_PID, MANAGER_PID};
use acore::user::process::process::Process;
use acore::user::{sleep, wait, waitpid, WaitStep, ALLOC_MINIMUM, USER_HEAP_SIZE};

#[test]
fn waiting_retries_until_a_child_has_exited() {
    assert_eq!(wait(-2), WaitStep::Retry);
    assert_eq!(wait(-1), WaitStep::Done(-1));
    assert_eq!(wait(7), WaitStep::Done(7));
    assert_eq!(waitpid(7, -2), WaitStep::Retry);
    assert_eq!(waitpid(7, 7), WaitStep::Done(7));
}

#[test]
fn sleeping_lasts_the_whole_period() {
    assert!(sleep(100, 50, 100));
    assert!(sleep(100, 50, 149));
    assert!(!sleep(100, 50, 150));
    assert!(!sleep(100, 0, 100));
}

#[test]
fn user_heap_tree_size() {
    assert_eq!(get_alloc_num(USER_HEAP_SIZE, ALLOC_MINIMUM), 128);
}

#[test]
fn user_buffers_copy_words() {
    let mut page = [0usize; 4];
    write_to_buffer(&mut page, &[1, 2]);
    assert_eq!(page, [1, 2, 0, 0]);
    let r: [usize; 3] = read_from_buffer(&page);
    assert_eq!(r, [1, 2, 0]);
}

fn started() -> ProcessManager {
    let mut pm = ProcessManager::new();
    init_processes(&mut pm);
    pm
}

#[test]
fn init_and_manager_are_registered_at_start() {
    let pm = started();
    assert_eq!(pm.size(), 2);
    assert_eq!(pm.find(INIT_PID), Some(INIT_PID));
    assert_eq!(pm.find(MANAGER_PID), Some(MANAGER_PID));
    assert_eq!(pm.find(2), None);
}

#[test]
fn a_forked_child_is_waited_for_after_it_exits() {
    let mut pm = started();
    assert_eq!(pm.handle_fork(INIT_PID, 2), [2]);
    assert_eq!(pm.find(2), Some(2));
    // not exited yet
    assert_eq!(pm.handle_waitpid(INIT_PID, 2), [1, usize::MAX, 0]);
    pm.handle_exit(2, 42);
    assert_eq!(pm.find(2), None);
    assert_eq!(pm.handle_waitpid(INIT_PID, 2), [1, 2, 42]);
    // once collected, the child is gone
    assert_eq!(pm.handle_waitpid(INIT_PID, 2), [0, 0, 0]);
}

#[test]
fn waiting_for_any_child_takes_the_first_exited_one() {
    let mut pm = started();
    pm.handle_fork(INIT_PID, 2);
    pm.handle_fork(INIT_PID, 3);
    pm.handle_exit(3, 5);
    assert_eq!(pm.handle_waitpid(INIT_PID, usize::MAX), [1, 3, 5]);
    assert_eq!(pm.handle_waitpid(INIT_PID, usize::MAX), [1, usize::MAX, 0]);
    // a process with no children has nothing to wait for
    assert_eq!(pm.handle_waitpid(2, usize::MAX), [0, 0, 0]);
}

#[test]
fn orphans_are_adopted_by_init() {
    let mut pm = started();
    pm.handle_fork(INIT_PID, 2);
    pm.handle_fork(2, 3);
    pm.handle_exit(3, 9);
    pm.handle_exit(2, 1);
    // 3 now belongs to init, which can collect it
    assert_eq!(pm.handle_waitpid(INIT_PID, 3), [1, 3, 9]);
    assert_eq!(pm.handle_waitpid(INIT_PID, 2), [1, 2, 1]);
}

#[test]
fn processes_can_be_inserted_and_removed() {
    let mut pm = ProcessManager::new();
    pm.insert(Process::new(4));
    assert_eq!(pm.find(4), Some(4));
    assert_eq!(pm.size(), 1);
    pm.remove(4);
    assert_eq!(pm.find(4), None);
    assert_eq!(pm.size(), 0);
}

#[test]
fn manager_requests_are_read_from_three_words() {
    assert_eq!(decode_request([220, 5, 0]), Request::Fork { parent: 5 });
    assert_eq!(decode_request([93, 5, usize::MAX]), Request::Exit { pid: 5, exit_code: -1 });
    assert_eq!(decode_request([260, 5, 7]), Request::Waitpid { pid: 5, target: 7 });
    assert_eq!(decode_request([64, 5, 7]), Request::Other);
}
