use std::cell::RefCell;
use std::rc::Rc;

use bytes::BytesMut;
use wasm_dispatch::adapter::SystemClock;
use wasm_dispatch::program::session::events::{EventQueue, SessionEvent};
use wasm_dispatch::program::session::{
    Execution, Session, SessionState, TaskMeta, Worker, MAX_MODULE_CACHE_SIZE,
};
use wasm_dispatch::program::{Clock, Error, Executor, Transport};
use wasm_dispatch::protocol::{AckInfo, Message, ModuleInfo, Type};

#[derive(Default)]
struct Wire {
    to_worker: Vec<u8>,
    from_worker: Vec<u8>,
    broken: bool,
    write_limit: Option<usize>,
}

#[derive(Clone, Default)]
struct MockTransport(Rc<RefCell<Wire>>);

impl Transport for MockTransport {
    fn read(&mut self, buf: &mut BytesMut) -> Result<usize, String> {
        let mut wire = self.0.borrow_mut();
        if wire.broken {
            return Err("broken".into());
        }
        let bytes = std::mem::take(&mut wire.to_worker);
        buf.extend_from_slice(&bytes);
        Ok(bytes.len())
    }

    fn write(&mut self, src: &[u8]) -> Result<usize, String> {
        let mut wire = self.0.borrow_mut();
        let count = wire.write_limit.map_or(src.len(), |limit| limit.min(src.len()));
        wire.from_worker.extend_from_slice(&src[..count]);
        Ok(count)
    }
}

struct MockExecutor {
    runs: Rc<RefCell<Vec<(Vec<u8>, Vec<Type>)>>>,
    fail: bool,
}

impl Executor for MockExecutor {
    fn execute(&self, module: &[u8], params: Vec<Type>) -> Result<Vec<Type>, String> {
        self.runs.borrow_mut().push((module.to_vec(), params));
        if self.fail {
            Err("trap".into())
        } else {
            Ok(vec![Type::I32(42)])
        }
    }
}

struct MockClock(Rc<RefCell<u64>>);

impl Clock for MockClock {
    fn timestamp(&self) -> u64 {
        *self.0.borrow()
    }
}

struct Rig {
    session: Session<MockTransport, MockExecutor, MockClock>,
    wire: Rc<RefCell<Wire>>,
    runs: Rc<RefCell<Vec<(Vec<u8>, Vec<Type>)>>>,
    time: Rc<RefCell<u64>>,
}

fn rig(fail: bool) -> Rig {
    let wire = Rc::new(RefCell::new(Wire::default()));
    let runs = Rc::new(RefCell::new(Vec::new()));
    let time = Rc::new(RefCell::new(0));
    let session = Session::new(
        MockTransport(wire.clone()),
        MockExecutor { runs: runs.clone(), fail },
        MockClock(time.clone()),
        8192,
    );
    Rig { session, wire, runs, time }
}

fn send(rig: &mut Rig, message: &Message) {
    rig.wire.borrow_mut().to_worker.extend(message.encode().unwrap());
    rig.session.step();
}

fn sent(rig: &mut Rig) -> Vec<Message> {
    rig.session.process_io();
    let bytes = std::mem::take(&mut rig.wire.borrow_mut().from_worker);
    let mut messages = Vec::new();
    let mut at = 0;
    while at < bytes.len() {
        let (message, used) = Message::decode(&bytes[at..]).unwrap();
        messages.push(message);
        at += used;
    }
    messages
}

fn module(name: &str, size: u64, chunk_size: u32, total_chunks: u32) -> ModuleInfo {
    ModuleInfo { name: name.into(), size, chunk_size, total_chunks }
}

#[test]
fn two_chunk_transfer_on_the_worker() {
    let mut rig = rig(false);
    rig.session.start().unwrap();
    assert_eq!(sent(&mut rig), vec![Message::ClientReady { modules: vec![], device_ram: 8192 }]);

    send(&mut rig, &Message::ServerTask { task_id: 1, module: module("m", 1024, 512, 2), params: vec![] });
    assert_eq!(
        sent(&mut rig),
        vec![Message::ClientAck { task_id: 1, ack_info: AckInfo::Task { modules: vec![] } }]
    );
    assert!(matches!(rig.session.worker.state, SessionState::Transferring { task_id: 1, retries: 0, .. }));

    send(&mut rig, &Message::ServerModule { task_id: 1, chunk_index: 0, chunk_data: vec![7; 512] });
    assert_eq!(
        sent(&mut rig),
        vec![Message::ClientAck { task_id: 1, ack_info: AckInfo::Module { chunk_index: 0, success: true } }]
    );
    assert!(rig.runs.borrow().is_empty());

    send(&mut rig, &Message::ServerModule { task_id: 1, chunk_index: 1, chunk_data: vec![9; 512] });
    assert_eq!(
        sent(&mut rig),
        vec![
            Message::ClientAck { task_id: 1, ack_info: AckInfo::Module { chunk_index: 1, success: true } },
            Message::ClientResult { task_id: 1, result: vec![Type::I32(42)] },
        ]
    );
    let mut image = vec![7u8; 512];
    image.extend_from_slice(&[9; 512]);
    assert_eq!(*rig.runs.borrow(), vec![(image, vec![])]);
    assert!(matches!(rig.session.worker.state, SessionState::Completed));

    send(&mut rig, &Message::ServerAck { task_id: 1, success: true });
    assert!(matches!(rig.session.worker.state, SessionState::Ready));
}

#[test]
fn a_cached_module_is_run_at_once() {
    let mut rig = rig(false);
    rig.session.worker.module_cache.put("m", 4).unwrap();
    rig.session.worker.module_cache.put_slice("m", 0, &[1, 2, 3, 4]).unwrap();
    send(
        &mut rig,
        &Message::ServerTask { task_id: 2, module: module("m", 4, 4, 1), params: vec![Type::I32(3)] },
    );
    assert_eq!(
        sent(&mut rig),
        vec![
            Message::ClientAck { task_id: 2, ack_info: AckInfo::Task { modules: vec!["m".into()] } },
            Message::ClientResult { task_id: 2, result: vec![Type::I32(42)] },
        ]
    );
    assert_eq!(*rig.runs.borrow(), vec![(vec![1, 2, 3, 4], vec![Type::I32(3)])]);
    assert!(matches!(rig.session.worker.state, SessionState::Ready));
}

#[test]
fn a_module_larger_than_the_cache_fails_the_worker() {
    let mut rig = rig(false);
    let size = MAX_MODULE_CACHE_SIZE as u64 + 1;
    send(&mut rig, &Message::ServerTask { task_id: 3, module: module("big", size, 1024, 65), params: vec![] });
    assert!(matches!(rig.session.worker.state, SessionState::Failed));
    send(&mut rig, &Message::ServerAck { task_id: 3, success: false });
    assert!(matches!(rig.session.worker.state, SessionState::Failed));
}

#[test]
fn refused_chunks_are_answered_and_end_the_delivery_after_three_retries() {
    let mut rig = rig(false);
    send(&mut rig, &Message::ServerTask { task_id: 4, module: module("m", 16, 8, 2), params: vec![] });
    sent(&mut rig);
    for round in 1..=4u8 {
        send(&mut rig, &Message::ServerModule { task_id: 4, chunk_index: 5, chunk_data: vec![0; 8] });
        let answers = sent(&mut rig);
        assert_eq!(
            answers[0],
            Message::ClientAck { task_id: 4, ack_info: AckInfo::Module { chunk_index: 5, success: false } }
        );
        if round <= 3 {
            assert_eq!(answers.len(), 1);
            assert!(
                matches!(rig.session.worker.state, SessionState::Transferring { retries, .. } if retries == round)
            );
        } else {
            assert_eq!(
                answers[1],
                Message::ClientAck { task_id: 4, ack_info: AckInfo::Task { modules: vec!["m".into()] } }
            );
            assert!(matches!(rig.session.worker.state, SessionState::Failed));
        }
    }
}

#[test]
fn a_chunk_for_another_task_fails_the_worker_and_a_stray_chunk_is_ignored() {
    let mut rig = rig(false);
    send(&mut rig, &Message::ServerModule { task_id: 9, chunk_index: 0, chunk_data: vec![1] });
    assert!(matches!(rig.session.worker.state, SessionState::Ready));
    assert!(sent(&mut rig).is_empty());
    send(&mut rig, &Message::ServerTask { task_id: 5, module: module("m", 8, 8, 1), params: vec![] });
    send(&mut rig, &Message::ServerModule { task_id: 6, chunk_index: 0, chunk_data: vec![0; 8] });
    assert!(matches!(rig.session.worker.state, SessionState::Failed));
}

#[test]
fn a_failing_executor_or_channel_fails_the_worker() {
    let mut failing = rig(true);
    send(&mut failing, &Message::ServerTask { task_id: 7, module: module("m", 2, 2, 1), params: vec![] });
    send(&mut failing, &Message::ServerModule { task_id: 7, chunk_index: 0, chunk_data: vec![1, 2] });
    assert!(matches!(failing.session.worker.state, SessionState::Failed));

    let mut broken = rig(false);
    broken.wire.borrow_mut().broken = true;
    broken.session.step();
    assert!(matches!(broken.session.worker.state, SessionState::Failed));
}

#[test]
fn frames_are_taken_whole_and_unwritten_bytes_stay() {
    let mut rig = rig(false);
    let frame = Message::Heartbeat { timestamp: 5 }.encode().unwrap();
    rig.wire.borrow_mut().to_worker.extend_from_slice(&frame[..2]);
    rig.session.process_io();
    assert_eq!(rig.session.worker.events.len(), 0);
    rig.wire.borrow_mut().to_worker.extend_from_slice(&frame[2..]);
    rig.wire.borrow_mut().to_worker.extend_from_slice(&[0, 1, 200]);
    rig.wire.borrow_mut().to_worker.extend_from_slice(&frame);
    rig.session.process_io();
    assert_eq!(rig.session.worker.events.len(), 2);
    assert!(rig.session.worker.incoming.is_empty());

    rig.wire.borrow_mut().write_limit = Some(0);
    rig.session.worker.send_heartbeat(77).unwrap();
    rig.session.process_io();
    assert_eq!(
        &rig.session.worker.outgoing[..],
        &Message::Heartbeat { timestamp: 77 }.encode().unwrap()[..]
    );
    rig.wire.borrow_mut().write_limit = Some(1);
    assert_eq!(sent(&mut rig), vec![Message::Heartbeat { timestamp: 77 }]);
}

#[test]
fn an_overdue_task_times_out() {
    let mut rig = rig(false);
    rig.session.worker.state = SessionState::Executing { task_id: 8, deadline: 10 };
    *rig.time.borrow_mut() = 10;
    rig.session.step();
    assert!(matches!(rig.session.worker.state, SessionState::Executing { .. }));
    *rig.time.borrow_mut() = 11;
    rig.session.step();
    assert_eq!(rig.session.worker.events.len(), 1);
    rig.session.step();
    assert!(matches!(rig.session.worker.state, SessionState::Failed));
}

#[test]
fn the_worker_decides_and_leaves_the_run_to_the_caller() {
    let mut worker = Worker::new(1, 64);
    worker.module_cache.put("m", 2).unwrap();
    let task = Message::ServerTask { task_id: 1, module: module("m", 2, 2, 1), params: vec![Type::I64(5)] };
    let run: Execution = worker.accept(&task).unwrap().unwrap();
    assert_eq!((run.task_id, run.module.as_str(), &run.params[..]), (1, "m", &[Type::I64(5)][..]));
    assert_eq!(worker.module_bytes("m"), Some(&[0u8, 0][..]));
    assert_eq!(worker.module_bytes("n"), None);
    assert_eq!(worker.finish(1, Err("bad".into())), Err(Error::Execution("bad".into())));
    assert_eq!(worker.finish(1, Ok(vec![Type::Void])), Ok(()));
    let long = Message::ClientReady { modules: vec!["a".repeat(70000)], device_ram: 0 };
    assert_eq!(
        worker.send_message(&long),
        Err(Error::Protocol(wasm_dispatch::protocol::Error::InvalidMessage))
    );
    assert!(!worker.time_out(1));
    worker.sent(usize::MAX);
    assert!(worker.outgoing.is_empty());
    worker.fail();
    assert!(matches!(worker.state, SessionState::Failed));
}

#[test]
fn a_chunk_for_another_task_is_a_fault_of_its_own() {
    let mut worker = Worker::new(1, 64);
    let task = Message::ServerTask { task_id: 5, module: module("m", 8, 8, 1), params: vec![] };
    assert!(worker.accept(&task).unwrap().is_none());
    let stray = Message::ServerModule { task_id: 6, chunk_index: 0, chunk_data: vec![0; 8] };
    assert_eq!(worker.accept(&stray).err(), Some(Error::TaskNotFound(6)));
    worker.module_cache.remove("m");
    let chunk = Message::ServerModule { task_id: 5, chunk_index: 0, chunk_data: vec![0; 8] };
    assert_eq!(worker.accept(&chunk).err(), Some(Error::CacheEntryNotFound("m".into())));
}

#[test]
fn events_leave_the_queue_in_the_order_they_came() {
    let mut queue = EventQueue::new();
    assert_eq!(queue.pop(), None);
    queue.push(SessionEvent::TaskTimeout(1));
    queue.push(SessionEvent::Message(Message::Heartbeat { timestamp: 2 }));
    assert_eq!(queue.len(), 2);
    assert_eq!(queue.pop(), Some(SessionEvent::TaskTimeout(1)));
    assert_eq!(queue.pop(), Some(SessionEvent::Message(Message::Heartbeat { timestamp: 2 })));
    assert_eq!(queue.pop(), None);
    let meta = TaskMeta::new("m".into(), vec![Type::Void]);
    assert_eq!((meta.module.as_str(), meta.params.len()), ("m", 1));
}

#[test]
fn the_system_clock_does_not_run_backwards() {
    let clock = SystemClock;
    let first = clock.timestamp();
    let second = clock.timestamp();
    assert!(second >= first);
    assert!(first > 1_600_000_000);
}
