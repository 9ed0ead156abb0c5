use std::cell::RefCell;
use std::collections::VecDeque;
use std::rc::Rc;

use bytes::BytesMut;
use hecs::{Entity, World};
use wasm_dispatch::program::session::{Session, SessionState};
use wasm_dispatch::program::{Clock, Executor, Transport};
use wasm_dispatch::protocol::{AckInfo, Message, ModuleInfo, Type};
use wasm_dispatch::server::components::{
    Module, ModuleTransfer, ModuleTransferState, Session as Device, SessionHealth, SessionStatus,
    SessionStream, Task, TaskState, TaskStatePhase,
};
use wasm_dispatch::server::dispatcher::tick;
use wasm_dispatch::server::systems::{LifecycleSystem, NetworkSystem};
use wasm_dispatch::server::world::{spawn, spawn_module, spawn_task, Components};
use wasm_dispatch::bits::BitSet;

// (module
//   (func (export "run") (param i32 i32) (result i32)
//     (local.get 0)
//     (local.get 1)
//     (i32.add)
//   )
// )
const TEST_MODULE: &[u8] = &[
    0x00, 0x61, 0x73, 0x6d, 0x01, 0x00, 0x00, 0x00, 0x01, 0x07, 0x01, 0x60, 0x02, 0x7f, 0x7f, 0x01,
    0x7f, 0x03, 0x02, 0x01, 0x00, 0x07, 0x07, 0x01, 0x03, 0x72, 0x75, 0x6e, 0x00, 0x00, 0x0a, 0x09,
    0x01, 0x07, 0x00, 0x20, 0x00, 0x20, 0x01, 0x6a, 0x0b,
];

const SECOND: u64 = 1_000_000_000;

#[derive(Default)]
struct Pipe {
    to_worker: Vec<u8>,
    to_dispatcher: Vec<u8>,
}

struct PipeEnd(Rc<RefCell<Pipe>>);

impl Transport for PipeEnd {
    fn read(&mut self, buf: &mut BytesMut) -> Result<usize, String> {
        let bytes = std::mem::take(&mut self.0.borrow_mut().to_worker);
        buf.extend_from_slice(&bytes);
        Ok(bytes.len())
    }

    fn write(&mut self, src: &[u8]) -> Result<usize, String> {
        self.0.borrow_mut().to_dispatcher.extend_from_slice(src);
        Ok(src.len())
    }
}

/// Adds the parameters, as the test module does, after checking that the
/// module arrived whole.
struct Adder;

impl Executor for Adder {
    fn execute(&self, module: &[u8], params: Vec<Type>) -> Result<Vec<Type>, String> {
        if module != TEST_MODULE {
            return Err("module arrived damaged".into());
        }
        let sum = params.iter().fold(0, |acc, x| match x {
            Type::I32(x) => acc + x,
            _ => acc,
        });
        Ok(vec![Type::I32(sum)])
    }
}

struct Still;

impl Clock for Still {
    fn timestamp(&self) -> u64 {
        0
    }
}

struct Client {
    session: Session<PipeEnd, Adder, Still>,
    pipe: Rc<RefCell<Pipe>>,
    device: u64,
}

fn connect(world: &mut World, address: &str) -> Client {
    let pipe = Rc::new(RefCell::new(Pipe::default()));
    let mut session = Session::new(PipeEnd(pipe.clone()), Adder, Still, 1024 * 8);
    session.start().unwrap();
    let device = LifecycleSystem::accept_connection(world, address.to_string(), 0);
    Client { session, pipe, device }
}

fn entity(world: &mut World, id: u64) -> &mut Components {
    world.query_one_mut::<&mut Components>(Entity::from_bits(id).unwrap()).unwrap()
}

/// One round: the worker makes a step, bytes go both ways, the dispatcher
/// makes a tick.
fn round(world: &mut World, clients: &mut [Client], now: u64) {
    for client in clients.iter_mut() {
        client.session.step();
        let arrived = std::mem::take(&mut client.pipe.borrow_mut().to_dispatcher);
        if !arrived.is_empty() {
            assert!(NetworkSystem::receive(world, client.device, &arrived));
        }
    }
    tick(world, now, &vec![]);
    for client in clients.iter_mut() {
        let pending = NetworkSystem::pending(world, client.device);
        NetworkSystem::written(world, client.device, Some(pending.len()));
        client.pipe.borrow_mut().to_worker.extend_from_slice(&pending);
    }
}

fn add_module(world: &mut World, name: &str) -> u64 {
    spawn_module(
        world,
        Module { name: name.to_string(), binary: TEST_MODULE.to_vec(), dependencies: vec![], chunk_size: 16 },
    )
}

fn add_task(world: &mut World, name: &str, module: u64, params: Vec<Type>) -> u64 {
    spawn_task(
        world,
        Task { name: name.into(), params, result: vec![], created_at: 0, require_module: module, priority: 1 },
    )
}

fn create_mock_network(world: &mut World) -> u64 {
    let mut components = Components::empty();
    components.session = Some(Device {
        device_addr: "0.0.0.0:0".to_string(),
        device_ram: 1024,
        message_queue: VecDeque::new(),
        latency: 0,
        modules: vec![],
    });
    components.stream = Some(SessionStream { incoming: BytesMut::new(), outgoing: BytesMut::new() });
    components.health =
        Some(SessionHealth { retries: 0, status: SessionStatus::Connected, last_heartbeat: 0 });
    spawn(world, components)
}

fn create_mock_task(world: &mut World, session_entity: u64) -> u64 {
    const TOTAL_SIZE: usize = 1024;
    const CHUNK_SIZE: usize = 256;

    let total_chunks = TOTAL_SIZE.div_ceil(CHUNK_SIZE);
    let module = spawn_module(
        world,
        Module {
            name: "mock_task".into(),
            binary: vec![0u8; TOTAL_SIZE],
            dependencies: vec![],
            chunk_size: CHUNK_SIZE as u32,
        },
    );
    let mut components = Components::empty();
    components.task = Some(Task {
        name: "mock_task".into(),
        params: vec![Type::I32(0)],
        result: vec![],
        created_at: 0,
        require_module: module,
        priority: 1,
    });
    components.transfer = Some(ModuleTransfer {
        state: ModuleTransferState::Requested,
        acked_chunks: BitSet::zeroed(total_chunks).unwrap(),
        retries: 0,
        session: session_entity,
    });
    components.state = Some(TaskState {
        phase: TaskStatePhase::Queued,
        deadline: None,
        assigned_device: Some(session_entity),
    });
    spawn(world, components)
}

#[test]
fn test_workflow() {
    let mut world = World::new();
    let mut clients = vec![connect(&mut world, "10.0.0.1:1")];
    let module = add_module(&mut world, "test");
    let task = add_task(&mut world, "add", module, vec![Type::I32(10), Type::I32(20)]);

    let mut rounds = 0;
    while entity(&mut world, task).state.unwrap().phase != TaskStatePhase::Completed {
        round(&mut world, &mut clients, rounds);
        rounds += 1;
        assert!(rounds < 20, "the task did not complete");
    }
    assert_eq!(entity(&mut world, task).task.as_ref().unwrap().result, vec![Type::I32(30)]);
    round(&mut world, &mut clients, rounds);
    round(&mut world, &mut clients, rounds);
    assert!(matches!(clients[0].session.worker.state, SessionState::Ready));
    assert!(clients[0].session.worker.module_cache.contains_key("test"));
    let device = clients[0].device;
    assert_eq!(entity(&mut world, device).session.as_ref().unwrap().device_ram, 1024 * 8);
}

#[test]
fn basic_workflow_test_workflow() {
    let mut world = World::new();
    let device = LifecycleSystem::accept_connection(&mut world, "10.0.0.1:1".into(), 0);
    let module = add_module(&mut world, "test");
    let task_entity = add_task(&mut world, "add", module, vec![Type::I32(10), Type::I32(20)]);

    let ready = Message::ClientReady { modules: Vec::new(), device_ram: 1024 * 8 };
    assert!(NetworkSystem::receive(&mut world, device, &ready.encode().unwrap()));
    tick(&mut world, 0, &vec![]);

    let sent = NetworkSystem::pending(&mut world, device);
    NetworkSystem::written(&mut world, device, Some(sent.len()));
    let (task_msg, _) = Message::decode(&sent).unwrap();
    let Message::ServerTask { task_id, module, .. } = task_msg else {
        panic!("Fail to get message");
    };
    assert_eq!(task_id, task_entity);
    assert_eq!(module.name, "test");
    assert_eq!(module.chunk_size, 16);
    assert_eq!(module.total_chunks, 3);

    let ack_msg = Message::ClientAck { task_id, ack_info: AckInfo::Task { modules: vec![] } };
    assert!(NetworkSystem::receive(&mut world, device, &ack_msg.encode().unwrap()));
    tick(&mut world, 1, &vec![]);

    let sent = NetworkSystem::pending(&mut world, device);
    NetworkSystem::written(&mut world, device, Some(sent.len()));
    let mut at = 0;
    for idx in 0..module.total_chunks {
        let (chunk_msg, used) = Message::decode(&sent[at..]).unwrap();
        at += used;
        assert!(matches!(
            chunk_msg,
            Message::ServerModule { chunk_index, .. }
            if chunk_index == idx
        ));
        let ack_msg = Message::ClientAck {
            task_id,
            ack_info: AckInfo::Module { chunk_index: idx, success: true },
        };
        assert!(NetworkSystem::receive(&mut world, device, &ack_msg.encode().unwrap()));
    }
    assert_eq!(at, sent.len());

    let result_msg = Message::ClientResult { task_id, result: vec![Type::I32(30)] };
    assert!(NetworkSystem::receive(&mut world, device, &result_msg.encode().unwrap()));
    tick(&mut world, 2, &vec![]);

    let sent = NetworkSystem::pending(&mut world, device);
    let (ack_msg, _) = Message::decode(&sent).unwrap();
    assert!(matches!(ack_msg, Message::ServerAck { success: true, .. }));
    assert_eq!(entity(&mut world, task_entity).state.unwrap().phase, TaskStatePhase::Completed);
    assert_eq!(entity(&mut world, task_entity).task.as_ref().unwrap().result, vec![Type::I32(30)]);
}

#[test]
fn test_multi_sessions() {
    let module_count = 2;
    let task_count = 10;
    let mut world = World::new();
    let mut clients = vec![connect(&mut world, "10.0.0.1:1"), connect(&mut world, "10.0.0.2:1")];
    let modules: Vec<u64> =
        (0..module_count).map(|i| add_module(&mut world, &format!("module_{}", i))).collect();
    let tasks: Vec<u64> = (0..task_count)
        .map(|i| {
            add_task(
                &mut world,
                &format!("task_{}", i),
                modules[i % module_count],
                vec![Type::I32(i as i32 * 10), Type::I32((i + 1) as i32 * 10)],
            )
        })
        .collect();

    let mut rounds = 0;
    loop {
        round(&mut world, &mut clients, rounds);
        rounds += 1;
        let completed = tasks
            .iter()
            .filter(|task| entity(&mut world, **task).state.unwrap().phase == TaskStatePhase::Completed)
            .count();
        if completed == task_count {
            break;
        }
        assert!(rounds < 200, "only {} of {} tasks completed", completed, task_count);
    }
    for (i, task) in tasks.iter().enumerate() {
        assert_eq!(
            entity(&mut world, *task).task.as_ref().unwrap().result,
            vec![Type::I32(i as i32 * 20 + 10)]
        );
        assert!(entity(&mut world, *task).transfer.is_none());
    }
    let sessions = world.query::<&Components>().iter().filter(|(_, c)| c.health.is_some()).count();
    assert_eq!(sessions, 2);
}

#[test]
fn test_maintain_connection() {
    let mut world = World::new();
    let now = 100 * SECOND;
    let device_entity = LifecycleSystem::accept_connection(&mut world, "0.0.0.0:0".into(), now - 33 * SECOND);

    LifecycleSystem::maintain_connection(&mut world, now, &vec![]);
    assert_eq!(entity(&mut world, device_entity).health.unwrap().status, SessionStatus::Zombie);

    for _ in 0..5 {
        LifecycleSystem::maintain_connection(&mut world, now, &vec![]);
    }
    assert!(world.query_one_mut::<&Components>(Entity::from_bits(device_entity).unwrap()).is_err());
}

#[test]
fn test_process_inbound_heartbeat() {
    let mut world = World::new();
    let session_entity = create_mock_network(&mut world);
    let now = 1_700_000_000 * SECOND;
    let message = Message::Heartbeat { timestamp: now - 5 };

    let latency = entity(&mut world, session_entity).session.as_ref().unwrap().latency;
    assert_eq!(latency, 0);
    assert!(NetworkSystem::receive(&mut world, session_entity, &message.encode().unwrap()));
    NetworkSystem::process_inbound(&mut world, now);
    let latency = entity(&mut world, session_entity).session.as_ref().unwrap().latency;
    assert!(latency > 0);
    assert_eq!(latency, 5);
}

#[test]
fn test_process_inbound_ready() {
    let mut world = World::new();
    let session_entity = create_mock_network(&mut world);
    let message = Message::ClientReady { modules: Vec::new(), device_ram: 2048 };

    let ram = entity(&mut world, session_entity).session.as_ref().unwrap().device_ram;
    assert_eq!(ram, 1024);
    assert!(NetworkSystem::receive(&mut world, session_entity, &message.encode().unwrap()));
    NetworkSystem::process_inbound(&mut world, 1);
    let ram = entity(&mut world, session_entity).session.as_ref().unwrap().device_ram;
    assert_eq!(ram, 2048);
}

#[test]
fn test_process_inbound_ack_result() {
    let mut world = World::new();
    let session_entity = create_mock_network(&mut world);
    let task_entity = create_mock_task(&mut world, session_entity);

    let messages = [
        Message::ClientAck { task_id: task_entity, ack_info: AckInfo::Module { chunk_index: 2, success: true } },
        Message::ClientResult { task_id: task_entity, result: vec![Type::I32(0xcc), Type::I32(0xdd)] },
    ];
    entity(&mut world, session_entity).health.as_mut().unwrap().status = SessionStatus::Occupied;

    let mut encoded = messages.iter().map(|m| m.encode().unwrap()).collect::<Vec<_>>().concat();
    let half = encoded.split_off(encoded.len() / 2);

    assert!(NetworkSystem::receive(&mut world, session_entity, &encoded));
    NetworkSystem::process_inbound(&mut world, 10);
    let acked = entity(&mut world, task_entity).transfer.as_ref().unwrap().acked_chunks.to_vec();
    assert_eq!(acked, vec![false, false, true, false]);
    assert!(NetworkSystem::receive(&mut world, session_entity, &half));
    NetworkSystem::process_inbound(&mut world, 20);

    assert!(entity(&mut world, task_entity).transfer.is_none());
    let phase = entity(&mut world, task_entity).state.unwrap().phase;
    assert_eq!(phase, TaskStatePhase::Completed);
    let result = &entity(&mut world, task_entity).task.as_ref().unwrap().result;
    assert_eq!(*result, vec![Type::I32(0xcc), Type::I32(0xdd)]);
}

#[test]
fn test_process_inbound_disconnect() {
    let mut world = World::new();
    let session_entity = create_mock_network(&mut world);

    NetworkSystem::disconnect(&mut world, session_entity);
    NetworkSystem::process_inbound(&mut world, 1);
    let status = entity(&mut world, session_entity).health.unwrap().status;
    assert_eq!(status, SessionStatus::Disconnected);
}

#[test]
fn test_process_outbound() {
    let mut world = World::new();
    let session_entity = create_mock_network(&mut world);

    entity(&mut world, session_entity).session.as_mut().unwrap().message_queue.push_back(
        Message::ServerTask {
            task_id: 0,
            module: ModuleInfo { name: "mock_task".into(), size: 1024, chunk_size: 256, total_chunks: 4 },
            params: vec![Type::I32(0xaa), Type::I32(0xbb)],
        },
    );

    NetworkSystem::process_outbound(&mut world);

    let buf = NetworkSystem::pending(&mut world, session_entity);
    let decoded = Message::decode(&buf[..]).unwrap().0;
    assert!(matches!(decoded, Message::ServerTask { .. }));
}
