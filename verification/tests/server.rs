use std::collections::VecDeque;

use hecs::{Entity, World};
use wasm_dispatch::bits::BitSet;
use wasm_dispatch::protocol::{AckInfo, Message, ModuleInfo, Type};
use wasm_dispatch::server::components::{
    Module, ModuleTransfer, ModuleTransferState, Session, SessionHealth, SessionStatus,
    SessionStream, Task, TaskState, TaskStatePhase,
};
use wasm_dispatch::server::dispatcher::{initialize_modules_and_tasks, tick, CHUNK_SIZE};
use wasm_dispatch::server::inspector::{phase_name, snapshot, Progress};
use wasm_dispatch::server::systems::{LifecycleSystem, NetworkSystem, TaskSystem};
use wasm_dispatch::server::world::{handles, new_world, spawn, spawn_module, spawn_task, Components};
use wasm_dispatch::task::{load_tasks, StaticModule};

const SECOND: u64 = 1_000_000_000;

fn entity(world: &mut World, id: u64) -> &mut Components {
    world.query_one_mut::<&mut Components>(Entity::from_bits(id).unwrap()).unwrap()
}

fn is_alive(world: &World, id: u64) -> bool {
    Entity::from_bits(id).is_some_and(|e| world.contains(e))
}

fn create_mock_module(world: &mut World, name: &str, size: usize, chunk_size: usize) -> u64 {
    spawn_module(
        world,
        Module {
            name: name.to_string(),
            binary: (0..size).map(|i| i as u8).collect(),
            dependencies: vec![],
            chunk_size: chunk_size as u32,
        },
    )
}

fn create_mock_task(world: &mut World, name: &str, module_entity: u64, priority: u8) -> u64 {
    spawn_task(
        world,
        Task {
            name: name.to_string(),
            params: vec![Type::I32(0)],
            result: vec![],
            created_at: 0,
            require_module: module_entity,
            priority,
        },
    )
}

fn create_mock_device(world: &mut World, ram: usize, cached: &[&str]) -> u64 {
    let mut components = Components::empty();
    components.session = Some(Session {
        device_addr: "0.0.0.0:0".to_string(),
        device_ram: ram as u64,
        message_queue: VecDeque::new(),
        latency: 0,
        modules: cached.iter().map(|name| name.to_string()).collect(),
    });
    components.stream = Some(SessionStream {
        incoming: bytes::BytesMut::new(),
        outgoing: bytes::BytesMut::new(),
    });
    components.health = Some(SessionHealth {
        retries: 0,
        status: SessionStatus::Connected,
        last_heartbeat: 0,
    });
    spawn(world, components)
}

fn queue_len(world: &mut World, device: u64) -> usize {
    entity(world, device).session.as_ref().unwrap().message_queue.len()
}

fn state(world: &mut World, task: u64) -> TaskState {
    entity(world, task).state.unwrap()
}

fn deliver(world: &mut World, session: u64, messages: &[Message], now: u64) {
    for message in messages {
        assert!(NetworkSystem::receive(world, session, &message.encode().unwrap()));
    }
    NetworkSystem::process_inbound(world, now);
}

#[test]
fn test_assign_tasks() {
    let mut world = World::new();
    let large_module = create_mock_module(&mut world, "large_module", 50, 16);
    let small_module = create_mock_module(&mut world, "small_module", 25, 16);
    let tasks = (0..6)
        .map(|i| {
            if i % 2 == 0 {
                create_mock_task(&mut world, "large_task", large_module, 1)
            } else {
                create_mock_task(&mut world, "small_task", small_module, 1)
            }
        })
        .collect::<Vec<_>>();
    let large_device = create_mock_device(&mut world, 2048 + 60, &[]);
    let small_device = create_mock_device(&mut world, 2048 + 35, &["small_module"]);

    let test_phases = vec![
        (vec![0, 1], vec![large_device, small_device]),
        (vec![2, 3], vec![large_device, small_device]),
        (vec![4, 5], vec![large_device, small_device]),
    ];

    for (task_indices, expected_devices) in test_phases {
        TaskSystem::assign_tasks(&mut world);

        for (i, &device) in task_indices.iter().zip(expected_devices.iter()) {
            let state = state(&mut world, tasks[*i]);
            assert_eq!(state.phase, TaskStatePhase::Distributing);
            assert_eq!(state.assigned_device, Some(device));
        }

        for &device in expected_devices.iter() {
            entity(&mut world, device).health.as_mut().unwrap().status = SessionStatus::Connected;
        }
    }
    TaskSystem::assign_tasks(&mut world);
    for task in tasks {
        assert_eq!(state(&mut world, task).phase, TaskStatePhase::Distributing);
    }
}

#[test]
fn test_transfer_chunks() {
    let mut world = World::new();
    let module = create_mock_module(&mut world, "mock_module", 25, 16);
    let task = create_mock_task(&mut world, "mock_task", module, 1);
    let device = create_mock_device(&mut world, 4096, &[]);

    TaskSystem::assign_tasks(&mut world);
    assert_eq!(queue_len(&mut world, device), 1);

    entity(&mut world, task).transfer.as_mut().unwrap().state = ModuleTransferState::Requested;
    entity(&mut world, device).session.as_mut().unwrap().message_queue.clear();
    TaskSystem::transfer_chunks(&mut world);

    let chunks = entity(&mut world, device)
        .session
        .as_ref()
        .unwrap()
        .message_queue
        .iter()
        .map(|message: &Message| match message {
            Message::ServerModule { chunk_data, .. } => chunk_data.len(),
            _ => unreachable!(),
        })
        .collect::<Vec<_>>();
    assert_eq!(chunks, vec![16, 9]);

    entity(&mut world, task).transfer.as_mut().unwrap().state = ModuleTransferState::Requested;
    entity(&mut world, task).transfer.as_mut().unwrap().acked_chunks.set(0, true);
    entity(&mut world, device).session.as_mut().unwrap().message_queue.clear();
    TaskSystem::transfer_chunks(&mut world);
    assert_eq!(queue_len(&mut world, device), 1);
}

#[test]
fn test_finalize_tasks() {
    let mut world = World::new();
    let module = create_mock_module(&mut world, "mock_module", 25, 16);
    let task = create_mock_task(&mut world, "mock_task", module, 1);
    let device = create_mock_device(&mut world, 4096, &[]);

    TaskSystem::assign_tasks(&mut world);
    assert_eq!(queue_len(&mut world, device), 1);
    entity(&mut world, task).transfer.as_mut().unwrap().state = ModuleTransferState::Requested;
    TaskSystem::transfer_chunks(&mut world);

    entity(&mut world, task).transfer.as_mut().unwrap().acked_chunks.set(0, true);
    TaskSystem::finalize_transfer(&mut world, 0);
    assert_eq!(
        entity(&mut world, task).transfer.as_ref().unwrap().state,
        ModuleTransferState::Transferring
    );

    entity(&mut world, task).transfer.as_mut().unwrap().acked_chunks.set(1, true);
    TaskSystem::finalize_transfer(&mut world, 0);
    assert!(entity(&mut world, task).transfer.is_none());
}

#[test]
fn assignment_advertises_the_task_and_attaches_a_fresh_transfer() {
    let mut world = new_world();
    let module = create_mock_module(&mut world, "m", 2560, 1024);
    let task = create_mock_task(&mut world, "t", module, 1);
    let device = create_mock_device(&mut world, 1 << 20, &[]);
    TaskSystem::assign_tasks(&mut world);

    assert_eq!(
        state(&mut world, task),
        TaskState { phase: TaskStatePhase::Distributing, assigned_device: Some(device), deadline: None }
    );
    let transfer = entity(&mut world, task).transfer.as_ref().unwrap();
    assert_eq!(transfer.state, ModuleTransferState::Pending);
    assert_eq!(transfer.acked_chunks.to_vec(), vec![false, false, false]);
    assert_eq!(transfer.retries, 0);
    assert_eq!(transfer.session, device);
    assert_eq!(entity(&mut world, device).health.unwrap().status, SessionStatus::Occupied);
    let queue: Vec<Message> =
        entity(&mut world, device).session.as_ref().unwrap().message_queue.iter().cloned().collect();
    assert_eq!(
        queue,
        vec![Message::ServerTask {
            task_id: task,
            module: ModuleInfo { name: "m".into(), size: 2560, chunk_size: 1024, total_chunks: 3 },
            params: vec![Type::I32(0)],
        }]
    );
}

#[test]
fn scheduler_prefers_the_device_that_caches_the_module() {
    let mut world = World::new();
    let large = create_mock_module(&mut world, "large", 50, 16);
    let small = create_mock_module(&mut world, "small", 25, 16);
    let large_task = create_mock_task(&mut world, "l", large, 1);
    let small_task = create_mock_task(&mut world, "s", small, 1);
    let d_large = create_mock_device(&mut world, 2108, &[]);
    let d_small = create_mock_device(&mut world, 2083, &["small"]);
    TaskSystem::assign_tasks(&mut world);
    assert_eq!(state(&mut world, small_task).assigned_device, Some(d_small));
    assert_eq!(state(&mut world, large_task).assigned_device, Some(d_large));
}

#[test]
fn scheduler_takes_the_cached_device_with_most_ram_and_breaks_ties_by_handle() {
    let mut world = World::new();
    let module = create_mock_module(&mut world, "m", 10, 4);
    let task = create_mock_task(&mut world, "t", module, 1);
    let _bigger_without = create_mock_device(&mut world, 9000, &[]);
    let cached_small = create_mock_device(&mut world, 3000, &["m"]);
    let cached_big_first = create_mock_device(&mut world, 4000, &["m"]);
    let _cached_big_second = create_mock_device(&mut world, 4000, &["m"]);
    TaskSystem::assign_tasks(&mut world);
    assert_eq!(state(&mut world, task).assigned_device, Some(cached_big_first));
    assert_eq!(entity(&mut world, cached_small).health.unwrap().status, SessionStatus::Connected);
}

#[test]
fn scheduler_orders_tasks_by_size_then_priority_then_handle() {
    let mut world = World::new();
    let small = create_mock_module(&mut world, "small", 10, 4);
    let large = create_mock_module(&mut world, "large", 20, 4);
    let small_task = create_mock_task(&mut world, "a", small, 0);
    let large_low = create_mock_task(&mut world, "b", large, 7);
    let large_high = create_mock_task(&mut world, "c", large, 2);
    let large_high_later = create_mock_task(&mut world, "d", large, 2);
    let first = create_mock_device(&mut world, 9000, &[]);
    let second = create_mock_device(&mut world, 8000, &[]);
    let third = create_mock_device(&mut world, 7000, &[]);
    TaskSystem::assign_tasks(&mut world);
    assert_eq!(state(&mut world, large_high).assigned_device, Some(first));
    assert_eq!(state(&mut world, large_high_later).assigned_device, Some(second));
    assert_eq!(state(&mut world, large_low).assigned_device, Some(third));
    assert_eq!(state(&mut world, small_task).phase, TaskStatePhase::Queued);
}

#[test]
fn a_device_without_room_or_connection_gets_no_task() {
    let mut world = World::new();
    let module = create_mock_module(&mut world, "m", 100, 16);
    let task = create_mock_task(&mut world, "t", module, 1);
    let too_small = create_mock_device(&mut world, 2147, &[]);
    let occupied = create_mock_device(&mut world, 1 << 20, &[]);
    entity(&mut world, occupied).health.as_mut().unwrap().status = SessionStatus::Occupied;
    TaskSystem::assign_tasks(&mut world);
    assert_eq!(state(&mut world, task).phase, TaskStatePhase::Queued);
    assert!(entity(&mut world, task).transfer.is_none());
    assert_eq!(queue_len(&mut world, too_small), 0);
    entity(&mut world, too_small).session.as_mut().unwrap().device_ram = 2148;
    TaskSystem::assign_tasks(&mut world);
    assert_eq!(state(&mut world, task).assigned_device, Some(too_small));
}

#[test]
fn a_task_without_a_module_that_can_be_delivered_stays_queued() {
    let mut world = World::new();
    let unchunked = create_mock_module(&mut world, "m", 100, 0);
    let first = create_mock_task(&mut world, "t", unchunked, 1);
    let second = create_mock_task(&mut world, "u", 12345, 1);
    create_mock_device(&mut world, 1 << 20, &[]);
    TaskSystem::assign_tasks(&mut world);
    assert_eq!(state(&mut world, first).phase, TaskStatePhase::Queued);
    assert_eq!(state(&mut world, second).phase, TaskStatePhase::Queued);
}

#[test]
fn cache_hit_shortcut_sends_no_chunk() {
    let mut world = World::new();
    let module = create_mock_module(&mut world, "m", 1024, 512);
    let task = create_mock_task(&mut world, "t", module, 1);
    let device = create_mock_device(&mut world, 1 << 20, &[]);
    tick(&mut world, 0, &vec![]);
    assert_eq!(state(&mut world, task).phase, TaskStatePhase::Distributing);
    let sent = NetworkSystem::pending(&mut world, device);
    NetworkSystem::written(&mut world, device, Some(sent.len()));
    let (advert, consumed) = Message::decode(&sent).unwrap();
    assert_eq!(consumed, sent.len());
    assert!(matches!(advert, Message::ServerTask { task_id, .. } if task_id == task));

    let ack = Message::ClientAck { task_id: task, ack_info: AckInfo::Task { modules: vec!["m".into()] } };
    assert!(NetworkSystem::receive(&mut world, device, &ack.encode().unwrap()));
    tick(&mut world, SECOND, &vec![]);

    assert_eq!(state(&mut world, task).phase, TaskStatePhase::Executing);
    assert_eq!(state(&mut world, task).deadline, Some(61 * SECOND));
    assert!(entity(&mut world, task).transfer.is_none());
    assert_eq!(entity(&mut world, device).session.as_ref().unwrap().modules, vec!["m".to_string()]);
    assert!(NetworkSystem::pending(&mut world, device).is_empty());
    assert_eq!(queue_len(&mut world, device), 0);
}

#[test]
fn two_chunk_transfer_runs_to_completion() {
    let mut world = World::new();
    let module = create_mock_module(&mut world, "m", 1024, 512);
    let task = create_mock_task(&mut world, "t", module, 1);
    let device = create_mock_device(&mut world, 1 << 20, &[]);
    tick(&mut world, 0, &vec![]);
    let sent = NetworkSystem::pending(&mut world, device);
    NetworkSystem::written(&mut world, device, Some(sent.len()));

    let ack = Message::ClientAck { task_id: task, ack_info: AckInfo::Task { modules: vec![] } };
    assert!(NetworkSystem::receive(&mut world, device, &ack.encode().unwrap()));
    tick(&mut world, 1, &vec![]);
    assert_eq!(
        entity(&mut world, task).transfer.as_ref().unwrap().state,
        ModuleTransferState::Transferring
    );
    let sent = NetworkSystem::pending(&mut world, device);
    NetworkSystem::written(&mut world, device, Some(sent.len()));
    let (first, used) = Message::decode(&sent).unwrap();
    let (second, rest) = Message::decode(&sent[used..]).unwrap();
    assert_eq!(used + rest, sent.len());
    let binary: Vec<u8> = (0..1024).map(|i| i as u8).collect();
    assert_eq!(
        first,
        Message::ServerModule { task_id: task, chunk_index: 0, chunk_data: binary[..512].to_vec() }
    );
    assert_eq!(
        second,
        Message::ServerModule { task_id: task, chunk_index: 1, chunk_data: binary[512..].to_vec() }
    );

    let acks = [
        Message::ClientAck { task_id: task, ack_info: AckInfo::Module { chunk_index: 0, success: true } },
        Message::ClientAck { task_id: task, ack_info: AckInfo::Module { chunk_index: 1, success: true } },
    ];
    for ack in &acks {
        assert!(NetworkSystem::receive(&mut world, device, &ack.encode().unwrap()));
    }
    tick(&mut world, 2, &vec![]);
    assert_eq!(state(&mut world, task).phase, TaskStatePhase::Executing);
    assert!(entity(&mut world, task).transfer.is_none());

    let result = Message::ClientResult { task_id: task, result: vec![Type::I32(42)] };
    assert!(NetworkSystem::receive(&mut world, device, &result.encode().unwrap()));
    tick(&mut world, 3, &vec![]);
    assert_eq!(state(&mut world, task).phase, TaskStatePhase::Completed);
    assert!(entity(&mut world, task).transfer.is_none());
    assert_eq!(entity(&mut world, task).task.as_ref().unwrap().result, vec![Type::I32(42)]);
    assert_eq!(entity(&mut world, device).health.unwrap().status, SessionStatus::Connected);
    let sent = NetworkSystem::pending(&mut world, device);
    assert_eq!(
        Message::decode(&sent).unwrap(),
        (Message::ServerAck { task_id: task, success: true }, sent.len())
    );
}

#[test]
fn inbound_messages_are_applied_by_status() {
    let mut world = World::new();
    let device = create_mock_device(&mut world, 1024, &[]);
    deliver(
        &mut world,
        device,
        &[
            Message::ClientReady { modules: vec!["a".into(), "b".into()], device_ram: 2048 },
            Message::Heartbeat { timestamp: 40 },
        ],
        100,
    );
    let session = entity(&mut world, device).session.as_ref().unwrap();
    assert_eq!(session.device_ram, 2048);
    assert_eq!(session.modules, vec!["a".to_string(), "b".to_string()]);
    assert_eq!(session.latency, 60);
    assert_eq!(entity(&mut world, device).health.unwrap().last_heartbeat, 100);

    entity(&mut world, device).health.as_mut().unwrap().status = SessionStatus::Occupied;
    deliver(
        &mut world,
        device,
        &[
            Message::ClientReady { modules: vec![], device_ram: 1 },
            Message::Heartbeat { timestamp: 500 },
        ],
        200,
    );
    let session = entity(&mut world, device).session.as_ref().unwrap();
    assert_eq!(session.device_ram, 2048);
    assert_eq!(session.latency, 0);
    assert_eq!(entity(&mut world, device).health.unwrap().last_heartbeat, 200);
}

#[test]
fn acknowledgments_and_results_reach_the_task() {
    let mut world = World::new();
    let module = create_mock_module(&mut world, "mock_task", 1024, 256);
    let task = create_mock_task(&mut world, "t", module, 1);
    let device = create_mock_device(&mut world, 1 << 20, &[]);
    TaskSystem::assign_tasks(&mut world);
    entity(&mut world, device).session.as_mut().unwrap().message_queue.clear();

    let acks = [
        Message::ClientAck { task_id: task, ack_info: AckInfo::Module { chunk_index: 2, success: true } },
        Message::ClientAck { task_id: task, ack_info: AckInfo::Module { chunk_index: 9, success: true } },
    ];
    deliver(&mut world, device, &acks, 4);
    let transfer = entity(&mut world, task).transfer.as_ref().unwrap();
    assert_eq!(transfer.acked_chunks.to_vec(), vec![false, false, true, false]);

    let messages = [
        Message::ClientAck { task_id: task, ack_info: AckInfo::Module { chunk_index: 2, success: false } },
        Message::ClientResult { task_id: task, result: vec![Type::I32(0xcc), Type::I32(0xdd)] },
    ];
    let bytes: Vec<u8> = messages.iter().flat_map(|m| m.encode().unwrap()).collect();
    let half = bytes.len() / 2;
    assert!(NetworkSystem::receive(&mut world, device, &bytes[..half]));
    NetworkSystem::process_inbound(&mut world, 5);
    assert!(NetworkSystem::receive(&mut world, device, &bytes[half..]));
    NetworkSystem::process_inbound(&mut world, 6);

    assert!(entity(&mut world, task).transfer.is_none());
    assert_eq!(state(&mut world, task).phase, TaskStatePhase::Completed);
    assert_eq!(
        entity(&mut world, task).task.as_ref().unwrap().result,
        vec![Type::I32(0xcc), Type::I32(0xdd)]
    );
    assert_eq!(entity(&mut world, device).health.unwrap().status, SessionStatus::Connected);
    let queue: Vec<Message> =
        entity(&mut world, device).session.as_ref().unwrap().message_queue.iter().cloned().collect();
    assert_eq!(queue, vec![Message::ServerAck { task_id: task, success: true }]);
    let stream = entity(&mut world, device).stream.as_ref().unwrap();
    assert!(stream.incoming.is_empty());
}

#[test]
fn a_partial_frame_waits_and_a_bad_frame_is_dropped() {
    let mut world = World::new();
    let device = create_mock_device(&mut world, 1024, &[]);
    let good = Message::Heartbeat { timestamp: 1 }.encode().unwrap();
    let mut bytes = vec![0, 2, 99, 0];
    bytes.extend_from_slice(&good);
    bytes.extend_from_slice(&good[..good.len() - 1]);
    assert!(NetworkSystem::receive(&mut world, device, &bytes));
    NetworkSystem::process_inbound(&mut world, 11);
    assert_eq!(entity(&mut world, device).session.as_ref().unwrap().latency, 10);
    assert_eq!(
        &entity(&mut world, device).stream.as_ref().unwrap().incoming[..],
        &good[..good.len() - 1]
    );
    assert!(!NetworkSystem::receive(&mut world, 77, &[1]));
}

#[test]
fn a_second_bad_frame_in_one_pass_disconnects_the_session() {
    let mut world = World::new();
    let device = create_mock_device(&mut world, 1024, &[]);
    let good = Message::Heartbeat { timestamp: 1 }.encode().unwrap();
    let mut bytes = vec![0, 1, 99];
    bytes.extend_from_slice(&good);
    bytes.extend_from_slice(&[0, 2, 6, 255]);
    bytes.extend_from_slice(&good);
    assert!(NetworkSystem::receive(&mut world, device, &bytes));
    NetworkSystem::process_inbound(&mut world, 11);
    assert_eq!(entity(&mut world, device).health.unwrap().status, SessionStatus::Disconnected);
    assert_eq!(entity(&mut world, device).health.unwrap().last_heartbeat, 11);
    assert_eq!(&entity(&mut world, device).stream.as_ref().unwrap().incoming[..], &good[..]);
}

#[test]
fn outbound_encodes_the_queue_in_order_and_keeps_what_was_not_written() {
    let mut world = World::new();
    let device = create_mock_device(&mut world, 1024, &[]);
    let first = Message::ServerTask {
        task_id: 0,
        module: ModuleInfo { name: "mock_task".into(), size: 1024, chunk_size: 256, total_chunks: 4 },
        params: vec![Type::I32(0xaa), Type::I32(0xbb)],
    };
    let too_long = Message::ServerModule { task_id: 1, chunk_index: 0, chunk_data: vec![0; 70000] };
    let second = Message::ServerAck { task_id: 3, success: false };
    for message in [first.clone(), too_long, second.clone()] {
        entity(&mut world, device).session.as_mut().unwrap().message_queue.push_back(message);
    }
    NetworkSystem::process_outbound(&mut world);
    assert_eq!(queue_len(&mut world, device), 0);
    let mut expected = first.encode().unwrap();
    expected.extend(second.encode().unwrap());
    assert_eq!(NetworkSystem::pending(&mut world, device), expected);

    NetworkSystem::written(&mut world, device, None);
    NetworkSystem::written(&mut world, device, None);
    assert_eq!(entity(&mut world, device).health.unwrap().retries, 2);
    NetworkSystem::written(&mut world, device, Some(3));
    assert_eq!(entity(&mut world, device).health.unwrap().retries, 0);
    assert_eq!(NetworkSystem::pending(&mut world, device), expected[3..].to_vec());
    NetworkSystem::written(&mut world, device, Some(usize::MAX));
    assert!(NetworkSystem::pending(&mut world, device).is_empty());
}

#[test]
fn heartbeat_timeout_makes_a_zombie_and_then_removes_it() {
    let mut world = World::new();
    let now = 100 * SECOND;
    let device = LifecycleSystem::accept_connection(&mut world, "10.0.0.1:9".into(), now - 33 * SECOND);
    let fresh = LifecycleSystem::accept_connection(&mut world, "10.0.0.2:9".into(), now - 32 * SECOND);
    assert_eq!(entity(&mut world, device).health.unwrap().status, SessionStatus::Connected);

    LifecycleSystem::maintain_connection(&mut world, now, &vec![]);
    assert_eq!(
        entity(&mut world, device).health.unwrap(),
        SessionHealth { retries: 0, status: SessionStatus::Zombie, last_heartbeat: now - 33 * SECOND }
    );
    assert_eq!(entity(&mut world, fresh).health.unwrap().status, SessionStatus::Connected);

    for pass in 1..5 {
        LifecycleSystem::maintain_connection(&mut world, now, &vec![]);
        assert_eq!(entity(&mut world, device).health.unwrap().retries, pass);
    }
    LifecycleSystem::maintain_connection(&mut world, now, &vec![]);
    assert!(!is_alive(&world, device));
    assert!(is_alive(&world, fresh));
}

#[test]
fn a_disconnected_session_comes_back_when_its_channel_does() {
    let mut world = World::new();
    let first = LifecycleSystem::accept_connection(&mut world, "a:1".into(), 5);
    let second = LifecycleSystem::accept_connection(&mut world, "b:2".into(), 5);
    NetworkSystem::disconnect(&mut world, second);
    NetworkSystem::disconnect(&mut world, first);
    assert_eq!(
        LifecycleSystem::lost(&mut world),
        vec![(first, "a:1".to_string()), (second, "b:2".to_string())]
    );
    LifecycleSystem::maintain_connection(&mut world, 9, &vec![second]);
    assert_eq!(entity(&mut world, first).health.unwrap().status, SessionStatus::Disconnected);
    assert_eq!(
        entity(&mut world, second).health.unwrap(),
        SessionHealth { retries: 0, status: SessionStatus::Connected, last_heartbeat: 9 }
    );
    assert_eq!(LifecycleSystem::lost(&mut world), vec![(first, "a:1".to_string())]);
}

#[test]
fn the_inspector_shows_sessions_and_tasks_by_handle() {
    let mut world = World::new();
    let module = create_mock_module(&mut world, "m", 40, 16);
    let task = create_mock_task(&mut world, "t", module, 1);
    let orphan = create_mock_task(&mut world, "o", 4242, 1);
    let device = create_mock_device(&mut world, 1 << 20, &["x"]);
    TaskSystem::assign_tasks(&mut world);
    entity(&mut world, task).transfer.as_mut().unwrap().acked_chunks.set(1, true);
    let shot = snapshot(&mut world);
    assert_eq!(shot.sessions.len(), 1);
    assert_eq!(shot.sessions[0].id, device);
    assert_eq!(shot.sessions[0].address, "0.0.0.0:0");
    assert_eq!(shot.sessions[0].status, SessionStatus::Occupied);
    assert_eq!(shot.sessions[0].modules, vec!["x".to_string()]);
    assert_eq!(shot.tasks.len(), 2);
    assert_eq!(shot.tasks[0].id, task);
    assert_eq!(shot.tasks[0].module, "m");
    assert_eq!(shot.tasks[0].phase, TaskStatePhase::Distributing);
    assert_eq!(shot.tasks[0].progress, Some(Progress { acked: 1, total: 3 }));
    assert_eq!(shot.tasks[0].result, None);
    assert_eq!(shot.tasks[1].id, orphan);
    assert_eq!(shot.tasks[1].module, "");
    assert_eq!(shot.tasks[1].progress, None);
    assert_eq!(phase_name(shot.tasks[1].phase), "Queued");

    NetworkSystem::complete(&mut world, task, vec![Type::I64(-1)]);
    let shot = snapshot(&mut world);
    assert_eq!(shot.tasks[0].result, Some(vec![Type::I64(-1)]));
    assert_eq!(phase_name(shot.tasks[0].phase), "Completed");
}

#[test]
fn a_dispatcher_starts_with_the_built_in_modules_and_their_tasks() {
    let mut world = World::new();
    let statics = vec![
        StaticModule { name: "fractal".into(), binary: vec![1, 2, 3] },
        StaticModule { name: "fiber".into(), binary: vec![4] },
    ];
    let tasks = load_tasks(&statics);
    assert_eq!(tasks.len(), 6);
    assert_eq!(tasks[0].name, "fractal_0_100");
    assert_eq!(tasks[5].name, "fractal_500_600");
    assert_eq!(
        tasks[2].params,
        vec![
            Type::I32(800),
            Type::I32(600),
            Type::I32(200),
            Type::I32(300),
            Type::F64(0.0f64.to_bits()),
            Type::F64(1.0f64.to_bits()),
            Type::I32(50),
        ]
    );
    let started = initialize_modules_and_tasks(&mut world, &statics, &tasks, 77);
    assert_eq!(started.modules.len(), 2);
    assert_eq!(started.tasks.len(), 6);
    assert_eq!(handles(&world).len(), 8);
    let module = entity(&mut world, started.modules[0]).module.as_ref().unwrap();
    assert_eq!(module.name, "fractal");
    assert_eq!(module.chunk_size, CHUNK_SIZE);
    let first = started.tasks[0].unwrap();
    assert_eq!(entity(&mut world, first).task.as_ref().unwrap().require_module, started.modules[0]);
    assert_eq!(entity(&mut world, first).task.as_ref().unwrap().created_at, 77);
    assert_eq!(state(&mut world, first).phase, TaskStatePhase::Queued);
}

#[test]
fn handles_come_in_ascending_order_and_spawn_gives_a_new_one() {
    let mut world = new_world();
    assert!(handles(&world).is_empty());
    let a = spawn(&mut world, Components::empty());
    let b = spawn(&mut world, Components::empty());
    assert_ne!(a, b);
    let ids = handles(&world);
    assert_eq!(ids.len(), 2);
    assert!(ids[0] < ids[1]);
    assert!(ids.contains(&a) && ids.contains(&b));
}

#[test]
fn a_transfer_record_can_be_built_by_hand() {
    let transfer = ModuleTransfer {
        state: ModuleTransferState::Requested,
        acked_chunks: BitSet::zeroed(4).unwrap(),
        retries: 0,
        session: 9,
    };
    let mut bits = transfer.acked_chunks.clone();
    assert!(bits.set(3, true));
    assert!(!bits.set(4, true));
    assert_eq!(bits.get(3), Some(true));
    assert_eq!(bits.get(4), None);
    assert_eq!(bits.count_ones(), 1);
    assert!(!bits.all());
    bits.fill(true);
    assert!(bits.all());
    assert_eq!(bits.len(), 4);
    assert_eq!(transfer.acked_chunks.to_vec(), vec![false; 4]);
}
