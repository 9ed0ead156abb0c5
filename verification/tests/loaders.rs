use wasm_dispatch::protocol::Type;
use wasm_dispatch::server::loader::WasmModule;
use wasm_dispatch::server::module::{load_modules, Module};
use wasm_dispatch::server::task::{Task, TaskStatus};
use wasm_dispatch::task::{decimal, load_tasks, StaticModule};

#[test]
fn render_runs_in_bands_and_fiber_once() {
    let statics = vec![
        StaticModule { name: "fiber".into(), binary: vec![9] },
        StaticModule { name: "other".into(), binary: vec![] },
        StaticModule { name: "render".into(), binary: vec![1, 2] },
    ];
    assert_eq!(
        load_modules(&statics),
        vec![
            Module { name: "fiber".into(), binary: vec![9], params: vec![] },
            Module { name: "render".into(), binary: vec![1, 2], params: vec![Type::I32(0), Type::I32(100)] },
            Module { name: "render".into(), binary: vec![1, 2], params: vec![Type::I32(100), Type::I32(200)] },
            Module { name: "render".into(), binary: vec![1, 2], params: vec![Type::I32(200), Type::I32(300)] },
        ]
    );
    assert!(load_tasks(&statics).is_empty());
}

#[test]
fn numbers_are_written_in_decimal() {
    for n in [0u32, 7, 10, 99, 100, 600, 4294967295] {
        assert_eq!(decimal(n), n.to_string());
    }
}

#[test]
fn plain_records_hold_what_they_are_given() {
    let task = Task { wasm_binary: vec![1], params: vec![Type::Void], status: TaskStatus::Queued };
    assert_eq!(task.status, TaskStatus::Queued);
    assert_ne!(TaskStatus::Dispatched, TaskStatus::Completed);
    assert_ne!(TaskStatus::Failed, TaskStatus::Queued);
    let module = WasmModule { name: "m".into(), data: vec![0, 97, 115, 109] };
    assert_eq!(module.data.len(), 4);
}
