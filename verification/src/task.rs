//! The work that a dispatcher starts with: for each module that was built
//! in, the tasks that run it.

use crate::program::session::cache::str_eq;
use crate::protocol::Type;
use vstd::prelude::*;
use vstd::string::StringExecFns;

verus! {

/// A module that was built into the program.
#[derive(Debug, PartialEq, Eq)]
pub struct StaticModule {
    pub name: String,
    pub binary: Vec<u8>,
}

/// A task to create: its name, the name of its module, and its parameters.
#[derive(Debug, PartialEq, Eq)]
pub struct Task {
    pub name: String,
    pub module: String,
    pub params: Vec<Type>,
}

/// Model of a [`Task`].
pub struct TaskView {
    pub name: Seq<char>,
    pub module: Seq<char>,
    pub params: Seq<Type>,
}

impl View for Task {
    type V = TaskView;

    open spec fn view(&self) -> TaskView {
        TaskView { name: self.name@, module: self.module@, params: self.params@ }
    }
}

/// The tasks held by a list.
pub open spec fn tasks_view(tasks: Seq<Task>) -> Seq<TaskView> {
    tasks.map_values(|t: Task| t@)
}

/// The width of the fractal image, in pixels.
pub const WIDTH: i32 = 800;

/// The height of the fractal image, in rows.
pub const HEIGHT: i32 = 600;

/// The number of rows that one task renders.
pub const ROWS_PER_TASK: i32 = 100;

/// The bit pattern of the centre's x coordinate, 0.0.
pub const CENTER_X: u64 = 0;

/// The bit pattern of the zoom, 1.0.
pub const ZOOM: u64 = 0x3ff0_0000_0000_0000;

/// The most iterations per pixel.
pub const MAX_ITER: i32 = 50;

/// The character of a decimal digit.
pub open spec fn digit(d: nat) -> char {
    if d == 0 {
        '0'
    } else if d == 1 {
        '1'
    } else if d == 2 {
        '2'
    } else if d == 3 {
        '3'
    } else if d == 4 {
        '4'
    } else if d == 5 {
        '5'
    } else if d == 6 {
        '6'
    } else if d == 7 {
        '7'
    } else if d == 8 {
        '8'
    } else {
        '9'
    }
}

/// A number in decimal digits.
pub open spec fn decimal_text(n: nat) -> Seq<char>
    decreases n,
{
    if n < 10 {
        seq![digit(n)]
    } else {
        decimal_text(n / 10).push(digit(n % 10))
    }
}

/// The task that renders the rows from `start` up to `end` of the fractal.
pub open spec fn fractal_task(module: Seq<char>, start: int, end: int) -> TaskView {
    TaskView {
        name: "fractal_"@ + decimal_text(start as nat) + "_"@ + decimal_text(end as nat),
        module,
        params: seq![
            Type::I32(WIDTH),
            Type::I32(HEIGHT),
            Type::I32(start as i32),
            Type::I32(end as i32),
            Type::F64(CENTER_X),
            Type::F64(ZOOM),
            Type::I32(MAX_ITER),
        ],
    }
}

/// The tasks that render the fractal's first `count` bands of rows.
pub open spec fn fractal_tasks(module: Seq<char>, count: nat) -> Seq<TaskView>
    decreases count,
{
    if count == 0 {
        Seq::empty()
    } else {
        fractal_tasks(module, (count - 1) as nat).push(
            fractal_task(module, (count - 1) * ROWS_PER_TASK, count * ROWS_PER_TASK),
        )
    }
}

/// The tasks of one module: the fractal is rendered in bands of rows, one
/// task per band; any other module has no tasks.
pub open spec fn tasks_of(module: Seq<char>) -> Seq<TaskView> {
    if module == "fractal"@ {
        fractal_tasks(module, (HEIGHT / ROWS_PER_TASK) as nat)
    } else {
        Seq::empty()
    }
}

/// The tasks of the first `upto` modules, in the modules' order.
pub open spec fn tasks_for(modules: Seq<StaticModule>, upto: nat) -> Seq<TaskView>
    decreases upto,
{
    if upto == 0 {
        Seq::empty()
    } else {
        tasks_for(modules, (upto - 1) as nat) + tasks_of(modules[upto - 1].name@)
    }
}

/// The text of a decimal digit.
fn digit_text(d: u32) -> (text: &'static str)
    requires
        d < 10,
    ensures
        text@ == seq![digit(d as nat)],
{
    proof {
        reveal_strlit("0");
        reveal_strlit("1");
        reveal_strlit("2");
        reveal_strlit("3");
        reveal_strlit("4");
        reveal_strlit("5");
        reveal_strlit("6");
        reveal_strlit("7");
        reveal_strlit("8");
        reveal_strlit("9");
    }
    let text = if d == 0 {
        "0"
    } else if d == 1 {
        "1"
    } else if d == 2 {
        "2"
    } else if d == 3 {
        "3"
    } else if d == 4 {
        "4"
    } else if d == 5 {
        "5"
    } else if d == 6 {
        "6"
    } else if d == 7 {
        "7"
    } else if d == 8 {
        "8"
    } else {
        "9"
    };
    assert(text@ =~= seq![digit(d as nat)]);
    text
}

/// A number in decimal digits.
pub fn decimal(n: u32) -> (text: String)
    ensures
        text@ == decimal_text(n as nat),
    decreases n,
{
    if n < 10 {
        String::from_str(digit_text(n))
    } else {
        let mut text = decimal(n / 10);
        text.append(digit_text(n % 10));
        assert(text@ =~= decimal_text(n as nat));
        text
    }
}

/// The task that renders the rows from `start` up to `end` of the fractal.
fn make_fractal_task(module: &String, start: i32, end: i32) -> (task: Task)
    requires
        0 <= start,
        0 <= end,
    ensures
        task@ == fractal_task(module@, start as int, end as int),
{
    let mut name = String::from_str("fractal_");
    let from = decimal(start as u32);
    name.append(from.as_str());
    name.append("_");
    let to = decimal(end as u32);
    name.append(to.as_str());
    let mut params: Vec<Type> = Vec::new();
    params.push(Type::I32(WIDTH));
    params.push(Type::I32(HEIGHT));
    params.push(Type::I32(start));
    params.push(Type::I32(end));
    params.push(Type::F64(CENTER_X));
    params.push(Type::F64(ZOOM));
    params.push(Type::I32(MAX_ITER));
    let task = Task { name, module: module.clone(), params };
    assert(task@.params =~= fractal_task(module@, start as int, end as int).params);
    task
}

/// The tasks to start with, for the modules that were built in.
pub fn load_tasks(modules: &Vec<StaticModule>) -> (tasks: Vec<Task>)
    ensures
        tasks_view(tasks@) == tasks_for(modules@, modules@.len()),
{
    let mut tasks: Vec<Task> = Vec::new();
    let mut i: usize = 0;
    assert(tasks_view(tasks@) =~= tasks_for(modules@, 0));
    while i < modules.len()
        invariant
            i <= modules.len(),
            tasks_view(tasks@) == tasks_for(modules@, i as nat),
        decreases modules.len() - i,
    {
        let module = &modules[i];
        let ghost start = tasks_view(tasks@);
        if str_eq(module.name.as_str(), "fractal") {
            let mut band: i32 = 0;
            assert(tasks_view(tasks@) =~= start + fractal_tasks(module.name@, 0));
            while band < HEIGHT / ROWS_PER_TASK
                invariant
                    0 <= band <= HEIGHT / ROWS_PER_TASK,
                    module == modules@[i as int],
                    tasks_view(tasks@) == start + fractal_tasks(module.name@, band as nat),
                decreases HEIGHT / ROWS_PER_TASK - band,
            {
                let ghost before = tasks@;
                let task = make_fractal_task(
                    &module.name,
                    band * ROWS_PER_TASK,
                    (band + 1) * ROWS_PER_TASK,
                );
                tasks.push(task);
                proof {
                    assert(tasks_view(tasks@) =~= tasks_view(before).push(task@));
                    assert(tasks_view(tasks@) =~= start + fractal_tasks(
                        module.name@,
                        (band + 1) as nat,
                    ));
                }
                band += 1;
            }
        } else {
            assert(start + Seq::<TaskView>::empty() =~= start);
        }
        i += 1;
    }
    tasks
}

} // verus!
