//! Modules that were built in, each with the parameters of one run.

use crate::program::session::cache::str_eq;
use crate::protocol::{clone_bytes, Type};
use vstd::prelude::*;

pub use crate::task::StaticModule;

verus! {

/// A module and the parameters to run it with.
#[derive(Debug, PartialEq, Eq)]
pub struct Module {
    pub name: String,
    pub binary: Vec<u8>,
    pub params: Vec<Type>,
}

/// Model of a [`Module`].
pub struct ModuleView {
    pub name: Seq<char>,
    pub binary: Seq<u8>,
    pub params: Seq<Type>,
}

impl View for Module {
    type V = ModuleView;

    open spec fn view(&self) -> ModuleView {
        ModuleView { name: self.name@, binary: self.binary@, params: self.params@ }
    }
}

/// The modules held by a list.
pub open spec fn modules_view(modules: Seq<Module>) -> Seq<ModuleView> {
    modules.map_values(|m: Module| m@)
}

/// The height of the rendered image, in rows.
pub const HEIGHT: i32 = 300;

/// The number of rows that one run renders.
pub const ROWS_PER_RUN: i32 = 100;

/// The runs that render the first `count` bands of rows.
pub open spec fn render_runs(module: StaticModule, count: nat) -> Seq<ModuleView>
    decreases count,
{
    if count == 0 {
        Seq::empty()
    } else {
        render_runs(module, (count - 1) as nat).push(
            ModuleView {
                name: module.name@,
                binary: module.binary@,
                params: seq![
                    Type::I32(((count - 1) * ROWS_PER_RUN) as i32),
                    Type::I32((count * ROWS_PER_RUN) as i32),
                ],
            },
        )
    }
}

/// The runs of one module: `render` runs once per band of rows, `fiber`
/// once without parameters, and any other module not at all.
pub open spec fn runs_of(module: StaticModule) -> Seq<ModuleView> {
    if module.name@ == "render"@ {
        render_runs(module, (HEIGHT / ROWS_PER_RUN) as nat)
    } else if module.name@ == "fiber"@ {
        seq![ModuleView { name: module.name@, binary: module.binary@, params: Seq::empty() }]
    } else {
        Seq::empty()
    }
}

/// The runs of the first `upto` modules, in the modules' order.
pub open spec fn runs_for(modules: Seq<StaticModule>, upto: nat) -> Seq<ModuleView>
    decreases upto,
{
    if upto == 0 {
        Seq::empty()
    } else {
        runs_for(modules, (upto - 1) as nat) + runs_of(modules[upto - 1])
    }
}

/// The runs of the modules that were built in.
pub fn load_modules(statics: &Vec<StaticModule>) -> (modules: Vec<Module>)
    ensures
        modules_view(modules@) == runs_for(statics@, statics@.len()),
{
    let mut modules: Vec<Module> = Vec::new();
    let mut i: usize = 0;
    assert(modules_view(modules@) =~= runs_for(statics@, 0));
    while i < statics.len()
        invariant
            i <= statics.len(),
            modules_view(modules@) == runs_for(statics@, i as nat),
        decreases statics.len() - i,
    {
        let module = &statics[i];
        let ghost start = modules_view(modules@);
        if str_eq(module.name.as_str(), "render") {
            let mut band: i32 = 0;
            assert(modules_view(modules@) =~= start + render_runs(*module, 0));
            while band < HEIGHT / ROWS_PER_RUN
                invariant
                    0 <= band <= HEIGHT / ROWS_PER_RUN,
                    module == statics@[i as int],
                    modules_view(modules@) == start + render_runs(*module, band as nat),
                decreases HEIGHT / ROWS_PER_RUN - band,
            {
                let ghost before = modules@;
                let mut params: Vec<Type> = Vec::new();
                params.push(Type::I32(band * ROWS_PER_RUN));
                params.push(Type::I32((band + 1) * ROWS_PER_RUN));
                let run = Module {
                    name: module.name.clone(),
                    binary: clone_bytes(module.binary.as_slice()),
                    params,
                };
                modules.push(run);
                proof {
                    assert(run@.params =~= seq![
                        Type::I32((band * ROWS_PER_RUN) as i32),
                        Type::I32(((band + 1) * ROWS_PER_RUN) as i32),
                    ]);
                    assert(modules_view(modules@) =~= modules_view(before).push(run@));
                    assert(modules_view(modules@) =~= start + render_runs(
                        *module,
                        (band + 1) as nat,
                    ));
                }
                band += 1;
            }
        } else if str_eq(module.name.as_str(), "fiber") {
            let ghost before = modules@;
            let run = Module {
                name: module.name.clone(),
                binary: clone_bytes(module.binary.as_slice()),
                params: Vec::new(),
            };
            modules.push(run);
            assert(modules_view(modules@) =~= modules_view(before).push(run@));
            assert(modules_view(modules@) =~= start + runs_of(*module));
        } else {
            assert(start + Seq::<ModuleView>::empty() =~= start);
        }
        i += 1;
    }
    modules
}

} // verus!
