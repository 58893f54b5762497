//! Pre-commit checks: an ordered list of named tasks, each a program with
//! its arguments, and the choice of tasks for the kind of project found.
//! Running the tasks is left to the caller.

use vstd::prelude::*;
use vstd::string::StringExecFns;

verus! {

/// One task: its name, the program to run, and the program's arguments as
/// one whitespace-separated string.
pub type Task = (String, String, String);

/// The view of a task.
pub open spec fn task_view(t: Task) -> (Seq<char>, Seq<char>, Seq<char>) {
    (t.0@, t.1@, t.2@)
}

/// A pipeline of pre-commit tasks, run in the order they were first added.
pub struct PreCommit {
    tasks: Vec<Task>,
}

impl View for PreCommit {
    type V = Seq<(Seq<char>, Seq<char>, Seq<char>)>;

    closed spec fn view(&self) -> Seq<(Seq<char>, Seq<char>, Seq<char>)> {
        self.tasks@.map_values(|t: Task| task_view(t))
    }
}

/// No two tasks share a name.
pub open spec fn names_unique(s: Seq<(Seq<char>, Seq<char>, Seq<char>)>) -> bool {
    forall|i: int, j: int| 0 <= i < j < s.len() ==> #[trigger] s[i].0 != #[trigger] s[j].0
}

impl PreCommit {
    /// An empty pipeline.
    pub fn new() -> (r: Self)
        ensures
            r@ == Seq::<(Seq<char>, Seq<char>, Seq<char>)>::empty(),
    {
        let r = PreCommit { tasks: Vec::new() };
        assert(r@ =~= Seq::<(Seq<char>, Seq<char>, Seq<char>)>::empty());
        r
    }

    /// Adds the task `task`, running `program` with `args`; a task of the
    /// same name is replaced in place.
    pub fn add_task(&mut self, task: &str, program: &str, args: &str) -> (r: &mut Self)
        requires
            names_unique(old(self)@),
        ensures
            names_unique((*r)@),
            (forall|k: int| 0 <= k < old(self)@.len() ==> #[trigger] old(self)@[k].0 != task@) ==> r@
                == old(self)@.push((task@, program@, args@)),
            forall|k: int|
                0 <= k < old(self)@.len() && #[trigger] old(self)@[k].0 == task@ ==> (*r)@ == old(
                    self,
                )@.update(k, (task@, program@, args@)),
            *final(self) == *final(r),
    {
        let entry: Task = (task.to_owned(), program.to_owned(), args.to_owned());
        let name = task.to_owned();
        let ghost before = self@;
        let mut i: usize = 0;
        while i < self.tasks.len()
            invariant
                name@ == task@,
                self@ == before,
                before == old(self)@,
                names_unique(before),
                task_view(entry) == (task@, program@, args@),
                i <= self.tasks@.len(),
                forall|k: int| 0 <= k < i ==> #[trigger] before[k].0 != task@,
            decreases self.tasks@.len() - i,
        {
            assert(before[i as int] == task_view(self.tasks@[i as int]));
            if self.tasks[i].0 == name {
                assert(before[i as int].0 == task@);
                self.tasks.set(i, entry);
                proof {
                    assert(self@ =~= before.update(i as int, (task@, program@, args@)));
                    assert forall|k: int| 0 <= k < before.len() && #[trigger] before[k].0 == task@ implies self@ == before.update(k, (task@, program@, args@)) by {
                        if k != i {
                            assert(before[k].0 != before[i as int].0 || k == i);
                        }
                    }
                }
                return self;
            }
            i = i + 1;
        }
        self.tasks.push(entry);
        assert(self@ =~= before.push((task@, program@, args@)));
        self
    }

    /// The tasks in running order.
    pub fn tasks(&self) -> (r: &Vec<Task>)
        ensures
            r@.map_values(|t: Task| task_view(t)) == self@,
    {
        &self.tasks
    }

    /// Whether the pipeline has no task.
    pub fn is_empty(&self) -> (r: bool)
        ensures
            r == (self@.len() == 0),
    {
        self.tasks.len() == 0
    }
}

/// The kind of project whose checks run before a change is recorded.
#[derive(Debug, Clone, Copy, PartialEq, Eq, Structural)]
pub enum ProjectKind {
    /// A Rust project: `Cargo.toml` is present.
    Cargo,
    /// A Node.js project: `package.json` is present.
    Npm,
    /// Neither: no check runs.
    Other,
}

/// Which checks apply, given whether `Cargo.toml` and `package.json` exist;
/// a Cargo project wins when both do.
pub fn hooks(has_cargo_toml: bool, has_package_json: bool) -> (r: ProjectKind)
    ensures
        has_cargo_toml ==> r == ProjectKind::Cargo,
        !has_cargo_toml && has_package_json ==> r == ProjectKind::Npm,
        !has_cargo_toml && !has_package_json ==> r == ProjectKind::Other,
{
    if has_cargo_toml {
        ProjectKind::Cargo
    } else if has_package_json {
        ProjectKind::Npm
    } else {
        ProjectKind::Other
    }
}

/// The checks of a Cargo project: formatting, tests and lints.
pub fn cargo_pipeline() -> (r: PreCommit)
    ensures
        r@ == seq![
            ("fmt"@, "cargo"@, "fmt --check"@),
            ("test"@, "cargo"@, "test --no-fail-fast"@),
            ("lint"@, "cargo"@, "clippy -- -D clippy::all"@),
        ],
{
    proof {
        reveal_strlit("fmt");
        reveal_strlit("test");
        reveal_strlit("lint");
        assert("fmt"@.len() == 3 && "test"@.len() == 4 && "lint"@.len() == 4);
        assert("lint"@[0] != "test"@[0]);
    }
    let mut pc = PreCommit::new();
    pc.add_task("fmt", "cargo", "fmt --check");
    assert(pc@ =~= seq![("fmt"@, "cargo"@, "fmt --check"@)]);
    assert(forall|k: int| 0 <= k < pc@.len() ==> #[trigger] pc@[k].0 != "test"@);
    pc.add_task("test", "cargo", "test --no-fail-fast");
    assert(pc@ =~= seq![("fmt"@, "cargo"@, "fmt --check"@), ("test"@, "cargo"@, "test --no-fail-fast"@)]);
    assert(forall|k: int| 0 <= k < pc@.len() ==> #[trigger] pc@[k].0 != "lint"@);
    pc.add_task("lint", "cargo", "clippy -- -D clippy::all");
    assert(pc@ =~= seq![
        ("fmt"@, "cargo"@, "fmt --check"@),
        ("test"@, "cargo"@, "test --no-fail-fast"@),
        ("lint"@, "cargo"@, "clippy -- -D clippy::all"@),
    ]);
    pc
}

/// The package manager of a Node.js project.
#[derive(Debug, Clone, Copy, PartialEq, Eq, Structural)]
pub enum PackageManager {
    Pnpm,
    Yarn,
    Npm,
}

/// The package manager in use, given which lock files exist: pnpm's wins,
/// then yarn's, and npm otherwise.
pub fn package_manager(has_pnpm_lock: bool, has_yarn_lock: bool) -> (r: PackageManager)
    ensures
        has_pnpm_lock ==> r == PackageManager::Pnpm,
        !has_pnpm_lock && has_yarn_lock ==> r == PackageManager::Yarn,
        !has_pnpm_lock && !has_yarn_lock ==> r == PackageManager::Npm,
{
    if has_pnpm_lock {
        PackageManager::Pnpm
    } else if has_yarn_lock {
        PackageManager::Yarn
    } else {
        PackageManager::Npm
    }
}

/// The program that runs a package manager.
pub open spec fn manager_program(pm: PackageManager) -> Seq<char> {
    match pm {
        PackageManager::Pnpm => "pnpm"@,
        PackageManager::Yarn => "yarn"@,
        PackageManager::Npm => "npm"@,
    }
}

/// The arguments that make a package manager run a script quietly.
pub open spec fn run_args(pm: PackageManager, script: Seq<char>) -> Seq<char> {
    if pm == PackageManager::Yarn {
        script
    } else {
        "run -s "@ + script
    }
}

/// The task that runs `script` under `pm`.
pub open spec fn script_task(pm: PackageManager, script: Seq<char>) -> (Seq<char>, Seq<char>, Seq<char>) {
    (script, manager_program(pm), run_args(pm, script))
}

/// The checks of a Node.js project whose package.json defines `scripts`:
/// its `format` script (else its `fmt` script), its `lint` script, and its
/// `test` script, which runs whenever it is defined or a package.json
/// exists, and alone when nothing else applies.
pub open spec fn npm_tasks(pm: PackageManager, scripts: Seq<Seq<char>>, has_package_json: bool) -> Seq<
    (Seq<char>, Seq<char>, Seq<char>),
> {
    let f = if scripts.contains("format"@) {
        seq![script_task(pm, "format"@)]
    } else if scripts.contains("fmt"@) {
        seq![script_task(pm, "fmt"@)]
    } else {
        seq![]
    };
    let l = if scripts.contains("lint"@) {
        seq![script_task(pm, "lint"@)]
    } else {
        seq![]
    };
    let t = if scripts.contains("test"@) || has_package_json {
        seq![script_task(pm, "test"@)]
    } else {
        seq![]
    };
    if (f + l + t).len() == 0 {
        seq![script_task(pm, "test"@)]
    } else {
        f + l + t
    }
}

/// Whether `scripts` names `name`.
fn has_script(scripts: &Vec<String>, name: &str) -> (r: bool)
    ensures
        r == scripts@.map_values(|s: String| s@).contains(name@),
{
    let key = name.to_owned();
    let ghost names = scripts@.map_values(|s: String| s@);
    let mut i: usize = 0;
    while i < scripts.len()
        invariant
            key@ == name@,
            names == scripts@.map_values(|s: String| s@),
            i <= scripts@.len(),
            forall|k: int| 0 <= k < i ==> #[trigger] names[k] != name@,
        decreases scripts@.len() - i,
    {
        if scripts[i] == key {
            assert(names[i as int] == name@);
            return true;
        }
        i = i + 1;
    }
    false
}

/// The program of `pm`.
fn program_of(pm: PackageManager) -> (r: &'static str)
    ensures
        r@ == manager_program(pm),
{
    match pm {
        PackageManager::Pnpm => "pnpm",
        PackageManager::Yarn => "yarn",
        PackageManager::Npm => "npm",
    }
}

/// The arguments that make `pm` run `script`.
fn script_args(pm: PackageManager, script: &str) -> (r: String)
    ensures
        r@ == run_args(pm, script@),
{
    match pm {
        PackageManager::Yarn => script.to_owned(),
        _ => {
            let mut a = "run -s ".to_owned();
            a.append(script);
            a
        },
    }
}

/// The checks of a Node.js project run through `pm`, given the names of the
/// scripts its package.json defines and whether a package.json exists.
pub fn npm_pipeline(pm: PackageManager, scripts: &Vec<String>, has_package_json: bool) -> (r:
    PreCommit)
    ensures
        r@ == npm_tasks(pm, scripts@.map_values(|s: String| s@), has_package_json),
{
    proof {
        reveal_strlit("format");
        reveal_strlit("fmt");
        reveal_strlit("lint");
        reveal_strlit("test");
        assert("format"@.len() == 6 && "fmt"@.len() == 3 && "test"@.len() == 4 && "lint"@.len() == 4);
        assert("lint"@[0] != "test"@[0]);
    }
    let ghost names = scripts@.map_values(|s: String| s@);
    let prog = program_of(pm);
    let mut pc = PreCommit::new();
    if has_script(scripts, "format") {
        pc.add_task("format", prog, script_args(pm, "format").as_str());
    } else if has_script(scripts, "fmt") {
        pc.add_task("fmt", prog, script_args(pm, "fmt").as_str());
    }
    let ghost f = pc@;
    assert(forall|k: int| 0 <= k < pc@.len() ==> #[trigger] pc@[k].0 != "lint"@);
    if has_script(scripts, "lint") {
        pc.add_task("lint", prog, script_args(pm, "lint").as_str());
    }
    let ghost fl = pc@;
    assert(forall|k: int| 0 <= k < pc@.len() ==> #[trigger] pc@[k].0 != "test"@);
    if has_script(scripts, "test") || has_package_json {
        pc.add_task("test", prog, script_args(pm, "test").as_str());
    }
    if pc.is_empty() {
        pc.add_task("test", prog, script_args(pm, "test").as_str());
    }
    pc
}

} // verus!
