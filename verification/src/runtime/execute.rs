//! Tasks: one invocation of the build tool for each feature set of a package's
//! matrix, one after the other, until one fails.

use crate::feature::matrix::FeatureMatrix;
use crate::feature::set::FeatureSet;
use crate::text::{comma, joined, texts};
use itertools::Itertools;
use vstd::prelude::*;
use vstd::string::*;

verus! {

/// What the build tool is asked to do.
#[derive(Clone, Copy, Debug, PartialEq, Eq, Structural)]
pub enum TaskKind {
    Build,
    Check,
    Clippy,
    Test,
    LlvmCov,
}

/// How a task ended.
#[derive(Clone, Copy, Debug, PartialEq, Eq, Structural)]
pub enum TaskResult {
    /// Every invocation succeeded.
    Success,
    /// An invocation failed, with this exit code if it left one; those behind
    /// it were not made.
    Fail(Option<i32>),
}

/// How far a task has come.
#[derive(Clone, Copy, Debug, PartialEq, Eq, Structural)]
pub enum Progress {
    /// The feature set at this position is the next; the build tool has not
    /// been started for it.
    Pending(usize),
    /// The build tool runs for the feature set at this position.
    Running(usize),
    /// The task has ended.
    Finished(TaskResult),
}

/// What has happened since the last step.
#[derive(Clone, Copy, Debug, PartialEq, Eq, Structural)]
pub enum Event {
    /// Nothing that the task has to know of.
    Proceed,
    /// The build tool has ended, with this exit code if it left one.
    Exited(Option<i32>),
}

/// What is to be done next.
#[derive(Debug)]
pub enum Action {
    /// Show the invocation with these arguments, start the build tool with
    /// them, and report how it ended.
    Spawn(Vec<String>),
    /// Show the invocation with these arguments, and start nothing.
    Display(Vec<String>),
    /// Wait for the build tool to end, and report how it ended.
    Await,
    /// Stop: the task has ended in this way.
    Finish(TaskResult),
}

/// An action in terms of texts.
pub enum ActionView {
    Spawn(Seq<Seq<char>>),
    Display(Seq<Seq<char>>),
    Await,
    Finish(TaskResult),
}

impl View for Action {
    type V = ActionView;

    open spec fn view(&self) -> ActionView {
        match self {
            Action::Spawn(arguments) => ActionView::Spawn(texts(arguments@)),
            Action::Display(arguments) => ActionView::Display(texts(arguments@)),
            Action::Await => ActionView::Await,
            Action::Finish(result) => ActionView::Finish(*result),
        }
    }
}

/// The build tool once for each feature set of the matrix of one package.
#[derive(Debug)]
pub struct Task {
    kind: TaskKind,
    package: String,
    matrix: FeatureMatrix,
    manifest_path: Option<String>,
    args: Vec<String>,
    dry_run: bool,
}

/// A task in terms of texts.
pub struct TaskView {
    /// What the build tool is asked to do.
    pub kind: TaskKind,
    /// The name of the package.
    pub package: Seq<char>,
    /// The feature sets in the order in which they are built, each as the
    /// ascending enumeration of its features.
    pub rows: Seq<Seq<Seq<char>>>,
    /// The manifest to use in place of the one that the build tool finds.
    pub manifest_path: Option<Seq<char>>,
    /// The arguments that are handed on to the build tool as they are.
    pub args: Seq<Seq<char>>,
    /// Whether the invocations are only shown.
    pub dry_run: bool,
}

/// The subcommand of the build tool that does what `kind` says.
pub open spec fn subcommand(kind: TaskKind) -> Seq<char> {
    match kind {
        TaskKind::Build => "build"@,
        TaskKind::Check => "check"@,
        TaskKind::Clippy => "clippy"@,
        TaskKind::Test => "test"@,
        TaskKind::LlvmCov => "llvm-cov"@,
    }
}

/// The arguments that select the features of `row`: none for the empty set.
pub open spec fn feature_arguments(row: Seq<Seq<char>>) -> Seq<Seq<char>> {
    if row.len() == 0 {
        Seq::empty()
    } else {
        seq!["-F"@, joined(row, comma())]
    }
}

/// The arguments that select the manifest, if one is given.
pub open spec fn manifest_arguments(manifest_path: Option<Seq<char>>) -> Seq<Seq<char>> {
    match manifest_path {
        Some(path) => seq!["--manifest-path"@, path],
        None => Seq::empty(),
    }
}

/// The arguments with which the build tool is invoked for the feature set
/// `row`: the subcommand, the package, no default features, the features of
/// the set, the manifest, and what the user handed on.
pub open spec fn invocation(task: TaskView, row: Seq<Seq<char>>) -> Seq<Seq<char>> {
    seq![subcommand(task.kind), "-p"@, task.package, "--no-default-features"@]
        + feature_arguments(row) + manifest_arguments(task.manifest_path) + task.args
}

/// What follows when the feature set at position `index` is the next: the end
/// of the task behind the last set; else its invocation, which a dry run only
/// shows before it goes on to the next set.
pub open spec fn dispatch(task: TaskView, index: int) -> (Progress, ActionView) {
    if index >= task.rows.len() {
        (Progress::Finished(TaskResult::Success), ActionView::Finish(TaskResult::Success))
    } else if task.dry_run {
        (
            Progress::Pending((index + 1) as usize),
            ActionView::Display(invocation(task, task.rows[index])),
        )
    } else {
        (Progress::Running(index as usize), ActionView::Spawn(invocation(task, task.rows[index])))
    }
}

/// The state that follows `progress` on `event`, and what is to be done then.
/// While the build tool runs, only its end changes anything: exit code 0
/// leads on to the next feature set, anything else ends the task as failed.
pub open spec fn step(task: TaskView, progress: Progress, event: Event) -> (Progress, ActionView) {
    match progress {
        Progress::Pending(index) => dispatch(task, index as int),
        Progress::Running(index) => match event {
            Event::Proceed => (progress, ActionView::Await),
            Event::Exited(Some(0)) => dispatch(task, index + 1),
            Event::Exited(status) => (
                Progress::Finished(TaskResult::Fail(status)),
                ActionView::Finish(TaskResult::Fail(status)),
            ),
        },
        Progress::Finished(result) => (progress, ActionView::Finish(result)),
    }
}

/// How far a task is from its end: a measure that every step without an event
/// brings down.
pub open spec fn distance(task: TaskView, progress: Progress) -> int {
    match progress {
        Progress::Pending(index) => if index < task.rows.len() {
            2 * (task.rows.len() - index) + 1
        } else {
            0
        },
        Progress::Running(index) => if index < task.rows.len() {
            2 * (task.rows.len() - index)
        } else {
            0
        },
        Progress::Finished(_) => 0,
    }
}

/// How the task ends when it is stepped on from `progress` and the build tool
/// ends its runs with `statuses`, one after the other. `None` if the statuses
/// are used up while the build tool runs.
pub open spec fn drive(task: TaskView, progress: Progress, statuses: Seq<Option<i32>>) -> Option<
    TaskResult,
>
    decreases statuses.len(), distance(task, progress),
{
    match progress {
        Progress::Finished(result) => Some(result),
        Progress::Pending(index) => if index < task.rows.len() <= usize::MAX {
            drive(task, step(task, progress, Event::Proceed).0, statuses)
        } else {
            Some(TaskResult::Success)
        },
        Progress::Running(_) => if statuses.len() == 0 {
            None
        } else {
            drive(task, step(task, progress, Event::Exited(statuses[0])).0, statuses.drop_first())
        },
    }
}

impl TaskKind {
    /// The subcommand of the build tool that does what the kind says.
    pub fn subcommand(self) -> (name: &'static str)
        ensures
            name@ == subcommand(self),
    {
        match self {
            TaskKind::Build => "build",
            TaskKind::Check => "check",
            TaskKind::Clippy => "clippy",
            TaskKind::Test => "test",
            TaskKind::LlvmCov => "llvm-cov",
        }
    }
}

impl View for Task {
    type V = TaskView;

    closed spec fn view(&self) -> TaskView {
        TaskView {
            kind: self.kind,
            package: self.package@,
            rows: self.matrix.rows(),
            manifest_path: match self.manifest_path {
                Some(path) => Some(path@),
                None => None,
            },
            args: texts(self.args@),
            dry_run: self.dry_run,
        }
    }
}

impl Task {
    /// The task that does `kind` for each feature set of `matrix`, the matrix
    /// of `package`.
    pub fn new(
        kind: TaskKind,
        package: String,
        matrix: FeatureMatrix,
        manifest_path: Option<String>,
        args: Vec<String>,
        dry_run: bool,
    ) -> (task: Self)
        ensures
            task@ == (TaskView {
                kind,
                package: package@,
                rows: matrix.rows(),
                manifest_path: match manifest_path {
                    Some(path) => Some(path@),
                    None => None,
                },
                args: texts(args@),
                dry_run,
            }),
    {
        Task { kind, package, matrix, manifest_path, args, dry_run }
    }

    /// What the build tool is asked to do.
    pub fn kind(&self) -> (kind: TaskKind)
        ensures
            kind == self@.kind,
    {
        self.kind
    }

    /// The name of the package.
    pub fn package(&self) -> (package: &str)
        ensures
            package@ == self@.package,
    {
        self.package.as_str()
    }

    /// The feature sets to build.
    pub fn matrix(&self) -> (matrix: &FeatureMatrix)
        ensures
            matrix.rows() == self@.rows,
    {
        &self.matrix
    }

    /// Whether the invocations are only shown.
    pub fn dry_run(&self) -> (dry_run: bool)
        ensures
            dry_run == self@.dry_run,
    {
        self.dry_run
    }

    /// The number of feature sets to build.
    pub fn len(&self) -> (n: usize)
        ensures
            n == self@.rows.len(),
    {
        self.matrix.len()
    }

    /// The arguments with which the build tool is invoked for the feature set
    /// `set`.
    pub fn command_args(&self, set: &FeatureSet) -> (arguments: Vec<String>)
        ensures
            texts(arguments@) == invocation(self@, set.elements()),
    {
        let mut arguments: Vec<String> = Vec::new();
        arguments.push(self.kind.subcommand().to_owned());
        arguments.push("-p".to_owned());
        arguments.push(self.package.clone());
        arguments.push("--no-default-features".to_owned());
        assert(texts(arguments@) =~= seq![
            subcommand(self@.kind),
            "-p"@,
            self@.package,
            "--no-default-features"@,
        ]);
        if !set.is_empty() {
            arguments.push("-F".to_owned());
            arguments.push(set.to_string());
        }
        let ghost with_features = texts(arguments@);
        assert(with_features =~= seq![
            subcommand(self@.kind),
            "-p"@,
            self@.package,
            "--no-default-features"@,
        ] + feature_arguments(set.elements()));
        if let Some(path) = &self.manifest_path {
            arguments.push("--manifest-path".to_owned());
            arguments.push(path.clone());
        }
        let ghost with_manifest = texts(arguments@);
        assert(with_manifest =~= with_features + manifest_arguments(self@.manifest_path));
        let mut i: usize = 0;
        while i < self.args.len()
            invariant
                0 <= i <= self.args.len(),
                texts(arguments@) =~= with_manifest + texts(self.args@).take(i as int),
            decreases self.args.len() - i,
        {
            let ghost so_far = texts(arguments@);
            arguments.push(self.args[i].clone());
            assert(texts(arguments@) =~= so_far.push(texts(self.args@)[i as int]));
            i = i + 1;
        }
        assert(texts(self.args@).take(i as int) =~= texts(self.args@));
        arguments
    }

    /// The state in which every task begins.
    pub fn start(&self) -> (progress: Progress)
        ensures
            progress == Progress::Pending(0),
    {
        Progress::Pending(0)
    }

    /// What follows when the feature set at position `index` is the next.
    fn dispatch(&self, index: usize) -> (next: (Progress, Action))
        ensures
            (next.0, next.1@) == dispatch(self@, index as int),
    {
        let sets = self.matrix.as_slice();
        if index >= sets.len() {
            (Progress::Finished(TaskResult::Success), Action::Finish(TaskResult::Success))
        } else {
            assert(sets@[index as int].elements() == self@.rows[index as int]);
            let arguments = self.command_args(&sets[index]);
            if self.dry_run {
                (Progress::Pending(index + 1), Action::Display(arguments))
            } else {
                (Progress::Running(index), Action::Spawn(arguments))
            }
        }
    }

    /// The state that follows `progress` on `event`, and what is to be done
    /// then.
    pub fn step(&self, progress: Progress, event: Event) -> (next: (Progress, Action))
        ensures
            (next.0, next.1@) == step(self@, progress, event),
    {
        match progress {
            Progress::Pending(index) => self.dispatch(index),
            Progress::Running(index) => match event {
                Event::Proceed => (progress, Action::Await),
                Event::Exited(Some(0)) => {
                    if index < self.matrix.len() {
                        self.dispatch(index + 1)
                    } else {
                        (
                            Progress::Finished(TaskResult::Success),
                            Action::Finish(TaskResult::Success),
                        )
                    }
                },
                Event::Exited(status) => (
                    Progress::Finished(TaskResult::Fail(status)),
                    Action::Finish(TaskResult::Fail(status)),
                ),
            },
            Progress::Finished(result) => (progress, Action::Finish(result)),
        }
    }
}

/// The text that separates the arguments of a command line.
pub open spec fn blank() -> Seq<char> {
    seq![' ']
}

/// `Itertools::join` on the given strings. Claimed, not proved: the result
/// holds the strings one after another, with `separator` between neighbours.
/// `join` reserves room for as many separators as there are strings by
/// multiplying the two lengths, so the separator is to be one byte at most.
#[verifier::external_body]
fn join(parts: &Vec<String>, separator: &str) -> (line: String)
    requires
        separator@.len() <= 1,
        separator.is_ascii(),
    ensures
        line@ == joined(texts(parts@), separator@),
{
    parts.iter().join(separator)
}

/// The command line that is shown for an invocation: the program and its
/// arguments, separated by blanks.
pub fn display_command(program: &str, arguments: &Vec<String>) -> (line: String)
    ensures
        line@ == program@ + blank() + joined(texts(arguments@), blank()),
{
    proof {
        reveal_strlit(" ");
        assert(" "@ =~= blank());
    }
    let mut line = program.to_owned();
    line.append(" ");
    let arguments = join(arguments, " ");
    line.append(arguments.as_str());
    line
}

/// A dry run succeeds, whatever the build tool would do.
pub proof fn lemma_dry_run_succeeds(task: TaskView, index: int, statuses: Seq<Option<i32>>)
    requires
        task.dry_run,
        task.rows.len() <= usize::MAX,
        0 <= index <= task.rows.len(),
    ensures
        drive(task, Progress::Pending(index as usize), statuses) == Some(TaskResult::Success),
    decreases task.rows.len() - index,
{
    if index < task.rows.len() {
        lemma_dry_run_succeeds(task, index + 1, statuses);
    }
}

/// After a run that ended with exit code 0 the task goes on as if the next
/// feature set had been pending from the start.
proof fn lemma_success_leads_on(task: TaskView, index: int, statuses: Seq<Option<i32>>)
    requires
        task.rows.len() <= usize::MAX,
        0 <= index < task.rows.len(),
        statuses.len() > 0,
        statuses[0] == Some(0i32),
    ensures
        drive(task, Progress::Running(index as usize), statuses) == drive(
            task,
            Progress::Pending((index + 1) as usize),
            statuses.drop_first(),
        ),
{
    let rest = statuses.drop_first();
    let next = dispatch(task, index + 1).0;
    assert(step(task, Progress::Running(index as usize), Event::Exited(statuses[0])).0 == next);
    assert(drive(task, Progress::Running(index as usize), statuses) == drive(task, next, rest));
    if index + 1 < task.rows.len() {
        assert(step(task, Progress::Pending((index + 1) as usize), Event::Proceed).0 == next);
    } else {
        assert(next == Progress::Finished(TaskResult::Success));
    }
}

/// A task succeeds if the build tool does so for every feature set.
pub proof fn lemma_all_runs_succeed(task: TaskView, index: int, statuses: Seq<Option<i32>>)
    requires
        !task.dry_run,
        task.rows.len() <= usize::MAX,
        0 <= index <= task.rows.len(),
        statuses.len() >= task.rows.len() - index,
        forall|i: int| 0 <= i < task.rows.len() - index ==> statuses[i] == Some(0i32),
    ensures
        drive(task, Progress::Pending(index as usize), statuses) == Some(TaskResult::Success),
    decreases task.rows.len() - index,
{
    if index < task.rows.len() {
        let rest = statuses.drop_first();
        assert(statuses[0] == Some(0i32));
        assert forall|i: int| 0 <= i < task.rows.len() - (index + 1) implies rest[i] == Some(
            0i32,
        ) by {
            assert(rest[i] == statuses[i + 1]);
        }
        lemma_all_runs_succeed(task, index + 1, rest);
        assert(step(task, Progress::Pending(index as usize), Event::Proceed).0
            == Progress::Running(index as usize));
        lemma_success_leads_on(task, index, statuses);
    }
}

/// A task fails with the first run of the build tool that does not end with
/// exit code 0, and with what that run left as its exit code; what the build
/// tool would do for the feature sets behind it plays no part.
pub proof fn lemma_first_failure_ends_task(
    task: TaskView,
    index: int,
    statuses: Seq<Option<i32>>,
    failing: int,
)
    requires
        !task.dry_run,
        task.rows.len() <= usize::MAX,
        0 <= index,
        0 <= failing < statuses.len(),
        index + failing < task.rows.len(),
        statuses[failing] != Some(0i32),
        forall|i: int| 0 <= i < failing ==> statuses[i] == Some(0i32),
    ensures
        drive(task, Progress::Pending(index as usize), statuses) == Some(
            TaskResult::Fail(statuses[failing]),
        ),
    decreases failing,
{
    let rest = statuses.drop_first();
    assert(step(task, Progress::Pending(index as usize), Event::Proceed).0 == Progress::Running(
        index as usize,
    ));
    if failing == 0 {
        assert(drive(task, Progress::Running(index as usize), statuses) == drive(
            task,
            Progress::Finished(TaskResult::Fail(statuses[0])),
            rest,
        ));
    } else {
        assert(statuses[0] == Some(0i32));
        assert(rest[failing - 1] == statuses[failing]);
        assert forall|i: int| 0 <= i < failing - 1 implies rest[i] == Some(0i32) by {
            assert(rest[i] == statuses[i + 1]);
        }
        lemma_first_failure_ends_task(task, index + 1, rest, failing - 1);
        lemma_success_leads_on(task, index, statuses);
    }
}

} // verus!
