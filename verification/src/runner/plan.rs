//! What running a command tree comes to: which programs are started with
//! which arguments, how the stages of a pipeline are wired, and in which
//! order the steps are taken.

use crate::parser::ast::{commands_view, Ast, AstView, CommandView, DisplayAst, SimpleCommand};
use crate::runner::report::texts;
use crate::runner::result::Error;
use vstd::prelude::*;
use vstd::string::{StringExecFns, StringSliceAdditionalSpecFns};

verus! {

/// One process of a pipeline.
#[derive(Debug)]
pub struct Stage {
    /// The program's name and its arguments.
    pub argv: Vec<String>,
    /// The pipe whose read end becomes the standard input, if any.
    pub stdin_pipe: Option<usize>,
    /// The pipe whose write end becomes the standard output, if any.
    pub stdout_pipe: Option<usize>,
}

/// A stage as a mathematical value.
pub struct StageView {
    pub argv: Seq<Seq<char>>,
    pub stdin_pipe: Option<usize>,
    pub stdout_pipe: Option<usize>,
}

impl View for Stage {
    type V = StageView;

    open spec fn view(&self) -> StageView {
        StageView {
            argv: texts(self.argv@),
            stdin_pipe: self.stdin_pipe,
            stdout_pipe: self.stdout_pipe,
        }
    }
}

/// The stage at `index` of a pipeline of `commands`. Pipe `i` leads from
/// stage `i` to stage `i + 1`: the first stage keeps the shell's input and
/// the last one the shell's output.
pub open spec fn stage_at(commands: Seq<CommandView>, bytes: Seq<u8>, index: int) -> StageView {
    StageView {
        argv: commands[index].words(bytes),
        stdin_pipe: if index > 0 {
            Some((index - 1) as usize)
        } else {
            None
        },
        stdout_pipe: if index + 1 < commands.len() {
            Some(index as usize)
        } else {
            None
        },
    }
}

/// The stages of a pipeline of `commands`, from left to right.
pub open spec fn stages_of(commands: Seq<CommandView>, bytes: Seq<u8>) -> Seq<StageView> {
    Seq::new(commands.len(), |i: int| stage_at(commands, bytes, i))
}

/// How many pipes a pipeline of `stages` processes needs.
pub open spec fn pipes_needed(stages: nat) -> nat {
    if stages == 0 {
        0
    } else {
        (stages - 1) as nat
    }
}

/// Each pipe of a pipeline joins two neighbours: pipe `pipe` is written by
/// stage `pipe` and read by the stage behind it, and by no other stage. The
/// first stage reads from no pipe and the last one writes to none.
pub proof fn lemma_pipes_join_neighbours(commands: Seq<CommandView>, bytes: Seq<u8>, pipe: int)
    requires
        commands.len() <= usize::MAX,
        0 <= pipe < pipes_needed(commands.len()),
    ensures
        ({
            let stages = stages_of(commands, bytes);
            &&& stages[pipe].stdout_pipe == Some(pipe as usize)
            &&& stages[pipe + 1].stdin_pipe == Some(pipe as usize)
            &&& forall|i: int|
                0 <= i < stages.len() && i != pipe ==> (#[trigger] stages[i]).stdout_pipe != Some(
                    pipe as usize,
                )
            &&& forall|i: int|
                0 <= i < stages.len() && i != pipe + 1 ==> (#[trigger] stages[i]).stdin_pipe
                    != Some(pipe as usize)
            &&& stages[0].stdin_pipe is None
            &&& stages[stages.len() - 1].stdout_pipe is None
        }),
{
}

/// How many pipes a pipeline of `stages` processes needs: one between each
/// two neighbours.
pub fn pipe_count(stages: usize) -> (pipes: usize)
    ensures
        pipes == pipes_needed(stages as nat),
{
    if stages == 0 {
        0
    } else {
        stages - 1
    }
}

/// Some stages as mathematical values.
pub open spec fn stage_views(stages: Seq<Stage>) -> Seq<StageView> {
    Seq::new(stages.len(), |i: int| stages[i]@)
}

/// The program's name and the arguments of `command`, as `source` spells
/// them: what the program is started with.
pub fn argv_of(command: &SimpleCommand, source: &str) -> (argv: Vec<String>)
    requires
        command@.fits(source.spec_bytes()),
    ensures
        texts(argv@) == command@.words(source.spec_bytes()),
{
    let mut argv: Vec<String> = Vec::new();
    argv.push(String::from_str(command.program.slice(source)));
    let mut i: usize = 0;
    while i < command.args.len()
        invariant
            command@.fits(source.spec_bytes()),
            i <= command.args@.len(),
            argv@.len() == i + 1,
            forall|k: int|
                0 <= k <= i ==> (#[trigger] argv@[k])@ == command@.words(source.spec_bytes())[k],
        decreases command.args@.len() - i,
    {
        assert(command@.args[i as int].fits(source.spec_bytes()));
        argv.push(String::from_str(command.args[i].slice(source)));
        i += 1;
    }
    proof {
        assert(texts(argv@) =~= command@.words(source.spec_bytes()));
    }
    argv
}

/// Lays a pipeline out: one stage for each command, with the pipe that
/// feeds it and the pipe that it feeds.
pub fn wire(commands: &Vec<SimpleCommand>, source: &str) -> (stages: Vec<Stage>)
    requires
        AstView::Pipeline(commands_view(commands@)).fits(source.spec_bytes()),
    ensures
        stage_views(stages@) == stages_of(commands_view(commands@), source.spec_bytes()),
{
    let ghost bytes = source.spec_bytes();
    let ghost views = commands_view(commands@);
    proof {
        let tree = AstView::Pipeline(views);
        assert(tree.fits(bytes));
        assert forall|k: int| 0 <= k < views.len() implies (#[trigger] views[k]).fits(bytes) by {
            assert(tree->Pipeline_0 == views);
        }
    }
    let mut stages: Vec<Stage> = Vec::new();
    let mut i: usize = 0;
    while i < commands.len()
        invariant
            bytes == source.spec_bytes(),
            views == commands_view(commands@),
            forall|k: int| 0 <= k < views.len() ==> (#[trigger] views[k]).fits(bytes),
            i <= commands@.len(),
            stages@.len() == i,
            forall|k: int| 0 <= k < i ==> (#[trigger] stages@[k])@ == stage_at(views, bytes, k),
        decreases commands@.len() - i,
    {
        assert(views[i as int].fits(bytes));
        let argv = argv_of(&commands[i], source);
        let stdin_pipe = if i > 0 {
            Some(i - 1)
        } else {
            None
        };
        let stdout_pipe = if i + 1 < commands.len() {
            Some(i)
        } else {
            None
        };
        stages.push(Stage { argv, stdin_pipe, stdout_pipe });
        i += 1;
    }
    proof {
        assert(stage_views(stages@) =~= stages_of(views, bytes));
    }
    stages
}

/// The process group of a pipeline's next child: the group that the first
/// child has opened, or the child's own if it is the first.
pub fn pipeline_group(group: Option<i32>, child: i32) -> (target: i32)
    ensures
        target == match group {
            Some(leader) => leader,
            None => child,
        },
{
    match group {
        Some(leader) => leader,
        None => child,
    }
}

/// One thing to do for a command tree.
#[derive(Debug)]
pub enum Step<'a> {
    /// Start the program, wait for it to end.
    Command(Vec<String>),
    /// Start the stages, wait for each to end.
    Pipeline(Vec<Stage>),
    /// Start a child that runs `tree`, and enter it in the job table under
    /// the text `command` without waiting for it.
    Background { tree: &'a Ast, command: String },
}

/// A step as a mathematical value.
pub enum StepView {
    Command(Seq<Seq<char>>),
    Pipeline(Seq<StageView>),
    Background { tree: AstView, command: Seq<char> },
}

impl<'a> View for Step<'a> {
    type V = StepView;

    open spec fn view(&self) -> StepView {
        match self {
            Step::Command(argv) => StepView::Command(texts(argv@)),
            Step::Pipeline(stages) => StepView::Pipeline(stage_views(stages@)),
            Step::Background { tree, command } => StepView::Background {
                tree: tree@,
                command: command@,
            },
        }
    }
}

/// Some steps as mathematical values.
pub open spec fn step_views(steps: Seq<Step>) -> Seq<StepView> {
    Seq::new(steps.len(), |i: int| steps[i]@)
}

/// The steps that running `tree` comes to, in their order. A sequence gives
/// the steps of its items one after another; a pipeline without commands
/// gives none.
pub open spec fn steps_of(tree: AstView, bytes: Seq<u8>) -> Seq<StepView>
    decreases tree, 0nat,
{
    match tree {
        AstView::Command(command) => seq![StepView::Command(command.words(bytes))],
        AstView::Pipeline(commands) => if commands.len() == 0 {
            Seq::empty()
        } else {
            seq![StepView::Pipeline(stages_of(commands, bytes))]
        },
        AstView::BackgroundJob(inner) => seq![
            StepView::Background { tree: *inner, command: inner.text(bytes) },
        ],
        AstView::Sequence(items) => sequence_steps(items, bytes, items.len()),
    }
}

/// The steps of the first `upto` of `items`.
pub open spec fn sequence_steps(items: Seq<AstView>, bytes: Seq<u8>, upto: nat) -> Seq<StepView>
    decreases items, upto,
{
    if upto == 0 || upto > items.len() {
        Seq::empty()
    } else {
        sequence_steps(items, bytes, (upto - 1) as nat) + steps_of(items[upto - 1], bytes)
    }
}

/// Adds the steps of `tree` to `steps`.
pub fn plan_into<'a>(tree: &'a Ast, source: &str, steps: &mut Vec<Step<'a>>)
    requires
        tree@.fits(source.spec_bytes()),
    ensures
        step_views(final(steps)@) == step_views(old(steps)@) + steps_of(tree@, source.spec_bytes()),
    decreases tree,
{
    let ghost bytes = source.spec_bytes();
    let ghost before = step_views(steps@);
    match tree {
        Ast::Command(command) => {
            steps.push(Step::Command(argv_of(command, source)));
            proof {
                assert(step_views(steps@) =~= before + steps_of(tree@, bytes));
            }
        },
        Ast::Pipeline(commands) => {
            if commands.len() > 0 {
                steps.push(Step::Pipeline(wire(commands, source)));
            }
            proof {
                assert(step_views(steps@) =~= before + steps_of(tree@, bytes));
            }
        },
        Ast::BackgroundJob(inner) => {
            let command = inner.to_string(source);
            steps.push(Step::Background { tree: &**inner, command });
            proof {
                assert(step_views(steps@) =~= before + steps_of(tree@, bytes));
            }
        },
        Ast::Sequence(items) => {
            let ghost trees = tree@->Sequence_0;
            proof {
                let whole = AstView::Sequence(trees);
                assert(whole.fits(bytes));
                assert forall|k: int| 0 <= k < trees.len() implies (#[trigger] trees[k]).fits(
                    bytes,
                ) by {
                    assert(whole->Sequence_0 == trees);
                }
            }
            let mut i: usize = 0;
            while i < items.len()
                invariant
                    bytes == source.spec_bytes(),
                    tree == Ast::Sequence(*items),
                    trees == tree@->Sequence_0,
                    trees.len() == items@.len(),
                    forall|k: int| 0 <= k < trees.len() ==> (#[trigger] trees[k]).fits(bytes),
                    i <= items@.len(),
                    step_views(steps@) == before + sequence_steps(trees, bytes, i as nat),
                decreases items@.len() - i,
            {
                proof {
                    assert(trees[i as int].fits(bytes));
                    assert(trees[i as int] == items@[i as int]@);
                }
                plan_into(&items[i], source, steps);
                proof {
                    assert(step_views(steps@) =~= before + sequence_steps(
                        trees,
                        bytes,
                        (i + 1) as nat,
                    ));
                }
                i += 1;
            }
        },
    }
}

/// The steps that running `tree` comes to, in their order.
pub fn plan<'a>(tree: &'a Ast, source: &str) -> (steps: Vec<Step<'a>>)
    requires
        tree@.fits(source.spec_bytes()),
    ensures
        step_views(steps@) == steps_of(tree@, source.spec_bytes()),
{
    let mut steps: Vec<Step<'a>> = Vec::new();
    plan_into(tree, source, &mut steps);
    proof {
        assert(step_views(steps@) =~= steps_of(tree@, source.spec_bytes()));
    }
    steps
}

/// What to do next while the steps of a tree are taken.
#[derive(Debug, Clone, Copy, PartialEq, Eq)]
pub enum Progress {
    /// Take the step of this index.
    Perform(usize),
    /// Stop: all steps are taken, or one has failed with this error.
    Finished(Result<(), Error>),
}

/// Decides how the run of `steps` steps goes on after `taken` of them,
/// the last with the result `last`. The steps are taken one after another,
/// and the first failure ends the run: no later step is taken.
pub fn advance(steps: usize, taken: usize, last: Result<(), Error>) -> (next: Progress)
    ensures
        next == match last {
            Err(e) => Progress::Finished(Err(e)),
            Ok(_) => if taken < steps {
                Progress::Perform(taken)
            } else {
                Progress::Finished(Ok(()))
            },
        },
{
    match last {
        Err(e) => Progress::Finished(Err(e)),
        Ok(_) => if taken < steps {
            Progress::Perform(taken)
        } else {
            Progress::Finished(Ok(()))
        },
    }
}

} // verus!
