//! The command tree.

use crate::lexer::{Span, TokenKind};
use crate::parser::result::Error;
use vstd::prelude::*;
use vstd::string::{StringExecFns, StringSliceAdditionalSpecFns};
use vstd::utf8::decode_utf8;

verus! {

/// One program with its arguments, each a span of the source text.
#[derive(Debug, PartialEq)]
pub struct SimpleCommand {
    pub program: Span,
    pub args: Vec<Span>,
}

/// A command line: single commands joined by `|`, `;` and `&`.
#[derive(Debug, PartialEq)]
pub enum Ast {
    Command(SimpleCommand),
    Pipeline(Vec<SimpleCommand>),
    BackgroundJob(Box<Ast>),
    Sequence(Vec<Ast>),
}

/// A command as a mathematical value.
pub struct CommandView {
    pub program: Span,
    pub args: Seq<Span>,
}

/// A command tree as a mathematical value.
pub enum AstView {
    Command(CommandView),
    Pipeline(Seq<CommandView>),
    BackgroundJob(Box<AstView>),
    Sequence(Seq<AstView>),
}

impl View for SimpleCommand {
    type V = CommandView;

    open spec fn view(&self) -> CommandView {
        CommandView { program: self.program, args: self.args@ }
    }
}

/// The commands of a pipeline as mathematical values.
pub open spec fn commands_view(commands: Seq<SimpleCommand>) -> Seq<CommandView> {
    Seq::new(commands.len(), |i: int| commands[i]@)
}

impl View for Ast {
    type V = AstView;

    open spec fn view(&self) -> AstView {
        self.model()
    }
}

impl Clone for SimpleCommand {
    fn clone(&self) -> (copy: Self)
        ensures
            copy@ == self@,
    {
        let mut args: Vec<Span> = Vec::new();
        let mut i: usize = 0;
        while i < self.args.len()
            invariant
                i <= self.args@.len(),
                args@ == self.args@.subrange(0, i as int),
            decreases self.args@.len() - i,
        {
            args.push(self.args[i]);
            proof {
                assert(args@ =~= self.args@.subrange(0, i + 1));
            }
            i += 1;
        }
        proof {
            assert(args@ =~= self.args@);
        }
        SimpleCommand { program: self.program, args }
    }
}

impl Clone for Ast {
    fn clone(&self) -> (copy: Self)
        ensures
            copy@ == self@,
        decreases self,
    {
        match self {
            Ast::Command(command) => Ast::Command(command.clone()),
            Ast::Pipeline(commands) => {
                let mut copies: Vec<SimpleCommand> = Vec::new();
                let mut i: usize = 0;
                while i < commands.len()
                    invariant
                        i <= commands@.len(),
                        copies@.len() == i,
                        forall|k: int| 0 <= k < i ==> (#[trigger] copies@[k])@ == commands@[k]@,
                    decreases commands@.len() - i,
                {
                    copies.push(commands[i].clone());
                    i += 1;
                }
                proof {
                    assert(commands_view(copies@) =~= commands_view(commands@));
                }
                Ast::Pipeline(copies)
            },
            Ast::BackgroundJob(inner) => Ast::BackgroundJob(Box::new((&**inner).clone())),
            Ast::Sequence(items) => {
                let mut copies: Vec<Ast> = Vec::new();
                let mut i: usize = 0;
                while i < items.len()
                    invariant
                        self == Ast::Sequence(*items),
                        i <= items@.len(),
                        copies@.len() == i,
                        forall|k: int| 0 <= k < i ==> (#[trigger] copies@[k])@ == items@[k]@,
                    decreases items@.len() - i,
                {
                    assert(self@->Sequence_0[i as int] == items@[i as int]@);
                    copies.push(items[i].clone());
                    i += 1;
                }
                let copy = Ast::Sequence(copies);
                proof {
                    assert(copy@->Sequence_0 =~= self@->Sequence_0);
                }
                copy
            },
        }
    }
}

impl SimpleCommand {
    /// Whether every span of the command can be sliced out of `source`.
    pub fn fits_in(&self, source: &str) -> (b: bool)
        ensures
            b == self@.fits(source.spec_bytes()),
    {
        if !self.program.fits_in(source) {
            return false;
        }
        let mut i: usize = 0;
        while i < self.args.len()
            invariant
                i <= self.args@.len(),
                forall|k: int| 0 <= k < i ==> (#[trigger] self@.args[k]).fits(source.spec_bytes()),
            decreases self.args@.len() - i,
        {
            if !self.args[i].fits_in(source) {
                assert(!self@.args[i as int].fits(source.spec_bytes()));
                return false;
            }
            i += 1;
        }
        true
    }
}

impl Ast {
    /// Whether every span of the tree can be sliced out of `source`.
    pub fn fits_in(&self, source: &str) -> (b: bool)
        ensures
            b == self@.fits(source.spec_bytes()),
        decreases self,
    {
        let ghost bytes = source.spec_bytes();
        match self {
            Ast::Command(command) => command.fits_in(source),
            Ast::Pipeline(commands) => {
                let ghost views = commands_view(commands@);
                let ghost whole = AstView::Pipeline(views);
                let mut i: usize = 0;
                while i < commands.len()
                    invariant
                        bytes == source.spec_bytes(),
                        views == commands_view(commands@),
                        whole == AstView::Pipeline(views),
                        self@ == whole,
                        i <= commands@.len(),
                        forall|k: int| 0 <= k < i ==> (#[trigger] views[k]).fits(bytes),
                    decreases commands@.len() - i,
                {
                    if !commands[i].fits_in(source) {
                        proof {
                            assert(!views[i as int].fits(bytes));
                            assert(whole->Pipeline_0 == views);
                        }
                        return false;
                    }
                    i += 1;
                }
                proof {
                    assert(whole->Pipeline_0 == views);
                }
                true
            },
            Ast::BackgroundJob(inner) => inner.fits_in(source),
            Ast::Sequence(items) => {
                let ghost trees = self@->Sequence_0;
                let ghost whole = AstView::Sequence(trees);
                let mut i: usize = 0;
                while i < items.len()
                    invariant
                        bytes == source.spec_bytes(),
                        self == Ast::Sequence(*items),
                        trees == self@->Sequence_0,
                        trees.len() == items@.len(),
                        whole == AstView::Sequence(trees),
                        self@ == whole,
                        i <= items@.len(),
                        forall|k: int| 0 <= k < i ==> (#[trigger] trees[k]).fits(bytes),
                    decreases items@.len() - i,
                {
                    assert(trees[i as int] == items@[i as int]@);
                    if !items[i].fits_in(source) {
                        proof {
                            assert(!trees[i as int].fits(bytes));
                            assert(whole->Sequence_0 == trees);
                        }
                        return false;
                    }
                    i += 1;
                }
                proof {
                    assert(whole->Sequence_0 == trees);
                }
                true
            },
        }
    }

    /// The tree as a mathematical value: what `@` gives.
    pub open spec fn model(&self) -> AstView
        decreases self,
    {
        match self {
            Ast::Command(command) => AstView::Command(command@),
            Ast::Pipeline(commands) => AstView::Pipeline(commands_view(commands@)),
            Ast::BackgroundJob(inner) => AstView::BackgroundJob(Box::new(inner.model())),
            Ast::Sequence(items) => AstView::Sequence(
                Seq::new(
                    items@.len(),
                    |i: int|
                        if 0 <= i < items@.len() {
                            items@[i].model()
                        } else {
                            arbitrary()
                        },
                ),
            ),
        }
    }

    /// The single command that the tree is, if it is one.
    pub fn into_command(self) -> (r: Result<SimpleCommand, Error>)
        ensures
            match self {
                Ast::Command(command) => r == Ok::<SimpleCommand, Error>(command),
                _ => r == Err::<SimpleCommand, Error>(Error::ExpectedCommand(TokenKind::Atom)),
            },
    {
        match self {
            Ast::Command(command) => Ok(command),
            _ => Err(Error::ExpectedCommand(TokenKind::Atom)),
        }
    }
}

/// What a tree says, whatever the places of its words in the text: two
/// trees of one shape are the same commands, joined in the same way.
pub enum Shape {
    Command(Seq<Seq<u8>>),
    Pipeline(Seq<Seq<Seq<u8>>>),
    BackgroundJob(Box<Shape>),
    Sequence(Seq<Shape>),
}

impl CommandView {
    /// The words of the command as bytes: the program's name first.
    pub open spec fn shape(self, bytes: Seq<u8>) -> Seq<Seq<u8>> {
        seq![self.program.text(bytes)] + Seq::new(
            self.args.len(),
            |i: int| self.args[i].text(bytes),
        )
    }
}

impl AstView {
    /// The shape of the tree, with the words that `bytes` gives to its
    /// spans.
    pub open spec fn shape(self, bytes: Seq<u8>) -> Shape
        decreases self,
    {
        match self {
            AstView::Command(command) => Shape::Command(command.shape(bytes)),
            AstView::Pipeline(commands) => Shape::Pipeline(
                Seq::new(commands.len(), |i: int| commands[i].shape(bytes)),
            ),
            AstView::BackgroundJob(inner) => Shape::BackgroundJob(Box::new(inner.shape(bytes))),
            AstView::Sequence(items) => Shape::Sequence(
                Seq::new(
                    items.len(),
                    |i: int|
                        if 0 <= i < items.len() {
                            items[i].shape(bytes)
                        } else {
                            arbitrary()
                        },
                ),
            ),
        }
    }
}

/// The text that `span` covers in `bytes`.
pub open spec fn word(span: Span, bytes: Seq<u8>) -> Seq<char> {
    decode_utf8(span.text(bytes))
}

/// The first `upto` of `parts`, with `separator` between each two.
pub open spec fn joined(parts: Seq<Seq<char>>, separator: Seq<char>, upto: int) -> Seq<char>
    decreases upto,
{
    if upto <= 0 {
        Seq::empty()
    } else if upto == 1 {
        parts[0]
    } else {
        joined(parts, separator, upto - 1) + separator + parts[upto - 1]
    }
}

impl CommandView {
    /// Every span of the command fits `bytes`.
    pub open spec fn fits(self, bytes: Seq<u8>) -> bool {
        &&& self.program.fits(bytes)
        &&& forall|i: int| 0 <= i < self.args.len() ==> (#[trigger] self.args[i]).fits(bytes)
    }

    /// The words of the command as `bytes` spells them: the program's name
    /// first.
    pub open spec fn words(self, bytes: Seq<u8>) -> Seq<Seq<char>> {
        seq![word(self.program, bytes)] + Seq::new(
            self.args.len(),
            |i: int| word(self.args[i], bytes),
        )
    }

    /// The arguments with a blank between each two.
    pub open spec fn arguments_text(self, bytes: Seq<u8>) -> Seq<char> {
        joined(
            Seq::new(self.args.len(), |i: int| word(self.args[i], bytes)),
            " "@,
            self.args.len() as int,
        )
    }

    /// The command as text: the program's name and, if the arguments give
    /// any text, a blank and the arguments.
    pub open spec fn text(self, bytes: Seq<u8>) -> Seq<char> {
        let arguments = self.arguments_text(bytes);
        if arguments.len() > 0 {
            word(self.program, bytes) + " "@ + arguments
        } else {
            word(self.program, bytes)
        }
    }
}

/// The texts of some commands.
pub open spec fn command_texts(commands: Seq<CommandView>, bytes: Seq<u8>) -> Seq<Seq<char>> {
    Seq::new(commands.len(), |i: int| commands[i].text(bytes))
}

impl AstView {
    /// Every span of the tree fits `bytes`.
    pub open spec fn fits(self, bytes: Seq<u8>) -> bool
        decreases self,
    {
        match self {
            AstView::Command(command) => command.fits(bytes),
            AstView::Pipeline(commands) => forall|i: int|
                0 <= i < commands.len() ==> (#[trigger] commands[i]).fits(bytes),
            AstView::BackgroundJob(inner) => inner.fits(bytes),
            AstView::Sequence(items) => forall|i: int|
                0 <= i < items.len() ==> (#[trigger] items[i]).fits(bytes),
        }
    }

    /// The tree as text: the commands of a pipeline joined by ` | `, the
    /// items of a sequence by `; `, and ` &` behind a background job.
    pub open spec fn text(self, bytes: Seq<u8>) -> Seq<char>
        decreases self, 0nat,
    {
        match self {
            AstView::Command(command) => command.text(bytes),
            AstView::Pipeline(commands) => joined(
                command_texts(commands, bytes),
                " | "@,
                commands.len() as int,
            ),
            AstView::BackgroundJob(inner) => inner.text(bytes) + " &"@,
            AstView::Sequence(items) => Self::sequence_text(items, bytes, items.len()),
        }
    }

    /// The first `upto` of `items` as text, with `; ` between each two.
    pub open spec fn sequence_text(items: Seq<AstView>, bytes: Seq<u8>, upto: nat) -> Seq<char>
        decreases items, upto,
    {
        if upto == 0 || upto > items.len() {
            Seq::empty()
        } else if upto == 1 {
            items[0].text(bytes)
        } else {
            Self::sequence_text(items, bytes, (upto - 1) as nat) + "; "@ + items[upto - 1].text(
                bytes,
            )
        }
    }
}

/// A tree or a part of one that can be written out as text.
pub trait DisplayAst {
    /// Every span fits `bytes`, so that its text can be cut out.
    spec fn displayable(&self, bytes: Seq<u8>) -> bool;

    /// The text.
    spec fn display(&self, bytes: Seq<u8>) -> Seq<char>;

    /// Writes the value as the text of `source` spells it.
    fn to_string(&self, source: &str) -> (s: String)
        requires
            self.displayable(source.spec_bytes()),
        ensures
            s@ == self.display(source.spec_bytes()),
    ;
}

impl DisplayAst for SimpleCommand {
    open spec fn displayable(&self, bytes: Seq<u8>) -> bool {
        self@.fits(bytes)
    }

    open spec fn display(&self, bytes: Seq<u8>) -> Seq<char> {
        self@.text(bytes)
    }

    fn to_string(&self, source: &str) -> (s: String) {
        let ghost bytes = source.spec_bytes();
        let ghost parts = Seq::new(self@.args.len(), |i: int| word(self@.args[i], bytes));
        let name = self.program.slice(source);
        let mut args = String::new();
        let mut i: usize = 0;
        while i < self.args.len()
            invariant
                bytes == source.spec_bytes(),
                self@.fits(bytes),
                parts == Seq::new(self@.args.len(), |i: int| word(self@.args[i], bytes)),
                i <= self.args@.len(),
                args@ == joined(parts, " "@, i as int),
            decreases self.args@.len() - i,
        {
            let ghost before = args@;
            if i > 0 {
                args.append(" ");
            }
            args.append(self.args[i].slice(source));
            proof {
                assert(self@.args[i as int].fits(bytes));
                assert(args@ =~= joined(parts, " "@, i + 1));
            }
            i += 1;
        }
        let mut s = String::from_str(name);
        if !args.as_str().is_empty() {
            s.append(" ");
            s.append(args.as_str());
        }
        s
    }
}

impl DisplayAst for Ast {
    open spec fn displayable(&self, bytes: Seq<u8>) -> bool {
        self@.fits(bytes)
    }

    open spec fn display(&self, bytes: Seq<u8>) -> Seq<char> {
        self@.text(bytes)
    }

    fn to_string(&self, source: &str) -> (s: String)
        decreases self,
    {
        let ghost bytes = source.spec_bytes();
        let mut formatted = String::new();
        match self {
            Ast::BackgroundJob(inner) => {
                formatted.append(inner.to_string(source).as_str());
                formatted.append(" &");
            },
            Ast::Command(command) => {
                formatted.append(command.to_string(source).as_str());
            },
            Ast::Pipeline(commands) => {
                let ghost parts = command_texts(commands_view(commands@), bytes);
                proof {
                    let cs = commands_view(commands@);
                    assert(AstView::Pipeline(cs).fits(bytes));
                    assert(cs.len() == commands@.len());
                    assert forall|k: int| 0 <= k < cs.len() implies (#[trigger] cs[k]).fits(
                        bytes,
                    ) by {
                        let t = AstView::Pipeline(cs);
                        assert(t.fits(bytes));
                        assert(t->Pipeline_0 == cs);
                    }
                }
                let mut i: usize = 0;
                while i < commands.len()
                    invariant
                        bytes == source.spec_bytes(),
                        forall|k: int|
                            0 <= k < commands@.len() ==> (#[trigger] commands_view(
                                commands@,
                            )[k]).fits(bytes),
                        parts == command_texts(commands_view(commands@), bytes),
                        i <= commands@.len(),
                        formatted@ == joined(parts, " | "@, i as int),
                    decreases commands@.len() - i,
                {
                    if i > 0 {
                        formatted.append(" | ");
                    }
                    proof {
                        assert(commands_view(commands@)[i as int].fits(bytes));
                        assert(commands_view(commands@)[i as int] == commands@[i as int]@);
                    }
                    formatted.append(commands[i].to_string(source).as_str());
                    proof {
                        assert(formatted@ =~= joined(parts, " | "@, i + 1));
                    }
                    i += 1;
                }
            },
            Ast::Sequence(items) => {
                let ghost trees = self@->Sequence_0;
                let mut i: usize = 0;
                while i < items.len()
                    invariant
                        bytes == source.spec_bytes(),
                        self == Ast::Sequence(*items),
                        trees == self@->Sequence_0,
                        trees.len() == items@.len(),
                        forall|k: int| 0 <= k < trees.len() ==> (#[trigger] trees[k]).fits(bytes),
                        i <= items@.len(),
                        formatted@ == AstView::sequence_text(trees, bytes, i as nat),
                    decreases items@.len() - i,
                {
                    if i > 0 {
                        formatted.append("; ");
                    }
                    proof {
                        assert(trees[i as int].fits(bytes));
                        assert(trees[i as int] == items@[i as int]@);
                    }
                    formatted.append(items[i].to_string(source).as_str());
                    proof {
                        assert(formatted@ =~= AstView::sequence_text(trees, bytes, (i + 1) as nat));
                    }
                    i += 1;
                }
            },
        };
        formatted
    }
}

} // verus!
