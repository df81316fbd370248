//! Syntax tree for one command line: redirections, commands, pipelines,
//! together with their mathematical models and well-formedness predicates.

use vstd::prelude::*;

verus! {

/// Direction and mode of a redirection operator.
#[derive(Clone, Copy, Debug, PartialEq, Eq, Structural)]
pub enum RedirectType {
    Input,
    Output,
    Append,
}

/// One redirection: attach file descriptor `from` to the file named by
/// `target`, opened according to `typ`.
#[derive(Clone, Debug, PartialEq, Eq)]
pub struct Redirect {
    pub target: Vec<u8>,
    pub from: i32,
    pub typ: RedirectType,
}

/// One command of a pipeline. `arguments` does not include `name`; the
/// evaluator prepends `name` as argv[0].
#[derive(Clone, Debug, PartialEq, Eq)]
pub struct Command {
    pub name: Vec<u8>,
    pub arguments: Vec<Vec<u8>>,
    pub redirects: Vec<Redirect>,
}

/// A parsed line: commands left to right as written, `commands[0]` writing
/// into `commands[1]`'s standard input, with an optional background marker.
#[derive(Clone, Debug, PartialEq, Eq)]
pub struct Pipeline {
    pub commands: Vec<Command>,
    pub is_background: bool,
}

/// Mathematical model of a `Redirect`.
pub ghost struct RedirectModel {
    pub target: Seq<u8>,
    pub from: int,
    pub typ: RedirectType,
}

/// Mathematical model of a `Command`.
pub ghost struct CommandModel {
    pub name: Seq<u8>,
    pub arguments: Seq<Seq<u8>>,
    pub redirects: Seq<RedirectModel>,
}

/// Mathematical model of a `Pipeline`.
pub ghost struct PipelineModel {
    pub commands: Seq<CommandModel>,
    pub is_background: bool,
}

impl View for Redirect {
    type V = RedirectModel;

    open spec fn view(&self) -> RedirectModel {
        RedirectModel { target: self.target@, from: self.from as int, typ: self.typ }
    }
}

/// Model of a sequence of redirects.
pub open spec fn redirects_view(v: Seq<Redirect>) -> Seq<RedirectModel> {
    v.map_values(|r: Redirect| r@)
}

/// Model of a sequence of byte words.
pub open spec fn words_view(v: Seq<Vec<u8>>) -> Seq<Seq<u8>> {
    v.map_values(|w: Vec<u8>| w@)
}

impl View for Command {
    type V = CommandModel;

    open spec fn view(&self) -> CommandModel {
        CommandModel {
            name: self.name@,
            arguments: words_view(self.arguments@),
            redirects: redirects_view(self.redirects@),
        }
    }
}

/// Model of a sequence of commands.
pub open spec fn commands_view(v: Seq<Command>) -> Seq<CommandModel> {
    v.map_values(|c: Command| c@)
}

impl View for Pipeline {
    type V = PipelineModel;

    open spec fn view(&self) -> PipelineModel {
        PipelineModel { commands: commands_view(self.commands@), is_background: self.is_background }
    }
}

} // verus!
