//! The order in which the hooks of the plugins are asked and what is made of their answers.
//!
//! The hooks themselves are the plugins' code and run elsewhere. The driver says which
//! plugin is asked next and, once no plugin is left to ask, what the outcome is.

use vstd::prelude::*;
use crate::error::BuildError;
use crate::plugin::{LoadOutput, Loader, ResolvedId};

verus! {

/// What the driver does after an answer: ask the plugin at a position, or stop.
#[derive(Debug)]
pub enum HookStep<T> {
    /// Ask the plugin at this position next.
    Call(usize),
    /// All is settled: the answer of the plugin that won, or nothing.
    Done(Option<T>),
    /// A plugin failed; no other plugin is asked.
    Failed(BuildError),
}

/// The state of a chain of transform hooks: the source and the loader as they stand.
#[derive(Debug)]
pub struct Transformed {
    pub code: String,
    pub loader: Loader,
}

/// What the driver does after the answer of a transform hook.
#[derive(Debug)]
pub enum TransformStep {
    /// Hand this source and loader to the plugin at `plugin`.
    Call { plugin: usize, state: Transformed },
    /// No plugin is left: this is the source to parse and its loader.
    Done(Transformed),
    /// A plugin failed; no other plugin is asked.
    Failed(BuildError),
}

/// What a transform hook answers with: the loader as it leaves it, and new source if it
/// rewrote the source.
#[derive(Debug)]
pub struct TransformAnswer {
    pub code: Option<String>,
    pub loader: Loader,
}

/// The plugins of a build, by their number; the plugin at position 0 is asked first.
#[derive(Debug, Clone, Copy)]
pub struct BuildPluginDriver {
    pub plugins: usize,
}

impl BuildPluginDriver {
    pub fn new(plugins: usize) -> (r: Self)
        ensures
            r.plugins == plugins,
    {
        BuildPluginDriver { plugins }
    }

    /// How a chain of `load` or `resolve` hooks starts: with the first plugin, or, without
    /// plugins, with nothing as the outcome.
    pub fn first<T>(&self) -> (r: HookStep<T>)
        ensures
            match r {
                HookStep::Call(i) => self.plugins > 0 && i == 0,
                HookStep::Done(output) => self.plugins == 0 && output is None,
                HookStep::Failed(_) => false,
            },
    {
        if self.plugins > 0 {
            HookStep::Call(0)
        } else {
            HookStep::Done(None)
        }
    }

    /// What follows the answer `output` of the plugin at `asked` in a chain where the first
    /// answer wins: an answer ends the chain, a failure ends it, nothing passes the
    /// question on to the next plugin, if there is one.
    pub fn next<T>(&self, asked: usize, output: Result<Option<T>, BuildError>) -> (r: HookStep<T>)
        ensures
            match output {
                Ok(Some(answer)) => r == HookStep::Done(Some(answer)),
                Ok(None) => if asked + 1 < self.plugins {
                    r == HookStep::<T>::Call((asked + 1) as usize)
                } else {
                    r == HookStep::<T>::Done(None)
                },
                Err(e) => r == HookStep::<T>::Failed(e),
            },
    {
        match output {
            Ok(Some(answer)) => HookStep::Done(Some(answer)),
            Ok(None) => {
                if self.plugins > 0 && asked < self.plugins - 1 {
                    HookStep::Call(asked + 1)
                } else {
                    HookStep::Done(None)
                }
            },
            Err(e) => HookStep::Failed(e),
        }
    }

    /// What follows the answer of the `load` hook of the plugin at `asked`.
    pub fn load(&self, asked: usize, output: Result<Option<LoadOutput>, BuildError>) -> (r: HookStep<
        LoadOutput,
    >)
        ensures
            match output {
                Ok(Some(answer)) => r == HookStep::Done(Some(answer)),
                Ok(None) => if asked + 1 < self.plugins {
                    r == HookStep::<LoadOutput>::Call((asked + 1) as usize)
                } else {
                    r == HookStep::<LoadOutput>::Done(None)
                },
                Err(e) => r == HookStep::<LoadOutput>::Failed(e),
            },
    {
        self.next(asked, output)
    }

    /// What follows the answer of the `resolve` hook of the plugin at `asked`.
    pub fn resolve(&self, asked: usize, output: Result<Option<ResolvedId>, BuildError>) -> (r: HookStep<
        ResolvedId,
    >)
        ensures
            match output {
                Ok(Some(answer)) => r == HookStep::Done(Some(answer)),
                Ok(None) => if asked + 1 < self.plugins {
                    r == HookStep::<ResolvedId>::Call((asked + 1) as usize)
                } else {
                    r == HookStep::<ResolvedId>::Done(None)
                },
                Err(e) => r == HookStep::<ResolvedId>::Failed(e),
            },
    {
        self.next(asked, output)
    }

    /// How a chain of `transform` hooks starts for the source `code` read with `loader`.
    pub fn transform_first(&self, code: String, loader: Loader) -> (r: TransformStep)
        ensures
            if self.plugins > 0 {
                r == (TransformStep::Call { plugin: 0, state: Transformed { code, loader } })
            } else {
                r == TransformStep::Done(Transformed { code, loader })
            },
    {
        if self.plugins > 0 {
            TransformStep::Call { plugin: 0, state: Transformed { code, loader } }
        } else {
            TransformStep::Done(Transformed { code, loader })
        }
    }

    /// What follows the answer of the `transform` hook of the plugin at `asked`, which was
    /// handed `state`: the source is what the hook returned, or, where it returned
    /// nothing, what it was handed; the loader is as the hook left it. The next plugin
    /// sees both.
    pub fn transform(&self, asked: usize, state: Transformed, output: Result<TransformAnswer, BuildError>) -> (r:
        TransformStep)
        ensures
            match output {
                Ok(answer) => {
                    let code = match answer.code {
                        Some(rewritten) => rewritten,
                        None => state.code,
                    };
                    if asked + 1 < self.plugins {
                        r == (TransformStep::Call {
                            plugin: (asked + 1) as usize,
                            state: Transformed { code, loader: answer.loader },
                        })
                    } else {
                        r == TransformStep::Done(Transformed { code, loader: answer.loader })
                    }
                },
                Err(e) => r == TransformStep::Failed(e),
            },
    {
        match output {
            Ok(answer) => {
                let code = match answer.code {
                    Some(rewritten) => rewritten,
                    None => state.code,
                };
                let state = Transformed { code, loader: answer.loader };
                if self.plugins > 0 && asked < self.plugins - 1 {
                    TransformStep::Call { plugin: asked + 1, state }
                } else {
                    TransformStep::Done(state)
                }
            },
            Err(e) => TransformStep::Failed(e),
        }
    }
}

/// The outcome of a chain in which the first answer wins, run from the step `step` on with
/// the plugins answering `answers`.
pub open spec fn run_chain<T>(
    plugins: usize,
    answers: Seq<Result<Option<T>, BuildError>>,
    asked: int,
) -> Result<Option<T>, BuildError>
    decreases plugins - asked,
{
    if 0 <= asked < plugins && asked < answers.len() {
        match answers[asked] {
            Ok(Some(answer)) => Ok(Some(answer)),
            Ok(None) => run_chain(plugins, answers, asked + 1),
            Err(e) => Err(e),
        }
    } else {
        Ok(None)
    }
}

/// The first plugin that answers wins: a chain driven by [`BuildPluginDriver::next`] ends
/// with the first answer that is not nothing, and asks no plugin behind the one that gave
/// it or failed.
pub proof fn lemma_first_plugin_wins<T>(
    plugins: usize,
    answers: Seq<Result<Option<T>, BuildError>>,
    asked: int,
    winner: int,
)
    requires
        answers.len() == plugins,
        0 <= asked <= winner < plugins,
        forall|i: int| asked <= i < winner ==> #[trigger] answers[i] == Ok::<Option<T>, BuildError>(None),
        !(answers[winner] == Ok::<Option<T>, BuildError>(None)),
    ensures
        run_chain(plugins, answers, asked) == answers[winner],
    decreases winner - asked,
{
    if asked < winner {
        assert(answers[asked] == Ok::<Option<T>, BuildError>(None));
        lemma_first_plugin_wins(plugins, answers, asked + 1, winner);
    }
}

} // verus!
