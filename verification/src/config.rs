//! The launcher's configuration: which applications come first on which
//! workspace.
use crate::text::{copy_texts, same_text, texts};
use vstd::prelude::*;
use vstd::string::StringExecFns;

verus! {

/// The configuration of the launcher.
#[derive(Debug, Clone)]
pub struct Config {
    /// The contexts, in the order of the file.
    pub contexts: Vec<Context>,
}

/// The applications that come first on one workspace.
#[derive(Debug, Clone)]
pub struct Context {
    /// The name of the workspace, or `default` for every other.
    pub name: String,
    /// The applications that come first, in order.
    pub priority: Vec<String>,
}

/// What came of looking for the configuration file.
#[derive(Debug)]
pub enum ConfigSource {
    /// There is no such file.
    Missing,
    /// The file could not be read, for the reason given.
    Unreadable {
        /// Where the file is.
        path: String,
        /// Why it could not be read.
        error: String,
    },
    /// The file does not hold a configuration, for the reason given.
    Malformed {
        /// Where the file is.
        path: String,
        /// What is wrong with it.
        error: String,
    },
    /// The file holds this configuration.
    Parsed(Config),
}

/// The first place at or after `from` where a context of the name `name`
/// stands; the number of contexts where there is none.
pub open spec fn first_named(contexts: Seq<Context>, name: Seq<char>, from: int) -> int
    decreases contexts.len() - from,
{
    if from >= contexts.len() || contexts[from].name@ == name {
        from
    } else {
        first_named(contexts, name, from + 1)
    }
}

/// Whether some context has the name `name`.
pub open spec fn has_context(contexts: Seq<Context>, name: Seq<char>) -> bool {
    exists|i: int| 0 <= i < contexts.len() && (#[trigger] contexts[i]).name@ == name
}

/// The context for a workspace: the first of its name, else the first that is
/// named `default`.
pub open spec fn context_of(contexts: Seq<Context>, workspace: Seq<char>) -> Option<Context> {
    if has_context(contexts, workspace) {
        Some(contexts[first_named(contexts, workspace, 0)])
    } else if has_context(contexts, "default"@) {
        Some(contexts[first_named(contexts, "default"@, 0)])
    } else {
        None
    }
}

/// The applications that come first on a workspace: none where no context
/// applies.
pub open spec fn priority_of(contexts: Seq<Context>, workspace: Seq<char>) -> Seq<Seq<char>> {
    match context_of(contexts, workspace) {
        Some(c) => texts(c.priority@),
        None => seq![],
    }
}

proof fn lemma_first_named(contexts: Seq<Context>, name: Seq<char>, from: int, to: int)
    requires
        0 <= from <= to <= contexts.len(),
        forall|k: int| from <= k < to ==> (#[trigger] contexts[k]).name@ != name,
        to < contexts.len() ==> contexts[to].name@ == name,
    ensures
        first_named(contexts, name, from) == to,
    decreases to - from,
{
    if from < to {
        assert(contexts[from].name@ != name);
        lemma_first_named(contexts, name, from + 1, to);
    }
}

impl Default for Config {
    /// The configuration without contexts.
    fn default() -> (r: Self)
        ensures
            r.contexts@.len() == 0,
    {
        Config { contexts: Vec::new() }
    }
}

impl Config {
    fn find(&self, name: &str) -> (r: Option<&Context>)
        ensures
            match r {
                Some(c) => has_context(self.contexts@, name@) && *c == self.contexts@[first_named(
                    self.contexts@,
                    name@,
                    0,
                )],
                None => !has_context(self.contexts@, name@),
            },
    {
        let mut i: usize = 0;
        while i < self.contexts.len()
            invariant
                i <= self.contexts.len(),
                forall|k: int| 0 <= k < i ==> (#[trigger] self.contexts@[k]).name@ != name@,
            decreases self.contexts.len() - i,
        {
            if same_text(self.contexts[i].name.as_str(), name) {
                proof {
                    lemma_first_named(self.contexts@, name@, 0, i as int);
                }
                return Some(&self.contexts[i]);
            }
            i = i + 1;
        }
        None
    }

    /// The configuration, and what to say where the file could not be used. A
    /// configuration that cannot be had is an empty one.
    pub fn load(source: ConfigSource) -> (r: (Config, Option<String>))
        ensures
            match source {
                ConfigSource::Missing => r.0.contexts@.len() == 0 && r.1 is None,
                ConfigSource::Unreadable { path, error } => r.0.contexts@.len() == 0 && (
                r.1 matches Some(m) && m@ == "breadbox: could not read "@ + path@ + ": "@ + error@),
                ConfigSource::Malformed { path, error } => r.0.contexts@.len() == 0 && (
                r.1 matches Some(m) && m@ == "breadbox: parse error in "@ + path@ + ": "@ + error@),
                ConfigSource::Parsed(c) => r.0 == c && r.1 is None,
            },
    {
        match source {
            ConfigSource::Missing => (Config::default(), None),
            ConfigSource::Unreadable { path, error } => {
                let message = "breadbox: could not read ".to_string().concat(path.as_str()).concat(
                    ": ",
                ).concat(error.as_str());
                (Config::default(), Some(message))
            },
            ConfigSource::Malformed { path, error } => {
                let message = "breadbox: parse error in ".to_string().concat(path.as_str()).concat(
                    ": ",
                ).concat(error.as_str());
                (Config::default(), Some(message))
            },
            ConfigSource::Parsed(c) => (c, None),
        }
    }

    /// Find the context matching `workspace`, falling back to "default", then
    /// returning None if neither exists.
    pub fn context_for(&self, workspace: &str) -> (r: Option<&Context>)
        ensures
            match r {
                Some(c) => context_of(self.contexts@, workspace@) == Some(*c),
                None => context_of(self.contexts@, workspace@) is None,
            },
    {
        match self.find(workspace) {
            Some(c) => Some(c),
            None => self.find("default"),
        }
    }

    /// The applications that come first on `workspace`.
    pub fn priority_for(&self, workspace: &str) -> (r: Vec<String>)
        ensures
            texts(r@) == priority_of(self.contexts@, workspace@),
    {
        match self.context_for(workspace) {
            Some(c) => copy_texts(&c.priority),
            None => {
                let none: Vec<String> = Vec::new();
                proof {
                    assert(texts(none@) =~= seq![]);
                }
                none
            },
        }
    }
}

// ---- Laws -------------------------------------------------------------------

/// A context of the workspace's own name always wins over the default one.
pub proof fn law_own_context_wins(contexts: Seq<Context>, workspace: Seq<char>)
    requires
        has_context(contexts, workspace),
    ensures
        context_of(contexts, workspace) matches Some(c) && c.name@ == workspace,
{
    let i = choose|i: int| 0 <= i < contexts.len() && (#[trigger] contexts[i]).name@ == workspace;
    lemma_first_named_found(contexts, workspace, 0, i);
}

/// A workspace without a context of its own has that of the workspace `default`.
pub proof fn law_default_is_the_fallback(contexts: Seq<Context>, workspace: Seq<char>)
    requires
        !has_context(contexts, workspace),
    ensures
        context_of(contexts, workspace) == context_of(contexts, "default"@),
{
}

proof fn lemma_first_named_found(contexts: Seq<Context>, name: Seq<char>, from: int, i: int)
    requires
        0 <= from <= i < contexts.len(),
        contexts[i].name@ == name,
    ensures
        from <= first_named(contexts, name, from) <= i,
        contexts[first_named(contexts, name, from)].name@ == name,
    decreases i - from,
{
    if contexts[from].name@ != name {
        lemma_first_named_found(contexts, name, from + 1, i);
    }
}

/// The first context of the workspace's name applies, whatever follows and
/// whatever stands before it; without one, the first named `default`; without
/// either, none. What applies gives its whole list, in order.
pub proof fn law_first_context_applies(contexts: Seq<Context>, workspace: Seq<char>, i: int)
    ensures
        0 <= i < contexts.len() && contexts[i].name@ == workspace && (forall|k: int|
            0 <= k < i ==> (#[trigger] contexts[k]).name@ != workspace) ==> context_of(
            contexts,
            workspace,
        ) == Some(contexts[i]) && priority_of(contexts, workspace) == texts(contexts[i].priority@),
        0 <= i < contexts.len() && contexts[i].name@ == "default"@ && (forall|k: int|
            0 <= k < i ==> (#[trigger] contexts[k]).name@ != "default"@) && (forall|k: int|
            0 <= k < contexts.len() ==> (#[trigger] contexts[k]).name@ != workspace)
            ==> context_of(contexts, workspace) == Some(contexts[i]) && priority_of(
            contexts,
            workspace,
        ) == texts(contexts[i].priority@),
        (forall|k: int|
            0 <= k < contexts.len() ==> (#[trigger] contexts[k]).name@ != workspace
                && contexts[k].name@ != "default"@) ==> context_of(contexts, workspace) is None
            && priority_of(contexts, workspace).len() == 0,
{
    if 0 <= i < contexts.len() && contexts[i].name@ == workspace && (forall|k: int|
        0 <= k < i ==> (#[trigger] contexts[k]).name@ != workspace) {
        lemma_first_named(contexts, workspace, 0, i);
    }
    if 0 <= i < contexts.len() && contexts[i].name@ == "default"@ && (forall|k: int|
        0 <= k < i ==> (#[trigger] contexts[k]).name@ != "default"@) {
        lemma_first_named(contexts, "default"@, 0, i);
    }
}

}
