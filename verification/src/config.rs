//! Plain data of a pipeline definition and of the runtime around it: the
//! references between commands, the voices a speech model offers, and the
//! errors and log levels the runtime reports with.
use vstd::prelude::*;
use crate::text::push_str;

verus! {

broadcast use vstd::string::group_string_axioms;

/// A reference to a command of a pipeline, by its key.
#[derive(Debug)]
pub struct Ref {
    pub reference: String,
}

/// The entry of a pipeline: the type of value it takes.
#[derive(Debug)]
pub struct Entry {
    pub value_type: String,
}

/// A command's input: one command's output, or several.
#[derive(Debug)]
pub enum InputValue {
    Single(Ref),
    Multiple(Vec<Ref>),
}

impl InputValue {
    /// The keys of the commands the input comes from, in order.
    pub fn references(&self) -> (v: Vec<String>)
        ensures
            crate::text::strings_view(v@) == match self {
                InputValue::Single(r) => seq![r.reference@],
                InputValue::Multiple(rs) => rs@.map_values(|r: Ref| r.reference@),
            },
    {
        match self {
            InputValue::Single(r) => {
                let mut v = Vec::new();
                v.push(r.reference.clone());
                assert(crate::text::strings_view(v@) =~= seq![r.reference@]);
                v
            },
            InputValue::Multiple(rs) => {
                let mut v: Vec<String> = Vec::new();
                let mut i: usize = 0;
                while i < rs.len()
                    invariant
                        i <= rs@.len(),
                        crate::text::strings_view(v@) == rs@.take(i as int).map_values(
                            |r: Ref| r.reference@,
                        ),
                    decreases rs@.len() - i,
                {
                    let ghost v0 = v@;
                    v.push(rs[i].reference.clone());
                    assert(crate::text::strings_view(v@) =~= crate::text::strings_view(v0).push(
                        rs@[i as int].reference@,
                    ));
                    assert(rs@.take(i + 1) =~= rs@.take(i as int).push(rs@[i as int]));
                    assert(crate::text::strings_view(v@) =~= rs@.take(i + 1).map_values(
                        |r: Ref| r.reference@,
                    ));
                    i = i + 1;
                }
                assert(rs@.take(rs@.len() as int) =~= rs@);
                v
            },
        }
    }
}

/// A voice of a speech model: its name, its language index, and its
/// speakers by index.
#[derive(Debug)]
pub struct TtsVoiceConfig {
    pub name: String,
    pub language: usize,
    pub speakers: Vec<(u32, String)>,
}

/// The voices of a speech model, by name.
#[derive(Debug)]
pub struct TtsConfig {
    pub voices: Vec<(String, TtsVoiceConfig)>,
}

/// The build of the runtime: when and from what it was built.
#[derive(Debug)]
pub struct VersionInfo {
    pub build_date: String,
    pub build_timestamp: String,
    pub cargo_debug: String,
    pub cargo_features: String,
    pub cargo_opt_level: String,
    pub cargo_target_triple: String,
    pub cargo_dependencies: String,
    pub rustc_channel: String,
    pub rustc_commit_date: String,
    pub rustc_commit_hash: String,
    pub rustc_host_triple: String,
    pub rustc_llvm_version: String,
    pub rustc_semver: String,
    pub git_branch: String,
    pub git_commit_author_email: String,
    pub git_commit_author_name: String,
    pub git_commit_count: String,
    pub git_commit_date: String,
    pub git_commit_message: String,
    pub git_commit_timestamp: String,
    pub git_describe: String,
}

/// A panic caught at the foreign-function boundary, with its message.
#[derive(Debug)]
pub struct CaughtPanic(pub String);

impl CaughtPanic {
    /// The panic's message.
    pub fn message(&self) -> (s: String)
        ensures
            s@ == self.0@,
    {
        self.0.clone()
    }
}

/// The worker thread can no longer answer: it has finished, or it died
/// while handling a request.
#[derive(Debug, PartialEq, Eq, Structural, Clone, Copy)]
pub struct WorkerGone;

impl WorkerGone {
    pub open spec fn text() -> Seq<char> {
        "worker thread is no longer running"@
    }

    /// What the error says.
    pub fn message(&self) -> (s: String)
        ensures
            s@ == Self::text(),
    {
        let mut s = String::new();
        push_str(&mut s, "worker thread is no longer running");
        s
    }
}

/// The levels of the system log.
#[derive(Debug, PartialEq, Eq, Structural, Clone, Copy)]
pub enum Level {
    Debug,
    Info,
    Default,
    Error,
    Fault,
}

/// The system log's code of a level.
pub open spec fn level_code(l: Level) -> u8 {
    match l {
        Level::Debug => 2,
        Level::Info => 1,
        Level::Default => 0,
        Level::Error => 16,
        Level::Fault => 17,
    }
}

/// The levels of the logging facade.
#[derive(Debug, PartialEq, Eq, Structural, Clone, Copy)]
pub enum LogLevel {
    Trace,
    Debug,
    Info,
    Warn,
    Error,
}

pub open spec fn level_for(l: LogLevel) -> Level {
    match l {
        LogLevel::Trace => Level::Debug,
        LogLevel::Debug => Level::Info,
        LogLevel::Info => Level::Default,
        LogLevel::Warn => Level::Error,
        LogLevel::Error => Level::Fault,
    }
}

impl Level {
    /// The system log's code of the level.
    pub fn code(&self) -> (c: u8)
        ensures
            c == level_code(*self),
    {
        match self {
            Level::Debug => 2,
            Level::Info => 1,
            Level::Default => 0,
            Level::Error => 16,
            Level::Fault => 17,
        }
    }

    /// The system-log level of a logging-facade level, one step quieter.
    pub fn from_log_level(l: LogLevel) -> (r: Level)
        ensures
            r == level_for(l),
    {
        match l {
            LogLevel::Trace => Level::Debug,
            LogLevel::Debug => Level::Info,
            LogLevel::Info => Level::Default,
            LogLevel::Warn => Level::Error,
            LogLevel::Error => Level::Fault,
        }
    }
}

} // verus!
