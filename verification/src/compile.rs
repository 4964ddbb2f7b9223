//! Compiling a generated program: the compiler's command line, what its
//! outcome means, and the steps between cache and compiler.

use crate::error::{FluError, LobError, renders, report, text_of};
use vstd::prelude::*;
use vstd::string::StringExecFns;

verus! {

/// A compiled program, and whether it came from the cache.
pub struct CompileResult {
    /// Where the binary lies.
    pub binary_path: String,
    /// Whether the binary was found in the cache.
    pub cache_hit: bool,
}

/// The tool that compiles: it decides which support libraries are linked.
#[derive(Debug, Clone, Copy, PartialEq, Eq, Structural)]
pub enum Tool {
    Flu,
    Lob,
}

/// Where the compiled support libraries lie.
pub struct TargetDir {
    /// The tool whose libraries they are.
    pub tool: Tool,
    /// The directory that holds the libraries.
    pub dir: String,
    /// The directory that holds what the libraries depend on.
    pub deps: String,
}

/// The compiler to run: its path, and a sysroot where it brings its own.
pub struct Compiler {
    rustc_path: String,
    sysroot: Option<String>,
}

/// What the build waits for.
pub enum BuildState {
    /// The answer of the cache: is there a binary for this source?
    Looking,
    /// The storing of the source in the cache.
    Storing,
    /// The compiler's run; the binary will lie at `binary_path`.
    Compiling { binary_path: String },
    /// Nothing: the build is over.
    Finished,
}

/// What has happened outside.
pub enum BuildEvent {
    /// The cache has answered: the binary's path, if it holds one.
    Found(Option<String>),
    /// The source was stored, at the first path; the binary belongs at the
    /// second. Or storing failed.
    Stored(Result<(String, String), LobError>),
    /// The compiler has run.
    Compiled(Result<(), LobError>),
}

/// What is to be done next.
pub enum BuildStep {
    /// Store the source in the cache.
    Store,
    /// Compile the source to the binary.
    Compile { source_path: String, binary_path: String },
    /// Hand out the result.
    Done(CompileResult),
    /// Give up with the error.
    Failed(LobError),
}

/// The options that every compilation has.
pub open spec fn fixed_arguments() -> Seq<Seq<char>> {
    seq!["--edition=2021"@, "-C"@, "opt-level=3"@, "--crate-type"@, "bin"@, "-o"@]
}

/// The name that a tool's libraries begin with.
pub open spec fn family(tool: Tool) -> Seq<char> {
    match tool {
        Tool::Flu => "flu"@,
        Tool::Lob => "lob"@,
    }
}

/// The options that name the support libraries.
pub open spec fn library_arguments(tool: Tool, dir: Seq<char>, deps: Seq<char>) -> Seq<
    Seq<char>,
> {
    seq![
        "--extern"@,
        family(tool) + "_prelude="@ + dir + "/lib"@ + family(tool) + "_prelude.rlib"@,
        "--extern"@,
        family(tool) + "_core="@ + dir + "/lib"@ + family(tool) + "_core.rlib"@,
        "-L"@,
        "dependency="@ + deps,
    ]
}

/// The compiler's arguments: the fixed options, the binary's and the
/// source's path, the support libraries where their directory is known,
/// the sysroot where one is set.
pub open spec fn command_line(
    sysroot: Option<Seq<char>>,
    source_path: Seq<char>,
    output_path: Seq<char>,
    target: Option<(Tool, Seq<char>, Seq<char>)>,
) -> Seq<Seq<char>> {
    fixed_arguments() + seq![output_path, source_path] + (match target {
        Some(t) => library_arguments(t.0, t.1, t.2),
        None => Seq::empty(),
    }) + (match sysroot {
        Some(s) => seq!["--sysroot"@, s],
        None => Seq::empty(),
    })
}

/// The event is one that the state waits for.
pub open spec fn awaited(state: BuildState, event: BuildEvent) -> bool {
    match (state, event) {
        (BuildState::Looking, BuildEvent::Found(_)) => true,
        (BuildState::Storing, BuildEvent::Stored(_)) => true,
        (BuildState::Compiling { .. }, BuildEvent::Compiled(_)) => true,
        _ => false,
    }
}

/// The step that follows an event: a binary found in the cache ends the
/// build; without one the source is stored, then compiled; the compiled
/// binary ends the build; any failure ends it with its error.
pub open spec fn next_step(state: BuildState, event: BuildEvent) -> (BuildState, BuildStep) {
    match (state, event) {
        (BuildState::Looking, BuildEvent::Found(Some(binary_path))) => (
            BuildState::Finished,
            BuildStep::Done(CompileResult { binary_path, cache_hit: true }),
        ),
        (BuildState::Looking, BuildEvent::Found(None)) => (BuildState::Storing, BuildStep::Store),
        (BuildState::Storing, BuildEvent::Stored(Ok(paths))) => (
            BuildState::Compiling { binary_path: paths.1 },
            BuildStep::Compile { source_path: paths.0, binary_path: paths.1 },
        ),
        (BuildState::Storing, BuildEvent::Stored(Err(e))) => (
            BuildState::Finished,
            BuildStep::Failed(e),
        ),
        (BuildState::Compiling { binary_path }, BuildEvent::Compiled(Ok(_))) => (
            BuildState::Finished,
            BuildStep::Done(CompileResult { binary_path, cache_hit: false }),
        ),
        (BuildState::Compiling { binary_path }, BuildEvent::Compiled(Err(e))) => (
            BuildState::Finished,
            BuildStep::Failed(e),
        ),
        _ => (BuildState::Finished, BuildStep::Store),
    }
}

/// The view of an optional string.
pub open spec fn view_of(s: Option<String>) -> Option<Seq<char>> {
    match s {
        Some(x) => Some(x@),
        None => None,
    }
}

/// The model of an optional target directory.
pub open spec fn target_of(t: Option<&TargetDir>) -> Option<(Tool, Seq<char>, Seq<char>)> {
    match t {
        Some(x) => Some((x.tool, x.dir@, x.deps@)),
        None => None,
    }
}

fn text(s: &str) -> (r: String)
    ensures
        r@ == s@,
{
    String::from_str(s)
}

fn library(tool: Tool, part: &str, dir: &str, file: &str) -> (r: String)
    ensures
        r@ == family(tool) + part@ + dir@ + "/lib"@ + family(tool) + file@,
{
    let name = match tool {
        Tool::Flu => "flu",
        Tool::Lob => "lob",
    };
    String::from_str(name).concat(part).concat(dir).concat("/lib").concat(name).concat(file)
}

impl Compiler {
    /// The path of the compiler.
    pub closed spec fn rustc_path(&self) -> Seq<char> {
        self.rustc_path@
    }

    /// The sysroot, where one is set.
    pub closed spec fn sysroot(&self) -> Option<Seq<char>> {
        view_of(self.sysroot)
    }

    /// A compiler at the given path, with the given sysroot.
    pub fn custom(rustc_path: String, sysroot: Option<String>) -> (c: Self)
        ensures
            c.rustc_path() == rustc_path@,
            c.sysroot() == view_of(sysroot),
    {
        Compiler { rustc_path, sysroot }
    }

    /// The path of the compiler.
    pub fn program(&self) -> (p: &str)
        ensures
            p@ == self.rustc_path(),
    {
        self.rustc_path.as_str()
    }

    /// The arguments with which the compiler is run.
    pub fn arguments(&self, source_path: &str, output_path: &str, target: Option<&TargetDir>) -> (args:
        Vec<String>)
        ensures
            args.deep_view() == command_line(
                self.sysroot(),
                source_path@,
                output_path@,
                target_of(target),
            ),
    {
        let mut args: Vec<String> = Vec::new();
        args.push(text("--edition=2021"));
        args.push(text("-C"));
        args.push(text("opt-level=3"));
        args.push(text("--crate-type"));
        args.push(text("bin"));
        args.push(text("-o"));
        assert(args.deep_view() =~= fixed_arguments());
        args.push(text(output_path));
        args.push(text(source_path));
        let ghost upper = args.deep_view();
        assert(upper =~= fixed_arguments() + seq![output_path@, source_path@]);
        if let Some(t) = target {
            args.push(text("--extern"));
            args.push(library(t.tool, "_prelude=", t.dir.as_str(), "_prelude.rlib"));
            args.push(text("--extern"));
            args.push(library(t.tool, "_core=", t.dir.as_str(), "_core.rlib"));
            args.push(text("-L"));
            args.push(String::from_str("dependency=").concat(t.deps.as_str()));
            assert(args.deep_view() =~= upper + library_arguments(t.tool, t.dir@, t.deps@));
        }
        let ghost middle = args.deep_view();
        if let Some(s) = &self.sysroot {
            args.push(text("--sysroot"));
            args.push(text(s.as_str()));
            assert(args.deep_view() =~= middle + seq!["--sysroot"@, s@]);
        }
        assert(args.deep_view() =~= command_line(
            self.sysroot(),
            source_path@,
            output_path@,
            target_of(target),
        ));
        args
    }

    /// What the compiler's run comes to: nothing to report where it
    /// succeeded, else the report on what it wrote to standard error.
    pub fn outcome(success: bool, stderr: &str, user_expr: Option<&str>) -> (r: Result<
        (),
        LobError,
    >)
        ensures
            success ==> r is Ok,
            !success ==> (r matches Err(LobError::Compilation(text)) && renders(
                report(stderr@, text_of(user_expr), None),
                text@,
            )),
    {
        if success {
            Ok(())
        } else {
            Err(LobError::Compilation(LobError::format_compilation_error(stderr, user_expr)))
        }
    }

    /// What the compiler's run comes to where its output is handed on as it
    /// is: nothing to report where it succeeded, else what it wrote to
    /// standard error.
    pub fn outcome_plain(success: bool, stderr: &str) -> (r: Result<(), FluError>)
        ensures
            success ==> r is Ok,
            !success ==> (r matches Err(FluError::Compilation(text)) && text@ == stderr@),
    {
        if success {
            Ok(())
        } else {
            Err(FluError::Compilation(String::from_str(stderr)))
        }
    }

    /// The step that follows an event in the building of a program through
    /// the cache.
    pub fn compile_and_cache(state: BuildState, event: BuildEvent) -> (r: (BuildState, BuildStep))
        requires
            awaited(state, event),
        ensures
            r == next_step(state, event),
    {
        match state {
            BuildState::Looking => match event {
                BuildEvent::Found(Some(binary_path)) => (
                    BuildState::Finished,
                    BuildStep::Done(CompileResult { binary_path, cache_hit: true }),
                ),
                _ => (BuildState::Storing, BuildStep::Store),
            },
            BuildState::Storing => match event {
                BuildEvent::Stored(Ok(paths)) => {
                    let (source_path, binary_path) = paths;
                    let kept = binary_path.clone();
                    (
                        BuildState::Compiling { binary_path: kept },
                        BuildStep::Compile { source_path, binary_path },
                    )
                },
                BuildEvent::Stored(Err(e)) => (BuildState::Finished, BuildStep::Failed(e)),
                _ => (BuildState::Finished, BuildStep::Store),
            },
            BuildState::Compiling { binary_path } => match event {
                BuildEvent::Compiled(Err(e)) => (BuildState::Finished, BuildStep::Failed(e)),
                _ => (
                    BuildState::Finished,
                    BuildStep::Done(CompileResult { binary_path, cache_hit: false }),
                ),
            },
            BuildState::Finished => (BuildState::Finished, BuildStep::Store),
        }
    }
}

} // verus!
