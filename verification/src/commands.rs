//! The commands of the command line tool.
use vstd::prelude::*;

verus! {

/// A command can be run, and says how it went by its exit code.
pub trait Command {
    /// Runs the command. A command that has nothing to do went well.
    fn run(&self) -> (code: i32)
        default_ensures
            code == 0,
    {
        0
    }
}

/// The commands of the tool.
#[derive(Debug)]
pub enum Apollo {
    /// Parse schemas and print them.
    Print(Print),
    /// Log in to Apollo.
    Auth(Auth),
    /// Create an object.
    Create(Create),
}

/// Prints schemas.
#[derive(Debug)]
pub struct Print {
    /// Whether to leave out the headers when several files are printed.
    pub no_headers: bool,
    /// The files that hold the schemas to print.
    pub files: Vec<String>,
}

/// What can be created.
#[derive(Debug)]
pub enum Create {
    /// A graph.
    Graph(CreateGraph),
}

/// Creates a graph.
#[derive(Debug)]
pub struct CreateGraph {}

/// The ways to authenticate.
#[derive(Debug)]
pub enum Auth {
    /// Log in as a user.
    Login(AuthLogin),
    /// Paste in a key that exists.
    Configure(AuthConfigure),
}

#[derive(Debug)]
pub struct AuthLogin {}

#[derive(Debug)]
pub struct AuthConfigure {}

/// The command that does the work of a command line: the one at the end
/// of the words that were given.
#[derive(Debug, Clone, Copy, PartialEq, Eq, Structural)]
pub enum Task {
    Print,
    CreateGraph,
    AuthLogin,
    AuthConfigure,
}

impl Apollo {
    /// The command that does the work.
    pub fn task(&self) -> (task: Task)
        ensures
            task == match self {
                Apollo::Print(_) => Task::Print,
                Apollo::Create(Create::Graph(_)) => Task::CreateGraph,
                Apollo::Auth(Auth::Login(_)) => Task::AuthLogin,
                Apollo::Auth(Auth::Configure(_)) => Task::AuthConfigure,
            },
    {
        match self {
            Apollo::Print(_) => Task::Print,
            Apollo::Create(command) => match command {
                Create::Graph(_) => Task::CreateGraph,
            },
            Apollo::Auth(command) => match command {
                Auth::Configure(_) => Task::AuthConfigure,
                Auth::Login(_) => Task::AuthLogin,
            },
        }
    }
}

} // verus!
