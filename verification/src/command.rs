use vstd::prelude::*;

use crate::collection::{Collection, Snippet, SnippetV};
use crate::strutil::str_eq;
use crate::timestamp::Timestamp;

verus! {

/// One invocation's command, as the front end hands it over: the snippet
/// text for an upsert is already read, and nothing else decides.
pub enum Command {
    /// Upsert `name` with the given content; the timestamp is captured by
    /// the caller at creation time.
    Save { name: String, content: String },
    /// Look `name` up and report its record.
    Read { name: String },
    /// Remove `name` if present.
    Delete { name: String },
    /// No recognised arguments: show usage.
    Usage,
}

/// What a command did, and what the front end still has to do: persist the
/// collection for `Saved` and `Deleted`, print a record for `Found`, report
/// a miss for `NotFound`, or show the usage text.
pub enum Outcome {
    Saved,
    Found { content: String, created_at: Timestamp },
    Deleted,
    NotFound,
    Usage,
}

impl Outcome {
    /// Only outcomes that changed the collection call for a save; read-only
    /// and not-found paths never do.
    pub fn needs_save(&self) -> (r: bool)
        ensures
            r == (*self is Saved || *self is Deleted),
    {
        match self {
            Outcome::Saved => true,
            Outcome::Deleted => true,
            _ => false,
        }
    }
}

/// Decide which command the argument vector selects. The first argument is
/// the program name; a known flag must stand second with the snippet name
/// third, else the usage text is called for.
pub fn parse_command(args: &Vec<String>, content: String) -> (r: Command)
    ensures
        args@.len() >= 3 && args@[1]@ == "--name"@ ==> (r matches Command::Save { name, content: c }
            && name@ == args@[2]@ && c@ == content@),
        args@.len() >= 3 && args@[1]@ == "--read"@ && args@[1]@ != "--name"@ ==> (r matches
            Command::Read { name } && name@ == args@[2]@),
        args@.len() >= 3 && args@[1]@ == "--delete"@ && args@[1]@ != "--name"@ && args@[1]@
            != "--read"@ ==> (r matches Command::Delete { name } && name@ == args@[2]@),
        args@.len() < 3 || (args@[1]@ != "--name"@ && args@[1]@ != "--read"@ && args@[1]@
            != "--delete"@) ==> r is Usage,
{
    if args.len() >= 3 {
        if str_eq(args[1].as_str(), "--name") {
            return Command::Save { name: args[2].clone(), content };
        }
        if str_eq(args[1].as_str(), "--read") {
            return Command::Read { name: args[2].clone() };
        }
        if str_eq(args[1].as_str(), "--delete") {
            return Command::Delete { name: args[2].clone() };
        }
    }
    Command::Usage
}

/// Apply one command to the loaded collection: at most one mutation, whose
/// effect on the collection's value is stated exactly, and an outcome that
/// says whether the mutation must be persisted.
pub fn dispatch(col: &mut Collection, cmd: Command, now: Timestamp) -> (r: Outcome)
    requires
        old(col).wf(),
        now.wf(),
    ensures
        final(col).wf(),
        cmd matches Command::Save { name, content } ==> final(col)@ == old(col)@.insert(
            name@,
            SnippetV { content: content@, created_at: now },
        ) && r is Saved,
        cmd matches Command::Read { name } ==> final(col)@ == old(col)@ && (if old(
            col,
        )@.contains_key(name@) {
            r matches Outcome::Found { content, created_at } && content@ == old(col)@[name@].content
                && created_at == old(col)@[name@].created_at
        } else {
            r is NotFound
        }),
        cmd matches Command::Delete { name } ==> final(col)@ == old(col)@.remove(name@) && (if old(
            col,
        )@.contains_key(name@) {
            r is Deleted
        } else {
            r is NotFound
        }),
        cmd is Usage ==> final(col)@ == old(col)@ && r is Usage,
{
    match cmd {
        Command::Save { name, content } => {
            let sn = Snippet { content, created_at: now };
            col.insert(name, sn);
            Outcome::Saved
        },
        Command::Read { name } => {
            match col.get(name.as_str()) {
                Some(sn) => Outcome::Found {
                    content: sn.content.clone(),
                    created_at: sn.created_at,
                },
                None => Outcome::NotFound,
            }
        },
        Command::Delete { name } => {
            if col.remove(name.as_str()) {
                Outcome::Deleted
            } else {
                Outcome::NotFound
            }
        },
        Command::Usage => Outcome::Usage,
    }
}

} // verus!
