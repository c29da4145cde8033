//! The command line.

use vstd::prelude::*;

verus! {

/// What the program was asked to do.
pub enum Command {
    /// Run the server in the foreground.
    Server,
    /// Attach to a session.
    Attach(String),
    /// Attach, but no session was named.
    NoName,
    /// Print the session listing.
    List,
    /// Nothing that it knows.
    Usage,
}

/// What the arguments after the program's name ask for.
pub fn parse(args: &Vec<String>) -> (r: Command)
    ensures
        match r {
            Command::Server => args@.len() > 0 && args@[0]@ == "server"@,
            Command::Attach(name) => args@.len() > 1 && (args@[0]@ == "a"@ || args@[0]@
                == "attach"@) && name@ == args@[1]@,
            Command::NoName => args@.len() == 1 && (args@[0]@ == "a"@ || args@[0]@ == "attach"@),
            Command::List => args@.len() > 0 && (args@[0]@ == "list"@ || args@[0]@ == "ls"@),
            Command::Usage => args@.len() == 0 || (args@[0]@ != "server"@ && args@[0]@ != "a"@
                && args@[0]@ != "attach"@ && args@[0]@ != "list"@ && args@[0]@ != "ls"@),
        },
{
    if args.len() == 0 {
        return Command::Usage;
    }
    let first: &str = args[0].as_str();
    if same(first, "server") {
        Command::Server
    } else if same(first, "a") || same(first, "attach") {
        if args.len() > 1 {
            Command::Attach(args[1].clone())
        } else {
            Command::NoName
        }
    } else if same(first, "list") || same(first, "ls") {
        Command::List
    } else {
        Command::Usage
    }
}

fn same(a: &str, b: &str) -> (r: bool)
    ensures
        r == (a@ == b@),
{
    let x: Vec<char> = crate::text::to_chars(a);
    let y: Vec<char> = crate::text::to_chars(b);
    if x.len() != y.len() {
        return false;
    }
    let mut i: usize = 0;
    while i < x.len()
        invariant
            i <= x@.len(),
            x@.len() == y@.len(),
            x@ == a@,
            y@ == b@,
            x@.take(i as int) == y@.take(i as int),
        decreases x@.len() - i,
    {
        if x[i] != y[i] {
            return false;
        }
        assert(x@.take(i + 1) =~= y@.take(i + 1)) by {
            assert(x@.take(i + 1) =~= x@.take(i as int).push(x@[i as int]));
            assert(y@.take(i + 1) =~= y@.take(i as int).push(y@[i as int]));
        }
        i = i + 1;
    }
    assert(x@.take(i as int) =~= x@);
    assert(y@.take(i as int) =~= y@);
    true
}

} // verus!
