//! Command line of the monitoring tool: `listen <host> <topic>...`.
use vstd::prelude::*;
use crate::cli::texts_of;
use crate::text::same_text;

verus! {

pub struct Args {
    pub host: String,
    pub topics: Vec<String>,
}

pub enum Command {
    Help,
    Listen(Args),
}

/// `Listen(host, topics)` when the list reads `<program> listen <host> <topic>...`,
/// else `None` (help).
pub open spec fn listen_of(args: Seq<Seq<char>>) -> Option<(Seq<char>, Seq<Seq<char>>)> {
    if args.len() >= 3 && args[1] == "listen"@ {
        Some((args[2], args.skip(3)))
    } else {
        None
    }
}

pub fn parse_args(args: Vec<String>) -> (r: Command)
    ensures
        match r {
            Command::Help => listen_of(texts_of(args@)) is None,
            Command::Listen(a) => listen_of(texts_of(args@)) == Some((a.host@, texts_of(a.topics@))),
        },
{
    let ghost v = texts_of(args@);
    if args.len() < 2 {
        return Command::Help;
    }
    assert(v[1] == args@[1]@);
    if !same_text(args[1].as_str(), "listen") || args.len() < 3 {
        return Command::Help;
    }
    let host = args[2].as_str().to_owned();
    let mut topics: Vec<String> = Vec::new();
    let mut i: usize = 3;
    assert(texts_of(topics@) =~= v.subrange(3, 3));
    while i < args.len()
        invariant
            v == texts_of(args@),
            3 <= i <= args@.len(),
            texts_of(topics@) == v.subrange(3, i as int),
        decreases args@.len() - i,
    {
        let ghost before = topics@;
        topics.push(args[i].as_str().to_owned());
        assert(texts_of(topics@) =~= v.subrange(3, i + 1)) by {
            assert(texts_of(topics@) =~= texts_of(before).push(args@[i as int]@));
        }
        i += 1;
    }
    assert(v.subrange(3, v.len() as int) =~= v.skip(3));
    assert(v[2] == host@);
    Command::Listen(Args { host, topics })
}

} // verus!
