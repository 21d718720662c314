//! Command line of the aggregation tool: `listen` or `process`, with the broker
//! host, the input topics and the processes bound to them.
use vstd::prelude::*;
use crate::text::{
    contains_double_dash, decimal_of, has_double_dash, lowered_equals, lowered_is,
    parse_decimal, same_text,
};

verus! {

/// A computation bound to a topic.
#[derive(Debug, Clone, Copy, PartialEq, Eq, Structural)]
pub enum ProcessType {
    /// Rolling average over a window of the given number of seconds.
    RollingAverage(u64),
    /// Alert when a value reaches the given baseline, recover when it falls below.
    Threshold(u64),
}

#[derive(Debug, Clone, PartialEq)]
pub struct Args {
    pub host: String,
    pub topics: Vec<String>,
    pub processes: Vec<ProcessType>,
    pub debug: bool,
    pub dry_run: bool,
}

#[derive(Debug, Clone, PartialEq)]
pub enum Command {
    Help,
    Listen(Args),
    Process(Args),
}

/// What `Args` holds, as mathematical values.
pub struct ArgsModel {
    pub host: Seq<char>,
    pub topics: Seq<Seq<char>>,
    pub processes: Seq<ProcessType>,
    pub debug: bool,
    pub dry_run: bool,
}

pub enum CommandModel {
    Help,
    Listen(ArgsModel),
    Process(ArgsModel),
}

pub open spec fn texts_of(v: Seq<String>) -> Seq<Seq<char>> {
    v.map_values(|s: String| s@)
}

impl View for Args {
    type V = ArgsModel;

    open spec fn view(&self) -> ArgsModel {
        ArgsModel {
            host: self.host@,
            topics: texts_of(self.topics@),
            processes: self.processes@,
            debug: self.debug,
            dry_run: self.dry_run,
        }
    }
}

impl View for Command {
    type V = CommandModel;

    open spec fn view(&self) -> CommandModel {
        match self {
            Command::Help => CommandModel::Help,
            Command::Listen(a) => CommandModel::Listen(a@),
            Command::Process(a) => CommandModel::Process(a@),
        }
    }
}

/// Index of the first `:` in `s` at or after `from`, or `s.len()`.
pub open spec fn colon_from(s: Seq<char>, from: nat) -> nat
    decreases s.len() - from,
{
    if from >= s.len() || s[from as int] == ':' {
        from
    } else {
        colon_from(s, from + 1)
    }
}

/// `kind:value`; text after a second `:` is ignored; an unknown kind gives
/// `RollingAverage(0)`. No `:`, or a value that is not a `u64`, gives `None`.
pub open spec fn process_of(s: Seq<char>) -> Option<ProcessType> {
    let k = colon_from(s, 0);
    if k >= s.len() {
        None
    } else {
        let e = colon_from(s, k + 1);
        match decimal_of(s.subrange(k + 1 as int, e as int)) {
            None => None,
            Some(v) => Some(
                if lowered_is(s.subrange(0, k as int), "rolling-average"@) {
                    ProcessType::RollingAverage(v)
                } else if lowered_is(s.subrange(0, k as int), "threshold"@) {
                    ProcessType::Threshold(v)
                } else {
                    ProcessType::RollingAverage(0)
                },
            ),
        }
    }
}

fn find_colon(s: &str, from: usize) -> (r: usize)
    requires
        from <= s@.len(),
    ensures
        r == colon_from(s@, from as nat),
        from <= r <= s@.len(),
{
    let n = s.unicode_len();
    let mut i = from;
    while i < n
        invariant
            n == s@.len(),
            from <= i <= n,
            colon_from(s@, i as nat) == colon_from(s@, from as nat),
        decreases n - i,
    {
        if s.get_char(i) == ':' {
            return i;
        }
        i += 1;
    }
    i
}

/// Reads a process spec such as `rolling-average:30` or `threshold:25`.
pub fn try_parse_process(s: &str) -> (r: Option<ProcessType>)
    ensures
        r == process_of(s@),
{
    let n = s.unicode_len();
    let k = find_colon(s, 0);
    if k >= n {
        return None;
    }
    let e = find_colon(s, k + 1);
    match parse_decimal(s.substring_char(k + 1, e)) {
        None => None,
        Some(v) => {
            let name = s.substring_char(0, k);
            if lowered_equals(name, "rolling-average") {
                Some(ProcessType::RollingAverage(v))
            } else if lowered_equals(name, "threshold") {
                Some(ProcessType::Threshold(v))
            } else {
                Some(ProcessType::RollingAverage(0))
            }
        },
    }
}

/// Reads a process spec that is known to be well formed.
pub fn parse_process(s: &str) -> (r: ProcessType)
    requires
        process_of(s@) is Some,
    ensures
        process_of(s@) == Some(r),
{
    match try_parse_process(s) {
        Some(p) => p,
        None => ProcessType::RollingAverage(0),
    }
}

/// Which list the arguments that follow an option go to.
#[derive(Clone, Copy, PartialEq, Eq, Structural)]
pub enum ListMode {
    Plain,
    Topics,
    Processes,
}

pub open spec fn empty_args() -> ArgsModel {
    ArgsModel { host: Seq::empty(), topics: Seq::empty(), processes: Seq::empty(), debug: false, dry_run: false }
}

/// Reads `args` from index `i` on, in list mode `mode`, having gathered `m`.
/// An argument holding `--` ends a list and is read as an option; others in a
/// list join it. `--host` takes the next argument, which must exist and hold no
/// `--`; a process spec that cannot be read is refused too (`None`).
pub open spec fn scan(args: Seq<Seq<char>>, i: int, mode: ListMode, m: ArgsModel) -> Option<ArgsModel>
    decreases args.len() - i,
{
    if i < 0 || i >= args.len() {
        Some(m)
    } else {
        let a = args[i];
        if mode == ListMode::Topics && !has_double_dash(a) {
            scan(args, i + 1, mode, ArgsModel { topics: m.topics.push(a), ..m })
        } else if mode == ListMode::Processes && !has_double_dash(a) {
            match process_of(a) {
                None => None,
                Some(p) => scan(args, i + 1, mode, ArgsModel { processes: m.processes.push(p), ..m }),
            }
        } else if a == "--host"@ {
            if i + 1 >= args.len() || has_double_dash(args[i + 1]) {
                None
            } else {
                scan(args, i + 1, ListMode::Plain, ArgsModel { host: args[i + 1], ..m })
            }
        } else if a == "--topics"@ {
            scan(args, i + 1, ListMode::Topics, m)
        } else if a == "--processes"@ {
            scan(args, i + 1, ListMode::Processes, m)
        } else if a == "--debug"@ {
            scan(args, i + 1, ListMode::Plain, ArgsModel { debug: true, ..m })
        } else if a == "--dry-run"@ {
            scan(args, i + 1, ListMode::Plain, ArgsModel { dry_run: true, ..m })
        } else {
            scan(args, i + 1, ListMode::Plain, m)
        }
    }
}

/// The command that a whole argument list (program name first) stands for;
/// without a broker host nothing can start, so that gives help too.
pub open spec fn command_of(args: Seq<Seq<char>>) -> CommandModel {
    if args.len() < 2 {
        CommandModel::Help
    } else {
        match scan(args, 0, ListMode::Plain, empty_args()) {
            None => CommandModel::Help,
            Some(m) => if m.host.len() == 0 {
                CommandModel::Help
            } else if args[1] == "listen"@ {
                CommandModel::Listen(m)
            } else if args[1] == "process"@ {
                CommandModel::Process(m)
            } else {
                CommandModel::Help
            },
        }
    }
}

pub open spec fn model_of(
    host: Seq<char>,
    topics: Seq<String>,
    processes: Seq<ProcessType>,
    debug: bool,
    dry_run: bool,
) -> ArgsModel {
    ArgsModel { host, topics: texts_of(topics), processes, debug, dry_run }
}

/// Reads the command line; a malformed one gives `Command::Help`.
pub fn parse_args(args: Vec<String>) -> (r: Command)
    ensures
        r@ == command_of(texts_of(args@)),
{
    let ghost v = texts_of(args@);
    if args.len() < 2 {
        return Command::Help;
    }
    let mut host = String::new();
    let mut topics: Vec<String> = Vec::new();
    let mut processes: Vec<ProcessType> = Vec::new();
    let mut debug = false;
    let mut dry_run = false;
    let mut mode = ListMode::Plain;
    let n = args.len();
    let mut cursor: usize = 0;
    assert(topics@.map_values(|s: String| s@) =~= Seq::<Seq<char>>::empty());
    while cursor < n
        invariant
            n == args@.len(),
            v == texts_of(args@),
            cursor <= n,
            scan(v, 0, ListMode::Plain, empty_args()) == scan(
                v,
                cursor as int,
                mode,
                model_of(host@, topics@, processes@, debug, dry_run),
            ),
        decreases n - cursor,
    {
        let a = args[cursor].as_str();
        assert(v[cursor as int] == a@);
        let dashed = contains_double_dash(a);
        if mode == ListMode::Topics && !dashed {
            let ghost before = topics@;
            topics.push(a.to_owned());
            assert(texts_of(topics@) =~= texts_of(before).push(a@));
        } else if mode == ListMode::Processes && !dashed {
            match try_parse_process(a) {
                None => return Command::Help,
                Some(p) => processes.push(p),
            }
        } else if same_text(a, "--host") {
            if cursor + 1 >= n {
                return Command::Help;
            }
            let h = args[cursor + 1].as_str();
            assert(v[cursor + 1] == h@);
            if contains_double_dash(h) {
                return Command::Help;
            }
            host = h.to_owned();
            mode = ListMode::Plain;
        } else if same_text(a, "--topics") {
            mode = ListMode::Topics;
        } else if same_text(a, "--processes") {
            mode = ListMode::Processes;
        } else if same_text(a, "--debug") {
            debug = true;
            mode = ListMode::Plain;
        } else if same_text(a, "--dry-run") {
            dry_run = true;
            mode = ListMode::Plain;
        } else {
            mode = ListMode::Plain;
        }
        cursor += 1;
    }
    if host.as_str().unicode_len() == 0 {
        return Command::Help;
    }
    let parsed = Args { host, topics, processes, debug, dry_run };
    let first = args[1].as_str();
    assert(v[1] == first@);
    if same_text(first, "listen") {
        Command::Listen(parsed)
    } else if same_text(first, "process") {
        Command::Process(parsed)
    } else {
        Command::Help
    }
}

} // verus!
