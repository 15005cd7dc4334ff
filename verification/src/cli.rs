//! Parsing of command-line tokens and of interactive-mode lines.
//!
//! The surface: global flags `--server <path>` and `--verbose` before one
//! subcommand (`list-tools`, `list-resources`, `list-prompts`,
//! `call-tool <tool> [--args <json>]`, `read-resource <uri>`,
//! `get-prompt <name> [--args <json>]`, `interactive`). Argument mappings are
//! given as a JSON object text; a blank text or an empty object means no
//! arguments.

use vstd::prelude::*;

use crate::ClientError;
use crate::json::{ascii_of, bytes_eq, is_ws, json_parse, spec_parse, str_bytes, views_of_pairs, Json, JsonV};

verus! {

/// A parsed subcommand. Argument texts stay as given; they are parsed as
/// JSON when the command runs.
pub enum Command {
    ListTools,
    ListResources,
    ListPrompts,
    CallTool { tool: Vec<u8>, args: Vec<u8> },
    ReadResource { uri: Vec<u8> },
    GetPrompt { name: Vec<u8>, args: Vec<u8> },
    Interactive,
}

/// The mathematical value of a subcommand.
pub enum CommandV {
    ListTools,
    ListResources,
    ListPrompts,
    CallTool { tool: Seq<u8>, args: Seq<u8> },
    ReadResource { uri: Seq<u8> },
    GetPrompt { name: Seq<u8>, args: Seq<u8> },
    Interactive,
}

impl View for Command {
    type V = CommandV;

    open spec fn view(&self) -> CommandV {
        match *self {
            Command::ListTools => CommandV::ListTools,
            Command::ListResources => CommandV::ListResources,
            Command::ListPrompts => CommandV::ListPrompts,
            Command::CallTool { tool, args } => CommandV::CallTool { tool: tool@, args: args@ },
            Command::ReadResource { uri } => CommandV::ReadResource { uri: uri@ },
            Command::GetPrompt { name, args } => CommandV::GetPrompt { name: name@, args: args@ },
            Command::Interactive => CommandV::Interactive,
        }
    }
}

/// A parsed command line.
pub struct Cli {
    pub server: Vec<u8>,
    pub verbose: bool,
    pub command: Command,
}

/// The mathematical value of a command line.
pub struct CliV {
    pub server: Seq<u8>,
    pub verbose: bool,
    pub command: CommandV,
}

impl View for Cli {
    type V = CliV;

    open spec fn view(&self) -> CliV {
        CliV { server: self.server@, verbose: self.verbose, command: self.command@ }
    }
}

/// The views of a token list.
pub open spec fn tokens_view(ts: Seq<Vec<u8>>) -> Seq<Seq<u8>>
    decreases ts,
{
    if ts.len() == 0 {
        Seq::empty()
    } else {
        seq![ts[0]@] + tokens_view(ts.drop_first())
    }
}

/// Element-wise reading of [`tokens_view`].
pub proof fn lemma_tokens_view(ts: Seq<Vec<u8>>)
    ensures
        tokens_view(ts).len() == ts.len(),
        forall|i: int| 0 <= i < ts.len() ==> tokens_view(ts)[i] == (#[trigger] ts[i])@,
    decreases ts.len(),
{
    if ts.len() > 0 {
        lemma_tokens_view(ts.drop_first());
        assert forall|i: int| 0 <= i < ts.len() implies tokens_view(ts)[i] == (#[trigger] ts[i])@ by {
            if i > 0 {
                assert(ts.drop_first()[i - 1] == ts[i]);
            }
        }
    }
}

/// The subcommand at `i`, which must use the tokens to the end.
pub open spec fn spec_command(args: Seq<Seq<u8>>, i: int) -> Option<CommandV>
    recommends
        0 <= i < args.len(),
{
    let t = args[i];
    if t == ascii_of("list-tools"@) && i + 1 == args.len() {
        Some(CommandV::ListTools)
    } else if t == ascii_of("list-resources"@) && i + 1 == args.len() {
        Some(CommandV::ListResources)
    } else if t == ascii_of("list-prompts"@) && i + 1 == args.len() {
        Some(CommandV::ListPrompts)
    } else if t == ascii_of("interactive"@) && i + 1 == args.len() {
        Some(CommandV::Interactive)
    } else if t == ascii_of("read-resource"@) && i + 2 == args.len() {
        Some(CommandV::ReadResource { uri: args[i + 1] })
    } else if (t == ascii_of("call-tool"@) || t == ascii_of("get-prompt"@)) && i + 1 < args.len() {
        let name = args[i + 1];
        let args_text = if i + 2 == args.len() {
            Some(ascii_of("{}"@))
        } else if i + 4 == args.len() && (args[i + 2] == ascii_of("--args"@) || args[i + 2]
            == ascii_of("-a"@)) {
            Some(args[i + 3])
        } else {
            None::<Seq<u8>>
        };
        match args_text {
            Some(a) => if t == ascii_of("call-tool"@) {
                Some(CommandV::CallTool { tool: name, args: a })
            } else {
                Some(CommandV::GetPrompt { name, args: a })
            },
            None => None,
        }
    } else {
        None
    }
}

/// The command line denoted from token `i` on, with the flag values
/// gathered so far.
pub open spec fn spec_cli_from(args: Seq<Seq<u8>>, i: int, server: Seq<u8>, verbose: bool) -> Option<CliV>
    decreases args.len() - i,
{
    if !(0 <= i < args.len()) {
        None
    } else if args[i] == ascii_of("--server"@) || args[i] == ascii_of("-s"@) {
        if i + 1 < args.len() {
            spec_cli_from(args, i + 2, args[i + 1], verbose)
        } else {
            None
        }
    } else if args[i] == ascii_of("--verbose"@) || args[i] == ascii_of("-v"@) {
        spec_cli_from(args, i + 1, server, true)
    } else {
        match spec_command(args, i) {
            Some(c) => Some(CliV { server, verbose, command: c }),
            None => None,
        }
    }
}

/// The command line the tokens denote: the leading token is the program
/// name, flags default to `./server` and quiet.
pub open spec fn spec_cli(args: Seq<Seq<u8>>) -> Option<CliV> {
    spec_cli_from(args, 1, ascii_of("./server"@), false)
}

fn token_is(t: &Vec<u8>, lit: Vec<u8>) -> (r: bool)
    ensures
        r == (t@ == lit@),
{
    bytes_eq(t.as_slice(), lit.as_slice())
}

/// The subcommand at `i`, executably.
fn parse_command(args: &Vec<Vec<u8>>, i: usize) -> (r: Option<Command>)
    requires
        i < args@.len(),
    ensures
        match spec_command(tokens_view(args@), i as int) {
            Some(cv) => r matches Some(c) && c@ == cv,
            None => r is None,
        },
{
    proof {
        lemma_tokens_view(args@);
        reveal_strlit("list-tools");
        reveal_strlit("list-resources");
        reveal_strlit("list-prompts");
        reveal_strlit("interactive");
        reveal_strlit("read-resource");
        reveal_strlit("call-tool");
        reveal_strlit("get-prompt");
        reveal_strlit("--args");
        reveal_strlit("-a");
        reveal_strlit("{}");
    }
    let t = &args[i];
    let n = args.len();
    if token_is(t, str_bytes("list-tools")) && i + 1 == n {
        Some(Command::ListTools)
    } else if token_is(t, str_bytes("list-resources")) && i + 1 == n {
        Some(Command::ListResources)
    } else if token_is(t, str_bytes("list-prompts")) && i + 1 == n {
        Some(Command::ListPrompts)
    } else if token_is(t, str_bytes("interactive")) && i + 1 == n {
        Some(Command::Interactive)
    } else if token_is(t, str_bytes("read-resource")) && n - i == 2 {
        Some(Command::ReadResource { uri: vstd::slice::slice_to_vec(args[i + 1].as_slice()) })
    } else if (token_is(t, str_bytes("call-tool")) || token_is(t, str_bytes("get-prompt"))) && i + 1
        < n {
        let name = vstd::slice::slice_to_vec(args[i + 1].as_slice());
        let args_text: Option<Vec<u8>> = if n - i == 2 {
            Some(str_bytes("{}"))
        } else if n - i == 4 && (token_is(&args[i + 2], str_bytes("--args")) || token_is(
            &args[i + 2],
            str_bytes("-a"),
        )) {
            Some(vstd::slice::slice_to_vec(args[i + 3].as_slice()))
        } else {
            None
        };
        match args_text {
            Some(a) => if token_is(t, str_bytes("call-tool")) {
                Some(Command::CallTool { tool: name, args: a })
            } else {
                Some(Command::GetPrompt { name, args: a })
            },
            None => None,
        }
    } else {
        None
    }
}

/// Parses a command line, executably: exactly the lines the surface admits
/// are accepted, and any other line is a usage error.
pub fn parse_cli(args: &Vec<Vec<u8>>) -> (r: Result<Cli, ClientError>)
    ensures
        match spec_cli(tokens_view(args@)) {
            Some(cv) => r matches Ok(c) && c@ == cv,
            None => r == Err::<Cli, ClientError>(ClientError::Usage),
        },
{
    proof {
        reveal_strlit("./server");
    }
    parse_cli_from(args, 1, str_bytes("./server"), false)
}

/// Parses flags and the subcommand from token `i` on.
fn parse_cli_from(args: &Vec<Vec<u8>>, i: usize, server: Vec<u8>, verbose: bool) -> (r: Result<
    Cli,
    ClientError,
>)
    ensures
        match spec_cli_from(tokens_view(args@), i as int, server@, verbose) {
            Some(cv) => r matches Ok(c) && c@ == cv,
            None => r == Err::<Cli, ClientError>(ClientError::Usage),
        },
    decreases args@.len() - i,
{
    proof {
        lemma_tokens_view(args@);
        reveal_strlit("--server");
        reveal_strlit("-s");
        reveal_strlit("--verbose");
        reveal_strlit("-v");
    }
    if i >= args.len() {
        return Err(ClientError::Usage);
    }
    let t = &args[i];
    if token_is(t, str_bytes("--server")) || token_is(t, str_bytes("-s")) {
        if i + 1 < args.len() {
            parse_cli_from(args, i + 2, vstd::slice::slice_to_vec(args[i + 1].as_slice()), verbose)
        } else {
            Err(ClientError::Usage)
        }
    } else if token_is(t, str_bytes("--verbose")) || token_is(t, str_bytes("-v")) {
        parse_cli_from(args, i + 1, server, true)
    } else {
        match parse_command(args, i) {
            Some(c) => Ok(Cli { server, verbose, command: c }),
            None => Err(ClientError::Usage),
        }
    }
}

// ------------------------------------------------------------------
// Argument texts
// ------------------------------------------------------------------

/// Whether a text is all whitespace.
pub open spec fn all_ws(s: Seq<u8>) -> bool {
    forall|i: int| 0 <= i < s.len() ==> is_ws(#[trigger] s[i])
}

/// The argument mapping a text denotes: a blank text denotes no arguments,
/// any other text must be a JSON object and denotes its members.
pub open spec fn spec_args(s: Seq<u8>) -> Option<Seq<(Seq<u8>, JsonV)>> {
    if all_ws(s) {
        Some(Seq::empty())
    } else {
        match spec_parse(s) {
            Some(JsonV::Obj(o)) => Some(o),
            _ => None,
        }
    }
}

/// Parses an argument text. A blank text or `{}` yields an empty mapping —
/// which the request builders transmit as absent arguments — and a text that
/// is not a JSON object is a usage error.
pub fn parse_args(s: &[u8]) -> (r: Result<Vec<(Vec<u8>, Json)>, ClientError>)
    ensures
        match spec_args(s@) {
            Some(m) => r matches Ok(out) && views_of_pairs(out@) == m,
            None => r == Err::<Vec<(Vec<u8>, Json)>, ClientError>(ClientError::Usage),
        },
{
    let mut blank = true;
    let mut i: usize = 0;
    while i < s.len()
        invariant
            i <= s@.len(),
            blank == all_ws(s@.subrange(0, i as int)),
        decreases s@.len() - i,
    {
        let b = s[i];
        let ghost pre = s@.subrange(0, i as int);
        let ghost post = s@.subrange(0, i as int + 1);
        if !(b == 32 || b == 9 || b == 13 || b == 10) {
            blank = false;
        }
        proof {
            assert(post[i as int] == s@[i as int]);
            if blank {
                assert forall|j: int| 0 <= j < post.len() implies is_ws(#[trigger] post[j]) by {
                    if j < i {
                        assert(post[j] == pre[j]);
                    }
                }
            } else {
                if all_ws(pre) {
                    assert(!is_ws(post[i as int]));
                } else {
                    let j = choose|j: int| 0 <= j < pre.len() && !is_ws(#[trigger] pre[j]);
                    assert(post[j] == pre[j]);
                    assert(!is_ws(post[j]));
                }
            }
        }
        i += 1;
    }
    proof {
        assert(s@.subrange(0, s@.len() as int) =~= s@);
    }
    if blank {
        let out: Vec<(Vec<u8>, Json)> = Vec::new();
        proof {
            assert(views_of_pairs(out@) =~= Seq::<(Seq<u8>, JsonV)>::empty());
        }
        return Ok(out);
    }
    match json_parse(s) {
        Some(Json::Obj(o)) => Ok(o),
        _ => Err(ClientError::Usage),
    }
}


// ------------------------------------------------------------------
// Interactive-mode lines
// ------------------------------------------------------------------

/// The position of the first space at or after `i`.
pub open spec fn space_end(s: Seq<u8>, i: int) -> int
    decreases s.len() - i,
{
    if 0 <= i < s.len() && s[i] != ' ' as u8 {
        space_end(s, i + 1)
    } else {
        i
    }
}

/// Space scanning stays inside the input and moves only forward.
pub proof fn lemma_space_end(s: Seq<u8>, i: int)
    requires
        0 <= i <= s.len(),
    ensures
        i <= space_end(s, i) <= s.len(),
    decreases s.len() - i,
{
    if i < s.len() && s[i] != ' ' as u8 {
        lemma_space_end(s, i + 1);
    }
}

/// An interactive line split into at most three parts on single spaces: the
/// command word, one argument word, and the verbatim remainder.
pub open spec fn spec_split3(s: Seq<u8>) -> (Seq<u8>, Option<Seq<u8>>, Option<Seq<u8>>) {
    let p1 = space_end(s, 0);
    if p1 == s.len() {
        (s, None, None)
    } else {
        let p2 = space_end(s, p1 + 1);
        if p2 == s.len() {
            (s.subrange(0, p1), Some(s.subrange(p1 + 1, p2)), None)
        } else {
            (
                s.subrange(0, p1),
                Some(s.subrange(p1 + 1, p2)),
                Some(s.subrange(p2 + 1, s.len() as int)),
            )
        }
    }
}

/// The position of the first space, executably.
fn e_space_end(s: &[u8], i: usize) -> (r: usize)
    requires
        i <= s@.len(),
    ensures
        r as int == space_end(s@, i as int),
        i <= r <= s@.len(),
    decreases s@.len() - i,
{
    if i < s.len() && s[i] != ' ' as u8 {
        return e_space_end(s, i + 1);
    }
    i
}

/// Splits an interactive line as the loop reads it: the command word, at
/// most one argument word, and the rest of the line verbatim.
pub fn split3(s: &[u8]) -> (r: (Vec<u8>, Option<Vec<u8>>, Option<Vec<u8>>))
    ensures
        ({
            let parts = spec_split3(s@);
            &&& r.0@ == parts.0
            &&& (match (r.1, parts.1) {
                (Some(a), Some(b)) => a@ == b,
                (None, None) => true,
                _ => false,
            })
            &&& (match (r.2, parts.2) {
                (Some(a), Some(b)) => a@ == b,
                (None, None) => true,
                _ => false,
            })
        }),
{
    let p1 = e_space_end(s, 0);
    if p1 == s.len() {
        proof {
            assert(s@.subrange(0, s@.len() as int) =~= s@);
        }
        return (vstd::slice::slice_to_vec(s), None, None);
    }
    let first = vstd::slice::slice_to_vec(vstd::slice::slice_subrange(s, 0, p1));
    let p2 = e_space_end(s, p1 + 1);
    let second = vstd::slice::slice_to_vec(vstd::slice::slice_subrange(s, p1 + 1, p2));
    if p2 == s.len() {
        (first, Some(second), None)
    } else {
        let third = vstd::slice::slice_to_vec(vstd::slice::slice_subrange(s, p2 + 1, s.len()));
        (first, Some(second), Some(third))
    }
}

} // verus!
