//! The decisions of the `mosh-client` command: what its arguments ask for,
//! the window size it starts with and reports, and what it does with what
//! arrives on standard input. The program around them does the I/O.

use vstd::prelude::*;
use vstd::string::StringSliceAdditionalSpecFns;
use vstd::utf8::encode_utf8;

verus! {

/// The UTF-8 bytes of an argument.
pub open spec fn arg_bytes(a: String) -> Seq<u8> {
    encode_utf8(a@)
}

/// `-#` or `--help`.
pub open spec fn is_help_flag(b: Seq<u8>) -> bool {
    b == seq![0x2du8, 0x23u8] || b == seq![0x2du8, 0x2du8, 0x68u8, 0x65u8, 0x6cu8, 0x70u8]
}

/// An argument that begins with `-`.
pub open spec fn is_option(b: Seq<u8>) -> bool {
    b.len() > 0 && b[0] == 0x2du8
}

/// `-p`, `-s` or `-c`: options that take the next argument as their value.
pub open spec fn takes_value(b: Seq<u8>) -> bool {
    b == seq![0x2du8, 0x70u8] || b == seq![0x2du8, 0x73u8] || b == seq![0x2du8, 0x63u8]
}

/// The arguments that are not options nor option values, in order; `None`
/// when a help flag is met first. Every option is dropped; `-p`, `-s` and
/// `-c` drop the argument after them too, whatever it is.
pub open spec fn positional_args(args: Seq<String>) -> Option<Seq<String>>
    decreases args.len(),
{
    if args.len() == 0 {
        Some(Seq::empty())
    } else {
        let b = arg_bytes(args[0]);
        if is_help_flag(b) {
            None
        } else if is_option(b) {
            if takes_value(b) && args.len() >= 2 {
                positional_args(args.skip(2))
            } else if takes_value(b) {
                Some(Seq::empty())
            } else {
                positional_args(args.drop_first())
            }
        } else {
            match positional_args(args.drop_first()) {
                Some(rest) => Some(seq![args[0]] + rest),
                None => None,
            }
        }
    }
}

/// What the command line asks for.
#[derive(Debug, PartialEq, Eq)]
pub enum Command {
    /// Print the usage and exit successfully.
    Help,
    /// Print the usage and exit with status 2: fewer than two positionals.
    Usage,
    /// Connect to `host` on the port spelled `port`.
    Connect { host: String, port: String },
}

/// The command for the arguments after the program name.
pub open spec fn command_for(args: Seq<String>) -> Command {
    match positional_args(args) {
        None => Command::Help,
        Some(pos) => if pos.len() < 2 {
            Command::Usage
        } else {
            Command::Connect { host: pos[0], port: pos[1] }
        },
    }
}

fn bytes_are(b: &[u8], lit: &[u8]) -> (r: bool)
    ensures
        r == (b@ == lit@),
{
    if b.len() != lit.len() {
        return false;
    }
    let mut i: usize = 0;
    while i < b.len()
        invariant
            i <= b.len(),
            b.len() == lit.len(),
            forall|j: int| 0 <= j < i ==> b@[j] == lit@[j],
        decreases b.len() - i,
    {
        if b[i] != lit[i] {
            return false;
        }
        i += 1;
    }
    assert(b@ =~= lit@);
    true
}

/// Reads the arguments after the program name.
pub fn parse_command_line(args: &Vec<String>) -> (c: Command)
    ensures
        c == command_for(args@),
{
    let help_short: Vec<u8> = vec![0x2d, 0x23];
    let help_long: Vec<u8> = vec![0x2d, 0x2d, 0x68, 0x65, 0x6c, 0x70];
    let port_flag: Vec<u8> = vec![0x2d, 0x70];
    let ssh_flag: Vec<u8> = vec![0x2d, 0x73];
    let command_flag: Vec<u8> = vec![0x2d, 0x63];
    let mut pos: Vec<String> = Vec::new();
    let mut i: usize = 0;
    assert(args@.skip(0) =~= args@);
    while i < args.len()
        invariant
            i <= args.len(),
            help_short@ == seq![0x2du8, 0x23u8],
            help_long@ == seq![0x2du8, 0x2du8, 0x68u8, 0x65u8, 0x6cu8, 0x70u8],
            port_flag@ == seq![0x2du8, 0x70u8],
            ssh_flag@ == seq![0x2du8, 0x73u8],
            command_flag@ == seq![0x2du8, 0x63u8],
            positional_args(args@) == match positional_args(args@.skip(i as int)) {
                Some(rest) => Some(pos@ + rest),
                None => None::<Seq<String>>,
            },
        decreases args.len() - i,
    {
        let ghost tail = args@.skip(i as int);
        assert(tail[0] == args@[i as int]);
        assert(tail.drop_first() =~= args@.skip(i + 1));
        let b = args[i].as_str().as_bytes();
        assert(b@ == arg_bytes(args@[i as int]));
        if bytes_are(b, help_short.as_slice()) || bytes_are(b, help_long.as_slice()) {
            return Command::Help;
        }
        if b.len() > 0 && b[0] == 0x2d {
            if bytes_are(b, port_flag.as_slice()) || bytes_are(b, ssh_flag.as_slice())
                || bytes_are(b, command_flag.as_slice()) {
                if i + 1 < args.len() {
                    assert(tail.skip(2) =~= args@.skip(i + 2));
                    i += 2;
                } else {
                    assert(args@.skip(args.len() as int) =~= Seq::<String>::empty());
                    assert(pos@ + Seq::<String>::empty() =~= pos@);
                    i = args.len();
                }
            } else {
                i += 1;
            }
        } else {
            let ghost before = pos@;
            pos.push(args[i].clone());
            proof {
                match positional_args(args@.skip(i + 1)) {
                    Some(rest) => {
                        assert(before + (seq![args@[i as int]] + rest) =~= pos@ + rest);
                    },
                    None => {},
                }
            }
            i += 1;
        }
    }
    assert(args@.skip(i as int) =~= Seq::<String>::empty());
    assert(pos@ + Seq::<String>::empty() =~= pos@);
    if pos.len() < 2 {
        Command::Usage
    } else {
        Command::Connect { host: pos[0].clone(), port: pos[1].clone() }
    }
}

/// The size the session starts with: each dimension from the environment
/// when it names one, else from the terminal, else 80 columns by 24 rows.
pub fn initial_size(
    env_cols: Option<u16>,
    term_cols: Option<u16>,
    env_rows: Option<u16>,
    term_rows: Option<u16>,
) -> (r: (u16, u16))
    ensures
        r.0 == (match env_cols {
            Some(c) => c,
            None => match term_cols {
                Some(c) => c,
                None => 80,
            },
        }),
        r.1 == (match env_rows {
            Some(c) => c,
            None => match term_rows {
                Some(c) => c,
                None => 24,
            },
        }),
{
    let cols = match env_cols {
        Some(c) => c,
        None => match term_cols {
            Some(c) => c,
            None => 80,
        },
    };
    let rows = match env_rows {
        Some(r) => r,
        None => match term_rows {
            Some(r) => r,
            None => 24,
        },
    };
    (cols, rows)
}

/// After a periodic look at the terminal: the new size to report, when both
/// dimensions are known and either differs from the size last reported.
pub fn resize_after_probe(current: (u16, u16), cols: Option<u16>, rows: Option<u16>) -> (r: Option<
    (u16, u16),
>)
    ensures
        r == (match (cols, rows) {
            (Some(c), Some(w)) => if c != current.0 || w != current.1 {
                Some((c, w))
            } else {
                None
            },
            _ => None,
        }),
{
    match (cols, rows) {
        (Some(c), Some(r)) => {
            if c != current.0 || r != current.1 {
                Some((c, r))
            } else {
                None
            }
        },
        _ => None,
    }
}

/// Whether a look at the terminal size is due: more than 250 ms since the
/// last one.
pub fn resize_probe_due(since_last_probe_nanos: u128) -> (b: bool)
    ensures
        b == (since_last_probe_nanos > 250_000_000),
{
    since_last_probe_nanos > 250_000_000
}

/// Whether painting goes on after input ended: for under 2 s from the end
/// of input, while the session lives.
pub fn drain_continues(since_eof_nanos: u128, dead: bool) -> (b: bool)
    ensures
        b == (since_eof_nanos < 2_000_000_000 && !dead),
{
    since_eof_nanos < 2_000_000_000 && !dead
}

/// What the input reader handed over at one turn of the loop.
#[derive(Debug)]
pub enum StdinEvent {
    /// Bytes read from standard input.
    Data(Vec<u8>),
    /// Standard input ended (or failed).
    Eof,
    /// Nothing new.
    Empty,
    /// The reader is gone.
    Disconnected,
}

/// What the loop does about it.
#[derive(Debug, PartialEq, Eq)]
pub enum StdinAction {
    /// Send these keys to the server.
    SendKeys(Vec<u8>),
    /// Nothing to do.
    Nothing,
    /// Paint what is still coming for a short while, then stop.
    DrainAndStop,
    /// Stop at once.
    Stop,
}

/// Keys are sent, an empty read is ignored, end of input drains then
/// stops, a lost reader stops.
pub fn on_stdin(event: StdinEvent) -> (a: StdinAction)
    ensures
        match event {
            StdinEvent::Data(keys) => if keys@.len() > 0 {
                a matches StdinAction::SendKeys(k) && k@ == keys@
            } else {
                a is Nothing
            },
            StdinEvent::Eof => a is DrainAndStop,
            StdinEvent::Empty => a is Nothing,
            StdinEvent::Disconnected => a is Stop,
        },
{
    match event {
        StdinEvent::Data(keys) => {
            if !keys.is_empty() {
                StdinAction::SendKeys(keys)
            } else {
                StdinAction::Nothing
            }
        },
        StdinEvent::Eof => StdinAction::DrainAndStop,
        StdinEvent::Empty => StdinAction::Nothing,
        StdinEvent::Disconnected => StdinAction::Stop,
    }
}

/// The size `ioctl(TIOCGWINSZ)` reports, when the call succeeded and
/// both dimensions are positive.
pub fn ioctl_window_size(rc: i32, cols: u16, rows: u16) -> (r: Option<(u16, u16)>)
    ensures
        r == (if rc == 0 && cols > 0 && rows > 0 {
            Some((cols, rows))
        } else {
            None
        }),
{
    if rc == 0 && cols > 0 && rows > 0 {
        Some((cols, rows))
    } else {
        None
    }
}

/// A 16-bit two's complement value read as unsigned.
pub open spec fn unsigned_of(x: i16) -> u16 {
    if x >= 0 {
        x as u16
    } else {
        (x + 0x1_0000) as u16
    }
}

fn reinterpret(x: i16) -> (r: u16)
    ensures
        r == unsigned_of(x),
{
    assert(#[verifier::truncate] (x as u16) == unsigned_of(x)) by (bit_vector);
    #[verifier::truncate]
    (x as u16)
}

/// The size of a console window given its rectangle (inclusive corners),
/// when both dimensions come out positive.
pub fn console_window_size(left: i16, top: i16, right: i16, bottom: i16) -> (r: Option<(u16, u16)>)
    requires
        i16::MIN <= right - left < i16::MAX,
        i16::MIN <= bottom - top < i16::MAX,
    ensures
        r == (if unsigned_of((right - left + 1) as i16) > 0 && unsigned_of(
            (bottom - top + 1) as i16,
        ) > 0 {
            Some((unsigned_of((right - left + 1) as i16), unsigned_of((bottom - top + 1) as i16)))
        } else {
            None
        }),
{
    let cols = reinterpret(right - left + 1);
    let rows = reinterpret(bottom - top + 1);
    if cols > 0 && rows > 0 {
        Some((cols, rows))
    } else {
        None
    }
}

} // verus!
