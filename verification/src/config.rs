//! The settings of the server, as given on the command line.

use crate::text::{is_text, texts, to_chars};
use vstd::prelude::*;

verus! {

/// Why the command line is refused.
#[derive(Clone, Copy, Debug, PartialEq, Eq, Structural)]
pub enum ConfigError {
    /// An option stands last, without the value that it needs.
    MissingValue,
    /// The value of `-p` is not a port number.
    InvalidPort,
    /// An argument is none of `-b`, `-p` and `-d`.
    BadOption,
}

/// Where the server listens and what it serves.
#[derive(Clone, Debug)]
pub struct Config {
    /// The port to listen on.
    pub port: u16,
    /// The address to bind to.
    pub address: String,
    /// The root directory.
    pub directory: String,
}

/// Settings, their strings taken as texts.
pub ghost struct Settings {
    pub port: int,
    pub address: Seq<char>,
    pub directory: Seq<char>,
}

impl View for Config {
    type V = Settings;

    open spec fn view(&self) -> Settings {
        Settings { port: self.port as int, address: self.address@, directory: self.directory@ }
    }
}

/// The port to listen on where the command line names none.
pub const DEFAULT_PORT: u16 = 8080;

/// The address to bind to where the command line names none: every
/// address of the machine.
pub const DEFAULT_ADDRESS: &'static str = "0.0.0.0";

/// The root directory where the command line names none: the current
/// directory.
pub const DEFAULT_DIR: &'static str = ".";

/// The settings that hold where the command line says nothing.
pub open spec fn default_settings() -> Settings {
    Settings { port: DEFAULT_PORT as int, address: DEFAULT_ADDRESS@, directory: DEFAULT_DIR@ }
}

/// Whether every character is a decimal digit.
pub open spec fn all_digits(s: Seq<char>) -> bool {
    forall|i: int| 0 <= i < s.len() ==> '0' <= #[trigger] s[i] <= '9'
}

/// The number that decimal digits stand for.
pub open spec fn digits_value(s: Seq<char>) -> int
    decreases s.len(),
{
    if s.len() == 0 {
        0
    } else {
        10 * digits_value(s.drop_last()) + (s.last() as int - 48)
    }
}

/// The port that a text names: decimal digits, at least one, with or
/// without a `+` before them, that stand for a number up to 65535.
pub open spec fn port_number(s: Seq<char>) -> Option<int> {
    let digits = if s.len() > 0 && s[0] == '+' {
        s.skip(1)
    } else {
        s
    };
    if digits.len() > 0 && all_digits(digits) && digits_value(digits) <= 65535 {
        Some(digits_value(digits))
    } else {
        None
    }
}

/// The settings after the arguments are read from left to right, starting
/// from `settings`: `-b` sets the address, `-p` the port and `-d` the
/// directory, each to the argument that follows it.
pub open spec fn applied(args: Seq<Seq<char>>, settings: Settings) -> Result<Settings, ConfigError>
    decreases args.len(),
{
    if args.len() == 0 {
        Ok(settings)
    } else if args[0] != "-b"@ && args[0] != "-p"@ && args[0] != "-d"@ {
        Err(ConfigError::BadOption)
    } else if args.len() < 2 {
        Err(ConfigError::MissingValue)
    } else if args[0] == "-b"@ {
        applied(args.skip(2), Settings { address: args[1], ..settings })
    } else if args[0] == "-d"@ {
        applied(args.skip(2), Settings { directory: args[1], ..settings })
    } else {
        match port_number(args[1]) {
            Some(port) => applied(args.skip(2), Settings { port, ..settings }),
            None => Err(ConfigError::InvalidPort),
        }
    }
}

/// Digits never stand for less than the digits they begin with.
proof fn lemma_digits_value_grows(s: Seq<char>, k: int)
    requires
        all_digits(s),
        0 <= k <= s.len(),
    ensures
        0 <= digits_value(s.take(k)) <= digits_value(s),
    decreases s.len() - k,
{
    if k == s.len() {
        assert(s.take(k) == s);
        lemma_digits_value_nonnegative(s);
    } else {
        lemma_digits_value_grows(s, k + 1);
        assert(s.take(k + 1).drop_last() == s.take(k));
        lemma_digits_value_nonnegative(s.take(k));
    }
}

proof fn lemma_digits_value_nonnegative(s: Seq<char>)
    requires
        all_digits(s),
    ensures
        0 <= digits_value(s),
    decreases s.len(),
{
    if s.len() > 0 {
        lemma_digits_value_nonnegative(s.drop_last());
    }
}

/// Reads a port number.
pub fn parse_port(text: &str) -> (r: Option<u16>)
    ensures
        match r {
            Some(port) => port_number(text@) == Some(port as int),
            None => port_number(text@) is None,
        },
{
    let chars = to_chars(text);
    let start: usize = if chars.len() > 0 && chars[0] == '+' {
        1
    } else {
        0
    };
    let ghost digits = chars@.skip(start as int);
    if start == chars.len() {
        return None;
    }
    let mut value: u32 = 0;
    let mut i: usize = start;
    while i < chars.len()
        invariant
            start <= i <= chars@.len(),
            chars@ == text@,
            start < chars@.len(),
            start == (if chars@.len() > 0 && chars@[0] == '+' {
                1int
            } else {
                0int
            }),
            digits == chars@.skip(start as int),
            all_digits(digits.take(i - start)),
            value == digits_value(digits.take(i - start)),
            value <= 65535,
        decreases chars@.len() - i,
    {
        let c = chars[i];
        if c < '0' || c > '9' {
            assert(!('0' <= digits[i - start] <= '9'));
            assert(chars@.skip(0) == chars@);
            return None;
        }
        let ghost taken = digits.take(i - start + 1);
        assert(taken.drop_last() == digits.take(i - start));
        assert(all_digits(taken)) by {
            assert forall|k: int| 0 <= k < taken.len() implies '0' <= #[trigger] taken[k]
                <= '9' by {
                if k < i - start {
                    assert(digits.take(i - start)[k] == taken[k]);
                }
            }
        }
        value = value * 10 + (c as u8 - 48) as u32;
        assert(value == digits_value(taken));
        if value > 65535 {
            proof {
                if all_digits(digits) {
                    lemma_digits_value_grows(digits, i - start + 1);
                }
                assert(chars@.skip(0) == chars@);
            }
            return None;
        }
        i += 1;
    }
    assert(digits.take(digits.len() as int) == digits);
    assert(chars@.skip(0) == chars@);
    Some(value as u16)
}

/// Reads the settings from the arguments of the command line, the name of
/// the program left out: `-b` sets the address to bind to, `-p` the port
/// and `-d` the root directory, each to the argument that follows it. An
/// option given again replaces what it set before. What no option sets is
/// `0.0.0.0`, port 8080 and the current directory.
pub fn parse_args(args: &Vec<String>) -> (r: Result<Config, ConfigError>)
    ensures
        match applied(texts(args@), default_settings()) {
            Ok(settings) => r is Ok && r->Ok_0@ == settings,
            Err(e) => r == Err::<Config, ConfigError>(e),
        },
{
    let mut config = Config {
        port: DEFAULT_PORT,
        address: DEFAULT_ADDRESS.to_owned(),
        directory: DEFAULT_DIR.to_owned(),
    };
    let ghost all = texts(args@);
    let mut i: usize = 0;
    assert(all.skip(0) == all);
    while i < args.len()
        invariant
            i <= args@.len(),
            all == texts(args@),
            applied(all, default_settings()) == applied(all.skip(i as int), config@),
        decreases args@.len() - i,
    {
        let ghost rest = all.skip(i as int);
        let option = to_chars(args[i].as_str());
        assert(option@ == rest[0]);
        let bind = is_text(&option, "-b");
        let port = is_text(&option, "-p");
        let directory = is_text(&option, "-d");
        if !bind && !port && !directory {
            return Err(ConfigError::BadOption);
        }
        if args.len() - i < 2 {
            return Err(ConfigError::MissingValue);
        }
        assert(rest[1] == args@[i + 1]@);
        assert(rest.skip(2) == all.skip(i + 2));
        if bind {
            config.address = args[i + 1].clone();
        } else if directory {
            config.directory = args[i + 1].clone();
        } else {
            match parse_port(args[i + 1].as_str()) {
                Some(number) => {
                    config.port = number;
                },
                None => {
                    return Err(ConfigError::InvalidPort);
                },
            }
        }
        i += 2;
    }
    Ok(config)
}

} // verus!
