//! The command line: which options it names, what they hold, and the
//! parameters of a probe that follow from them.

use vstd::prelude::*;
use vstd::string::*;
use crate::decimal::{parse_u32, parse_u64, parse_unsigned};

verus! {

/// Seconds to wait for a connection when `-t` is not given.
pub const DEFAULT_TIMEOUT_SECS: u64 = 5;

/// Seconds to pause between attempts when `-w` is not given.
pub const DEFAULT_WAIT_SECS: u64 = 1;

/// An option of the command line.
#[derive(Clone, Copy, Debug, PartialEq, Eq, Structural)]
pub enum CmdLineOpt {
    /// `-h`: the host to probe.
    HostName,
    /// `-p`: the port to probe.
    PortVal,
    /// `-i`: how many attempts to make.
    Intervals,
    /// `-t`: seconds to wait for one connection.
    TimeOut,
    /// `-w`: seconds to pause between attempts.
    Wait,
}

/// Why a command line was turned down.
#[derive(Clone, Copy, Debug, PartialEq, Eq, Structural)]
pub enum ParamError {
    /// An unknown option, an option without a value, or no program name.
    InvalidParameters,
    /// The value of `-i` is no number that fits in 32 bits.
    InvalidInterval,
    /// There is no `-i`.
    MissingIntervals,
    /// The value of `-i` is zero.
    NeedAtLeastOneInterval,
    /// The value of `-w` is no number that fits in 64 bits.
    InvalidWait,
    /// The value of `-t` is no number that fits in 64 bits.
    InvalidTimeout,
    /// There is no `-h`.
    HostRequired,
    /// There is no `-p`.
    PortRequired,
    /// Host and port could not be looked up.
    InvalidHostPort,
    /// The lookup of host and port gave no address.
    UnresolvableHostPort,
}

/// What is said of a fault in the parameters.
pub open spec fn message_text(fault: ParamError) -> Seq<char> {
    match fault {
        ParamError::InvalidParameters => "Invalid Parameters"@,
        ParamError::InvalidInterval => "Invalid Interval"@,
        ParamError::MissingIntervals => "Missing Intervals argument"@,
        ParamError::NeedAtLeastOneInterval => "Need at least 1 Interval"@,
        ParamError::InvalidWait => "Invalid Wait"@,
        ParamError::InvalidTimeout => "Invalid Timeout"@,
        ParamError::HostRequired => "Host required!"@,
        ParamError::PortRequired => "Port required!"@,
        ParamError::InvalidHostPort => "Invalid host/port"@,
        ParamError::UnresolvableHostPort => "Unresolvable host/port"@,
    }
}

impl ParamError {
    /// What is said of this fault.
    pub fn message(&self) -> (text: &'static str)
        ensures
            text@ == message_text(*self),
    {
        match self {
            ParamError::InvalidParameters => "Invalid Parameters",
            ParamError::InvalidInterval => "Invalid Interval",
            ParamError::MissingIntervals => "Missing Intervals argument",
            ParamError::NeedAtLeastOneInterval => "Need at least 1 Interval",
            ParamError::InvalidWait => "Invalid Wait",
            ParamError::InvalidTimeout => "Invalid Timeout",
            ParamError::HostRequired => "Host required!",
            ParamError::PortRequired => "Port required!",
            ParamError::InvalidHostPort => "Invalid host/port",
            ParamError::UnresolvableHostPort => "Unresolvable host/port",
        }
    }
}

/// The option that a word of the command line names, if it names one.
pub open spec fn flag_of(word: Seq<char>) -> Option<CmdLineOpt> {
    if word == seq!['-', 'h'] {
        Some(CmdLineOpt::HostName)
    } else if word == seq!['-', 'p'] {
        Some(CmdLineOpt::PortVal)
    } else if word == seq!['-', 'i'] {
        Some(CmdLineOpt::Intervals)
    } else if word == seq!['-', 't'] {
        Some(CmdLineOpt::TimeOut)
    } else if word == seq!['-', 'w'] {
        Some(CmdLineOpt::Wait)
    } else {
        None
    }
}

/// The words of a command line as plain text.
pub open spec fn words(args: Seq<String>) -> Seq<Seq<char>> {
    Seq::new(args.len(), |i: int| args[i]@)
}

/// The word where the option of the `k`th pair stands, counted from one:
/// the program's name comes first, then the pairs of option and value.
pub open spec fn option_word(words: Seq<Seq<char>>, k: int) -> Seq<char> {
    words[2 * k - 1]
}

/// The word where the value of the `k`th pair stands.
pub open spec fn value_word(words: Seq<Seq<char>>, k: int) -> Seq<char> {
    words[2 * k]
}

/// A command line is in order when, after the program's name, it is a run
/// of pairs: an option, then its value. Whatever follows an option is its
/// value, even where it looks like an option.
pub open spec fn paired(words: Seq<Seq<char>>) -> bool {
    &&& words.len() % 2 == 1
    &&& forall|k: int|
        1 <= k <= words.len() / 2 ==> flag_of(#[trigger] option_word(words, k)) is Some
}

/// The value that the first `pairs` pairs give to `opt`: that of the last
/// of them that names it.
pub open spec fn value_in(words: Seq<Seq<char>>, opt: CmdLineOpt, pairs: nat) -> Option<Seq<char>>
    decreases pairs,
{
    if pairs == 0 {
        None
    } else if flag_of(option_word(words, pairs as int)) == Some(opt) {
        Some(value_word(words, pairs as int))
    } else {
        value_in(words, opt, (pairs - 1) as nat)
    }
}

/// The value that a command line gives to `opt`.
pub open spec fn supplied(words: Seq<Seq<char>>, opt: CmdLineOpt) -> Option<Seq<char>> {
    value_in(words, opt, (words.len() / 2) as nat)
}

/// An option has no value where no pair names it. Where one does, its
/// value is that of the last pair that names it.
pub proof fn lemma_value_in(words: Seq<Seq<char>>, opt: CmdLineOpt, pairs: nat)
    ensures
        match value_in(words, opt, pairs) {
            None => forall|k: int|
                1 <= k <= pairs ==> flag_of(#[trigger] option_word(words, k)) != Some(opt),
            Some(value) => exists|last: int|
                {
                    &&& 1 <= last <= pairs
                    &&& flag_of(#[trigger] option_word(words, last)) == Some(opt)
                    &&& value == value_word(words, last)
                    &&& forall|k: int|
                        last < k <= pairs ==> flag_of(#[trigger] option_word(words, k)) != Some(
                            opt,
                        )
                },
        },
    decreases pairs,
{
    if pairs > 0 {
        if flag_of(option_word(words, pairs as int)) == Some(opt) {
            let last = pairs as int;
            assert(flag_of(option_word(words, last)) == Some(opt));
        } else {
            lemma_value_in(words, opt, (pairs - 1) as nat);
            match value_in(words, opt, (pairs - 1) as nat) {
                None => {},
                Some(value) => {
                    let last = choose|last: int|
                        {
                            &&& 1 <= last <= pairs - 1
                            &&& flag_of(#[trigger] option_word(words, last)) == Some(opt)
                            &&& value == value_word(words, last)
                            &&& forall|k: int|
                                last < k <= pairs - 1 ==> flag_of(
                                    #[trigger] option_word(words, k),
                                ) != Some(opt)
                        };
                    assert(flag_of(option_word(words, last)) == Some(opt));
                },
            }
        }
    }
}

/// The values of the options of one command line.
pub struct OptionMap {
    host: Option<String>,
    port: Option<String>,
    intervals: Option<String>,
    timeout: Option<String>,
    wait: Option<String>,
}

pub open spec fn text_of(value: Option<String>) -> Option<Seq<char>> {
    match value {
        Some(s) => Some(s@),
        None => None,
    }
}

/// Tells which option a word names.
pub fn flag_for(word: &str) -> (r: Option<CmdLineOpt>)
    ensures
        r == flag_of(word@),
{
    if !word.is_ascii() {
        assert(vstd::utf8::is_ascii_chars(seq!['-', 'h']));
        assert(vstd::utf8::is_ascii_chars(seq!['-', 'p']));
        assert(vstd::utf8::is_ascii_chars(seq!['-', 'i']));
        assert(vstd::utf8::is_ascii_chars(seq!['-', 't']));
        assert(vstd::utf8::is_ascii_chars(seq!['-', 'w']));
        return None;
    }
    proof {
        is_ascii_spec_bytes(word);
    }
    let bytes = word.as_bytes();
    if bytes.len() != 2 || bytes[0] != 45u8 {
        return None;
    }
    let letter: u8 = bytes[1];
    assert(word@[0] == '-');
    assert(word@[1] as u32 == letter as u32);
    if letter == 104u8 {
        assert(word@ =~= seq!['-', 'h']);
        Some(CmdLineOpt::HostName)
    } else if letter == 112u8 {
        assert(word@ =~= seq!['-', 'p']);
        Some(CmdLineOpt::PortVal)
    } else if letter == 105u8 {
        assert(word@ =~= seq!['-', 'i']);
        Some(CmdLineOpt::Intervals)
    } else if letter == 116u8 {
        assert(word@ =~= seq!['-', 't']);
        Some(CmdLineOpt::TimeOut)
    } else if letter == 119u8 {
        assert(word@ =~= seq!['-', 'w']);
        Some(CmdLineOpt::Wait)
    } else {
        None
    }
}

impl OptionMap {
    /// The value held for `opt`.
    pub closed spec fn value(&self, opt: CmdLineOpt) -> Option<Seq<char>> {
        match opt {
            CmdLineOpt::HostName => text_of(self.host),
            CmdLineOpt::PortVal => text_of(self.port),
            CmdLineOpt::Intervals => text_of(self.intervals),
            CmdLineOpt::TimeOut => text_of(self.timeout),
            CmdLineOpt::Wait => text_of(self.wait),
        }
    }

    /// A map that holds no value.
    pub fn new() -> (map: OptionMap)
        ensures
            forall|opt: CmdLineOpt| map.value(opt) is None,
    {
        OptionMap { host: None, port: None, intervals: None, timeout: None, wait: None }
    }

    /// Gives `opt` the value `text`, in place of the one it had.
    pub fn insert(&mut self, opt: CmdLineOpt, text: String)
        ensures
            final(self).value(opt) == Some(text@),
            forall|other: CmdLineOpt|
                other != opt ==> final(self).value(other) == old(self).value(other),
    {
        match opt {
            CmdLineOpt::HostName => self.host = Some(text),
            CmdLineOpt::PortVal => self.port = Some(text),
            CmdLineOpt::Intervals => self.intervals = Some(text),
            CmdLineOpt::TimeOut => self.timeout = Some(text),
            CmdLineOpt::Wait => self.wait = Some(text),
        }
    }

    /// The value held for `opt`.
    pub fn get(&self, opt: CmdLineOpt) -> (r: Option<&String>)
        ensures
            self.value(opt) == match r {
                Some(s) => Some(s@),
                None => None,
            },
    {
        match opt {
            CmdLineOpt::HostName => self.host.as_ref(),
            CmdLineOpt::PortVal => self.port.as_ref(),
            CmdLineOpt::Intervals => self.intervals.as_ref(),
            CmdLineOpt::TimeOut => self.timeout.as_ref(),
            CmdLineOpt::Wait => self.wait.as_ref(),
        }
    }

    /// Reads the options of a command line. The first word is the
    /// program's name and is passed over.
    pub fn scan(args: &[String]) -> (r: Result<OptionMap, ParamError>)
        ensures
            match r {
                Ok(map) => paired(words(args@)) && forall|opt: CmdLineOpt|
                    map.value(opt) == supplied(words(args@), opt),
                Err(e) => !paired(words(args@)) && e == ParamError::InvalidParameters,
            },
    {
        let n: usize = args.len();
        let ghost words = words(args@);
        if n == 0 {
            return Err(ParamError::InvalidParameters);
        }
        let mut map = OptionMap::new();
        let mut i: usize = 1;
        while i < n
            invariant
                n == args@.len(),
                words == self::words(args@),
                1 <= i <= n,
                i % 2 == 1,
                forall|k: int|
                    1 <= k <= i / 2 ==> flag_of(#[trigger] option_word(words, k)) is Some,
                forall|opt: CmdLineOpt| map.value(opt) == value_in(words, opt, (i / 2) as nat),
            decreases n - i,
        {
            let opt = match flag_for(args[i].as_str()) {
                Some(opt) => opt,
                None => {
                    assert(flag_of(option_word(words, (i + 1) / 2)) is None);
                    return Err(ParamError::InvalidParameters);
                },
            };
            if n - i < 2 {
                return Err(ParamError::InvalidParameters);
            }
            let ghost before = map;
            map.insert(opt, args[i + 1].clone());
            assert forall|o: CmdLineOpt| map.value(o) == value_in(
                words,
                o,
                ((i + 2) / 2) as nat,
            ) by {
                assert(option_word(words, (i + 2) / 2) == words[i as int]);
                assert(before.value(o) == value_in(words, o, (i / 2) as nat));
            }
            i = i + 2;
        }
        Ok(map)
    }
}

/// The text that explains the command line.
pub const USAGE: &'static str =
    "tcping -h -p -i -t -w\n\n \t-h\t(required) Host name, ipv4, or ipv6 address\n \t-p\t(required) Port (1-65535)\n \t-i\t(required) Intervals.  Number of tests to run before exit\n \t-t\tConnection Timeout. Wait before failing connection attempt (Default: OS Defined)\n \t-w\tWait Interval. Wait between intervals in seconds (Default: 1)\n";

/// What a probe is to do, as the command line asked for it.
#[derive(Clone, Debug, PartialEq, Eq)]
pub struct ProgParameters {
    /// The host as it was given, for the report.
    pub target_host: String,
    /// The port as it was given, for the report.
    pub target_port: String,
    /// How many attempts to make; at least one.
    pub interval_count: u32,
    /// Seconds to wait for one connection; at least one.
    pub connection_timeout: u64,
    /// Seconds to pause between two attempts; at least one.
    pub wait_interval: u64,
}

/// The parameters of a probe as plain values.
pub struct Settings {
    pub target_host: Seq<char>,
    pub target_port: Seq<char>,
    pub interval_count: u32,
    pub connection_timeout: u64,
    pub wait_interval: u64,
}

impl View for ProgParameters {
    type V = Settings;

    open spec fn view(&self) -> Settings {
        Settings {
            target_host: self.target_host@,
            target_port: self.target_port@,
            interval_count: self.interval_count,
            connection_timeout: self.connection_timeout,
            wait_interval: self.wait_interval,
        }
    }
}

impl Settings {
    /// Host and port in the form in which an address is looked up and a
    /// report names the target: the host, a colon, the port.
    pub open spec fn endpoint(self) -> Seq<char> {
        self.target_host + ":"@ + self.target_port
    }

    /// Attempts, timeout and pause are all at least one.
    pub open spec fn valid(self) -> bool {
        self.interval_count >= 1 && self.connection_timeout >= 1 && self.wait_interval >= 1
    }
}

/// The number of seconds that the value of `-t` or `-w` asks for: the
/// value as a number, raised to one where it is zero, and `default` where
/// the option is absent. `None` where the value is no number that fits in
/// 64 bits.
pub open spec fn seconds_of(value: Option<Seq<char>>, default: u64) -> Option<u64> {
    match value {
        None => Some(default),
        Some(text) => match parse_unsigned(text, u64::MAX as nat) {
            Some(secs) => Some(
                if secs < 1 {
                    1u64
                } else {
                    secs as u64
                },
            ),
            None => None,
        },
    }
}

/// What a command line asks for, or the first fault found in it. Faults
/// are looked for in this order: the pairing of options and values, `-i`,
/// `-w`, `-t`, `-h`, `-p`.
pub open spec fn settings_of(words: Seq<Seq<char>>) -> Result<Settings, ParamError> {
    if !paired(words) {
        Err(ParamError::InvalidParameters)
    } else if supplied(words, CmdLineOpt::Intervals) is None {
        Err(ParamError::MissingIntervals)
    } else if parse_unsigned(supplied(words, CmdLineOpt::Intervals).unwrap(), u32::MAX as nat)
        is None {
        Err(ParamError::InvalidInterval)
    } else if parse_unsigned(supplied(words, CmdLineOpt::Intervals).unwrap(), u32::MAX as nat)
        == Some(0nat) {
        Err(ParamError::NeedAtLeastOneInterval)
    } else if seconds_of(supplied(words, CmdLineOpt::Wait), DEFAULT_WAIT_SECS) is None {
        Err(ParamError::InvalidWait)
    } else if seconds_of(supplied(words, CmdLineOpt::TimeOut), DEFAULT_TIMEOUT_SECS) is None {
        Err(ParamError::InvalidTimeout)
    } else if supplied(words, CmdLineOpt::HostName) is None {
        Err(ParamError::HostRequired)
    } else if supplied(words, CmdLineOpt::PortVal) is None {
        Err(ParamError::PortRequired)
    } else {
        Ok(
            Settings {
                target_host: supplied(words, CmdLineOpt::HostName).unwrap(),
                target_port: supplied(words, CmdLineOpt::PortVal).unwrap(),
                interval_count: parse_unsigned(
                    supplied(words, CmdLineOpt::Intervals).unwrap(),
                    u32::MAX as nat,
                ).unwrap() as u32,
                connection_timeout: seconds_of(
                    supplied(words, CmdLineOpt::TimeOut),
                    DEFAULT_TIMEOUT_SECS,
                ).unwrap(),
                wait_interval: seconds_of(
                    supplied(words, CmdLineOpt::Wait),
                    DEFAULT_WAIT_SECS,
                ).unwrap(),
            },
        )
    }
}

/// Parameters that are read from a command line are valid: at least one
/// attempt, and at least one second of timeout and of pause.
pub proof fn lemma_settings_are_valid(words: Seq<Seq<char>>)
    ensures
        settings_of(words) matches Ok(settings) ==> settings.valid(),
{
}

/// A word that names no option, where an option is due, has the command
/// line turned down. So has an option that nothing follows, and a
/// command line without the program's name.
pub proof fn lemma_unknown_option_rejected(words: Seq<Seq<char>>, at: int)
    requires
        words.len() % 2 == 0 || (0 < at < words.len() && at % 2 == 1 && flag_of(words[at]) is None),
    ensures
        settings_of(words) == Err::<Settings, ParamError>(ParamError::InvalidParameters),
{
    if words.len() % 2 == 1 {
        assert(flag_of(option_word(words, (at + 1) / 2)) is None);
    }
}

/// A command line that asks for zero attempts is turned down.
pub proof fn lemma_zero_attempts_rejected(words: Seq<Seq<char>>)
    requires
        supplied(words, CmdLineOpt::Intervals) matches Some(text) && parse_unsigned(
            text,
            u32::MAX as nat,
        ) == Some(0nat),
    ensures
        settings_of(words) is Err,
        paired(words) ==> settings_of(words) == Err::<Settings, ParamError>(
            ParamError::NeedAtLeastOneInterval,
        ),
{
}

/// A command line whose timeout or pause is no number is turned down: a
/// negative number, a word, a number too large for 64 bits.
pub proof fn lemma_unreadable_seconds_rejected(words: Seq<Seq<char>>, opt: CmdLineOpt)
    requires
        opt == CmdLineOpt::TimeOut || opt == CmdLineOpt::Wait,
        supplied(words, opt) matches Some(text) && parse_unsigned(text, u64::MAX as nat) is None,
    ensures
        settings_of(words) is Err,
{
}

/// Reads the value of `-t` or `-w`.
fn seconds_for(value: Option<&String>, default: u64) -> (r: Option<u64>)
    ensures
        r == seconds_of(
            match value {
                Some(s) => Some(s@),
                None => None,
            },
            default,
        ),
{
    match value {
        None => Some(default),
        Some(text) => match parse_u64(text.as_str()) {
            Some(secs) => if secs < 1 {
                Some(1)
            } else {
                Some(secs)
            },
            None => None,
        },
    }
}

impl ProgParameters {
    /// Reads the parameters of a probe from a command line, whose first
    /// word is the program's name.
    pub fn new(args: &[String]) -> (r: Result<ProgParameters, ParamError>)
        ensures
            match settings_of(words(args@)) {
                Ok(settings) => r is Ok && r.unwrap()@ == settings,
                Err(fault) => r == Err::<ProgParameters, ParamError>(fault),
            },
    {
        let map = match OptionMap::scan(args) {
            Ok(map) => map,
            Err(fault) => {
                return Err(fault);
            },
        };
        let interval_count: u32 = match map.get(CmdLineOpt::Intervals) {
            Some(text) => match parse_u32(text.as_str()) {
                Some(count) => count,
                None => {
                    return Err(ParamError::InvalidInterval);
                },
            },
            None => {
                return Err(ParamError::MissingIntervals);
            },
        };
        if interval_count < 1 {
            return Err(ParamError::NeedAtLeastOneInterval);
        }
        let wait_interval: u64 = match seconds_for(map.get(CmdLineOpt::Wait), DEFAULT_WAIT_SECS) {
            Some(secs) => secs,
            None => {
                return Err(ParamError::InvalidWait);
            },
        };
        let connection_timeout: u64 = match seconds_for(
            map.get(CmdLineOpt::TimeOut),
            DEFAULT_TIMEOUT_SECS,
        ) {
            Some(secs) => secs,
            None => {
                return Err(ParamError::InvalidTimeout);
            },
        };
        let target_host: String = match map.get(CmdLineOpt::HostName) {
            Some(text) => text.clone(),
            None => {
                return Err(ParamError::HostRequired);
            },
        };
        let target_port: String = match map.get(CmdLineOpt::PortVal) {
            Some(text) => text.clone(),
            None => {
                return Err(ParamError::PortRequired);
            },
        };
        Ok(
            ProgParameters {
                target_host,
                target_port,
                interval_count,
                connection_timeout,
                wait_interval,
            },
        )
    }

    /// The text that explains the command line.
    pub fn get_usage() -> (text: &'static str)
        ensures
            text@ == USAGE@,
    {
        USAGE
    }

    /// Host and port in the form in which an address is looked up and a
    /// report names the target: the host, a colon, the port.
    pub fn endpoint(&self) -> (text: String)
        ensures
            text@ == self@.endpoint(),
    {
        let mut text = self.target_host.clone();
        text.append(":");
        text.append(self.target_port.as_str());
        text
    }
}

/// Chooses the address to probe from what the lookup of host and port
/// gave: `None` where the lookup failed, else the addresses found. The
/// first address found is the one.
pub fn select_address<A>(lookup: Option<Vec<A>>) -> (r: Result<A, ParamError>)
    ensures
        r == match lookup {
            None => Err::<A, ParamError>(ParamError::InvalidHostPort),
            Some(found) => if found@.len() == 0 {
                Err(ParamError::UnresolvableHostPort)
            } else {
                Ok(found@[0])
            },
        },
{
    match lookup {
        None => Err(ParamError::InvalidHostPort),
        Some(found) => {
            let mut found = found;
            if found.len() == 0 {
                Err(ParamError::UnresolvableHostPort)
            } else {
                Ok(found.remove(0))
            }
        },
    }
}

} // verus!
