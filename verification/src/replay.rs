//! The commands of the player and the log that a game is replayed from.
//!
//! A log is text. Its first line is the world seed, a decimal number; each
//! line after it is the name of one command. A log that does not read like
//! that is refused as a whole: a game never starts from half a log.

use vstd::prelude::*;
use vstd::string::StringExecFns;

verus! {

/// What the player can ask for: a step in one of eight directions, or the
/// use of something they carry.
#[derive(Clone, Copy, Debug, PartialEq, Eq, Structural)]
pub enum Command {
    N,
    E,
    S,
    W,
    NE,
    NW,
    SE,
    SW,
    UseFood,
    UseDose,
    UseStrongDose,
}

/// Why a log was refused.
#[derive(Clone, Copy, Debug, PartialEq, Eq, Structural)]
pub enum ReplayError {
    /// The log has no first line.
    Empty,
    /// The first line is not a decimal number that fits the seed.
    MalformedSeed,
    /// The line with this number, the seed line being line 0, names no
    /// command.
    UnknownCommand(usize),
}

/// A game to replay: the world seed and the commands in their order.
#[derive(Debug)]
pub struct Replay {
    pub seed: u32,
    pub commands: Vec<Command>,
}

/// The byte that ends a line.
pub const NEWLINE: u8 = 10;

/// The byte that may stand before the end of a line and is not part of it.
pub const CARRIAGE_RETURN: u8 = 13;

impl Command {
    /// The name of the command.
    pub open spec fn name(self) -> Seq<char> {
        match self {
            Command::N => "N"@,
            Command::E => "E"@,
            Command::S => "S"@,
            Command::W => "W"@,
            Command::NE => "NE"@,
            Command::NW => "NW"@,
            Command::SE => "SE"@,
            Command::SW => "SW"@,
            Command::UseFood => "UseFood"@,
            Command::UseDose => "UseDose"@,
            Command::UseStrongDose => "UseStrongDose"@,
        }
    }

    /// The name of the command as it stands in a log.
    pub open spec fn token(self) -> Seq<u8> {
        match self {
            Command::N => seq![78u8],
            Command::E => seq![69u8],
            Command::S => seq![83u8],
            Command::W => seq![87u8],
            Command::NE => seq![78u8, 69u8],
            Command::NW => seq![78u8, 87u8],
            Command::SE => seq![83u8, 69u8],
            Command::SW => seq![83u8, 87u8],
            Command::UseFood => seq![85u8, 115u8, 101u8, 70u8, 111u8, 111u8, 100u8],
            Command::UseDose => seq![85u8, 115u8, 101u8, 68u8, 111u8, 115u8, 101u8],
            Command::UseStrongDose => seq![
                85u8,
                115u8,
                101u8,
                83u8,
                116u8,
                114u8,
                111u8,
                110u8,
                103u8,
                68u8,
                111u8,
                115u8,
                101u8,
            ],
        }
    }

    pub fn to_str(&self) -> (name: &'static str)
        ensures
            name@ == self.name(),
    {
        match *self {
            Command::N => "N",
            Command::E => "E",
            Command::S => "S",
            Command::W => "W",
            Command::NE => "NE",
            Command::NW => "NW",
            Command::SE => "SE",
            Command::SW => "SW",
            Command::UseFood => "UseFood",
            Command::UseDose => "UseDose",
            Command::UseStrongDose => "UseStrongDose",
        }
    }

    /// The command of the given name, if there is one.
    pub fn from_str(name: &str) -> (command: Option<Command>)
        ensures
            command == command_named(name@),
    {
        let given = String::from_str(name);
        if given == String::from_str("N") {
            Some(Command::N)
        } else if given == String::from_str("E") {
            Some(Command::E)
        } else if given == String::from_str("S") {
            Some(Command::S)
        } else if given == String::from_str("W") {
            Some(Command::W)
        } else if given == String::from_str("NE") {
            Some(Command::NE)
        } else if given == String::from_str("NW") {
            Some(Command::NW)
        } else if given == String::from_str("SE") {
            Some(Command::SE)
        } else if given == String::from_str("SW") {
            Some(Command::SW)
        } else if given == String::from_str("UseFood") {
            Some(Command::UseFood)
        } else if given == String::from_str("UseDose") {
            Some(Command::UseDose)
        } else if given == String::from_str("UseStrongDose") {
            Some(Command::UseStrongDose)
        } else {
            None
        }
    }

    /// The name of the command as it stands in a log.
    pub fn to_bytes(&self) -> (token: Vec<u8>)
        ensures
            token@ == self.token(),
    {
        let token = match *self {
            Command::N => vec![78u8],
            Command::E => vec![69u8],
            Command::S => vec![83u8],
            Command::W => vec![87u8],
            Command::NE => vec![78u8, 69u8],
            Command::NW => vec![78u8, 87u8],
            Command::SE => vec![83u8, 69u8],
            Command::SW => vec![83u8, 87u8],
            Command::UseFood => vec![85u8, 115u8, 101u8, 70u8, 111u8, 111u8, 100u8],
            Command::UseDose => vec![85u8, 115u8, 101u8, 68u8, 111u8, 115u8, 101u8],
            Command::UseStrongDose => vec![
                85u8,
                115u8,
                101u8,
                83u8,
                116u8,
                114u8,
                111u8,
                110u8,
                103u8,
                68u8,
                111u8,
                115u8,
                101u8,
            ],
        };
        proof {
            assert(token@ =~= self.token());
        }
        token
    }

    /// The command whose name stands in `token`, if there is one.
    pub fn from_bytes(token: &Vec<u8>) -> (command: Option<Command>)
        ensures
            command == command_for_token(token@),
    {
        let all = all_commands();
        let mut i: usize = 0;
        while i < all.len()
            invariant
                all@ == all_commands_spec(),
                i <= all@.len(),
                forall|j: int| 0 <= j < i ==> (#[trigger] all@[j]).token() != token@,
            decreases all@.len() - i,
        {
            let candidate = all[i].to_bytes();
            if same_bytes(&candidate, token) {
                proof {
                    lemma_first_match(all@, token@, i as int);
                }
                return Some(all[i]);
            }
            i = i + 1;
        }
        proof {
            lemma_no_match(all@, token@);
        }
        None
    }
}

/// The commands, in the order in which a token is held against them.
pub open spec fn all_commands_spec() -> Seq<Command> {
    seq![
        Command::N,
        Command::E,
        Command::S,
        Command::W,
        Command::NE,
        Command::NW,
        Command::SE,
        Command::SW,
        Command::UseFood,
        Command::UseDose,
        Command::UseStrongDose,
    ]
}

fn all_commands() -> (all: Vec<Command>)
    ensures
        all@ == all_commands_spec(),
{
    let all = vec![
        Command::N,
        Command::E,
        Command::S,
        Command::W,
        Command::NE,
        Command::NW,
        Command::SE,
        Command::SW,
        Command::UseFood,
        Command::UseDose,
        Command::UseStrongDose,
    ];
    proof {
        assert(all@ =~= all_commands_spec());
    }
    all
}

/// The first of `commands` whose token is `token`.
pub open spec fn first_with_token(commands: Seq<Command>, token: Seq<u8>) -> Option<Command>
    decreases commands.len(),
{
    if commands.len() == 0 {
        None
    } else if commands[0].token() == token {
        Some(commands[0])
    } else {
        first_with_token(commands.drop_first(), token)
    }
}

/// The command whose name stands in `token`, if there is one.
pub open spec fn command_for_token(token: Seq<u8>) -> Option<Command> {
    first_with_token(all_commands_spec(), token)
}

proof fn lemma_first_match(commands: Seq<Command>, token: Seq<u8>, i: int)
    requires
        0 <= i < commands.len(),
        commands[i].token() == token,
        forall|j: int| 0 <= j < i ==> (#[trigger] commands[j]).token() != token,
    ensures
        first_with_token(commands, token) == Some(commands[i]),
    decreases i,
{
    if i > 0 {
        let rest = commands.drop_first();
        assert forall|j: int| 0 <= j < i - 1 implies (#[trigger] rest[j]).token() != token by {
            assert(commands[j + 1].token() != token);
        }
        lemma_first_match(rest, token, i - 1);
    }
}

proof fn lemma_no_match(commands: Seq<Command>, token: Seq<u8>)
    requires
        forall|j: int| 0 <= j < commands.len() ==> (#[trigger] commands[j]).token() != token,
    ensures
        first_with_token(commands, token) is None,
    decreases commands.len(),
{
    if commands.len() > 0 {
        let rest = commands.drop_first();
        assert forall|j: int| 0 <= j < rest.len() implies (#[trigger] rest[j]).token() != token by {
            assert(commands[j + 1].token() != token);
        }
        lemma_no_match(rest, token);
    }
}

/// Every command is found again by its token.
pub proof fn lemma_token_round_trip(command: Command)
    ensures
        command_for_token(command.token()) == Some(command),
        !command.token().contains(NEWLINE),
        command.token().len() > 0,
        command.token().last() != CARRIAGE_RETURN,
{
    let all = all_commands_spec();
    let i: int = match command {
        Command::N => 0,
        Command::E => 1,
        Command::S => 2,
        Command::W => 3,
        Command::NE => 4,
        Command::NW => 5,
        Command::SE => 6,
        Command::SW => 7,
        Command::UseFood => 8,
        Command::UseDose => 9,
        Command::UseStrongDose => 10,
    };
    assert(all[i] == command);
    assert forall|j: int| 0 <= j < i implies (#[trigger] all[j]).token() != command.token() by {
        let a = all[j].token();
        let b = command.token();
        if a.len() == b.len() {
            if a.len() == 1 {
                assert(a[0] != b[0]);
            } else if a.len() == 2 {
                assert(a[0] != b[0] || a[1] != b[1]);
            } else {
                assert(a[3] != b[3]);
            }
        }
    }
    lemma_first_match(all, command.token(), i);
    let t = command.token();
    assert forall|k: int| 0 <= k < t.len() implies t[k] != NEWLINE by {}
}

fn same_bytes(a: &Vec<u8>, b: &Vec<u8>) -> (same: bool)
    ensures
        same == (a@ == b@),
{
    if a.len() != b.len() {
        return false;
    }
    let mut i: usize = 0;
    while i < a.len()
        invariant
            a@.len() == b@.len(),
            i <= a@.len(),
            forall|j: int| 0 <= j < i ==> a@[j] == b@[j],
        decreases a@.len() - i,
    {
        if a[i] != b[i] {
            return false;
        }
        i = i + 1;
    }
    proof {
        assert(a@ =~= b@);
    }
    true
}

/// The command of the given name, if there is one.
pub open spec fn command_named(name: Seq<char>) -> Option<Command> {
    if name == "N"@ {
        Some(Command::N)
    } else if name == "E"@ {
        Some(Command::E)
    } else if name == "S"@ {
        Some(Command::S)
    } else if name == "W"@ {
        Some(Command::W)
    } else if name == "NE"@ {
        Some(Command::NE)
    } else if name == "NW"@ {
        Some(Command::NW)
    } else if name == "SE"@ {
        Some(Command::SE)
    } else if name == "SW"@ {
        Some(Command::SW)
    } else if name == "UseFood"@ {
        Some(Command::UseFood)
    } else if name == "UseDose"@ {
        Some(Command::UseDose)
    } else if name == "UseStrongDose"@ {
        Some(Command::UseStrongDose)
    } else {
        None
    }
}

/// Every command is found again by its name.
pub proof fn lemma_name_round_trip(command: Command)
    ensures
        command_named(command.name()) == Some(command),
{
    reveal_strlit("N");
    reveal_strlit("E");
    reveal_strlit("S");
    reveal_strlit("W");
    reveal_strlit("NE");
    reveal_strlit("NW");
    reveal_strlit("SE");
    reveal_strlit("SW");
    reveal_strlit("UseFood");
    reveal_strlit("UseDose");
    reveal_strlit("UseStrongDose");
    let n = command.name();
    match command {
        Command::N => {},
        Command::E => {
            assert("E"@[0] != "N"@[0]);
        },
        Command::S => {
            assert("S"@[0] != "N"@[0] && "S"@[0] != "E"@[0]);
        },
        Command::W => {
            assert("W"@[0] != "N"@[0] && "W"@[0] != "E"@[0] && "W"@[0] != "S"@[0]);
        },
        Command::NE => {
            assert("NE"@.len() == 2);
        },
        Command::NW => {
            assert("NW"@.len() == 2 && "NW"@[1] != "NE"@[1]);
        },
        Command::SE => {
            assert("SE"@.len() == 2 && "SE"@[0] != "NE"@[0] && "SE"@[0] != "NW"@[0]);
        },
        Command::SW => {
            assert("SW"@.len() == 2 && "SW"@[0] != "NE"@[0] && "SW"@[0] != "NW"@[0] && "SW"@[1]
                != "SE"@[1]);
        },
        Command::UseFood => {
            assert("UseFood"@.len() == 7);
        },
        Command::UseDose => {
            assert("UseDose"@.len() == 7 && "UseDose"@[3] != "UseFood"@[3]);
        },
        Command::UseStrongDose => {
            assert("UseStrongDose"@.len() == 13);
        },
    }
}

/// The command of the given name. The name must be that of a command.
pub fn command_from_str(name: &str) -> (command: Command)
    requires
        command_named(name@) is Some,
    ensures
        Some(command) == command_named(name@),
{
    match Command::from_str(name) {
        Some(command) => command,
        None => Command::N,
    }
}

/// The digits of `n`.
pub open spec fn decimal(n: nat) -> Seq<u8>
    decreases n,
{
    if n < 10 {
        seq![(48 + n) as u8]
    } else {
        decimal(n / 10).push((48 + n % 10) as u8)
    }
}

/// Whether `b` is one of the digits.
pub open spec fn is_digit(b: u8) -> bool {
    48 <= b <= 57
}

/// Whether `s` holds digits only.
pub open spec fn all_digits(s: Seq<u8>) -> bool {
    forall|i: int| 0 <= i < s.len() ==> is_digit(#[trigger] s[i])
}

/// The number that the digits `s` stand for.
pub open spec fn digits_value(s: Seq<u8>) -> nat
    decreases s.len(),
{
    if s.len() == 0 {
        0
    } else {
        (digits_value(s.drop_last()) * 10 + (s.last() - 48)) as nat
    }
}

/// The seed that the line `line` stands for: the line holds digits only, at
/// least one, and the number fits.
pub open spec fn seed_of_line(line: Seq<u8>) -> Option<u32> {
    if line.len() > 0 && all_digits(line) && digits_value(line) <= u32::MAX {
        Some(digits_value(line) as u32)
    } else {
        None
    }
}

/// The digits of a number stand for that number.
pub proof fn lemma_decimal_round_trip(n: nat)
    ensures
        decimal(n).len() > 0,
        all_digits(decimal(n)),
        digits_value(decimal(n)) == n,
        !decimal(n).contains(NEWLINE),
        decimal(n).last() != CARRIAGE_RETURN,
    decreases n,
{
    let d = decimal(n);
    if n < 10 {
        assert(d.drop_last() =~= Seq::<u8>::empty());
        assert(digits_value(d.drop_last()) == 0);
    } else {
        lemma_decimal_round_trip(n / 10);
        assert(d.drop_last() =~= decimal(n / 10));
        assert forall|i: int| 0 <= i < d.len() implies is_digit(#[trigger] d[i]) by {
            if i < d.len() - 1 {
                assert(d[i] == decimal(n / 10)[i]);
            }
        }
    }
    assert forall|i: int| 0 <= i < d.len() implies d[i] != NEWLINE by {
        assert(is_digit(d[i]));
    }
}

/// More digits stand for a number at least as large.
proof fn lemma_digits_grow(s: Seq<u8>, n: int)
    requires
        0 <= n <= s.len(),
        all_digits(s),
    ensures
        digits_value(s.take(n)) <= digits_value(s),
    decreases s.len() - n,
{
    if n < s.len() {
        let longer = s.take(n + 1);
        assert(longer.drop_last() =~= s.take(n));
        assert(is_digit(s[n]));
        assert(longer.last() == s[n]);
        lemma_digits_grow(s, n + 1);
    } else {
        assert(s.take(n) =~= s);
    }
}

/// Appends the seed and the end of its line to `writer`.
pub fn log_seed(writer: &mut Vec<u8>, seed: u32)
    ensures
        final(writer)@ == old(writer)@ + decimal(seed as nat) + seq![NEWLINE],
{
    let mut digits: Vec<u8> = Vec::new();
    let mut left = seed;
    proof {
        assert(decimal(left as nat) + digits@ =~= decimal(seed as nat));
    }
    while left >= 10
        invariant
            decimal(left as nat) + digits@ == decimal(seed as nat),
        decreases left,
    {
        let digit = (48 + left % 10) as u8;
        let ghost before = digits@;
        digits.insert(0, digit);
        proof {
            assert(digits@ =~= seq![digit] + before);
            assert(decimal(left as nat) == decimal((left / 10) as nat).push(digit));
            assert(decimal((left / 10) as nat) + digits@ =~= decimal(left as nat) + before);
        }
        left = left / 10;
    }
    digits.insert(0, (48 + left) as u8);
    proof {
        assert(digits@ =~= decimal(seed as nat));
    }
    let mut i: usize = 0;
    while i < digits.len()
        invariant
            i <= digits@.len(),
            writer@ == old(writer)@ + digits@.take(i as int),
        decreases digits@.len() - i,
    {
        writer.push(digits[i]);
        proof {
            assert(digits@.take(i + 1) =~= digits@.take(i as int).push(digits@[i as int]));
            assert(writer@ =~= old(writer)@ + digits@.take(i + 1));
        }
        i = i + 1;
    }
    writer.push(NEWLINE);
    proof {
        assert(digits@.take(i as int) =~= digits@);
        assert(writer@ =~= old(writer)@ + decimal(seed as nat) + seq![NEWLINE]);
    }
}

/// Appends the name of the command and the end of its line to `writer`.
pub fn log_command(writer: &mut Vec<u8>, command: Command)
    ensures
        final(writer)@ == old(writer)@ + command.token() + seq![NEWLINE],
{
    let token = command.to_bytes();
    let mut i: usize = 0;
    while i < token.len()
        invariant
            i <= token@.len(),
            writer@ == old(writer)@ + token@.take(i as int),
        decreases token@.len() - i,
    {
        writer.push(token[i]);
        proof {
            assert(token@.take(i + 1) =~= token@.take(i as int).push(token@[i as int]));
            assert(writer@ =~= old(writer)@ + token@.take(i + 1));
        }
        i = i + 1;
    }
    writer.push(NEWLINE);
    proof {
        assert(token@.take(i as int) =~= token@);
        assert(writer@ =~= old(writer)@ + command.token() + seq![NEWLINE]);
    }
}

/// The seed that the digits in `line` stand for, if `line` is a seed line.
pub fn parse_seed(line: &Vec<u8>) -> (seed: Option<u32>)
    ensures
        seed == seed_of_line(line@),
{
    if line.len() == 0 {
        return None;
    }
    let mut value: u64 = 0;
    let mut i: usize = 0;
    while i < line.len()
        invariant
            i <= line@.len(),
            all_digits(line@.take(i as int)),
            value == digits_value(line@.take(i as int)),
            value <= u32::MAX,
        decreases line@.len() - i,
    {
        let b = line[i];
        let ghost prefix = line@.take(i as int);
        let ghost longer = line@.take(i + 1);
        proof {
            assert(longer.drop_last() =~= prefix);
            assert(longer.last() == b);
        }
        if b < 48 || b > 57 {
            proof {
                assert(!is_digit(line@[i as int]));
            }
            return None;
        }
        value = value * 10 + (b - 48) as u64;
        proof {
            assert forall|j: int| 0 <= j < longer.len() implies is_digit(#[trigger] longer[j]) by {
                if j < i {
                    assert(prefix[j] == longer[j]);
                    assert(is_digit(prefix[j]));
                }
            }
        }
        if value > u32::MAX as u64 {
            proof {
                if all_digits(line@) {
                    lemma_digits_grow(line@, i + 1);
                }
            }
            return None;
        }
        i = i + 1;
    }
    proof {
        assert(line@.take(i as int) =~= line@);
    }
    Some(value as u32)
}

/// Where the first end of a line stands in `text`; the length of `text`
/// where there is none.
pub open spec fn first_newline(text: Seq<u8>) -> nat
    decreases text.len(),
{
    if text.len() == 0 {
        0
    } else if text[0] == NEWLINE {
        0
    } else {
        1 + first_newline(text.drop_first())
    }
}

/// What [`first_newline`] finds is the first end of a line.
pub proof fn lemma_first_newline(text: Seq<u8>)
    ensures
        first_newline(text) <= text.len(),
        forall|j: int| 0 <= j < first_newline(text) ==> text[j] != NEWLINE,
        first_newline(text) < text.len() ==> text[first_newline(text) as int] == NEWLINE,
    decreases text.len(),
{
    if text.len() > 0 && text[0] != NEWLINE {
        let rest = text.drop_first();
        lemma_first_newline(rest);
        assert forall|j: int| 0 <= j < first_newline(text) implies text[j] != NEWLINE by {
            if j > 0 {
                assert(rest[j - 1] == text[j]);
            }
        }
    }
}

/// The first end of a line stands where an end of a line stands and none
/// stands before.
pub proof fn lemma_first_newline_at(text: Seq<u8>, at: int)
    requires
        0 <= at <= text.len(),
        forall|j: int| 0 <= j < at ==> text[j] != NEWLINE,
        at < text.len() ==> text[at] == NEWLINE,
    ensures
        first_newline(text) == at,
{
    lemma_first_newline(text);
    let found = first_newline(text) as int;
    if found < at {
        assert(text[found] != NEWLINE);
    }
}

/// The lines of `text`: what stands between the ends of lines. What
/// follows the last end of a line is a line if it is not empty.
pub open spec fn lines_of(text: Seq<u8>) -> Seq<Seq<u8>>
    decreases text.len(),
{
    if text.len() == 0 {
        Seq::empty()
    } else {
        let at = first_newline(text) as int;
        if at < text.len() {
            seq![text.take(at)] + lines_of(text.skip(at + 1))
        } else {
            seq![text]
        }
    }
}

/// The line without the carriage return that may end it.
pub open spec fn trimmed(line: Seq<u8>) -> Seq<u8> {
    if line.len() > 0 && line.last() == CARRIAGE_RETURN {
        line.drop_last()
    } else {
        line
    }
}

/// The commands that the lines `lines` name, or the number of the first
/// line that names none, where `first` is the number of the first of them.
pub open spec fn commands_of(lines: Seq<Seq<u8>>, first: nat) -> Result<Seq<Command>, ReplayError>
    decreases lines.len(),
{
    if lines.len() == 0 {
        Ok(Seq::empty())
    } else {
        match command_for_token(trimmed(lines[0])) {
            None => Err(ReplayError::UnknownCommand(first as usize)),
            Some(command) => match commands_of(lines.drop_first(), first + 1) {
                Ok(rest) => Ok(seq![command] + rest),
                Err(e) => Err(e),
            },
        }
    }
}

/// What a log reads as: the seed of its first line and the commands of the
/// lines after it, or why it is refused.
pub open spec fn replay_of(text: Seq<u8>) -> Result<(u32, Seq<Command>), ReplayError> {
    let lines = lines_of(text);
    if lines.len() == 0 {
        Err(ReplayError::Empty)
    } else {
        match seed_of_line(trimmed(lines[0])) {
            None => Err(ReplayError::MalformedSeed),
            Some(seed) => match commands_of(lines.drop_first(), 1) {
                Ok(commands) => Ok((seed, commands)),
                Err(e) => Err(e),
            },
        }
    }
}

/// The text that [`log_command`] writes for `commands`.
pub open spec fn commands_text(commands: Seq<Command>) -> Seq<u8>
    decreases commands.len(),
{
    if commands.len() == 0 {
        Seq::empty()
    } else {
        commands[0].token() + seq![NEWLINE] + commands_text(commands.drop_first())
    }
}

/// The log of a game: what [`log_seed`] writes for the seed and
/// [`log_command`] for each command.
pub open spec fn log_text(seed: u32, commands: Seq<Command>) -> Seq<u8> {
    decimal(seed as nat) + seq![NEWLINE] + commands_text(commands)
}

/// The lines of a text are split off one at a time.
fn split_lines(text: &Vec<u8>) -> (lines: Vec<Vec<u8>>)
    ensures
        lines@.len() == lines_of(text@).len(),
        forall|i: int| 0 <= i < lines@.len() ==> (#[trigger] lines@[i])@ == lines_of(text@)[i],
{
    let mut lines: Vec<Vec<u8>> = Vec::new();
    let mut line: Vec<u8> = Vec::new();
    let mut start: usize = 0;
    let mut i: usize = 0;
    let ghost mut done: Seq<Seq<u8>> = Seq::empty();
    proof {
        assert(text@.skip(0) =~= text@);
    }
    while i < text.len()
        invariant
            start <= i <= text@.len(),
            line@ == text@.subrange(start as int, i as int),
            !line@.contains(NEWLINE),
            lines@.len() == done.len(),
            forall|k: int| 0 <= k < lines@.len() ==> (#[trigger] lines@[k])@ == done[k],
            done + lines_of(text@.skip(start as int)) == lines_of(text@),
        decreases text@.len() - i,
    {
        let b = text[i];
        if b == NEWLINE {
            let ghost rest = text@.skip(start as int);
            proof {
                let at = i - start;
                assert(rest[at] == NEWLINE);
                assert forall|j: int| 0 <= j < at implies rest[j] != NEWLINE by {
                    assert(line@[j] == rest[j]);
                    if line@[j] == NEWLINE {
                        assert(line@.contains(NEWLINE));
                    }
                }
                lemma_first_newline_at(rest, at);
                assert(rest.take(at) =~= line@);
                assert(rest.skip(at + 1) =~= text@.skip(i + 1));
                assert(done.push(line@) + lines_of(text@.skip(i + 1)) =~= done + (seq![line@]
                    + lines_of(rest.skip(at + 1))));
                done = done.push(line@);
            }
            lines.push(line);
            line = Vec::new();
            start = i + 1;
            proof {
                assert(line@ =~= text@.subrange(start as int, i + 1));
            }
        } else {
            let ghost before = line@;
            line.push(b);
            proof {
                assert(line@ =~= text@.subrange(start as int, i + 1));
                assert forall|k: int| 0 <= k < line@.len() implies line@[k] != NEWLINE by {
                    if k < before.len() {
                        assert(before[k] == line@[k]);
                        if before[k] == NEWLINE {
                            assert(before.contains(NEWLINE));
                        }
                    }
                }
            }
        }
        i = i + 1;
    }
    let ghost rest = text@.skip(start as int);
    proof {
        assert(rest =~= line@);
    }
    if line.len() > 0 {
        proof {
            assert forall|j: int| 0 <= j < rest.len() implies rest[j] != NEWLINE by {
                if rest[j] == NEWLINE {
                    assert(line@.contains(NEWLINE));
                }
            }
            lemma_first_newline_at(rest, rest.len() as int);
            assert(lines_of(rest) =~= seq![rest]);
            assert(done.push(line@) =~= done + seq![rest]);
            done = done.push(line@);
        }
        lines.push(line);
    } else {
        proof {
            assert(lines_of(rest) =~= Seq::<Seq<u8>>::empty());
            assert(done + Seq::<Seq<u8>>::empty() =~= done);
        }
    }
    lines
}

fn trim(line: &Vec<u8>) -> (out: Vec<u8>)
    ensures
        out@ == trimmed(line@),
{
    let mut n = line.len();
    if n > 0 && line[n - 1] == CARRIAGE_RETURN {
        n = n - 1;
    }
    let mut out: Vec<u8> = Vec::new();
    let mut i: usize = 0;
    while i < n
        invariant
            i <= n <= line@.len(),
            out@ == line@.take(i as int),
        decreases n - i,
    {
        out.push(line[i]);
        proof {
            assert(line@.take(i + 1) =~= line@.take(i as int).push(line@[i as int]));
        }
        i = i + 1;
    }
    proof {
        if n == line@.len() {
            assert(line@.take(n as int) =~= line@);
        } else {
            assert(line@.take(n as int) =~= line@.drop_last());
        }
    }
    out
}

/// Reads a log. The log is taken as a whole or not at all.
pub fn parse_replay(text: &Vec<u8>) -> (replay: Result<Replay, ReplayError>)
    ensures
        match replay {
            Ok(r) => replay_of(text@) == Ok::<(u32, Seq<Command>), ReplayError>(
                (r.seed, r.commands@),
            ),
            Err(e) => replay_of(text@) == Err::<(u32, Seq<Command>), ReplayError>(e),
        },
{
    let lines = split_lines(text);
    if lines.len() == 0 {
        return Err(ReplayError::Empty);
    }
    let ghost all = lines_of(text@);
    let seed = match parse_seed(&trim(&lines[0])) {
        Some(seed) => seed,
        None => {
            return Err(ReplayError::MalformedSeed);
        },
    };
    let mut commands: Vec<Command> = Vec::new();
    let mut i: usize = 1;
    proof {
        assert(all.skip(1) =~= all.drop_first());
    }
    while i < lines.len()
        invariant
            1 <= i <= lines@.len(),
            all == lines_of(text@),
            seed_of_line(trimmed(all[0])) == Some(seed),
            lines@.len() == all.len(),
            forall|k: int| 0 <= k < lines@.len() ==> (#[trigger] lines@[k])@ == all[k],
            commands_of(all.drop_first(), 1) == match commands_of(all.skip(i as int), i as nat) {
                Ok(rest) => Ok::<Seq<Command>, ReplayError>(commands@ + rest),
                Err(e) => Err(e),
            },
        decreases lines@.len() - i,
    {
        let ghost left = all.skip(i as int);
        proof {
            assert(left[0] == all[i as int]);
            assert(left.drop_first() =~= all.skip(i + 1));
        }
        match Command::from_bytes(&trim(&lines[i])) {
            Some(command) => {
                proof {
                    match commands_of(all.skip(i + 1), (i + 1) as nat) {
                        Ok(rest) => {
                            assert(commands@.push(command) + rest =~= commands@ + (seq![command]
                                + rest));
                        },
                        Err(e) => {},
                    }
                }
                commands.push(command);
            },
            None => {
                proof {
                    assert(commands_of(left, i as nat) == Err::<Seq<Command>, ReplayError>(
                        ReplayError::UnknownCommand(i),
                    ));
                }
                return Err(ReplayError::UnknownCommand(i));
            },
        }
        i = i + 1;
    }
    proof {
        assert(all.skip(i as int) =~= Seq::<Seq<u8>>::empty());
        assert(commands@ + Seq::<Command>::empty() =~= commands@);
    }
    Ok(Replay { seed, commands })
}

/// The lines of what [`log_command`] writes are the tokens of the
/// commands.
proof fn lemma_commands_text_lines(commands: Seq<Command>, first: nat)
    ensures
        commands_of(lines_of(commands_text(commands)), first) == Ok::<Seq<Command>, ReplayError>(
            commands,
        ),
    decreases commands.len(),
{
    if commands.len() == 0 {
        assert(commands =~= Seq::<Command>::empty());
        assert(lines_of(commands_text(commands)) =~= Seq::<Seq<u8>>::empty());
    } else {
        let token = commands[0].token();
        let rest = commands_text(commands.drop_first());
        let text = commands_text(commands);
        lemma_token_round_trip(commands[0]);
        lemma_first_line(token, rest);
        lemma_commands_text_lines(commands.drop_first(), first + 1);
        let lines = lines_of(text);
        assert(lines == seq![token] + lines_of(rest));
        assert(lines[0] == token);
        assert(lines.drop_first() =~= lines_of(rest));
        assert(trimmed(token) == token);
        assert(seq![commands[0]] + commands.drop_first() =~= commands);
        assert(text == token + seq![NEWLINE] + rest);
        assert(command_for_token(trimmed(lines[0])) == Some(commands[0]));
        assert(commands_of(lines.drop_first(), first + 1) == Ok::<Seq<Command>, ReplayError>(
            commands.drop_first(),
        ));
    }
}

/// A text that starts with a line without an end of line in it, then the
/// end of the line, has that line as its first.
proof fn lemma_first_line(line: Seq<u8>, rest: Seq<u8>)
    requires
        !line.contains(NEWLINE),
    ensures
        lines_of(line + seq![NEWLINE] + rest) == seq![line] + lines_of(rest),
{
    let text = line + seq![NEWLINE] + rest;
    let at = line.len() as int;
    assert(text[at] == NEWLINE);
    assert forall|j: int| 0 <= j < at implies text[j] != NEWLINE by {
        assert(text[j] == line[j]);
        if line[j] == NEWLINE {
            assert(line.contains(NEWLINE));
        }
    }
    lemma_first_newline_at(text, at);
    assert(text.take(at) =~= line);
    assert(text.skip(at + 1) =~= rest);
}

/// Reading the log of a game gives back its seed and its commands.
pub proof fn lemma_replay_round_trip(seed: u32, commands: Seq<Command>)
    ensures
        replay_of(log_text(seed, commands)) == Ok::<(u32, Seq<Command>), ReplayError>(
            (seed, commands),
        ),
{
    let digits = decimal(seed as nat);
    let rest = commands_text(commands);
    lemma_decimal_round_trip(seed as nat);
    lemma_first_line(digits, rest);
    lemma_commands_text_lines(commands, 1);
    let lines = lines_of(log_text(seed, commands));
    assert(lines == seq![digits] + lines_of(rest));
    assert(lines[0] == digits);
    assert(lines.drop_first() =~= lines_of(rest));
    assert(trimmed(digits) == digits);
}

} // verus!
