//! The command model: the kinds of command, the rules each kind sets on
//! flags and argument counts, and the parser that turns an input line into a
//! validated command or a precise error.

pub mod input_utils;

use crate::text::{decimal, join, join_strings, push_decimal};
use input_utils::{split_input_outside_quotes_on_whitespace, split_outside_quotes};
use vstd::prelude::*;

verus! {

/// A constraint on how many positional arguments a command accepts.
#[derive(Debug, Clone, Copy, PartialEq, Eq, Structural)]
pub enum ArgumentCount {
    /// Exactly this many.
    Exact(usize),
    /// This many or more.
    AtLeast(usize),
    /// This many or fewer.
    AtMost(usize),
    /// Between the two bounds, both included.
    Range(usize, usize),
}

impl ArgumentCount {
    /// Whether `count` arguments satisfy the constraint.
    pub open spec fn accepts(self, count: nat) -> bool {
        match self {
            ArgumentCount::Exact(expected) => count == expected,
            ArgumentCount::AtLeast(min) => count >= min,
            ArgumentCount::AtMost(max) => count <= max,
            ArgumentCount::Range(min, max) => min <= count <= max,
        }
    }

    /// How the constraint reads in a message.
    pub open spec fn rendering(self) -> Seq<char> {
        match self {
            ArgumentCount::Exact(expected) => "exactly "@ + decimal(expected as nat),
            ArgumentCount::AtLeast(min) => "at least "@ + decimal(min as nat),
            ArgumentCount::AtMost(max) => "up to "@ + decimal(max as nat),
            ArgumentCount::Range(min, max) => decimal(min as nat) + "-"@ + decimal(max as nat),
        }
    }

    /// Tests an observed argument count against the constraint.
    pub fn is_valid(&self, count: usize) -> (valid: bool)
        ensures
            valid == self.accepts(count as nat),
    {
        match self {
            ArgumentCount::Exact(expected) => count == *expected,
            ArgumentCount::AtLeast(min) => count >= *min,
            ArgumentCount::AtMost(max) => count <= *max,
            ArgumentCount::Range(min, max) => count >= *min && count <= *max,
        }
    }

    /// Renders the constraint for a message, such as `at least 1`.
    pub fn to_string(&self) -> (text: String)
        ensures
            text@ == self.rendering(),
    {
        match self {
            ArgumentCount::Exact(expected) => {
                let mut text = "exactly ".to_owned();
                push_decimal(&mut text, *expected);
                text
            },
            ArgumentCount::AtLeast(min) => {
                let mut text = "at least ".to_owned();
                push_decimal(&mut text, *min);
                text
            },
            ArgumentCount::AtMost(max) => {
                let mut text = "up to ".to_owned();
                push_decimal(&mut text, *max);
                text
            },
            ArgumentCount::Range(min, max) => {
                let mut text = String::new();
                push_decimal(&mut text, *min);
                text.append("-");
                push_decimal(&mut text, *max);
                text
            },
        }
    }
}

/// The commands that the shell understands.
#[derive(Debug, Clone, Copy, PartialEq, Eq, Structural)]
pub enum CommandType {
    /// Print the arguments.
    Echo,
    /// Leave the shell.
    Exit,
    /// Show the help text.
    Help,
    /// List the contents of directories.
    Ls,
}

impl CommandType {
    /// The kind that `name` stands for, if any. The match is exact and
    /// case-sensitive.
    pub open spec fn from_name(name: Seq<char>) -> Option<CommandType> {
        if name == "echo"@ {
            Some(CommandType::Echo)
        } else if name == "exit"@ {
            Some(CommandType::Exit)
        } else if name == "help"@ {
            Some(CommandType::Help)
        } else if name == "ls"@ {
            Some(CommandType::Ls)
        } else {
            None
        }
    }

    /// The flags that the kind accepts. No kind accepts any flag yet.
    pub open spec fn supported_flags(self) -> Seq<Seq<char>> {
        match self {
            CommandType::Echo => Seq::empty(),
            CommandType::Exit => Seq::empty(),
            CommandType::Help => Seq::empty(),
            CommandType::Ls => Seq::empty(),
        }
    }

    /// Whether the kind accepts `flag`.
    pub open spec fn supports_flag(self, flag: Seq<char>) -> bool {
        self.supported_flags().contains(flag)
    }

    /// The kind's constraint on the number of arguments; `None` where any
    /// number is accepted.
    pub open spec fn expected_argument_count(self) -> Option<ArgumentCount> {
        match self {
            CommandType::Echo => Some(ArgumentCount::AtLeast(1)),
            CommandType::Exit => Some(ArgumentCount::Exact(0)),
            CommandType::Help => Some(ArgumentCount::Exact(0)),
            CommandType::Ls => None,
        }
    }

    /// Lists the flags that the kind accepts.
    pub fn get_supported_flags(&self) -> (flags: Vec<&'static str>)
        ensures
            flags.deep_view() == self.supported_flags(),
    {
        let flags: Vec<&'static str> = match self {
            CommandType::Echo => Vec::new(),
            CommandType::Exit => Vec::new(),
            CommandType::Help => Vec::new(),
            CommandType::Ls => Vec::new(),
        };
        assert(flags.deep_view() == Seq::<Seq<char>>::empty());
        flags
    }

    /// Tests whether the kind accepts `flag`.
    pub fn is_supported_flag(&self, flag: &str) -> (supported: bool)
        ensures
            supported == self.supports_flag(flag@),
    {
        let flags = self.get_supported_flags();
        let mut i: usize = 0;
        while i < flags.len()
            invariant
                i <= flags.len(),
                flags.deep_view() == self.supported_flags(),
                forall|j: int| 0 <= j < i ==> self.supported_flags()[j] != flag@,
            decreases flags.len() - i,
        {
            assert(flags.deep_view()[i as int] == flags[i as int]@);
            if *flags[i] == *flag {
                return true;
            }
            i += 1;
        }
        false
    }

    /// Gives the kind's constraint on the number of arguments, if it has one.
    pub fn get_expected_argument_count(&self) -> (expected: Option<ArgumentCount>)
        ensures
            expected == self.expected_argument_count(),
    {
        match self {
            CommandType::Echo => Some(ArgumentCount::AtLeast(1)),
            CommandType::Exit => Some(ArgumentCount::Exact(0)),
            CommandType::Help => Some(ArgumentCount::Exact(0)),
            CommandType::Ls => None,
        }
    }
}

/// Why an input line is not a command.
#[derive(Debug, PartialEq, Eq)]
pub enum CommandError {
    /// The first token names no command; it is carried here.
    UnknownCommand(String),
    /// The command does not accept this flag.
    UnsupportedFlag(String),
    /// The number of arguments breaks the command's constraint.
    WrongArgumentsCount {
        /// The constraint that was broken.
        expected: ArgumentCount,
        /// The number of arguments that were given.
        actual: usize,
    },
}

/// A `CommandError` with its strings as sequences of characters.
pub enum CommandErrorView {
    /// The first token names no command.
    UnknownCommand(Seq<char>),
    /// The command does not accept this flag.
    UnsupportedFlag(Seq<char>),
    /// The number of arguments breaks the command's constraint.
    WrongArgumentsCount {
        /// The constraint that was broken.
        expected: ArgumentCount,
        /// The number of arguments that were given.
        actual: nat,
    },
}

impl CommandErrorView {
    /// The message shown to the user.
    pub open spec fn message(self) -> Seq<char> {
        match self {
            CommandErrorView::UnknownCommand(name) => "Unknown command: "@ + name,
            CommandErrorView::UnsupportedFlag(flag) => "Unsupported flag: "@ + flag,
            CommandErrorView::WrongArgumentsCount { expected, actual } => {
                "Wrong number of arguments: expected "@ + expected.rendering() + ", got "@
                    + decimal(actual)
            },
        }
    }
}

impl View for CommandError {
    type V = CommandErrorView;

    open spec fn view(&self) -> CommandErrorView {
        match self {
            CommandError::UnknownCommand(name) => CommandErrorView::UnknownCommand(name@),
            CommandError::UnsupportedFlag(flag) => CommandErrorView::UnsupportedFlag(flag@),
            CommandError::WrongArgumentsCount { expected, actual } => {
                CommandErrorView::WrongArgumentsCount { expected: *expected, actual: *actual as nat }
            },
        }
    }
}

impl CommandError {
    /// Renders the message shown to the user.
    pub fn to_string(&self) -> (text: String)
        ensures
            text@ == self@.message(),
    {
        match self {
            CommandError::UnknownCommand(name) => {
                let mut text = "Unknown command: ".to_owned();
                text.append(name.as_str());
                text
            },
            CommandError::UnsupportedFlag(flag) => {
                let mut text = "Unsupported flag: ".to_owned();
                text.append(flag.as_str());
                text
            },
            CommandError::WrongArgumentsCount { expected, actual } => {
                let mut text = "Wrong number of arguments: expected ".to_owned();
                let rendered = expected.to_string();
                text.append(rendered.as_str());
                text.append(", got ");
                push_decimal(&mut text, *actual);
                text
            },
        }
    }
}

/// A `Command` with its strings as sequences of characters.
pub struct CommandView {
    /// The kind of command.
    pub command_type: CommandType,
    /// The positional arguments, in input order.
    pub arguments: Seq<Seq<char>>,
    /// The flags, in input order.
    pub flags: Seq<Seq<char>>,
}

impl CommandView {
    /// The rules that every command obeys: its kind accepts each of its
    /// flags, and the number of its arguments meets the kind's constraint.
    pub open spec fn well_formed(self) -> bool {
        &&& forall|i: int|
            0 <= i < self.flags.len() ==> self.command_type.supports_flag(#[trigger] self.flags[i])
        &&& match self.command_type.expected_argument_count() {
            Some(rule) => rule.accepts(self.arguments.len()),
            None => true,
        }
    }
}

/// Whether `flags[i]` is the first flag that `kind` does not accept.
pub open spec fn is_first_unsupported(kind: CommandType, flags: Seq<Seq<char>>, i: int) -> bool {
    &&& 0 <= i < flags.len()
    &&& !kind.supports_flag(flags[i])
    &&& forall|j: int| 0 <= j < i ==> kind.supports_flag(#[trigger] flags[j])
}

/// The command made of the three parts, or the first rule that they break:
/// flags are checked before the argument count, and the first flag that is
/// not accepted is the one reported.
pub open spec fn checked(
    kind: CommandType,
    arguments: Seq<Seq<char>>,
    flags: Seq<Seq<char>>,
) -> Result<CommandView, CommandErrorView> {
    if exists|i: int| is_first_unsupported(kind, flags, i) {
        Err(
            CommandErrorView::UnsupportedFlag(
                flags[choose|i: int| is_first_unsupported(kind, flags, i)],
            ),
        )
    } else {
        match kind.expected_argument_count() {
            Some(rule) if !rule.accepts(arguments.len()) => Err(
                CommandErrorView::WrongArgumentsCount { expected: rule, actual: arguments.len() },
            ),
            _ => Ok(CommandView { command_type: kind, arguments, flags }),
        }
    }
}

/// Of the flags at most one is the first that the kind does not accept.
pub proof fn lemma_first_unsupported_is_unique(
    kind: CommandType,
    flags: Seq<Seq<char>>,
    i: int,
    j: int,
)
    requires
        is_first_unsupported(kind, flags, i),
        is_first_unsupported(kind, flags, j),
    ensures
        i == j,
{
    if i < j {
        assert(kind.supports_flag(flags[i]));
    } else if j < i {
        assert(kind.supports_flag(flags[j]));
    }
}

/// Where the kind does not accept some flag, one of the flags is the first
/// that it does not accept.
pub proof fn lemma_some_unsupported_has_first(kind: CommandType, flags: Seq<Seq<char>>, k: int)
    requires
        0 <= k < flags.len(),
        !kind.supports_flag(flags[k]),
    ensures
        exists|i: int| is_first_unsupported(kind, flags, i),
    decreases k,
{
    if forall|j: int| 0 <= j < k ==> kind.supports_flag(#[trigger] flags[j]) {
        assert(is_first_unsupported(kind, flags, k));
    } else {
        let j = choose|j: int| 0 <= j < k && !kind.supports_flag(#[trigger] flags[j]);
        lemma_some_unsupported_has_first(kind, flags, j);
    }
}

/// Validation fails fast: the first flag that the kind does not accept is
/// the error, whatever the arguments and the flags after it.
pub proof fn lemma_first_unsupported_flag_is_reported(
    kind: CommandType,
    arguments: Seq<Seq<char>>,
    flags: Seq<Seq<char>>,
    i: int,
)
    requires
        is_first_unsupported(kind, flags, i),
    ensures
        checked(kind, arguments, flags) == Err::<CommandView, CommandErrorView>(
            CommandErrorView::UnsupportedFlag(flags[i]),
        ),
{
    let reported = choose|j: int| is_first_unsupported(kind, flags, j);
    lemma_first_unsupported_is_unique(kind, flags, i, reported);
}

/// Where the kind accepts every flag, an argument count that breaks the
/// kind's constraint is the error, with the constraint and the count.
pub proof fn lemma_wrong_count_is_reported(
    kind: CommandType,
    arguments: Seq<Seq<char>>,
    flags: Seq<Seq<char>>,
    rule: ArgumentCount,
)
    requires
        forall|i: int| 0 <= i < flags.len() ==> kind.supports_flag(#[trigger] flags[i]),
        kind.expected_argument_count() == Some(rule),
        !rule.accepts(arguments.len()),
    ensures
        checked(kind, arguments, flags) == Err::<CommandView, CommandErrorView>(
            CommandErrorView::WrongArgumentsCount { expected: rule, actual: arguments.len() },
        ),
{
}

/// The parts make a command exactly when they obey the kind's rules, and
/// the command is then made of these very parts.
pub proof fn lemma_checked_ok_iff_well_formed(
    kind: CommandType,
    arguments: Seq<Seq<char>>,
    flags: Seq<Seq<char>>,
)
    ensures
        checked(kind, arguments, flags) is Ok <==> (CommandView {
            command_type: kind,
            arguments,
            flags,
        }).well_formed(),
        checked(kind, arguments, flags) is Ok ==> checked(kind, arguments, flags) == Ok::<
            CommandView,
            CommandErrorView,
        >(CommandView { command_type: kind, arguments, flags }),
{
    let parts = CommandView { command_type: kind, arguments, flags };
    if exists|i: int| is_first_unsupported(kind, flags, i) {
        let i = choose|i: int| is_first_unsupported(kind, flags, i);
        assert(!kind.supports_flag(parts.flags[i]));
    } else {
        assert forall|k: int| 0 <= k < parts.flags.len() implies kind.supports_flag(
            #[trigger] parts.flags[k],
        ) by {
            if !kind.supports_flag(flags[k]) {
                lemma_some_unsupported_has_first(kind, flags, k);
            }
        }
    }
}

/// No kind accepts any flag.
pub proof fn lemma_no_flag_is_supported(kind: CommandType, flag: Seq<char>)
    ensures
        !kind.supports_flag(flag),
{
}

/// A kind without a constraint takes any number of arguments: without
/// flags, `ls` is a command whatever its arguments.
pub proof fn lemma_ls_takes_any_arguments(arguments: Seq<Seq<char>>)
    ensures
        checked(CommandType::Ls, arguments, Seq::empty()) == Ok::<CommandView, CommandErrorView>(
            CommandView { command_type: CommandType::Ls, arguments, flags: Seq::empty() },
        ),
{
}

/// Whether a token is a flag: its first character is `-`.
pub open spec fn is_flag(token: Seq<char>) -> bool {
    token.len() > 0 && token[0] == '-'
}

/// The flags among the tokens, in their order.
pub open spec fn flags_among(tokens: Seq<Seq<char>>) -> Seq<Seq<char>> {
    tokens.filter(|token: Seq<char>| is_flag(token))
}

/// The positional arguments among the tokens, in their order.
pub open spec fn arguments_among(tokens: Seq<Seq<char>>) -> Seq<Seq<char>> {
    tokens.filter(|token: Seq<char>| !is_flag(token))
}

/// One more token goes to the flags or to the arguments, and leaves the
/// other sequence as it was.
pub proof fn lemma_partition_push(tokens: Seq<Seq<char>>, token: Seq<char>)
    ensures
        flags_among(tokens.push(token)) == if is_flag(token) {
            flags_among(tokens).push(token)
        } else {
            flags_among(tokens)
        },
        arguments_among(tokens.push(token)) == if is_flag(token) {
            arguments_among(tokens)
        } else {
            arguments_among(tokens).push(token)
        },
{
    reveal(Seq::filter);
    assert(tokens.push(token).drop_last() == tokens);
}

/// Every token is a flag or an argument and never both: the flags all
/// begin with `-`, the arguments do not, and together they are as many as
/// the tokens.
pub proof fn lemma_partition(tokens: Seq<Seq<char>>)
    ensures
        flags_among(tokens).len() + arguments_among(tokens).len() == tokens.len(),
        forall|i: int| 0 <= i < flags_among(tokens).len() ==> is_flag(#[trigger] flags_among(tokens)[i]),
        forall|i: int|
            0 <= i < arguments_among(tokens).len() ==> !is_flag(
                #[trigger] arguments_among(tokens)[i],
            ),
    decreases tokens.len(),
{
    if tokens.len() == 0 {
        reveal(Seq::filter);
    } else {
        lemma_partition(tokens.drop_last());
        lemma_partition_push(tokens.drop_last(), tokens.last());
        assert(tokens.drop_last().push(tokens.last()) == tokens);
    }
}

/// What an input line parses to. The first token names the command; of the
/// others, those that begin with `-` are its flags and the rest its
/// arguments.
pub open spec fn parse(input: Seq<char>) -> Result<CommandView, CommandErrorView> {
    let tokens = split_outside_quotes(input, ' ');
    match CommandType::from_name(tokens.first()) {
        None => Err(CommandErrorView::UnknownCommand(tokens.first())),
        Some(kind) => checked(
            kind,
            arguments_among(tokens.drop_first()),
            flags_among(tokens.drop_first()),
        ),
    }
}

/// What running a command asks of the caller, with its strings as sequences
/// of characters.
pub enum ActionView {
    /// Write this text to standard output, and a line break after it.
    Print(Seq<char>),
    /// End the shell, with success as its status.
    Exit,
    /// List these directories, one after another.
    List(Seq<Seq<char>>),
}

impl CommandView {
    /// What running the command asks of the caller. `echo` prints its
    /// arguments, one to a line; `help` prints a fixed text; `ls` lists its
    /// arguments, or the current directory where it has none.
    pub open spec fn action(self) -> ActionView {
        match self.command_type {
            CommandType::Echo => ActionView::Print(join(self.arguments, "\n"@)),
            CommandType::Exit => ActionView::Exit,
            CommandType::Help => ActionView::Print("Help is not implemented yet"@),
            CommandType::Ls => ActionView::List(
                if self.arguments.len() == 0 {
                    seq!["."@]
                } else {
                    self.arguments
                },
            ),
        }
    }
}

/// What running a command asks of the caller, who alone writes output,
/// reads directories and ends the process.
#[derive(Debug, PartialEq, Eq)]
pub enum Action {
    /// Write this text to standard output, and a line break after it.
    Print(String),
    /// End the shell, with success as its status.
    Exit,
    /// List these directories, one after another.
    List(Vec<String>),
}

impl View for Action {
    type V = ActionView;

    open spec fn view(&self) -> ActionView {
        match self {
            Action::Print(text) => ActionView::Print(text@),
            Action::Exit => ActionView::Exit,
            Action::List(directories) => ActionView::List(directories.deep_view()),
        }
    }
}

/// Every line that parses gives a command that obeys its kind's rules.
pub proof fn lemma_parsed_command_is_well_formed(input: Seq<char>)
    ensures
        parse(input) matches Ok(command) ==> command.well_formed(),
{
    let tokens = split_outside_quotes(input, ' ');
    if let Some(kind) = CommandType::from_name(tokens.first()) {
        lemma_checked_ok_iff_well_formed(
            kind,
            arguments_among(tokens.drop_first()),
            flags_among(tokens.drop_first()),
        );
    }
}

/// A validated command: a kind with arguments and flags that obey the
/// kind's rules. It cannot be changed once made.
#[derive(Debug)]
pub struct Command {
    command_type: CommandType,
    arguments: Vec<String>,
    flags: Vec<String>,
}

impl View for Command {
    type V = CommandView;

    closed spec fn view(&self) -> CommandView {
        CommandView {
            command_type: self.command_type,
            arguments: self.arguments.deep_view(),
            flags: self.flags.deep_view(),
        }
    }
}

/// The result of making a command, with its strings as sequences of
/// characters.
pub open spec fn outcome_view(
    result: Result<Command, CommandError>,
) -> Result<CommandView, CommandErrorView> {
    match result {
        Ok(command) => Ok(command@),
        Err(error) => Err(error@),
    }
}

/// Tests whether a token is a flag.
pub fn is_flag_token(token: &str) -> (flag: bool)
    ensures
        flag == is_flag(token@),
{
    let mut characters = token.chars();
    match characters.next() {
        Some(first) => first == '-',
        None => false,
    }
}

impl Command {
    #[verifier::type_invariant]
    closed spec fn obeys_rules(&self) -> bool {
        self@.well_formed()
    }

    /// Makes a command of the given kind, after checking the flags and the
    /// number of arguments against the kind's rules.
    pub fn new(command_type: CommandType, arguments: Vec<String>, flags: Vec<String>) -> (result:
        Result<Self, CommandError>)
        ensures
            outcome_view(result) == checked(command_type, arguments.deep_view(), flags.deep_view()),
            result matches Ok(command) ==> command@.well_formed(),
    {
        let mut i: usize = 0;
        while i < flags.len()
            invariant
                i <= flags.len(),
                forall|j: int|
                    0 <= j < i ==> command_type.supports_flag(#[trigger] flags.deep_view()[j]),
            decreases flags.len() - i,
        {
            if !command_type.is_supported_flag(flags[i].as_str()) {
                assert(is_first_unsupported(command_type, flags.deep_view(), i as int));
                return Err(CommandError::UnsupportedFlag(flags[i].clone()));
            }
            i += 1;
        }

        if let Some(expected) = command_type.get_expected_argument_count() {
            let actual = arguments.len();
            if !expected.is_valid(actual) {
                return Err(CommandError::WrongArgumentsCount { expected, actual });
            }
        }
        Ok(Command { command_type, arguments, flags })
    }

    /// Decides what running the command does, and leaves the doing to the
    /// caller.
    pub fn execute(self) -> (action: Action)
        ensures
            action@ == self@.action(),
            self@.well_formed(),
    {
        proof {
            use_type_invariant(&self);
        }
        match self.command_type {
            CommandType::Echo => Action::Print(join_strings(&self.arguments, "\n")),
            CommandType::Exit => Action::Exit,
            CommandType::Help => Action::Print("Help is not implemented yet".to_owned()),
            CommandType::Ls => {
                let mut directories = self.arguments;
                if directories.len() == 0 {
                    directories.push(".".to_owned());
                    assert(directories.deep_view() == seq!["."@]);
                }
                Action::List(directories)
            },
        }
    }

    /// The kind of command.
    pub fn command_type(&self) -> (kind: CommandType)
        ensures
            kind == self@.command_type,
            self@.well_formed(),
    {
        proof {
            use_type_invariant(self);
        }
        self.command_type
    }

    /// The positional arguments, in input order.
    pub fn arguments(&self) -> (arguments: &Vec<String>)
        ensures
            arguments.deep_view() == self@.arguments,
            self@.well_formed(),
    {
        proof {
            use_type_invariant(self);
        }
        &self.arguments
    }

    /// The flags, in input order.
    pub fn flags(&self) -> (flags: &Vec<String>)
        ensures
            flags.deep_view() == self@.flags,
            self@.well_formed(),
    {
        proof {
            use_type_invariant(self);
        }
        &self.flags
    }
}

impl vstd::std_specs::convert::TryFromSpecImpl<String> for CommandType {
    open spec fn obeys_try_from_spec() -> bool {
        true
    }

    open spec fn try_from_spec(input: String) -> Result<CommandType, CommandError> {
        match CommandType::from_name(input@) {
            Some(kind) => Ok(kind),
            None => Err(CommandError::UnknownCommand(input)),
        }
    }
}

impl TryFrom<String> for CommandType {
    type Error = CommandError;

    /// Resolves a command name to its kind. A name that matches no kind
    /// comes back inside the error.
    fn try_from(input: String) -> (result: Result<CommandType, CommandError>)
        ensures
            match CommandType::from_name(input@) {
                Some(kind) => result == Ok::<CommandType, CommandError>(kind),
                None => result == Err::<CommandType, CommandError>(
                    CommandError::UnknownCommand(input),
                ),
            },
    {
        let name = input.as_str();
        if *name == *"echo" {
            Ok(CommandType::Echo)
        } else if *name == *"exit" {
            Ok(CommandType::Exit)
        } else if *name == *"help" {
            Ok(CommandType::Help)
        } else if *name == *"ls" {
            Ok(CommandType::Ls)
        } else {
            Err(CommandError::UnknownCommand(input))
        }
    }
}

impl vstd::std_specs::convert::TryFromSpecImpl<String> for Command {
    /// A command is pinned by its characters, not as a value: the contract
    /// of `try_from` states the result through views.
    open spec fn obeys_try_from_spec() -> bool {
        false
    }

    open spec fn try_from_spec(input: String) -> Result<Command, CommandError> {
        choose|result: Result<Command, CommandError>| outcome_view(result) == parse(input@)
    }
}

impl TryFrom<String> for Command {
    type Error = CommandError;

    /// Parses one input line into a validated command.
    fn try_from(input: String) -> (result: Result<Command, CommandError>)
        ensures
            outcome_view(result) == parse(input@),
            result matches Ok(command) ==> command@.well_formed(),
    {
        let input_vec = split_input_outside_quotes_on_whitespace(input);
        let ghost tokens = input_vec.deep_view();

        let command_type = match CommandType::try_from(input_vec[0].clone()) {
            Ok(command_type) => command_type,
            Err(error) => {
                return Err(error);
            },
        };

        let mut arguments: Vec<String> = Vec::new();
        let mut flags: Vec<String> = Vec::new();
        let mut i: usize = 1;
        while i < input_vec.len()
            invariant
                1 <= i <= input_vec.len(),
                tokens == input_vec.deep_view(),
                arguments.deep_view() == arguments_among(tokens.subrange(1, i as int)),
                flags.deep_view() == flags_among(tokens.subrange(1, i as int)),
            decreases input_vec.len() - i,
        {
            let arg = &input_vec[i];
            proof {
                assert(tokens.subrange(1, i + 1) == tokens.subrange(1, i as int).push(arg@));
                lemma_partition_push(tokens.subrange(1, i as int), arg@);
            }
            let ghost arguments_before = arguments.deep_view();
            let ghost flags_before = flags.deep_view();
            if is_flag_token(arg.as_str()) {
                flags.push(arg.clone());
                assert(flags.deep_view() == flags_before.push(arg@));
            } else {
                arguments.push(arg.clone());
                assert(arguments.deep_view() == arguments_before.push(arg@));
            }
            i += 1;
        }
        assert(tokens.subrange(1, tokens.len() as int) == tokens.drop_first());

        Command::new(command_type, arguments, flags)
    }
}

} // verus!
