//! Posix compliant command line argument parser and processor.
use crate::lexer::{has_char, has_word, Lexer};
use crate::text::{joined, lines_text, push_joined, push_lines, same_text, texts_of};
use vstd::prelude::*;

verus! {

pub type Lines = Vec<String>;

/// What a flag is known by, as plain texts.
pub struct FlagView {
    pub short: Seq<char>,
    pub long: Option<Seq<char>>,
    pub description: Seq<Seq<char>>,
}

/// An option as plain texts.
pub struct OptionView {
    pub name: Seq<char>,
    pub default: Option<Seq<char>>,
    pub flag: FlagView,
}

/// A command line interface as plain texts.
pub struct CliView {
    pub name: Seq<char>,
    pub description: Seq<Seq<char>>,
    pub footer: Seq<Seq<char>>,
    pub flags: Seq<FlagView>,
    pub options: Seq<OptionView>,
}

/// Command line Flag (doesn't accept argument).
#[derive(Debug, Clone)]
pub struct CliFlag {
    pub short: &'static str,
    pub long: Option<&'static str>,
    /// lines of string, for nicer display.
    pub description: Lines,
}

impl View for CliFlag {
    type V = FlagView;

    open spec fn view(&self) -> FlagView {
        FlagView {
            short: self.short@,
            long: match self.long {
                Some(long) => Some(long@),
                None => None,
            },
            description: texts_of(self.description@),
        }
    }
}

/// Whether `arg` is the short name of `flag`, or its long name where it
/// has one.
pub open spec fn flag_matches(flag: FlagView, arg: Seq<char>) -> bool {
    arg == flag.short || match flag.long {
        Some(long) => arg == long,
        None => false,
    }
}

impl CliFlag {
    /// exact match of either `short` or `long` argument.
    pub fn matches(&self, arg: &str) -> (found: bool)
        ensures
            found == flag_matches(self@, arg@),
    {
        same_text(self.short, arg) || match self.long {
            Some(long) => same_text(long, arg),
            None => false,
        }
    }
}

/// Command line Argument Option (always accept argument).
#[derive(Debug, Clone)]
pub struct CliOption {
    /// Display name for word argument in the Program Usage string.
    /// example: -f, --file &lt;name&gt;
    pub name: &'static str,
    /// default value for the current option.
    pub default: Option<String>,
    pub flag: CliFlag,
}

impl View for CliOption {
    type V = OptionView;

    open spec fn view(&self) -> OptionView {
        OptionView {
            name: self.name@,
            default: match self.default {
                Some(value) => Some(value@),
                None => None,
            },
            flag: self.flag@,
        }
    }
}

/// The value that `arg` gives to `option` in the form `--option=value`.
pub open spec fn assoc(option: OptionView, arg: Seq<char>) -> Option<Seq<char>> {
    match option.flag.long {
        Some(long) => if has_word(arg, 0, long) && has_char(arg, long.len() as int, '=') {
            Some(arg.skip(long.len() as int + 1))
        } else {
            None
        },
        None => None,
    }
}

impl CliOption {
    /// parse long option with syntax `--option=value` and return `value`.
    pub fn assoc_value(&self, arg: &str) -> (value: Option<String>)
        ensures
            match value {
                Some(text) => assoc(self@, arg@) == Some(text@),
                None => assoc(self@, arg@) is None,
            },
    {
        let mut argparser = Lexer::new(arg);
        let long: &str = match self.flag.long {
            Some(long) => long,
            None => {
                return None;
            },
        };
        if argparser.consume_string(long).is_none() {
            return None;
        }
        if argparser.consume_byte('=').is_none() {
            return None;
        }
        let start: usize = argparser.cursor;
        let mut value = String::new();
        let mut i: usize = start;
        while i < argparser.stack.len()
            invariant
                start <= i <= argparser.stack.len(),
                value@ == argparser.stack@.subrange(start as int, i as int),
            decreases argparser.stack.len() - i,
        {
            value.push(argparser.stack[i]);
            i += 1;
        }
        assert(value@ =~= arg@.skip(long@.len() as int + 1));
        Some(value)
    }
}

/// The flags that `flags` stand for, in order.
pub open spec fn flags_of(flags: Seq<CliFlag>) -> Seq<FlagView> {
    Seq::new(flags.len(), |i: int| flags[i]@)
}

/// The options that `options` stand for, in order.
pub open spec fn options_of(options: Seq<CliOption>) -> Seq<OptionView> {
    Seq::new(options.len(), |i: int| options[i]@)
}

/// The names and values that `values` stand for, in order.
pub open spec fn values_of(values: Seq<(&'static str, String)>) -> Seq<(Seq<char>, Seq<char>)> {
    Seq::new(values.len(), |i: int| (values[i].0@, values[i].1@))
}

/// Index of the first of `flags` from `from` on that `arg` names.
pub open spec fn first_flag(flags: Seq<FlagView>, arg: Seq<char>, from: int) -> Option<int>
    decreases flags.len() - from,
{
    if 0 <= from < flags.len() {
        if flag_matches(flags[from], arg) {
            Some(from)
        } else {
            first_flag(flags, arg, from + 1)
        }
    } else {
        None
    }
}

/// Index of the first of `options` from `from` on whose flag `arg` names.
pub open spec fn first_option(options: Seq<OptionView>, arg: Seq<char>, from: int) -> Option<int>
    decreases options.len() - from,
{
    if 0 <= from < options.len() {
        if flag_matches(options[from].flag, arg) {
            Some(from)
        } else {
            first_option(options, arg, from + 1)
        }
    } else {
        None
    }
}

/// An option that a long argument names, and the value that the argument
/// itself gives it, if it does.
pub struct LongHit {
    pub index: int,
    pub value: Option<Seq<char>>,
}

/// The first of `options` from `from` on that `arg` names, by its flag or
/// in the form `--option=value`.
pub open spec fn long_option(options: Seq<OptionView>, arg: Seq<char>, from: int) -> Option<
    LongHit,
>
    decreases options.len() - from,
{
    if 0 <= from < options.len() {
        if flag_matches(options[from].flag, arg) {
            Some(LongHit { index: from, value: None })
        } else {
            match assoc(options[from], arg) {
                Some(value) => Some(LongHit { index: from, value: Some(value) }),
                None => long_option(options, arg, from + 1),
            }
        }
    } else {
        None
    }
}

/// Index of the first of `values` from `from` on that is named `name`.
pub open spec fn position_of(values: Seq<(Seq<char>, Seq<char>)>, name: Seq<char>, from: int)
    -> Option<int>
    decreases values.len() - from,
{
    if 0 <= from < values.len() {
        if values[from].0 == name {
            Some(from)
        } else {
            position_of(values, name, from + 1)
        }
    } else {
        None
    }
}

/// `values` with `name` set to `value`: in the place where `name` stands
/// already, else at the end.
pub open spec fn with_value(
    values: Seq<(Seq<char>, Seq<char>)>,
    name: Seq<char>,
    value: Seq<char>,
) -> Seq<(Seq<char>, Seq<char>)> {
    match position_of(values, name, 0) {
        Some(i) => values.update(i, (name, value)),
        None => values.push((name, value)),
    }
}

/// `values` with the default of each of the first `upto` options set.
pub open spec fn with_defaults(
    values: Seq<(Seq<char>, Seq<char>)>,
    options: Seq<OptionView>,
    upto: int,
) -> Seq<(Seq<char>, Seq<char>)>
    decreases upto,
{
    if upto <= 0 || upto > options.len() {
        values
    } else {
        let before = with_defaults(values, options, upto - 1);
        match options[upto - 1].default {
            Some(value) => with_value(before, options[upto - 1].name, value),
            None => before,
        }
    }
}

/// A hyphen and the character `c`.
pub open spec fn short_name(c: char) -> Seq<char> {
    seq!['-', c]
}

/// The flags read from a group of short flags, and the place of the first
/// character of the group that names no flag, if there is one.
pub struct Group {
    pub flags: Seq<Seq<char>>,
    pub stopped: Option<int>,
}

/// Reads the characters of `arg` from `at` on as short flags, as long as
/// each names one.
pub open spec fn group_at(flags: Seq<FlagView>, arg: Seq<char>, at: int, found: Seq<Seq<char>>)
    -> Group
    decreases arg.len() - at,
{
    if 0 <= at < arg.len() {
        if first_flag(flags, short_name(arg[at]), 0) is Some {
            group_at(flags, arg, at + 1, found.push(short_name(arg[at])))
        } else {
            Group { flags: found, stopped: Some(at) }
        }
    } else {
        Group { flags: found, stopped: None }
    }
}

/// The message for an option that was given no value.
pub open spec fn empty_message(name: Seq<char>) -> Seq<char> {
    "'"@ + name + "' cannot be empty."@
}

/// The message for a short argument that names neither flag nor option.
pub open spec fn invalid_flag_message(name: Seq<char>) -> Seq<char> {
    " Invalid flag: '"@ + name + "'."@
}

/// What reading the arguments amounts to: the flags and the values of the
/// options that were collected, and the path of the file to read (none for
/// the standard input) or the message of an error.
pub struct Populated {
    pub flags: Seq<Seq<char>>,
    pub options: Seq<(Seq<char>, Seq<char>)>,
    pub outcome: Result<Option<Seq<char>>, Seq<char>>,
}

/// Reads the arguments from the `at`-th on, having collected `flags` and
/// `options` so far.
///
/// An argument without a leading hyphen is the path, and ends the reading;
/// so does a single hyphen, which stands for the standard input. A long
/// argument is a flag, or an option whose value is the next argument or
/// follows an equals sign; any other long argument, and the double hyphen
/// alone, make the next argument the path. A short argument is a group of
/// flags, which an option may end; the value of that option is the rest of
/// the argument, or the next argument where nothing is left.
pub open spec fn populate_from(
    cli: CliView,
    args: Seq<Seq<char>>,
    at: int,
    flags: Seq<Seq<char>>,
    options: Seq<(Seq<char>, Seq<char>)>,
) -> Populated
    decreases args.len() - at,
{
    if 0 <= at < args.len() {
        let arg = args[at];
        if arg.len() > 0 && arg[0] == '-' {
            if arg.len() == 1 {
                Populated { flags, options, outcome: Ok(None) }
            } else if arg[1] == '-' {
                if arg.len() > 2 && first_flag(cli.flags, arg, 0) is Some {
                    populate_from(
                        cli,
                        args,
                        at + 1,
                        flags.push(cli.flags[first_flag(cli.flags, arg, 0)->0].short),
                        options,
                    )
                } else if arg.len() > 2 && long_option(cli.options, arg, 0) is Some {
                    let hit = long_option(cli.options, arg, 0)->0;
                    let name = cli.options[hit.index].name;
                    match hit.value {
                        Some(value) => populate_from(
                            cli,
                            args,
                            at + 1,
                            flags,
                            with_value(options, name, value),
                        ),
                        None => if at + 1 < args.len() {
                            populate_from(
                                cli,
                                args,
                                at + 2,
                                flags,
                                with_value(options, name, args[at + 1]),
                            )
                        } else {
                            Populated { flags, options, outcome: Err(empty_message(name)) }
                        },
                    }
                } else {
                    Populated {
                        flags,
                        options,
                        outcome: Ok(
                            if at + 1 < args.len() {
                                Some(args[at + 1])
                            } else {
                                None
                            },
                        ),
                    }
                }
            } else {
                let group = group_at(cli.flags, arg, 1, flags);
                match group.stopped {
                    None => populate_from(cli, args, at + 1, group.flags, options),
                    Some(k) => match first_option(cli.options, short_name(arg[k]), 0) {
                        Some(o) => {
                            let name = cli.options[o].name;
                            if k + 1 < arg.len() {
                                populate_from(
                                    cli,
                                    args,
                                    at + 1,
                                    group.flags,
                                    with_value(options, name, arg.skip(k + 1)),
                                )
                            } else if at + 1 < args.len() {
                                populate_from(
                                    cli,
                                    args,
                                    at + 2,
                                    group.flags,
                                    with_value(options, name, args[at + 1]),
                                )
                            } else {
                                Populated {
                                    flags: group.flags,
                                    options,
                                    outcome: Err(empty_message(name)),
                                }
                            }
                        },
                        None => Populated {
                            flags: group.flags,
                            options,
                            outcome: Err(invalid_flag_message(short_name(arg[k]))),
                        },
                    },
                }
            }
        } else {
            Populated { flags, options, outcome: Ok(Some(arg)) }
        }
    } else {
        Populated { flags, options, outcome: Ok(None) }
    }
}

/// Reads all the arguments, after the defaults of the options were set.
pub open spec fn populate(
    cli: CliView,
    args: Seq<Seq<char>>,
    flags: Seq<Seq<char>>,
    options: Seq<(Seq<char>, Seq<char>)>,
) -> Populated {
    populate_from(cli, args, 0, flags, with_defaults(options, cli.options, cli.options.len() as int))
}

/// Whether what was returned is the outcome that was expected.
pub open spec fn outcome_is(
    returned: Result<Option<String>, String>,
    expected: Result<Option<Seq<char>>, Seq<char>>,
) -> bool {
    match returned {
        Ok(Some(path)) => expected == Ok::<Option<Seq<char>>, Seq<char>>(Some(path@)),
        Ok(None) => expected == Ok::<Option<Seq<char>>, Seq<char>>(None),
        Err(message) => expected == Err::<Option<Seq<char>>, Seq<char>>(message@),
    }
}

/// The usage of one flag: its names on a line, then its description.
pub open spec fn flag_usage(flag: FlagView, argument: Option<Seq<char>>) -> Seq<char> {
    "  "@ + flag.short + (match flag.long {
        Some(long) => ", "@ + long,
        None => Seq::empty(),
    }) + (match argument {
        Some(name) => " <"@ + name + ">"@,
        None => Seq::empty(),
    }) + "\n"@ + lines_text(flag.description, "\t\t"@, "\n"@)
}

/// The usage of the first `upto` of `flags`.
pub open spec fn flags_usage(flags: Seq<FlagView>, upto: int) -> Seq<char>
    decreases upto,
{
    if upto <= 0 || upto > flags.len() {
        Seq::empty()
    } else {
        flags_usage(flags, upto - 1) + flag_usage(flags[upto - 1], None)
    }
}

/// The usage of the first `upto` of `options`.
pub open spec fn options_usage(options: Seq<OptionView>, upto: int) -> Seq<char>
    decreases upto,
{
    if upto <= 0 || upto > options.len() {
        Seq::empty()
    } else {
        options_usage(options, upto - 1) + flag_usage(
            options[upto - 1].flag,
            Some(options[upto - 1].name),
        )
    }
}

/// The line that says how the program is called.
pub open spec fn usage_line(cli: CliView) -> Seq<char> {
    "USAGE: "@ + cli.name + " [FLAGS|OPTIONS]... FILE\n"@
}

/// The description and an empty line; nothing without a description.
pub open spec fn description_section(cli: CliView) -> Seq<char> {
    if cli.description.len() > 0 {
        joined(cli.description, "\n"@) + "\n\n"@
    } else {
        Seq::empty()
    }
}

/// The flags under their heading and an empty line; nothing without flags.
pub open spec fn flags_section(cli: CliView) -> Seq<char> {
    if cli.flags.len() > 0 {
        "FLAGS:\n"@ + flags_usage(cli.flags, cli.flags.len() as int) + "\n"@
    } else {
        Seq::empty()
    }
}

/// The options under their heading and an empty line; nothing without
/// options.
pub open spec fn options_section(cli: CliView) -> Seq<char> {
    if cli.options.len() > 0 {
        "OPTIONS:\n"@ + options_usage(cli.options, cli.options.len() as int) + "\n"@
    } else {
        Seq::empty()
    }
}

/// The help text: the usage line, the description, the flags, the options
/// and the footer.
pub open spec fn usage_text(cli: CliView) -> Seq<char> {
    usage_line(cli) + description_section(cli) + flags_section(cli) + options_section(cli)
        + joined(cli.footer, "\n"@)
}

#[derive(Debug, Clone)]
pub struct Cli {
    name: &'static str,
    description: Lines,
    footer: Lines,
    /// using `Vec` instead of `HashMap` to preserve order.
    flags: Vec<CliFlag>,
    /// using `Vec` instead of `HashMap` to preserve order.
    options: Vec<CliOption>,
}

impl View for Cli {
    type V = CliView;

    closed spec fn view(&self) -> CliView {
        CliView {
            name: self.name@,
            description: texts_of(self.description@),
            footer: texts_of(self.footer@),
            flags: flags_of(self.flags@),
            options: options_of(self.options@),
        }
    }
}

/// The two flags that every interface has: help and version.
pub open spec fn standard_flags() -> Seq<FlagView> {
    seq![
        FlagView {
            short: "-h"@,
            long: Some("--help"@),
            description: seq!["Display this help and exit."@],
        },
        FlagView {
            short: "-v"@,
            long: Some("--version"@),
            description: seq!["Display version and exit."@],
        },
    ]
}

impl Cli {
    /// An interface named `name` with the help and version flags.
    pub fn new(name: &'static str) -> (cli: Self)
        ensures
            cli@ == (CliView {
                name: name@,
                description: Seq::empty(),
                footer: Seq::empty(),
                flags: standard_flags(),
                options: Seq::empty(),
            }),
    {
        let mut help: Lines = Vec::new();
        help.push("Display this help and exit.".to_owned());
        let mut version: Lines = Vec::new();
        version.push("Display version and exit.".to_owned());
        let mut flags: Vec<CliFlag> = Vec::new();
        flags.push(CliFlag { short: "-h", long: Some("--help"), description: help });
        flags.push(CliFlag { short: "-v", long: Some("--version"), description: version });
        let cli = Self {
            name,
            description: Vec::new(),
            footer: Vec::new(),
            flags,
            options: Vec::new(),
        };
        proof {
            assert(texts_of(help@) =~= seq!["Display this help and exit."@]);
            assert(texts_of(version@) =~= seq!["Display version and exit."@]);
            assert(cli@.flags =~= standard_flags());
            assert(cli@.options =~= Seq::<OptionView>::empty());
            assert(cli@.description =~= Seq::<Seq<char>>::empty());
            assert(cli@.footer =~= Seq::<Seq<char>>::empty());
        }
        cli
    }

    /// Sets the description that the help text shows.
    pub fn set_description(&mut self, description: Lines) -> (cli: &mut Self)
        ensures
            cli@ == (CliView { description: texts_of(description@), ..old(self)@ }),
            *final(self) == *final(cli),
    {
        self.description = description;
        self
    }

    /// Sets the footer that the help text ends with.
    pub fn set_footer(&mut self, footer: Lines) -> (cli: &mut Self)
        ensures
            cli@ == (CliView { footer: texts_of(footer@), ..old(self)@ }),
            *final(self) == *final(cli),
    {
        self.footer = footer;
        self
    }

    /// Adds `flag` after the flags that are there.
    pub fn add_flag(&mut self, flag: CliFlag) -> (cli: &mut Self)
        ensures
            cli@ == (CliView { flags: old(self)@.flags.push(flag@), ..old(self)@ }),
            *final(self) == *final(cli),
    {
        self.flags.push(flag);
        assert(flags_of(self.flags@) =~= flags_of(old(self).flags@).push(flag@));
        self
    }

    /// Adds `option` after the options that are there.
    pub fn add_option(&mut self, option: CliOption) -> (cli: &mut Self)
        ensures
            cli@ == (CliView { options: old(self)@.options.push(option@), ..old(self)@ }),
            *final(self) == *final(cli),
    {
        self.options.push(option);
        assert(options_of(self.options@) =~= options_of(old(self).options@).push(option@));
        self
    }

    /// The message for an option that was given no value.
    fn empty_err(key: &str) -> (message: String)
        ensures
            message@ == empty_message(key@),
    {
        let mut message = "'".to_owned();
        message.append(key);
        message.append("' cannot be empty.");
        message
    }

    /// Index of the first flag that `arg` names.
    fn find_flag(&self, arg: &str) -> (found: Option<usize>)
        ensures
            match found {
                Some(i) => first_flag(self@.flags, arg@, 0) == Some(i as int) && i
                    < self.flags.len(),
                None => first_flag(self@.flags, arg@, 0) is None,
            },
    {
        let mut i: usize = 0;
        while i < self.flags.len()
            invariant
                i <= self.flags.len(),
                first_flag(self@.flags, arg@, 0) == first_flag(self@.flags, arg@, i as int),
            decreases self.flags.len() - i,
        {
            if self.flags[i].matches(arg) {
                return Some(i);
            }
            i += 1;
        }
        None
    }

    /// Index of the first option whose flag `arg` names.
    fn find_option(&self, arg: &str) -> (found: Option<usize>)
        ensures
            match found {
                Some(i) => first_option(self@.options, arg@, 0) == Some(i as int) && i
                    < self.options.len(),
                None => first_option(self@.options, arg@, 0) is None,
            },
    {
        let mut i: usize = 0;
        while i < self.options.len()
            invariant
                i <= self.options.len(),
                first_option(self@.options, arg@, 0) == first_option(
                    self@.options,
                    arg@,
                    i as int,
                ),
            decreases self.options.len() - i,
        {
            if self.options[i].flag.matches(arg) {
                return Some(i);
            }
            i += 1;
        }
        None
    }

    /// The first option that the long argument `arg` names, and the value
    /// that `arg` itself gives it, if it does.
    fn find_long_option(&self, arg: &str) -> (found: Option<(usize, Option<String>)>)
        ensures
            match found {
                Some((i, value)) => {
                    &&& i < self.options.len()
                    &&& long_option(self@.options, arg@, 0) matches Some(hit)
                    &&& hit.index == i
                    &&& match value {
                        Some(text) => hit.value == Some(text@),
                        None => hit.value is None,
                    }
                },
                None => long_option(self@.options, arg@, 0) is None,
            },
    {
        let mut i: usize = 0;
        while i < self.options.len()
            invariant
                i <= self.options.len(),
                long_option(self@.options, arg@, 0) == long_option(self@.options, arg@, i as int),
            decreases self.options.len() - i,
        {
            if self.options[i].flag.matches(arg) {
                return Some((i, None));
            }
            match self.options[i].assoc_value(arg) {
                Some(value) => {
                    return Some((i, Some(value)));
                },
                None => {},
            }
            i += 1;
        }
        None
    }

    /// Sets `name` to `value` in `options`: in the place where `name` stands
    /// already, else at the end.
    fn insert(options: &mut Vec<(&'static str, String)>, name: &'static str, value: String)
        ensures
            values_of(final(options)@) == with_value(values_of(old(options)@), name@, value@),
    {
        let ghost before = values_of(options@);
        let mut i: usize = 0;
        while i < options.len()
            invariant
                i <= options.len(),
                options@ == old(options)@,
                position_of(before, name@, 0) == position_of(before, name@, i as int),
                before == values_of(options@),
            decreases options.len() - i,
        {
            if same_text(options[i].0, name) {
                options[i] = (name, value);
                assert(values_of(options@) =~= before.update(i as int, (name@, value@)));
                return;
            }
            i += 1;
        }
        options.push((name, value));
        assert(values_of(options@) =~= before.push((name@, value@)));
    }

    /// parses and populates the flags (by their short names) and the values
    /// of the options (by the names of the options).
    ///
    /// Returns:
    /// - `Err(String)`: argument parse error (malformed arguments etc).
    /// - `Ok(Some(filepath))`: no parse error, read from file.
    /// - `Ok(None)`: no parse error, read from stdin.
    pub fn parse_and_populate(
        &self,
        args: &Vec<String>,
        flags: &mut Vec<String>,
        options: &mut Vec<(&'static str, String)>,
    ) -> (returned: Result<Option<String>, String>)
        ensures
            texts_of(final(flags)@) == populate(
                self@,
                texts_of(args@),
                texts_of(old(flags)@),
                values_of(old(options)@),
            ).flags,
            values_of(final(options)@) == populate(
                self@,
                texts_of(args@),
                texts_of(old(flags)@),
                values_of(old(options)@),
            ).options,
            outcome_is(
                returned,
                populate(
                    self@,
                    texts_of(args@),
                    texts_of(old(flags)@),
                    values_of(old(options)@),
                ).outcome,
            ),
    {
        let ghost cli = self@;
        let ghost all = texts_of(args@);
        let ghost goal = populate(cli, all, texts_of(old(flags)@), values_of(old(options)@));
        // populating with options that have default value.
        let mut d: usize = 0;
        while d < self.options.len()
            invariant
                d <= self.options.len(),
                cli == self@,
                flags@ == old(flags)@,
                values_of(options@) == with_defaults(
                    values_of(old(options)@),
                    cli.options,
                    d as int,
                ),
            decreases self.options.len() - d,
        {
            match &self.options[d].default {
                Some(value) => {
                    Self::insert(options, self.options[d].name, value.clone());
                },
                None => {},
            }
            d += 1;
        }
        let mut at: usize = 0;
        while at < args.len()
            invariant
                at <= args.len(),
                cli == self@,
                all == texts_of(args@),
                goal == populate(cli, all, texts_of(old(flags)@), values_of(old(options)@)),
                goal == populate_from(cli, all, at as int, texts_of(flags@), values_of(options@)),
            decreases args.len() - at,
        {
            let arg: &String = &args[at];
            assert(all[at as int] == arg@);
            let chars = Lexer::new(arg.as_str());
            let stack = &chars.stack;
            if stack.len() == 0 || stack[0] != '-' {
                // return arg as the 'default' argument.
                // if it doesn't start with a hyphen (`-`).
                return Ok(Some(arg.clone()));
            }
            if stack.len() == 1 {
                // read from stdin (single hyphen).
                return Ok(None);
            }
            if stack[1] == '-' {
                // handle long options only (starts with double hyphen).
                if stack.len() > 2 {
                    match self.find_flag(arg.as_str()) {
                        Some(f) => {
                            let short: String = self.flags[f].short.to_owned();
                            proof {
                                assert(texts_of(flags@.push(short)) =~= texts_of(flags@).push(
                                    cli.flags[f as int].short,
                                ));
                            }
                            flags.push(short);
                            at += 1;
                            continue;
                        },
                        None => {},
                    }
                    match self.find_long_option(arg.as_str()) {
                        Some((o, Some(value))) => {
                            Self::insert(options, self.options[o].name, value);
                            at += 1;
                            continue;
                        },
                        Some((o, None)) => {
                            if at + 1 < args.len() {
                                assert(all[at + 1] == args@[at + 1]@);
                                Self::insert(options, self.options[o].name, args[at + 1].clone());
                                at += 2;
                                continue;
                            } else {
                                return Err(Self::empty_err(self.options[o].name));
                            }
                        },
                        None => {},
                    }
                }
                // double hyphen, end of command.
                // return the next argument as is.
                if at + 1 < args.len() {
                    assert(all[at + 1] == args@[at + 1]@);
                    return Ok(Some(args[at + 1].clone()));
                } else {
                    return Ok(None);
                }
            }
            // single hyphen followed by non hyphen character[s]:
            // 1. single hyphen can be followed by mutiple short flags.
            // 2. short option is only allowed at the end.
            let ghost start_flags = texts_of(flags@);
            let ghost old_options = *options;
            let mut k: usize = 1;
            let mut maybe_option: Option<String> = None;
            while k < stack.len()
                invariant_except_break
                    maybe_option is None,
                    group_at(cli.flags, arg@, 1, start_flags) == group_at(
                        cli.flags,
                        arg@,
                        k as int,
                        texts_of(flags@),
                    ),
                invariant
                    1 <= k <= stack.len(),
                    cli == self@,
                    stack@ == arg@,
                    options@ == old_options@,
                ensures
                    1 <= k <= stack.len(),
                    match maybe_option {
                        None => k == stack.len() && group_at(cli.flags, arg@, 1, start_flags) == (
                        Group { flags: texts_of(flags@), stopped: None }),
                        Some(name) => k < stack.len() && name@ == short_name(arg@[k as int])
                            && group_at(cli.flags, arg@, 1, start_flags) == (Group {
                            flags: texts_of(flags@),
                            stopped: Some(k as int),
                        }),
                    },
                decreases stack.len() - k,
            {
                let mut flag_arg = String::new();
                flag_arg.push('-');
                flag_arg.push(stack[k]);
                assert(flag_arg@ =~= short_name(arg@[k as int]));
                match self.find_flag(flag_arg.as_str()) {
                    Some(_) => {
                        proof {
                            assert(texts_of(flags@.push(flag_arg)) =~= texts_of(flags@).push(
                                flag_arg@,
                            ));
                        }
                        flags.push(flag_arg);
                        k += 1;
                    },
                    None => {
                        // consider this as option.
                        maybe_option = Some(flag_arg);
                        break;
                    },
                }
            }
            match maybe_option {
                None => {
                    at += 1;
                },
                Some(opt) => {
                    match self.find_option(opt.as_str()) {
                        Some(o) => {
                            // trying to handle arguemnts like `-ovalue`
                            // where `-o` is the argument and `value`
                            // is the value.
                            if k + 1 < stack.len() {
                                let mut rest = String::new();
                                let mut i: usize = k + 1;
                                while i < stack.len()
                                    invariant
                                        k + 1 <= i <= stack.len(),
                                        rest@ == stack@.subrange(k + 1, i as int),
                                    decreases stack.len() - i,
                                {
                                    rest.push(stack[i]);
                                    i += 1;
                                }
                                assert(rest@ =~= arg@.skip(k + 1));
                                Self::insert(options, self.options[o].name, rest);
                                at += 1;
                            } else if at + 1 < args.len() {
                                assert(all[at + 1] == args@[at + 1]@);
                                Self::insert(options, self.options[o].name, args[at + 1].clone());
                                at += 2;
                            } else {
                                return Err(Self::empty_err(self.options[o].name));
                            }
                        },
                        None => {
                            // return `Err("Invalid flag")`, if doesn't match
                            // any flag or option.
                            let mut message = " Invalid flag: '".to_owned();
                            message.append(opt.as_str());
                            message.append("'.");
                            return Err(message);
                        },
                    }
                },
            }
        }
        Ok(None)
    }

    /// The help text.
    pub fn usage(&self) -> (text: String)
        ensures
            text@ == usage_text(self@),
    {
        let mut text = String::new();
        self.push_usage_line(&mut text);
        self.push_description(&mut text);
        self.push_flags(&mut text);
        self.push_options(&mut text);
        push_joined(&mut text, &self.footer, "\n");
        assert(text@ =~= usage_text(self@));
        text
    }

    /// Appends the line that says how the program is called.
    fn push_usage_line(&self, out: &mut String)
        ensures
            final(out)@ == old(out)@ + usage_line(self@),
    {
        out.append("USAGE: ");
        out.append(self.name);
        out.append(" [FLAGS|OPTIONS]... FILE\n");
        assert(out@ =~= old(out)@ + usage_line(self@));
    }

    /// Appends the description, if there is one.
    fn push_description(&self, out: &mut String)
        ensures
            final(out)@ == old(out)@ + description_section(self@),
    {
        if self.description.len() > 0 {
            push_joined(out, &self.description, "\n");
            out.append("\n\n");
        }
        assert(out@ =~= old(out)@ + description_section(self@));
    }

    /// Appends the flags under their heading, if there are any.
    fn push_flags(&self, out: &mut String)
        ensures
            final(out)@ == old(out)@ + flags_section(self@),
    {
        if self.flags.len() > 0 {
            out.append("FLAGS:\n");
            let ghost before = out@;
            let mut i: usize = 0;
            assert(out@ =~= before + flags_usage(self@.flags, 0));
            while i < self.flags.len()
                invariant
                    i <= self.flags.len(),
                    out@ == before + flags_usage(self@.flags, i as int),
                decreases self.flags.len() - i,
            {
                Self::push_flag(out, &self.flags[i], None);
                i += 1;
                assert(out@ =~= before + flags_usage(self@.flags, i as int));
            }
            out.append("\n");
        }
        assert(out@ =~= old(out)@ + flags_section(self@));
    }

    /// Appends the options under their heading, if there are any.
    fn push_options(&self, out: &mut String)
        ensures
            final(out)@ == old(out)@ + options_section(self@),
    {
        if self.options.len() > 0 {
            out.append("OPTIONS:\n");
            let ghost before = out@;
            let mut i: usize = 0;
            assert(out@ =~= before + options_usage(self@.options, 0));
            while i < self.options.len()
                invariant
                    i <= self.options.len(),
                    out@ == before + options_usage(self@.options, i as int),
                decreases self.options.len() - i,
            {
                Self::push_flag(out, &self.options[i].flag, Some(self.options[i].name));
                i += 1;
                assert(out@ =~= before + options_usage(self@.options, i as int));
            }
            out.append("\n");
        }
        assert(out@ =~= old(out)@ + options_section(self@));
    }

    /// Appends the usage of one flag to `out`.
    fn push_flag(out: &mut String, flag: &CliFlag, argument: Option<&str>)
        ensures
            final(out)@ == old(out)@ + flag_usage(
                flag@,
                match argument {
                    Some(name) => Some(name@),
                    None => None,
                },
            ),
    {
        out.append("  ");
        out.append(flag.short);
        match flag.long {
            Some(long) => {
                out.append(", ");
                out.append(long);
            },
            None => {},
        }
        match argument {
            Some(name) => {
                out.append(" <");
                out.append(name);
                out.append(">");
            },
            None => {},
        }
        out.append("\n");
        push_lines(out, &flag.description, "\t\t", "\n");
        assert(out@ =~= old(out)@ + flag_usage(
            flag@,
            match argument {
                Some(name) => Some(name@),
                None => None,
            },
        ));
    }
}

/// The flags that the program adds to the standard ones.
pub open spec fn program_flags() -> Seq<FlagView> {
    standard_flags().push(
        FlagView {
            short: "-p"@,
            long: Some("--pretty"@),
            description: seq!["Print pretty formatted 'json'."@],
        },
    ).push(
        FlagView {
            short: "-t"@,
            long: Some("--table"@),
            description: seq!["Print table formatted 'json'."@],
        },
    )
}

/// The one option of the program: the query, empty by default.
pub open spec fn program_options() -> Seq<OptionView> {
    seq![
        OptionView {
            name: "query"@,
            default: Some(""@),
            flag: FlagView {
                short: "-q"@,
                long: Some("--query"@),
                description: seq!["Query for extracting desired 'json' subtree."@],
            },
        },
    ]
}

/// A text as a list of one line.
fn one_line(text: &str) -> (lines: Lines)
    ensures
        texts_of(lines@) == seq![text@],
{
    let mut lines: Lines = Vec::new();
    lines.push(text.to_owned());
    assert(texts_of(lines@) =~= seq![text@]);
    lines
}

/// The command line interface of the program named `name`: the flags for
/// help, version, pretty and table output, and the option for the query.
#[inline(always)]
pub fn create_cli(name: &'static str) -> (cli: Cli)
    ensures
        cli@ == (CliView {
            name: name@,
            description: seq![
                "Extract sub tree from valid 'json' text."@,
                "Use standard input, if FILE not provided."@,
            ],
            footer: seq![
                "For examples, refer to the manpage. For detailed"@,
                "documentation Visit: https://github.com/lycuid/ruson#readme"@,
            ],
            flags: program_flags(),
            options: program_options(),
        }),
{
    let mut cli = Cli::new(name);
    let mut description: Lines = Vec::new();
    description.push("Extract sub tree from valid 'json' text.".to_owned());
    description.push("Use standard input, if FILE not provided.".to_owned());
    assert(texts_of(description@) =~= seq![
        "Extract sub tree from valid 'json' text."@,
        "Use standard input, if FILE not provided."@,
    ]);
    let mut footer: Lines = Vec::new();
    footer.push("For examples, refer to the manpage. For detailed".to_owned());
    footer.push("documentation Visit: https://github.com/lycuid/ruson#readme".to_owned());
    assert(texts_of(footer@) =~= seq![
        "For examples, refer to the manpage. For detailed"@,
        "documentation Visit: https://github.com/lycuid/ruson#readme"@,
    ]);
    cli.set_description(description);
    cli.set_footer(footer);
    cli.add_flag(
        CliFlag {
            short: "-p",
            long: Some("--pretty"),
            description: one_line("Print pretty formatted 'json'."),
        },
    );
    cli.add_flag(
        CliFlag {
            short: "-t",
            long: Some("--table"),
            description: one_line("Print table formatted 'json'."),
        },
    );
    cli.add_option(
        CliOption {
            name: "query",
            default: Some("".to_owned()),
            flag: CliFlag {
                short: "-q",
                long: Some("--query"),
                description: one_line("Query for extracting desired 'json' subtree."),
            },
        },
    );
    assert(cli@.options =~= program_options());
    cli
}

} // verus!
