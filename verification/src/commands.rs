//! Commands that are specified in the configuration.
use crate::command_env::{copy_entries, CommandEnv};
use crate::name_path::texts;
use crate::text::characters;
use crate::variables::{
    interpolate_variables, interpolated_all, law_nothing_is_interpolated_without_values, pairs,
};
use vstd::prelude::*;
use vstd::string::{StrSliceExecFns, StringExecFns};

verus! {

/// The pieces of `text` between its blanks.
pub open spec fn pieces(text: Seq<char>) -> Seq<Seq<char>>
    decreases text.len(),
{
    if text.len() == 0 {
        seq![Seq::empty()]
    } else {
        let before = pieces(text.drop_last());
        if text.last() == ' ' {
            before.push(Seq::empty())
        } else {
            before.drop_last().push(before.last().push(text.last()))
        }
    }
}

/// The words with a blank between each two of them.
pub open spec fn joined(words: Seq<Seq<char>>) -> Seq<char>
    decreases words.len(),
{
    if words.len() == 0 {
        Seq::empty()
    } else if words.len() == 1 {
        words[0]
    } else {
        joined(words.drop_last()) + " "@ + words.last()
    }
}

/// A text is made of its pieces, with a blank between each two of them.
pub proof fn law_pieces_make_up_the_text(text: Seq<char>)
    ensures
        joined(pieces(text)) == text,
    decreases text.len(),
{
    reveal_strlit(" ");
    if text.len() == 0 {
        assert(joined(pieces(text)) =~= text);
    } else {
        let front = text.drop_last();
        let before = pieces(front);
        law_pieces_make_up_the_text(front);
        lemma_pieces_not_empty(front);
        assert(text =~= front.push(text.last()));
        if text.last() == ' ' {
            assert(pieces(text).drop_last() =~= before);
            assert(joined(pieces(text)) =~= text);
        } else {
            let last = before.last().push(text.last());
            assert(pieces(text) == before.drop_last().push(last));
            assert(pieces(text).drop_last() =~= before.drop_last());
            if before.len() == 1 {
                assert(before.drop_last() =~= Seq::empty());
            }
            assert(joined(pieces(text)) =~= text);
        }
    }
}

/// No blank stands in a piece.
pub proof fn law_pieces_hold_no_blank(text: Seq<char>)
    ensures
        forall|i: int| 0 <= i < pieces(text).len() ==> !(#[trigger] pieces(text)[i]).contains(' '),
    decreases text.len(),
{
    if text.len() > 0 {
        let before = pieces(text.drop_last());
        law_pieces_hold_no_blank(text.drop_last());
        lemma_pieces_not_empty(text.drop_last());
        assert forall|i: int| 0 <= i < pieces(text).len() implies !(
        #[trigger] pieces(text)[i]).contains(' ') by {
            if i < before.len() {
                assert(!before[i].contains(' '));
            }
            if i == before.len() - 1 && text.last() != ' ' {
                let piece = pieces(text)[i];
                if piece.contains(' ') {
                    let k = choose|k: int| 0 <= k < piece.len() && piece[k] == ' ';
                    assert(before.last()[k] == ' ');
                }
            }
        }
    }
}

/// A word behind a text comes to stand at the end of its last piece.
proof fn lemma_pieces_of_word(text: Seq<char>, word: Seq<char>)
    requires
        !word.contains(' '),
    ensures
        pieces(text + word) == pieces(text).drop_last().push(pieces(text).last() + word),
    decreases word.len(),
{
    lemma_pieces_not_empty(text);
    let before = pieces(text);
    if word.len() == 0 {
        assert(text + word =~= text);
        assert(before.last() + word =~= before.last());
        assert(before =~= before.drop_last().push(before.last()));
    } else {
        let front = word.drop_last();
        assert(!front.contains(' ')) by {
            if front.contains(' ') {
                let k = choose|k: int| 0 <= k < front.len() && front[k] == ' ';
                assert(word[k] == ' ');
            }
        }
        assert(word[word.len() - 1] != ' ') by {
            assert(word.contains(word[word.len() - 1]));
        }
        lemma_pieces_of_word(text, front);
        assert((text + word).drop_last() =~= text + front);
        assert((text + word).last() == word.last());
        let pieces_before = pieces(text + front);
        assert(pieces_before.drop_last() =~= before.drop_last());
        assert((before.last() + front).push(word.last()) =~= before.last() + word);
    }
}

/// Words that hold no blank are split again where they were joined.
pub proof fn law_joined_words_are_split_again(words: Seq<Seq<char>>)
    requires
        words.len() > 0,
        forall|i: int| 0 <= i < words.len() ==> !(#[trigger] words[i]).contains(' '),
    ensures
        pieces(joined(words)) == words,
    decreases words.len(),
{
    reveal_strlit(" ");
    let last = words.last();
    assert(!words[words.len() - 1].contains(' '));
    if words.len() == 1 {
        lemma_pieces_of_word(Seq::empty(), last);
        assert(Seq::empty() + last =~= last);
        assert(pieces(Seq::<char>::empty()).last() + last =~= last);
        assert(pieces(joined(words)) =~= words);
    } else {
        let front = words.drop_last();
        assert forall|i: int| 0 <= i < front.len() implies !(#[trigger] front[i]).contains(' ') by {
            assert(front[i] == words[i]);
        }
        law_joined_words_are_split_again(front);
        let start = joined(front) + " "@;
        assert(start.drop_last() =~= joined(front));
        assert(start.last() == ' ');
        assert(pieces(start) == front.push(Seq::empty()));
        lemma_pieces_of_word(start, last);
        assert(pieces(start).drop_last() =~= front);
        assert(Seq::<char>::empty() + last =~= last);
        assert(pieces(joined(words)) =~= words);
    }
}

/// There is at least one piece.
proof fn lemma_pieces_not_empty(text: Seq<char>)
    ensures
        pieces(text).len() > 0,
    decreases text.len(),
{
    if text.len() > 0 {
        lemma_pieces_not_empty(text.drop_last());
    }
}

/// The text up to `end` is split into the pieces `split` and the piece from `start`
/// on, which may still grow.
spec fn split_so_far(text: Seq<char>, split: Seq<Seq<char>>, start: int, end: int) -> bool {
    pieces(text.take(end)) == split.push(text.subrange(start, end))
}

/// Splits a text at its blanks.
fn split(text: &str) -> (words: Vec<String>)
    ensures
        texts(words@) == pieces(text@),
        words.len() > 0,
{
    let chars = characters(text);
    let mut words: Vec<String> = Vec::new();
    let mut start: usize = 0;
    let mut end: usize = 0;
    assert(text@.take(0) =~= Seq::empty());
    assert(texts(words@).push(text@.subrange(0, 0)) =~= seq![Seq::empty()]);
    while end < chars.len()
        invariant
            chars@ == text@,
            start <= end <= chars.len(),
            split_so_far(text@, texts(words@), start as int, end as int),
        decreases chars.len() - end,
    {
        let ghost before = texts(words@);
        assert(text@.take(end + 1).drop_last() =~= text@.take(end as int));
        assert(text@.take(end + 1).last() == text@[end as int]);
        if chars[end] == ' ' {
            words.push(text.substring_char(start, end).to_owned());
            start = end + 1;
            assert(texts(words@) =~= before.push(words@.last()@));
            assert(text@.subrange(start as int, end + 1) =~= Seq::empty());
        } else {
            let ghost piece = text@.subrange(start as int, end as int);
            assert(text@.subrange(start as int, end + 1) =~= piece.push(text@[end as int]));
            assert(before.push(piece).drop_last() =~= before);
        }
        end += 1;
    }
    let ghost before = texts(words@);
    assert(text@.take(end as int) =~= text@);
    words.push(text.substring_char(start, end).to_owned());
    assert(texts(words@) =~= before.push(words@.last()@));
    words
}

/// Joins words, with a blank between each two of them.
fn join(words: &Vec<String>) -> (text: String)
    ensures
        text@ == joined(texts(words@)),
{
    let mut text = String::new();
    let mut i: usize = 0;
    assert(texts(words@).take(0) =~= Seq::empty());
    while i < words.len()
        invariant
            i <= words.len(),
            text@ == joined(texts(words@).take(i as int)),
        decreases words.len() - i,
    {
        let ghost so_far = texts(words@).take(i as int);
        assert(texts(words@).take(i + 1).drop_last() =~= so_far);
        assert(texts(words@).take(i + 1).last() == words@[i as int]@);
        if i > 0 {
            text.append(" ");
        }
        text.append(words[i].as_str());
        proof {
            if i == 0 {
                assert(so_far =~= Seq::empty());
                assert(text@ =~= words@[0]@);
            } else {
                assert(text@ =~= joined(so_far) + " "@ + words@[i as int]@);
            }
        }
        i += 1;
    }
    assert(texts(words@).take(i as int) =~= texts(words@));
    text
}

/// Copies a list of strings from `start` on.
fn copy_from(strings: &Vec<String>, start: usize) -> (copy: Vec<String>)
    requires
        start <= strings.len(),
    ensures
        texts(copy@) == texts(strings@).skip(start as int),
{
    let mut copy: Vec<String> = Vec::new();
    let mut i: usize = start;
    while i < strings.len()
        invariant
            start <= i <= strings.len(),
            copy.len() == i - start,
            forall|j: int| 0 <= j < copy.len() ==> #[trigger] copy@[j]@ == strings@[start + j]@,
        decreases strings.len() - i,
    {
        copy.push(strings[i].clone());
        i += 1;
    }
    assert(texts(copy@) =~= texts(strings@).skip(start as int));
    copy
}

/// Wrapper to reject an array without command name.
#[derive(Debug, Eq, Hash, PartialEq)]
pub struct NonEmptyCommandArgsVec {
    args: Vec<String>,
}

impl View for NonEmptyCommandArgsVec {
    type V = Seq<Seq<char>>;

    closed spec fn view(&self) -> Seq<Seq<char>> {
        texts(self.args@)
    }
}

impl NonEmptyCommandArgsVec {
    #[verifier::type_invariant]
    spec fn not_empty(self) -> bool {
        self.args@.len() > 0
    }

    /// The command name and the arguments.
    pub fn args(&self) -> (args: &Vec<String>)
        ensures
            texts(args@) == self@,
            args.len() > 0,
    {
        proof {
            use_type_invariant(self);
        }
        &self.args
    }
}

impl Clone for NonEmptyCommandArgsVec {
    fn clone(&self) -> (copy: Self)
        ensures
            copy@ == self@,
    {
        proof {
            use_type_invariant(self);
        }
        let args = copy_from(&self.args, 0);
        assert(texts(args@).len() == args@.len());
        NonEmptyCommandArgsVec { args }
    }
}

impl vstd::std_specs::convert::TryFromSpecImpl<Vec<String>> for NonEmptyCommandArgsVec {
    open spec fn obeys_try_from_spec() -> bool {
        true
    }

    closed spec fn try_from_spec(args: Vec<String>) -> Result<Self, &'static str> {
        if args@.len() == 0 {
            Err("command arguments should not be empty")
        } else {
            Ok(NonEmptyCommandArgsVec { args })
        }
    }
}

impl TryFrom<Vec<String>> for NonEmptyCommandArgsVec {
    type Error = &'static str;

    fn try_from(args: Vec<String>) -> (result: Result<Self, &'static str>)
        ensures
            match result {
                Ok(command) => args@.len() > 0 && command@ == texts(args@),
                Err(message) => args@.len() == 0 && message@
                    == "command arguments should not be empty"@,
            },
    {
        if args.len() == 0 {
            Err("command arguments should not be empty")
        } else {
            Ok(NonEmptyCommandArgsVec { args })
        }
    }
}

/// Command name and arguments specified by config.
#[derive(Clone, Debug, Eq, PartialEq)]
pub enum CommandNameAndArgs {
    String(String),
    Vec(NonEmptyCommandArgsVec),
    Structured {
        /// The environment variables that are set for the command.
        env: CommandEnv,
        command: NonEmptyCommandArgsVec,
    },
}

/// A command that can be run.
#[derive(Clone, Debug, Eq, PartialEq)]
pub struct CommandLine {
    /// The program.
    pub name: String,
    /// The environment variables that are set, each with its value.
    pub env: Vec<(String, String)>,
    /// The arguments.
    pub args: Vec<String>,
}

/// The assignments of environment variables, with a blank behind each of them.
pub open spec fn assignments(env: Seq<(Seq<char>, Seq<char>)>) -> Seq<char>
    decreases env.len(),
{
    if env.len() == 0 {
        Seq::empty()
    } else {
        assignments(env.drop_last()) + env.last().0 + "="@ + env.last().1 + " "@
    }
}

impl CommandNameAndArgs {
    /// The command name, and behind it the arguments.
    pub open spec fn words(self) -> Seq<Seq<char>> {
        match self {
            CommandNameAndArgs::String(text) => pieces(text@),
            CommandNameAndArgs::Vec(command) => command@,
            CommandNameAndArgs::Structured { env: _, command } => command@,
        }
    }

    /// The environment variables that are set for the command.
    pub open spec fn env(self) -> Seq<(Seq<char>, Seq<char>)> {
        match self {
            CommandNameAndArgs::Structured { env, command: _ } => env.listed(),
            _ => Seq::empty(),
        }
    }

    /// The command as text.
    pub open spec fn text(self) -> Seq<char> {
        match self {
            CommandNameAndArgs::String(text) => text@,
            CommandNameAndArgs::Vec(command) => joined(command@),
            CommandNameAndArgs::Structured { env, command } => assignments(env.listed()) + joined(
                command@,
            ),
        }
    }

    /// Returns command name without arguments.
    pub fn split_name(&self) -> (name: String)
        ensures
            self.words().len() > 0,
            name@ == self.words()[0],
    {
        let (name, _) = self.split_name_and_args();
        name
    }

    /// Returns command name and arguments.
    ///
    /// The command name may be an empty string (as well as each argument.)
    pub fn split_name_and_args(&self) -> (name_and_args: (String, Vec<String>))
        ensures
            self.words().len() > 0,
            name_and_args.0@ == self.words()[0],
            texts(name_and_args.1@) == self.words().skip(1),
            match *self {
                CommandNameAndArgs::String(text) => text@ == joined(
                    seq![name_and_args.0@] + texts(name_and_args.1@),
                ) && !name_and_args.0@.contains(' ') && (forall|i: int|
                    0 <= i < name_and_args.1.len() ==> !(
                    #[trigger] name_and_args.1@[i])@.contains(' ')),
                CommandNameAndArgs::Vec(command) => command@ == seq![name_and_args.0@] + texts(
                    name_and_args.1@,
                ),
                CommandNameAndArgs::Structured { env: _, command } => command@
                    == seq![name_and_args.0@] + texts(name_and_args.1@),
            },
    {
        match self {
            CommandNameAndArgs::String(text) => {
                // Handle things like `EDITOR=emacs -nw`
                let words = split(text.as_str());
                assert(texts(words@)[0] == words@[0]@);
                let name_and_args = (words[0].clone(), copy_from(&words, 1));
                proof {
                    let all = pieces(text@);
                    law_pieces_make_up_the_text(text@);
                    law_pieces_hold_no_blank(text@);
                    assert(seq![name_and_args.0@] + texts(name_and_args.1@) =~= all);
                    assert(!all[0].contains(' '));
                    assert forall|i: int| 0 <= i < name_and_args.1.len() implies !(
                    #[trigger] name_and_args.1@[i])@.contains(' ') by {
                        assert(texts(name_and_args.1@)[i] == all[i + 1]);
                    }
                }
                name_and_args
            },
            CommandNameAndArgs::Vec(command) => {
                let args = command.args();
                assert(texts(args@)[0] == args@[0]@);
                let name_and_args = (args[0].clone(), copy_from(args, 1));
                assert(seq![name_and_args.0@] + texts(name_and_args.1@) =~= command@);
                name_and_args
            },
            CommandNameAndArgs::Structured { env: _, command } => {
                let args = command.args();
                assert(texts(args@)[0] == args@[0]@);
                let name_and_args = (args[0].clone(), copy_from(args, 1));
                assert(seq![name_and_args.0@] + texts(name_and_args.1@) =~= command@);
                name_and_args
            },
        }
    }

    /// Returns the command to run.
    pub fn to_command(&self) -> (command: CommandLine)
        ensures
            command.name@ == self.words()[0],
            pairs(command.env@) == self.env(),
            texts(command.args@) == self.words().skip(1),
            match *self {
                CommandNameAndArgs::Structured { env, command: _ } => pairs(command.env@)
                    == env.listed(),
                _ => command.env.len() == 0,
            },
    {
        let variables: Vec<(String, String)> = Vec::new();
        proof {
            assert(pairs(variables@) =~= Seq::empty());
            law_nothing_is_interpolated_without_values(self.words().skip(1));
        }
        self.to_command_with_variables(&variables)
    }

    /// Returns the command to run after interpolating variables into the
    /// arguments.
    pub fn to_command_with_variables(&self, variables: &Vec<(String, String)>) -> (command:
        CommandLine)
        ensures
            command.name@ == self.words()[0],
            pairs(command.env@) == self.env(),
            texts(command.args@) == interpolated_all(self.words().skip(1), pairs(variables@)),
            match *self {
                CommandNameAndArgs::Structured { env, command: _ } => pairs(command.env@)
                    == env.listed(),
                _ => command.env.len() == 0,
            },
    {
        let (name, args) = self.split_name_and_args();
        let env = match self {
            CommandNameAndArgs::Structured { env, command: _ } => copy_entries(env.entries()),
            _ => {
                let none: Vec<(String, String)> = Vec::new();
                assert(pairs(none@) =~= Seq::empty());
                none
            },
        };
        CommandLine { name, env, args: interpolate_variables(&args, variables) }
    }

    /// Returns the command as text.
    pub fn display(&self) -> (text: String)
        ensures
            text@ == self.text(),
            match *self {
                CommandNameAndArgs::String(s) => text@ == s@,
                CommandNameAndArgs::Vec(command) => text@ == joined(command@),
                CommandNameAndArgs::Structured { env, command } => text@ == assignments(
                    env.listed(),
                ) + joined(command@),
            },
    {
        match self {
            CommandNameAndArgs::String(text) => text.clone(),
            CommandNameAndArgs::Vec(command) => join(command.args()),
            CommandNameAndArgs::Structured { env, command } => {
                let env = env.entries();
                let mut text = String::new();
                let mut i: usize = 0;
                assert(pairs(env@).take(0) =~= Seq::empty());
                while i < env.len()
                    invariant
                        i <= env.len(),
                        text@ == assignments(pairs(env@).take(i as int)),
                    decreases env.len() - i,
                {
                    assert(pairs(env@).take(i + 1).drop_last() =~= pairs(env@).take(i as int));
                    assert(pairs(env@).take(i + 1).last() == pairs(env@)[i as int]);
                    text.append(env[i].0.as_str());
                    text.append("=");
                    text.append(env[i].1.as_str());
                    text.append(" ");
                    i += 1;
                }
                assert(pairs(env@).take(i as int) =~= pairs(env@));
                text.append(join(command.args()).as_str());
                text
            },
        }
    }
}

impl<'a> vstd::std_specs::convert::FromSpecImpl<&'a str> for CommandNameAndArgs {
    open spec fn obeys_from_spec() -> bool {
        false
    }

    open spec fn from_spec(text: &'a str) -> Self {
        vstd::pervasive::arbitrary()
    }
}

impl<'a> From<&'a str> for CommandNameAndArgs {
    fn from(text: &'a str) -> (command: Self)
        ensures
            command matches CommandNameAndArgs::String(s) && s@ == text@,
    {
        CommandNameAndArgs::String(text.to_owned())
    }
}

/// Joining words is joining some of them, a blank, and joining the others.
pub proof fn law_words_are_joined_by_blanks(
    first: Seq<Seq<char>>,
    second: Seq<Seq<char>>,
    word: Seq<char>,
)
    ensures
        joined(seq![word]) == word,
        joined(Seq::empty()) == Seq::<char>::empty(),
        first.len() > 0 && second.len() > 0 ==> joined(first + second) == joined(first) + seq![' ']
            + joined(second),
    decreases second.len(),
{
    reveal_strlit(" ");
    assert(" "@ =~= seq![' ']);
    if first.len() > 0 && second.len() > 0 {
        let front = second.drop_last();
        law_words_are_joined_by_blanks(first, front, word);
        assert((first + second).drop_last() =~= first + front);
        if front.len() == 0 {
            assert(first + front =~= first);
        }
        assert(joined(first + second) =~= joined(first) + seq![' '] + joined(second));
    }
}

/// Each assignment is a name, an equals sign, a value and a blank, one behind the other.
pub proof fn law_assignments_stand_behind_each_other(
    first: Seq<(Seq<char>, Seq<char>)>,
    second: Seq<(Seq<char>, Seq<char>)>,
    name: Seq<char>,
    value: Seq<char>,
)
    ensures
        assignments(seq![(name, value)]) == name + seq!['='] + value + seq![' '],
        assignments(Seq::empty()) == Seq::<char>::empty(),
        assignments(first + second) == assignments(first) + assignments(second),
    decreases second.len(),
{
    reveal_with_fuel(assignments, 2);
    reveal_strlit(" ");
    reveal_strlit("=");
    assert(" "@ =~= seq![' ']);
    assert("="@ =~= seq!['=']);
    assert(seq![(name, value)].drop_last() =~= Seq::empty());
    assert(assignments(seq![(name, value)]) =~= name + seq!['='] + value + seq![' ']);
    if second.len() == 0 {
        assert(first + second =~= first);
        assert(assignments(first + second) =~= assignments(first) + assignments(second));
    } else {
        law_assignments_stand_behind_each_other(first, second.drop_last(), name, value);
        assert((first + second).drop_last() =~= first + second.drop_last());
        assert(assignments(first + second) =~= assignments(first) + assignments(second));
    }
}

/// The words of a command that is an array are those of the array. The words of a
/// command that is a text make up the text, with a blank between each two of them, and
/// hold no blanks. Only a structured command sets environment variables.
pub proof fn law_words_of_a_command(command: CommandNameAndArgs)
    ensures
        command matches CommandNameAndArgs::Vec(args) ==> command.words() == args@
            && command.env().len() == 0 && command.text() == joined(args@),
        command matches CommandNameAndArgs::Structured { env, command: args }
            ==> command.words() == args@ && command.env() == env.listed() && command.text()
            == assignments(env.listed()) + joined(args@),
        command matches CommandNameAndArgs::String(text) ==> {
            &&& command.words().len() > 0
            &&& joined(command.words()) == text@
            &&& forall|i: int|
                0 <= i < command.words().len() ==> !(#[trigger] command.words()[i]).contains(' ')
            &&& command.env().len() == 0
            &&& command.text() == text@
        },
{
    if let CommandNameAndArgs::String(text) = command {
        law_pieces_make_up_the_text(text@);
        law_pieces_hold_no_blank(text@);
        lemma_pieces_not_empty(text@);
    }
}

/// A command that sets no environment variables, and whose words hold no blanks, is
/// the same command again if its text is taken for a command.
pub proof fn law_displayed_command_is_the_same(command: CommandNameAndArgs, text: String)
    requires
        command.words().len() > 0,
        command.env().len() == 0,
        forall|i: int|
            0 <= i < command.words().len() ==> !(#[trigger] command.words()[i]).contains(' '),
        text@ == command.text(),
    ensures
        CommandNameAndArgs::String(text).words() == command.words(),
        CommandNameAndArgs::String(text).env() == command.env(),
{
    match command {
        CommandNameAndArgs::String(_) => {},
        CommandNameAndArgs::Vec(args) => {
            law_joined_words_are_split_again(args@);
        },
        CommandNameAndArgs::Structured { env, command: args } => {
            law_joined_words_are_split_again(args@);
            assert(text@ =~= joined(args@));
            assert(env.listed() =~= Seq::empty());
        },
    }
}

} // verus!
