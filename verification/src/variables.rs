//! Variables in command arguments.
use crate::name_path::texts;
use crate::regex_crate::{find_all, replace_all, unicode_word};
use vstd::prelude::*;
use vstd::string::StrSliceExecFns;

verus! {

/// What a variable looks like. Not interested in $UPPER_CASE_VARIABLES.
pub const VARIABLE_PATTERN: &'static str = r"\$([a-z0-9_]+)\b";

/// A character of a variable's name.
pub open spec fn variable_char(c: char) -> bool {
    ('a' <= c <= 'z') || ('0' <= c <= '9') || c == '_'
}

/// A word character of ASCII.
pub open spec fn ascii_word(c: char) -> bool {
    ('a' <= c <= 'z') || ('A' <= c <= 'Z') || ('0' <= c <= '9') || c == '_'
}

/// The word characters of ASCII, and beyond it those that `word` holds of.
pub open spec fn word_char(c: char, word: spec_fn(char) -> bool) -> bool {
    if c as int >= 128 {
        word(c)
    } else {
        ascii_word(c)
    }
}

/// The word characters of Unicode.
pub open spec fn words() -> spec_fn(char) -> bool {
    |c: char| unicode_word(c)
}

/// Where the characters of a variable's name end that stand in `text` from
/// `start` on.
pub open spec fn name_end(text: Seq<char>, start: int) -> int
    decreases text.len() - start,
{
    if 0 <= start < text.len() && variable_char(text[start]) {
        name_end(text, start + 1)
    } else {
        start
    }
}

/// A variable stands at the given position: a dollar sign and a name that ends
/// where the word ends.
pub open spec fn variable_at(text: Seq<char>, start: int, word: spec_fn(char) -> bool) -> bool {
    let end = name_end(text, start + 1);
    &&& text[start] == '$'
    &&& end > start + 1
    &&& end == text.len() || !word_char(text[end], word)
}

/// The value of a variable. If a name stands in the list more than once, its last
/// value counts.
pub open spec fn variable_value(
    variables: Seq<(Seq<char>, Seq<char>)>,
    name: Seq<char>,
) -> Option<Seq<char>>
    decreases variables.len(),
{
    if variables.len() == 0 {
        None
    } else if variables.last().0 == name {
        Some(variables.last().1)
    } else {
        variable_value(variables.drop_last(), name)
    }
}

/// What stands for a variable: its value, or the variable itself if it has none.
pub open spec fn substituted(
    whole: Seq<char>,
    name: Seq<char>,
    variables: Seq<(Seq<char>, Seq<char>)>,
) -> Seq<char> {
    match variable_value(variables, name) {
        Some(value) => value,
        None => whole,
    }
}

/// A name ends after its start, inside the text.
pub proof fn lemma_name_end(text: Seq<char>, start: int)
    ensures
        start <= name_end(text, start),
        0 <= start <= text.len() ==> name_end(text, start) <= text.len(),
        forall|i: int| start <= i < name_end(text, start) ==> variable_char(#[trigger] text[i]),
    decreases text.len() - start,
{
    if 0 <= start < text.len() && variable_char(text[start]) {
        lemma_name_end(text, start + 1);
    }
}

/// The text from `start` on, with values in place of its variables.
pub open spec fn interpolated(
    text: Seq<char>,
    start: int,
    variables: Seq<(Seq<char>, Seq<char>)>,
    word: spec_fn(char) -> bool,
) -> Seq<char>
    decreases text.len() - start,
{
    if 0 <= start < text.len() {
        if variable_at(text, start, word) {
            proof {
                lemma_name_end(text, start + 1);
            }
            let end = name_end(text, start + 1);
            substituted(text.subrange(start, end), text.subrange(start + 1, end), variables)
                + interpolated(text, end, variables, word)
        } else {
            seq![text[start]] + interpolated(text, start + 1, variables, word)
        }
    } else {
        Seq::empty()
    }
}

/// The variables that stand in the text from `start` on, with their dollar signs.
pub open spec fn variables_in(text: Seq<char>, start: int, word: spec_fn(char) -> bool) -> Seq<
    Seq<char>,
>
    decreases text.len() - start,
{
    if 0 <= start < text.len() {
        if variable_at(text, start, word) {
            proof {
                lemma_name_end(text, start + 1);
            }
            let end = name_end(text, start + 1);
            seq![text.subrange(start, end)] + variables_in(text, end, word)
        } else {
            variables_in(text, start + 1, word)
        }
    } else {
        Seq::empty()
    }
}

/// The texts of a list of names and values.
pub open spec fn pairs(variables: Seq<(String, String)>) -> Seq<(Seq<char>, Seq<char>)> {
    variables.map_values(|variable: (String, String)| (variable.0@, variable.1@))
}

/// Gives what stands for a variable, which is written as `whole`.
pub fn substitution(whole: &str, name: &str, variables: &Vec<(String, String)>) -> (text: String)
    ensures
        text@ == substituted(whole@, name@, pairs(variables@)),
{
    let wanted = name.to_owned();
    let mut i: usize = variables.len();
    assert(pairs(variables@).take(i as int) =~= pairs(variables@));
    while i > 0
        invariant
            i <= variables.len(),
            wanted@ == name@,
            variable_value(pairs(variables@), name@) == variable_value(
                pairs(variables@).take(i as int),
                name@,
            ),
        decreases i,
    {
        i -= 1;
        assert(pairs(variables@).take(i + 1).drop_last() =~= pairs(variables@).take(i as int));
        assert(pairs(variables@).take(i + 1).last() == pairs(variables@)[i as int]);
        if variables[i].0 == wanted {
            return variables[i].1.clone();
        }
    }
    whole.to_owned()
}

/// The arguments with values in place of their variables.
pub open spec fn interpolated_all(
    args: Seq<Seq<char>>,
    variables: Seq<(Seq<char>, Seq<char>)>,
) -> Seq<Seq<char>> {
    args.map_values(|arg: Seq<char>| interpolated(arg, 0, variables, words()))
}

/// Puts values in place of the variables in the arguments. A variable that has no
/// value is left as it is.
pub fn interpolate_variables(args: &Vec<String>, variables: &Vec<(String, String)>) -> (replaced:
    Vec<String>)
    ensures
        texts(replaced@) == interpolated_all(texts(args@), pairs(variables@)),
        replaced.len() == args.len(),
        forall|i: int, k: int|
            0 <= i < args.len() && 0 <= k < variables.len() && args@[i]@ == seq!['$']
                + variables@[k].0@ && plain_name(variables@[k].0@) && (forall|j: int|
                k < j < variables.len() ==> (#[trigger] variables@[j]).0@ != variables@[k].0@)
                ==> (#[trigger] replaced@[i])@ == (#[trigger] variables@[k]).1@,
{
    let mut replaced: Vec<String> = Vec::new();
    let mut i: usize = 0;
    while i < args.len()
        invariant
            i <= args.len(),
            replaced.len() == i,
            forall|j: int|
                0 <= j < i ==> #[trigger] replaced@[j]@ == interpolated(
                    args@[j]@,
                    0,
                    pairs(variables@),
                    words(),
                ),
        decreases args.len() - i,
    {
        assert(words() =~= (|c: char| unicode_word(c)));
        replaced.push(replace_all(VARIABLE_PATTERN, args[i].as_str(), variables));
        i += 1;
    }
    assert(texts(replaced@) =~= interpolated_all(texts(args@), pairs(variables@)));
    proof {
        let list = pairs(variables@);
        assert forall|i: int, k: int|
            0 <= i < args.len() && 0 <= k < variables.len() && args@[i]@ == seq!['$']
                + variables@[k].0@ && plain_name(variables@[k].0@) && (forall|j: int|
                k < j < variables.len() ==> (#[trigger] variables@[j]).0@
                    != variables@[k].0@) implies (#[trigger] replaced@[i])@
            == (#[trigger] variables@[k]).1@ by {
            assert(list[k] == (variables@[k].0@, variables@[k].1@));
            assert forall|j: int| k < j < list.len() implies (#[trigger] list[j]).0 != list[k].0 by {
                assert(list[j].0 == variables@[j].0@);
            }
            law_variable_becomes_its_value(texts(args@), i, list, k, Seq::empty(), Seq::empty());
            assert(Seq::<char>::empty() + (seq!['$'] + list[k].0) + Seq::<char>::empty()
                =~= texts(args@)[i]);
            law_text_without_dollar_sign_is_kept(Seq::empty(), list);
            assert(seq![Seq::<char>::empty()][0] =~= Seq::<char>::empty());
            assert(interpolated_all(seq![Seq::<char>::empty()], list)[0] =~= Seq::<char>::empty());
            assert(texts(replaced@)[i] == replaced@[i]@);
            assert(replaced@[i]@ =~= variables@[k].1@);
        }
    }
    replaced
}

/// A name that a variable can have: small letters, digits and underscores.
pub open spec fn plain_name(name: Seq<char>) -> bool {
    &&& name.len() > 0
    &&& forall|i: int|
        0 <= i < name.len() ==> ('a' <= (#[trigger] name[i]) <= 'z' || '0' <= name[i] <= '9'
            || name[i] == '_')
}

/// The text does not go on with a word.
pub open spec fn no_word_follows(after: Seq<char>) -> bool {
    after.len() > 0 ==> {
        let c = after[0];
        &&& !('a' <= c <= 'z') && !('A' <= c <= 'Z') && !('0' <= c <= '9') && c != '_'
        &&& c as int >= 128 ==> !unicode_word(c)
    }
}

/// The names of the variables of a text, without the dollar signs.
pub open spec fn names_in(text: Seq<char>) -> Seq<Seq<char>> {
    variables_in(text, 0, words()).map_values(|variable: Seq<char>| variable.skip(1))
}

/// The names of the variables of the arguments, in order.
pub open spec fn names_in_all(args: Seq<Seq<char>>) -> Seq<Seq<char>>
    decreases args.len(),
{
    if args.len() == 0 {
        Seq::empty()
    } else {
        names_in_all(args.drop_last()) + names_in(args.last())
    }
}

/// Every variable is at least a dollar sign.
proof fn lemma_variables_start(text: Seq<char>, start: int, word: spec_fn(char) -> bool)
    requires
        0 <= start,
    ensures
        forall|i: int|
            0 <= i < variables_in(text, start, word).len() ==> (#[trigger] variables_in(
                text,
                start,
                word,
            )[i]).len() > 1,
    decreases text.len() - start,
{
    if 0 <= start < text.len() {
        let end = name_end(text, start + 1);
        lemma_name_end(text, start + 1);
        if variable_at(text, start, word) {
            lemma_variables_start(text, end, word);
            let rest = variables_in(text, end, word);
            assert forall|i: int|
                0 <= i < variables_in(text, start, word).len() implies (#[trigger] variables_in(
                text,
                start,
                word,
            )[i]).len() > 1 by {
                if i > 0 {
                    assert(variables_in(text, start, word)[i] == rest[i - 1]);
                }
            }
        } else {
            lemma_variables_start(text, start + 1, word);
            assert(variables_in(text, start, word) == variables_in(text, start + 1, word));
        }
    }
}

/// Return all variable names found in the args, without the dollar sign.
pub fn find_all_variables(args: &Vec<String>) -> (names: Vec<String>)
    ensures
        texts(names@) == names_in_all(texts(args@)),
{
    let mut names: Vec<String> = Vec::new();
    let mut i: usize = 0;
    assert(texts(names@) =~= Seq::empty());
    assert(texts(args@).take(0) =~= Seq::empty());
    while i < args.len()
        invariant
            i <= args.len(),
            texts(names@) == names_in_all(texts(args@).take(i as int)),
        decreases args.len() - i,
    {
        let ghost before = texts(names@);
        let ghost text = args@[i as int]@;
        assert(words() =~= (|c: char| unicode_word(c)));
        let found = find_all(VARIABLE_PATTERN, args[i].as_str());
        let mut k: usize = 0;
        proof {
            lemma_variables_start(text, 0, words());
        }
        assert(names_in(text).take(0) =~= Seq::empty());
        assert(texts(names@) =~= before + names_in(text).take(0));
        while k < found.len()
            invariant
                k <= found.len(),
                texts(found@) == variables_in(text, 0, words()),
                forall|j: int|
                    0 <= j < variables_in(text, 0, words()).len() ==> (#[trigger] variables_in(
                        text,
                        0,
                        words(),
                    )[j]).len() > 1,
                texts(names@) == before + names_in(text).take(k as int),
            decreases found.len() - k,
        {
            let variable = found[k].as_str();
            assert(variable@ == variables_in(text, 0, words())[k as int]);
            let ghost so_far = texts(names@);
            names.push(variable.substring_char(1, variable.unicode_len()).to_owned());
            assert(names_in(text)[k as int] =~= names@.last()@);
            assert(texts(names@) =~= so_far.push(names_in(text)[k as int]));
            assert(names_in(text).take(k + 1) =~= names_in(text).take(k as int).push(
                names_in(text)[k as int],
            ));
            k += 1;
        }
        assert(names_in(text).take(k as int) =~= names_in(text));
        assert(texts(args@).take(i + 1).drop_last() =~= texts(args@).take(i as int));
        assert(texts(args@).take(i + 1).last() == text);
        i += 1;
    }
    assert(texts(args@).take(i as int) =~= texts(args@));
    names
}

/// The text from `start` on is kept where no variable has a value.
proof fn lemma_interpolated_without_values(text: Seq<char>, start: int, word: spec_fn(char) -> bool)
    requires
        0 <= start <= text.len(),
    ensures
        interpolated(text, start, Seq::empty(), word) == text.skip(start),
    decreases text.len() - start,
{
    if start < text.len() {
        if variable_at(text, start, word) {
            let end = name_end(text, start + 1);
            lemma_name_end(text, start + 1);
            lemma_interpolated_without_values(text, end, word);
            assert(text.skip(start) =~= text.subrange(start, end) + text.skip(end));
        } else {
            lemma_interpolated_without_values(text, start + 1, word);
            assert(text.skip(start) =~= seq![text[start]] + text.skip(start + 1));
        }
    } else {
        assert(text.skip(start) =~= Seq::empty());
    }
}

/// Without values nothing is interpolated.
pub proof fn law_nothing_is_interpolated_without_values(args: Seq<Seq<char>>)
    ensures
        interpolated_all(args, Seq::empty()) == args,
{
    assert forall|i: int| 0 <= i < args.len() implies #[trigger] interpolated_all(
        args,
        Seq::empty(),
    )[i] == args[i] by {
        lemma_interpolated_without_values(args[i], 0, words());
        assert(args[i].skip(0) =~= args[i]);
    }
    assert(interpolated_all(args, Seq::empty()) =~= args);
}

/// A name ends where its characters do, in whatever text it stands.
proof fn lemma_name_end_in(text: Seq<char>, start: int, part: Seq<char>, offset: int)
    requires
        0 <= start <= part.len(),
        0 <= offset,
        offset + part.len() <= text.len(),
        forall|i: int| 0 <= i < part.len() ==> #[trigger] part[i] == text[offset + i],
        offset + part.len() < text.len() ==> !variable_char(text[offset + part.len()]),
    ensures
        name_end(text, offset + start) == offset + name_end(part, start),
    decreases part.len() - start,
{
    if start < part.len() && variable_char(part[start]) {
        assert(text[offset + start] == part[start]);
        lemma_name_end_in(text, start + 1, part, offset);
    } else if start < part.len() {
        assert(text[offset + start] == part[start]);
    }
}

/// A text can be cut before a dollar sign, and its parts can be interpolated by
/// themselves.
proof fn lemma_cut_before_dollar_sign(
    text: Seq<char>,
    start: int,
    at: int,
    variables: Seq<(Seq<char>, Seq<char>)>,
    word: spec_fn(char) -> bool,
)
    requires
        0 <= start <= at <= text.len(),
        at < text.len() ==> text[at] == '$',
    ensures
        interpolated(text, start, variables, word) == interpolated(
            text.take(at),
            start,
            variables,
            word,
        ) + interpolated(text, at, variables, word),
        variables_in(text, start, word) == variables_in(text.take(at), start, word) + variables_in(
            text,
            at,
            word,
        ),
    decreases at - start,
{
    let front = text.take(at);
    if start < at {
        lemma_name_end_in(text, start + 1, front, 0);
        lemma_name_end(front, start + 1);
        let end = name_end(text, start + 1);
        assert(front[start] == text[start]);
        if end < at {
            assert(front[end] == text[end]);
        }
        assert(variable_at(text, start, word) == variable_at(front, start, word));
        if variable_at(text, start, word) {
            lemma_cut_before_dollar_sign(text, end, at, variables, word);
            assert(front.subrange(start, end) =~= text.subrange(start, end));
            assert(front.subrange(start + 1, end) =~= text.subrange(start + 1, end));
            let value = substituted(
                text.subrange(start, end),
                text.subrange(start + 1, end),
                variables,
            );
            assert(interpolated(text, start, variables, word) =~= interpolated(
                front,
                start,
                variables,
                word,
            ) + interpolated(text, at, variables, word));
            assert(variables_in(text, start, word) =~= variables_in(front, start, word)
                + variables_in(text, at, word));
        } else {
            lemma_cut_before_dollar_sign(text, start + 1, at, variables, word);
            assert(interpolated(text, start, variables, word) =~= interpolated(
                front,
                start,
                variables,
                word,
            ) + interpolated(text, at, variables, word));
            assert(variables_in(text, start, word) =~= variables_in(front, start, word)
                + variables_in(text, at, word));
        }
    } else {
        assert(interpolated(front, at, variables, word) == Seq::<char>::empty());
        assert(variables_in(front, at, word) == Seq::<Seq<char>>::empty());
        assert(interpolated(text, at, variables, word) =~= Seq::<char>::empty() + interpolated(
            text,
            at,
            variables,
            word,
        ));
        assert(variables_in(text, at, word) =~= Seq::<Seq<char>>::empty() + variables_in(
            text,
            at,
            word,
        ));
    }
}

/// What stands in a text from some place on is interpolated like a text by itself.
proof fn lemma_interpolated_rest(
    text: Seq<char>,
    offset: int,
    start: int,
    variables: Seq<(Seq<char>, Seq<char>)>,
    word: spec_fn(char) -> bool,
)
    requires
        0 <= offset <= text.len(),
        0 <= start <= text.len() - offset,
    ensures
        interpolated(text, offset + start, variables, word) == interpolated(
            text.skip(offset),
            start,
            variables,
            word,
        ),
        variables_in(text, offset + start, word) == variables_in(text.skip(offset), start, word),
    decreases text.len() - offset - start,
{
    let rest = text.skip(offset);
    if start < rest.len() {
        lemma_name_end_in(text, start + 1, rest, offset);
        lemma_name_end(rest, start + 1);
        let end = name_end(rest, start + 1);
        assert(rest[start] == text[offset + start]);
        if end < rest.len() {
            assert(rest[end] == text[offset + end]);
        }
        assert(variable_at(text, offset + start, word) == variable_at(rest, start, word));
        if variable_at(rest, start, word) {
            lemma_interpolated_rest(text, offset, end, variables, word);
            assert(rest.subrange(start, end) =~= text.subrange(offset + start, offset + end));
            assert(rest.subrange(start + 1, end) =~= text.subrange(
                offset + start + 1,
                offset + end,
            ));
        } else {
            lemma_interpolated_rest(text, offset, start + 1, variables, word);
        }
    }
}

/// Where a name starts in a text and how it goes on there.
proof fn lemma_name_stands(text: Seq<char>, start: int, end: int)
    requires
        0 <= start <= end <= text.len(),
        forall|i: int| start <= i < end ==> variable_char(#[trigger] text[i]),
        end < text.len() ==> !variable_char(text[end]),
    ensures
        name_end(text, start) == end,
    decreases end - start,
{
    if start < end {
        assert(variable_char(text[start]));
        lemma_name_stands(text, start + 1, end);
    }
}

/// The value at `k` counts if no later one has the same name. Without one the name has
/// no value.
proof fn lemma_variable_value(variables: Seq<(Seq<char>, Seq<char>)>, name: Seq<char>)
    ensures
        forall|k: int|
            0 <= k < variables.len() && (#[trigger] variables[k]).0 == name && (forall|j: int|
                k < j < variables.len() ==> (#[trigger] variables[j]).0 != name)
                ==> variable_value(variables, name) == Some(variables[k].1),
        (forall|k: int| 0 <= k < variables.len() ==> (#[trigger] variables[k]).0 != name)
            ==> variable_value(variables, name) is None,
    decreases variables.len(),
{
    if variables.len() > 0 {
        let front = variables.drop_last();
        let last = variables.len() - 1;
        assert(forall|k: int| 0 <= k < front.len() ==> #[trigger] front[k] == variables[k]);
        lemma_variable_value(front, name);
        assert forall|k: int|
            0 <= k < variables.len() && (#[trigger] variables[k]).0 == name && (forall|j: int|
                k < j < variables.len() ==> (#[trigger] variables[j]).0
                    != name) implies variable_value(variables, name) == Some(variables[k].1) by {
            if k < last {
                assert(variables[last].0 != name);
                assert(front[k].0 == name);
                assert forall|j: int| k < j < front.len() implies (#[trigger] front[j]).0
                    != name by {
                    assert(variables[j].0 != name);
                }
            }
        }
        if forall|k: int| 0 <= k < variables.len() ==> (#[trigger] variables[k]).0 != name {
            assert(variables[last].0 != name);
            assert forall|k: int| 0 <= k < front.len() implies (#[trigger] front[k]).0 != name by {
                assert(variables[k].0 != name);
            }
        }
    }
}

/// What becomes of a text in which a variable stands behind `before`.
proof fn lemma_variable_between(
    before: Seq<char>,
    name: Seq<char>,
    after: Seq<char>,
    variables: Seq<(Seq<char>, Seq<char>)>,
)
    requires
        plain_name(name),
        no_word_follows(after),
    ensures
        interpolated(before + (seq!['$'] + name) + after, 0, variables, words()) == interpolated(
            before,
            0,
            variables,
            words(),
        ) + substituted(seq!['$'] + name, name, variables) + interpolated(
            after,
            0,
            variables,
            words(),
        ),
        variables_in(before + (seq!['$'] + name) + after, 0, words()) == variables_in(
            before,
            0,
            words(),
        ) + seq![seq!['$'] + name] + variables_in(after, 0, words()),
{
    let text = before + (seq!['$'] + name) + after;
    let at = before.len() as int;
    let end = at + 1 + name.len();
    assert(text[at] == '$');
    lemma_cut_before_dollar_sign(text, 0, at, variables, words());
    assert(text.take(at) =~= before);
    assert forall|i: int| at + 1 <= i < end implies variable_char(#[trigger] text[i]) by {
        assert(text[i] == name[i - at - 1]);
    }
    if end < text.len() {
        assert(text[end] == after[0]);
    }
    lemma_name_stands(text, at + 1, end);
    assert(variable_at(text, at, words()));
    assert(text.subrange(at, end) =~= seq!['$'] + name);
    assert(text.subrange(at + 1, end) =~= name);
    lemma_interpolated_rest(text, end, 0, variables, words());
    assert(text.skip(end) =~= after);
    assert(interpolated(text, 0, variables, words()) =~= interpolated(
        before,
        0,
        variables,
        words(),
    ) + substituted(seq!['$'] + name, name, variables) + interpolated(
        after,
        0,
        variables,
        words(),
    ));
    assert(variables_in(text, 0, words()) =~= variables_in(before, 0, words()) + seq![seq!['$']
        + name] + variables_in(after, 0, words()));
}

/// Where a variable stands in an argument, its value comes to stand, character by
/// character. If the list holds the variable more than once, its last value counts. What
/// stands before and behind it is interpolated by itself, and so is every argument.
pub proof fn law_variable_becomes_its_value(
    args: Seq<Seq<char>>,
    i: int,
    variables: Seq<(Seq<char>, Seq<char>)>,
    k: int,
    before: Seq<char>,
    after: Seq<char>,
)
    requires
        0 <= i < args.len(),
        0 <= k < variables.len(),
        variables[k].0.len() > 0,
        forall|n: int|
            0 <= n < variables[k].0.len() ==> ('a' <= (#[trigger] variables[k].0[n]) <= 'z' || '0'
                <= variables[k].0[n] <= '9' || variables[k].0[n] == '_'),
        forall|j: int| k < j < variables.len() ==> (#[trigger] variables[j]).0 != variables[k].0,
        after.len() > 0 ==> !('a' <= after[0] <= 'z') && !('A' <= after[0] <= 'Z') && !('0'
            <= after[0] <= '9') && after[0] != '_' && (after[0] as int >= 128 ==> !unicode_word(
            after[0],
        )),
        args[i] == before + (seq!['$'] + variables[k].0) + after,
    ensures
        interpolated_all(args, variables).len() == args.len(),
        interpolated_all(args, variables)[i] == interpolated_all(seq![before], variables)[0]
            + variables[k].1 + interpolated_all(seq![after], variables)[0],
{
    lemma_variable_between(before, variables[k].0, after, variables);
    lemma_variable_value(variables, variables[k].0);
    assert(variable_value(variables, variables[k].0) == Some(variables[k].1));
}

/// An argument that is a variable and nothing else becomes its value.
pub proof fn law_variable_alone_becomes_its_value(
    variables: Seq<(Seq<char>, Seq<char>)>,
    k: int,
)
    requires
        0 <= k < variables.len(),
        variables[k].0.len() > 0,
        forall|n: int|
            0 <= n < variables[k].0.len() ==> ('a' <= (#[trigger] variables[k].0[n]) <= 'z' || '0'
                <= variables[k].0[n] <= '9' || variables[k].0[n] == '_'),
        forall|j: int| k < j < variables.len() ==> (#[trigger] variables[j]).0 != variables[k].0,
    ensures
        interpolated_all(seq![seq!['$'] + variables[k].0], variables) == seq![variables[k].1],
{
    let empty = Seq::<char>::empty();
    let text = seq!['$'] + variables[k].0;
    assert(empty + text + empty =~= text);
    law_variable_becomes_its_value(seq![text], 0, variables, k, empty, empty);
    law_text_without_dollar_sign_is_kept(empty, variables);
    assert(interpolated_all(seq![text], variables)[0] =~= variables[k].1);
    assert(interpolated_all(seq![text], variables) =~= seq![variables[k].1]);
}

/// A variable that has no value is kept as it is written.
pub proof fn law_variable_without_value_is_kept(
    args: Seq<Seq<char>>,
    i: int,
    variables: Seq<(Seq<char>, Seq<char>)>,
    name: Seq<char>,
    before: Seq<char>,
    after: Seq<char>,
)
    requires
        0 <= i < args.len(),
        plain_name(name),
        forall|k: int| 0 <= k < variables.len() ==> (#[trigger] variables[k]).0 != name,
        no_word_follows(after),
        args[i] == before + (seq!['$'] + name) + after,
    ensures
        interpolated_all(args, variables).len() == args.len(),
        interpolated_all(args, variables)[i] == interpolated_all(seq![before], variables)[0] + (
        seq!['$'] + name) + interpolated_all(seq![after], variables)[0],
{
    lemma_variable_between(before, name, after, variables);
    lemma_variable_value(variables, name);
}

/// The text goes on in a way that makes no variable of a dollar sign before it: with no
/// character of a name, or with some that are followed by another word character.
pub open spec fn no_variable_follows(after: Seq<char>) -> bool {
    ||| after.len() == 0
    ||| !plain_name(after.take(1))
    ||| exists|n: int|
        {
            &&& 0 < n < after.len()
            &&& #[trigger] plain_name(after.take(n))
            &&& ('A' <= after[n] <= 'Z' || (after[n] as int >= 128 && unicode_word(after[n])))
        }
}

/// Every other dollar sign is kept.
pub proof fn law_other_dollar_sign_is_kept(
    args: Seq<Seq<char>>,
    i: int,
    variables: Seq<(Seq<char>, Seq<char>)>,
    before: Seq<char>,
    after: Seq<char>,
)
    requires
        0 <= i < args.len(),
        no_variable_follows(after),
        args[i] == before + seq!['$'] + after,
    ensures
        interpolated_all(args, variables).len() == args.len(),
        interpolated_all(args, variables)[i] == interpolated_all(seq![before], variables)[0]
            + seq!['$'] + interpolated_all(seq![after], variables)[0],
        names_in(args[i]) == names_in(before) + names_in(after),
{
    lemma_other_dollar_sign(before, after, variables);
}

/// What becomes of a text in which a dollar sign stands that makes no variable.
proof fn lemma_other_dollar_sign(
    before: Seq<char>,
    after: Seq<char>,
    variables: Seq<(Seq<char>, Seq<char>)>,
)
    requires
        no_variable_follows(after),
    ensures
        interpolated(before + seq!['$'] + after, 0, variables, words()) == interpolated(
            before,
            0,
            variables,
            words(),
        ) + seq!['$'] + interpolated(after, 0, variables, words()),
        names_in(before + seq!['$'] + after) == names_in(before) + names_in(after),
{
    let text = before + seq!['$'] + after;
    let at = before.len() as int;
    assert(text[at] == '$');
    lemma_cut_before_dollar_sign(text, 0, at, variables, words());
    assert(text.take(at) =~= before);
    assert(!variable_at(text, at, words())) by {
        if after.len() > 0 {
            assert(text[at + 1] == after[0]);
            assert(after.take(1)[0] == after[0]);
            if plain_name(after.take(1)) {
                let n = choose|n: int|
                    {
                        &&& 0 < n < after.len()
                        &&& #[trigger] plain_name(after.take(n))
                        &&& ('A' <= after[n] <= 'Z' || (after[n] as int >= 128 && unicode_word(
                            after[n],
                        )))
                    };
                let end = at + 1 + n;
                assert(text[end] == after[n]);
                assert forall|i: int| at + 1 <= i < end implies variable_char(
                    #[trigger] text[i],
                ) by {
                    assert(text[i] == after.take(n)[i - at - 1]);
                }
                lemma_name_stands(text, at + 1, end);
            } else {
                assert(!variable_char(after[0]));
            }
        }
    }
    lemma_interpolated_rest(text, at + 1, 0, variables, words());
    assert(text.skip(at + 1) =~= after);
    assert(interpolated(text, 0, variables, words()) =~= interpolated(
        before,
        0,
        variables,
        words(),
    ) + seq!['$'] + interpolated(after, 0, variables, words()));
    assert(names_in(text) =~= names_in(before) + names_in(after));
}

/// The name of a variable is found where the variable stands, behind those that are
/// found before it and before those that are found behind it.
pub proof fn law_variable_is_found(before: Seq<char>, name: Seq<char>, after: Seq<char>)
    requires
        plain_name(name),
        no_word_follows(after),
    ensures
        names_in(before + (seq!['$'] + name) + after) == names_in(before) + seq![name] + names_in(
            after,
        ),
{
    let text = before + (seq!['$'] + name) + after;
    lemma_variable_between(before, name, after, Seq::empty());
    let whole = seq!['$'] + name;
    assert(whole.skip(1) =~= name);
    let front = variables_in(before, 0, words());
    let back = variables_in(after, 0, words());
    let expected = names_in(before) + seq![name] + names_in(after);
    assert(names_in(text).len() == expected.len());
    assert forall|i: int| 0 <= i < expected.len() implies #[trigger] names_in(text)[i]
        == expected[i] by {
        assert(names_in(text)[i] == (front + seq![whole] + back)[i].skip(1));
    }
    assert(names_in(text) =~= expected);
}

/// The variables of arguments are found argument by argument.
pub proof fn law_variables_are_found_argument_by_argument(
    first: Seq<Seq<char>>,
    second: Seq<Seq<char>>,
    arg: Seq<char>,
)
    ensures
        names_in_all(first + second) == names_in_all(first) + names_in_all(second),
        names_in_all(seq![arg]) == names_in(arg),
        names_in_all(Seq::empty()) == Seq::<Seq<char>>::empty(),
    decreases second.len(),
{
    reveal_with_fuel(names_in_all, 2);
    assert(seq![arg].drop_last() =~= Seq::empty());
    assert(names_in_all(seq![arg]) =~= names_in(arg));
    if second.len() == 0 {
        assert(first + second =~= first);
        assert(names_in_all(first + second) =~= names_in_all(first) + names_in_all(second));
    } else {
        law_variables_are_found_argument_by_argument(first, second.drop_last(), arg);
        assert((first + second).drop_last() =~= first + second.drop_last());
        assert(names_in_all(first + second) =~= names_in_all(first) + names_in_all(second));
    }
}

/// The lists of values agree on the given variables.
pub open spec fn agree_on(
    a: Seq<(Seq<char>, Seq<char>)>,
    b: Seq<(Seq<char>, Seq<char>)>,
    names: Seq<Seq<char>>,
) -> bool {
    forall|i: int|
        0 <= i < names.len() ==> variable_value(a, #[trigger] names[i]) == variable_value(
            b,
            names[i],
        )
}

/// The names of variables, without the dollar signs.
spec fn names_of(variables: Seq<Seq<char>>) -> Seq<Seq<char>> {
    variables.map_values(|variable: Seq<char>| variable.skip(1))
}

proof fn lemma_only_found_variables_count(
    text: Seq<char>,
    start: int,
    a: Seq<(Seq<char>, Seq<char>)>,
    b: Seq<(Seq<char>, Seq<char>)>,
    word: spec_fn(char) -> bool,
)
    requires
        0 <= start <= text.len(),
        agree_on(a, b, names_of(variables_in(text, start, word))),
    ensures
        interpolated(text, start, a, word) == interpolated(text, start, b, word),
    decreases text.len() - start,
{
    if start < text.len() {
        let found = variables_in(text, start, word);
        if variable_at(text, start, word) {
            let end = name_end(text, start + 1);
            lemma_name_end(text, start + 1);
            let rest = variables_in(text, end, word);
            assert(found == seq![text.subrange(start, end)] + rest);
            assert(text.subrange(start, end).skip(1) =~= text.subrange(start + 1, end));
            assert(names_of(found)[0] == text.subrange(start + 1, end));
            assert forall|i: int| 0 <= i < names_of(rest).len() implies variable_value(
                a,
                #[trigger] names_of(rest)[i],
            ) == variable_value(b, names_of(rest)[i]) by {
                assert(names_of(found)[i + 1] == names_of(rest)[i]);
            }
            lemma_only_found_variables_count(text, end, a, b, word);
        } else {
            assert(found == variables_in(text, start + 1, word));
            lemma_only_found_variables_count(text, start + 1, a, b, word);
        }
    }
}

/// What is interpolated into a text depends on no values but those of the variables
/// that are found in it.
pub proof fn law_only_found_variables_count(
    text: Seq<char>,
    a: Seq<(Seq<char>, Seq<char>)>,
    b: Seq<(Seq<char>, Seq<char>)>,
)
    requires
        agree_on(a, b, names_in(text)),
    ensures
        interpolated(text, 0, a, words()) == interpolated(text, 0, b, words()),
{
    assert(names_in(text) =~= names_of(variables_in(text, 0, words())));
    lemma_only_found_variables_count(text, 0, a, b, words());
}

proof fn lemma_no_dollar_sign(text: Seq<char>, start: int, word: spec_fn(char) -> bool)
    requires
        0 <= start,
        !text.contains('$'),
    ensures
        variables_in(text, start, word) == Seq::<Seq<char>>::empty(),
    decreases text.len() - start,
{
    if start < text.len() {
        assert(text.contains(text[start]));
        lemma_no_dollar_sign(text, start + 1, word);
    }
}

/// A text without a dollar sign holds no variable, and is kept.
pub proof fn law_text_without_dollar_sign_is_kept(
    text: Seq<char>,
    variables: Seq<(Seq<char>, Seq<char>)>,
)
    requires
        !text.contains('$'),
    ensures
        names_in(text) == Seq::<Seq<char>>::empty(),
        interpolated(text, 0, variables, words()) == text,
        interpolated_all(seq![text], variables) == seq![text],
{
    lemma_no_dollar_sign(text, 0, words());
    assert(names_in(text) =~= Seq::empty());
    law_only_found_variables_count(text, variables, Seq::empty());
    lemma_interpolated_without_values(text, 0, words());
    assert(text.skip(0) =~= text);
    assert(interpolated_all(seq![text], variables) =~= seq![text]);
}

/// A list of names and values is taken as it is, and so is a list of texts.
pub proof fn law_lists_are_taken_as_they_are(
    variables: Seq<(String, String)>,
    args: Seq<String>,
)
    ensures
        pairs(variables).len() == variables.len(),
        forall|k: int|
            0 <= k < variables.len() ==> #[trigger] pairs(variables)[k] == (
                variables[k].0@,
                variables[k].1@,
            ),
        texts(args).len() == args.len(),
        forall|i: int| 0 <= i < args.len() ==> #[trigger] texts(args)[i] == args[i]@,
{
}

/// Every argument is interpolated by itself.
pub proof fn law_arguments_are_interpolated_one_by_one(
    args: Seq<Seq<char>>,
    variables: Seq<(Seq<char>, Seq<char>)>,
)
    ensures
        interpolated_all(args, variables).len() == args.len(),
        forall|i: int|
            0 <= i < args.len() ==> #[trigger] interpolated_all(args, variables)[i]
                == interpolated_all(seq![args[i]], variables)[0],
{
}

} // verus!
