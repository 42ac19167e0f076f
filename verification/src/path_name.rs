//! Names that the `config` crate reads as paths: a name at the top of a table such
//! as `a.b[2]` leads into the table `a`.
use crate::text::characters;
use vstd::prelude::*;
use vstd::string::StrSliceExecFns;

verus! {

/// A step of a path: into a table, or into an array.
pub enum Step {
    Name(Seq<char>),
    Index(int),
}

/// A character of an identifier in a path.
pub open spec fn ident_char(c: char) -> bool {
    ('a' <= c <= 'z') || ('A' <= c <= 'Z') || ('0' <= c <= '9') || c == ' ' || c == '_' || c == '-'
}

/// A space or a tab.
pub open spec fn blank(c: char) -> bool {
    c == ' ' || c == '\t'
}

/// A decimal digit.
pub open spec fn digit(c: char) -> bool {
    '0' <= c <= '9'
}

/// What characters can be made of.
#[derive(Clone, Copy, Debug, PartialEq, Eq, Structural)]
pub enum CharClass {
    Ident,
    Blank,
    Digit,
}

/// The character is of the given class.
pub open spec fn of_class(c: char, class: CharClass) -> bool {
    match class {
        CharClass::Ident => ident_char(c),
        CharClass::Blank => blank(c),
        CharClass::Digit => digit(c),
    }
}

/// Where the characters of the given class end that stand in `text` from `start` on.
pub open spec fn run_end(text: Seq<char>, start: int, class: CharClass) -> int
    decreases text.len() - start,
{
    if 0 <= start < text.len() && of_class(text[start], class) {
        run_end(text, start + 1, class)
    } else {
        start
    }
}

/// The number that the digits from `start` to `end` stand for.
pub open spec fn number(text: Seq<char>, start: int, end: int) -> int
    decreases end - start,
{
    if end <= start {
        0
    } else {
        number(text, start, end - 1) * 10 + (text[end - 1] as int - '0' as int)
    }
}

/// The index in brackets that stands in `text` at `start`, and where it ends.
pub open spec fn index_at(text: Seq<char>, start: int) -> Option<(int, int)> {
    let sign = run_end(text, start + 1, CharClass::Blank);
    let negative = sign < text.len() && text[sign] == '-';
    let digits = if negative {
        sign + 1
    } else {
        sign
    };
    let digits_end = run_end(text, digits, CharClass::Digit);
    let end = run_end(text, digits_end, CharClass::Blank);
    let value = if negative {
        -number(text, digits, digits_end)
    } else {
        number(text, digits, digits_end)
    };
    if digits_end > digits && end < text.len() && text[end] == ']' && isize::MIN <= value
        <= isize::MAX {
        Some((value, end + 1))
    } else {
        None
    }
}

/// A run ends behind its start, inside the text.
pub proof fn lemma_run_end(text: Seq<char>, start: int, class: CharClass)
    ensures
        start <= run_end(text, start, class),
        0 <= start <= text.len() ==> run_end(text, start, class) <= text.len(),
    decreases text.len() - start,
{
    if 0 <= start < text.len() && of_class(text[start], class) {
        lemma_run_end(text, start + 1, class);
    }
}

/// An index ends behind its start, inside the text.
pub proof fn lemma_index_end(text: Seq<char>, start: int)
    ensures
        index_at(text, start) matches Some((_, end)) ==> start + 1 < end <= text.len(),
{
    let sign = run_end(text, start + 1, CharClass::Blank);
    lemma_run_end(text, start + 1, CharClass::Blank);
    let digits = if sign < text.len() && text[sign] == '-' {
        sign + 1
    } else {
        sign
    };
    lemma_run_end(text, digits, CharClass::Digit);
    lemma_run_end(text, run_end(text, digits, CharClass::Digit), CharClass::Blank);
}

/// The steps that `text` holds from `start` on, if it holds nothing else there.
pub open spec fn steps_from(text: Seq<char>, start: int) -> Option<Seq<Step>>
    decreases text.len() - start,
{
    if start < 0 || start >= text.len() {
        Some(Seq::empty())
    } else if text[start] == '.' {
        let end = run_end(text, start + 1, CharClass::Ident);
        if end > start + 1 {
            proof {
                lemma_run_end(text, start + 1, CharClass::Ident);
            }
            with_step(Step::Name(text.subrange(start + 1, end)), steps_from(text, end))
        } else {
            None
        }
    } else if text[start] == '[' {
        match index_at(text, start) {
            Some((value, end)) => {
                proof {
                    lemma_index_end(text, start);
                }
                with_step(Step::Index(value), steps_from(text, end))
            },
            None => None,
        }
    } else {
        None
    }
}

/// The steps behind a first one.
pub open spec fn with_step(step: Step, rest: Option<Seq<Step>>) -> Option<Seq<Step>> {
    match rest {
        Some(rest) => Some(seq![step] + rest),
        None => None,
    }
}

/// The steps that a name takes behind its identifier, if it reads as a path.
pub open spec fn path_steps(name: Seq<char>) -> Option<Seq<Step>> {
    let end = run_end(name, 0, CharClass::Ident);
    if end > 0 {
        steps_from(name, end)
    } else {
        None
    }
}

/// The entry of a table that a name leads to: that of its identifier if it reads as
/// a path, and its own if not.
pub open spec fn root_of(name: Seq<char>) -> Seq<char> {
    if path_steps(name) is Some {
        name.take(run_end(name, 0, CharClass::Ident))
    } else {
        name
    }
}

/// An index that no array has: one below zero, or one up to which no array can be
/// extended.
pub open spec fn out_of_range(index: int) -> bool {
    index < 0 || index > isize::MAX / 1024
}

/// The name reads as a path with an index that is out of range.
pub open spec fn wild_name(name: Seq<char>) -> bool {
    path_steps(name) matches Some(steps) && exists|i: int|
        0 <= i < steps.len() && (#[trigger] steps[i] matches Step::Index(index) && out_of_range(
            index,
        ))
}

/// A name that leads nowhere but to its own entry is not wild.
pub proof fn lemma_own_entry(name: Seq<char>)
    ensures
        root_of(name) == name ==> !wild_name(name),
        !name.contains('.') && !name.contains('[') ==> root_of(name) == name,
{
    let end = run_end(name, 0, CharClass::Ident);
    lemma_run_end(name, 0, CharClass::Ident);
    if path_steps(name) is Some {
        if root_of(name) == name {
            assert(name.take(end).len() == end);
            assert(path_steps(name)->Some_0 =~= Seq::empty());
        }
        if !name.contains('.') && !name.contains('[') {
            if end < name.len() {
                assert(name.contains(name[end]));
            }
            assert(name.take(end) =~= name);
        }
    }
}

/// Where no bracket stands, no step leads into an array.
proof fn lemma_no_bracket(text: Seq<char>, start: int)
    requires
        !text.contains('['),
    ensures
        steps_from(text, start) matches Some(steps) ==> forall|i: int|
            0 <= i < steps.len() ==> #[trigger] steps[i] is Name,
    decreases text.len() - start,
{
    if 0 <= start < text.len() {
        assert(text.contains(text[start]));
        if text[start] == '.' {
            let end = run_end(text, start + 1, CharClass::Ident);
            lemma_run_end(text, start + 1, CharClass::Ident);
            if end > start + 1 {
                lemma_no_bracket(text, end);
                if let Some(rest) = steps_from(text, end) {
                    let steps = steps_from(text, start)->Some_0;
                    assert forall|i: int| 0 <= i < steps.len() implies #[trigger] steps[i] is Name by {
                        if i > 0 {
                            assert(steps[i] == rest[i - 1]);
                        }
                    }
                }
            }
        }
    }
}

/// A name without a bracket has no index that could be out of range. A name without a dot
/// and a bracket leads to its own entry.
pub proof fn law_name_without_bracket_has_no_index(name: Seq<char>)
    ensures
        !name.contains('[') ==> !wild_name(name),
        !name.contains('[') && !name.contains('.') ==> root_of(name) == name,
{
    lemma_own_entry(name);
    if !name.contains('[') {
        lemma_no_bracket(name, run_end(name, 0, CharClass::Ident));
    }
}

/// A name stands in the way of merging if and only if it reads as a path with an index
/// below zero, or one beyond what can be allocated.
pub proof fn law_only_indices_out_of_range_are_wild(name: Seq<char>)
    ensures
        wild_name(name) <==> (path_steps(name) matches Some(steps) && exists|i: int|
            0 <= i < steps.len() && (#[trigger] steps[i] matches Step::Index(index) && !(0 <= index
                <= isize::MAX / 1024))),
{
    if let Some(steps) = path_steps(name) {
        assert forall|i: int| 0 <= i < steps.len() implies (#[trigger] steps[i] matches Step::Index(
            index,
        ) && out_of_range(index)) == (steps[i] matches Step::Index(index) && !(0 <= index
            <= isize::MAX / 1024)) by {}
    }
}

/// A step of a path.
#[derive(Debug)]
pub enum PathStep {
    Name(String),
    Index(isize),
}

impl View for PathStep {
    type V = Step;

    open spec fn view(&self) -> Step {
        match self {
            PathStep::Name(name) => Step::Name(name@),
            PathStep::Index(index) => Step::Index(*index as int),
        }
    }
}

/// The steps of a list.
pub open spec fn step_views(steps: Seq<PathStep>) -> Seq<Step> {
    steps.map_values(|step: PathStep| step@)
}

/// Tells whether a character is of the given class.
fn is_of_class(c: char, class: CharClass) -> (b: bool)
    ensures
        b == of_class(c, class),
{
    match class {
        CharClass::Ident => ('a' <= c && c <= 'z') || ('A' <= c && c <= 'Z') || ('0' <= c && c
            <= '9') || c == ' ' || c == '_' || c == '-',
        CharClass::Blank => c == ' ' || c == '\t',
        CharClass::Digit => '0' <= c && c <= '9',
    }
}

/// Finds where the characters of a class end.
fn find_run_end(chars: &Vec<char>, start: usize, class: CharClass) -> (end: usize)
    requires
        start <= chars.len(),
    ensures
        end == run_end(chars@, start as int, class),
        start <= end <= chars.len(),
{
    let mut end: usize = start;
    while end < chars.len() && is_of_class(chars[end], class)
        invariant
            start <= end <= chars.len(),
            run_end(chars@, start as int, class) == run_end(chars@, end as int, class),
        decreases chars.len() - end,
    {
        end += 1;
    }
    end
}

/// More digits do not make a number smaller.
proof fn lemma_number_grows(text: Seq<char>, start: int, middle: int, end: int)
    requires
        0 <= start <= middle <= end <= text.len(),
        forall|i: int| start <= i < end ==> digit(#[trigger] text[i]),
    ensures
        0 <= number(text, start, middle) <= number(text, start, end),
    decreases end - start,
{
    if start < end {
        if middle < end {
            lemma_number_grows(text, start, middle, end - 1);
            assert(digit(text[end - 1]));
        } else {
            lemma_number_grows(text, start, end - 1, end - 1);
            assert(digit(text[end - 1]));
        }
    }
}

proof fn lemma_run_of_class(text: Seq<char>, start: int, class: CharClass)
    ensures
        forall|i: int|
            start <= i < run_end(text, start, class) ==> of_class(#[trigger] text[i], class),
    decreases text.len() - start,
{
    if 0 <= start < text.len() && of_class(text[start], class) {
        lemma_run_of_class(text, start + 1, class);
    }
}

/// Reads digits, if their number is not too large.
fn read_number(chars: &Vec<char>, start: usize, end: usize) -> (value: Option<u64>)
    requires
        start <= end <= chars.len(),
        forall|i: int| start <= i < end ==> digit(#[trigger] chars@[i]),
    ensures
        match value {
            Some(value) => value == number(chars@, start as int, end as int),
            None => number(chars@, start as int, end as int) > u64::MAX,
        },
{
    let mut value: u64 = 0;
    let mut i: usize = start;
    while i < end
        invariant
            start <= i <= end <= chars.len(),
            forall|k: int| start <= k < end ==> digit(#[trigger] chars@[k]),
            value == number(chars@, start as int, i as int),
        decreases end - i,
    {
        assert(digit(chars@[i as int]));
        let next: u128 = value as u128 * 10 + (chars[i] as u32 - '0' as u32) as u128;
        assert(next == number(chars@, start as int, i + 1));
        if next > u64::MAX as u128 {
            proof {
                lemma_number_grows(chars@, start as int, i + 1, end as int);
            }
            return None;
        }
        value = next as u64;
        i += 1;
    }
    Some(value)
}

/// Reads an index in brackets, and finds where it ends.
fn read_index(chars: &Vec<char>, start: usize) -> (index: Option<(isize, usize)>)
    requires
        start < chars.len(),
    ensures
        match index {
            Some((value, end)) => index_at(chars@, start as int) == Some((value as int, end as int))
                && start < end <= chars.len(),
            None => index_at(chars@, start as int) is None,
        },
{
    let sign = find_run_end(chars, start + 1, CharClass::Blank);
    let negative = sign < chars.len() && chars[sign] == '-';
    let digits = if negative {
        sign + 1
    } else {
        sign
    };
    let digits_end = find_run_end(chars, digits, CharClass::Digit);
    let end = find_run_end(chars, digits_end, CharClass::Blank);
    if digits_end == digits || end == chars.len() || chars[end] != ']' {
        return None;
    }
    proof {
        lemma_run_of_class(chars@, digits as int, CharClass::Digit);
        assert forall|i: int| digits <= i < digits_end implies digit(#[trigger] chars@[i]) by {
            assert(of_class(chars@[i], CharClass::Digit));
        }
        lemma_number_grows(chars@, digits as int, digits as int, digits_end as int);
    }
    match read_number(chars, digits, digits_end) {
        Some(value) => if !negative {
            if value <= isize::MAX as u64 {
                Some((value as isize, end + 1))
            } else {
                None
            }
        } else if value <= isize::MAX as u64 {
            Some((-(value as isize), end + 1))
        } else if value - 1 == isize::MAX as u64 {
            Some((isize::MIN, end + 1))
        } else {
            None
        },
        None => None,
    }
}

/// What was read so far, and what is left to read, make up all steps.
spec fn steps_so_far(text: Seq<char>, first: int, read: Seq<Step>, next: int) -> bool {
    steps_from(text, first) == match steps_from(text, next) {
        Some(rest) => Some(read + rest),
        None => None,
    }
}

/// Reads a name as a path: finds where its identifier ends, and its steps.
pub fn read_path(name: &str) -> (path: Option<(usize, Vec<PathStep>)>)
    ensures
        match path {
            Some((end, steps)) => {
                &&& path_steps(name@) == Some(step_views(steps@))
                &&& end == run_end(name@, 0, CharClass::Ident)
                &&& end <= name@.len()
            },
            None => path_steps(name@) is None,
        },
{
    let chars = characters(name);
    let first = find_run_end(&chars, 0, CharClass::Ident);
    if first == 0 {
        return None;
    }
    let mut steps: Vec<PathStep> = Vec::new();
    let mut i: usize = first;
    proof {
        assert(step_views(steps@) =~= Seq::empty());
        if steps_from(name@, first as int) is Some {
            assert(Seq::<Step>::empty() + steps_from(name@, first as int)->Some_0
                =~= steps_from(name@, first as int)->Some_0);
        }
    }
    while i < chars.len()
        invariant
            chars@ == name@,
            0 < first <= i <= chars.len(),
            first == run_end(name@, 0, CharClass::Ident),
            steps_so_far(name@, first as int, step_views(steps@), i as int),
        decreases chars.len() - i,
    {
        let ghost before = step_views(steps@);
        let ghost here = i as int;
        if chars[i] == '.' {
            let end = find_run_end(&chars, i + 1, CharClass::Ident);
            if end == i + 1 {
                return None;
            }
            steps.push(PathStep::Name(name.substring_char(i + 1, end).to_owned()));
            i = end;
        } else if chars[i] == '[' {
            match read_index(&chars, i) {
                Some((value, end)) => {
                    steps.push(PathStep::Index(value));
                    i = end;
                },
                None => {
                    return None;
                },
            }
        } else {
            return None;
        }
        proof {
            let step = steps@.last()@;
            assert(step_views(steps@) =~= before.push(step));
            assert(steps_from(name@, here) == with_step(step, steps_from(name@, i as int)));
            if steps_from(name@, i as int) is Some {
                let rest = steps_from(name@, i as int)->Some_0;
                assert(before + (seq![step] + rest) =~= before.push(step) + rest);
            }
        }
    }
    assert(step_views(steps@) + Seq::<Step>::empty() =~= step_views(steps@));
    Some((first, steps))
}

/// Finds the entry of a table that a name leads to.
pub fn find_root(name: &str) -> (root: String)
    ensures
        root@ == root_of(name@),
{
    match read_path(name) {
        Some((end, _)) => {
            assert(name@.subrange(0, end as int) =~= name@.take(end as int));
            name.substring_char(0, end).to_owned()
        },
        None => name.to_owned(),
    }
}

/// Tells whether a name reads as a path with an index that is out of range.
pub fn is_wild_name(name: &str) -> (b: bool)
    ensures
        b == wild_name(name@),
{
    match read_path(name) {
        Some((_, steps)) => {
            let mut i: usize = 0;
            while i < steps.len()
                invariant
                    i <= steps.len(),
                    path_steps(name@) == Some(step_views(steps@)),
                    forall|k: int|
                        0 <= k < i ==> !(#[trigger] step_views(steps@)[k] matches Step::Index(index)
                            && out_of_range(index)),
                decreases steps.len() - i,
            {
                assert(step_views(steps@)[i as int] == steps@[i as int]@);
                match &steps[i] {
                    PathStep::Index(index) => if *index < 0 || *index > isize::MAX / 1024 {
                        return true;
                    },
                    PathStep::Name(_) => {},
                }
                i += 1;
            }
            false
        },
        None => false,
    }
}

} // verus!
