//! Texts, numbers and names, and the sentences that report what is wrong.
use vstd::prelude::*;

use crate::config::ConfigError;
use crate::laws::serving;
use crate::paths::PathError;
use crate::tasks::TaskError;
use crate::template::TemplateError;
use crate::text;
use crate::text::{
    contains_text, decimal_text, is_before, is_blank, is_valid_name, is_white_space, join,
    replace_all, same_text, signed_decimal_text, trim_end,
};
use crate::time_span;
use crate::time_span::{read_time_span, SpanReading, TimeSpan};

verus! {

// ---- texts ----

/// Two texts are the same just if they hold the same characters.
pub proof fn lemma_same(left: &str, right: &str, same: bool)
    requires
        call_ensures(same_text, (left, right), same),
    ensures
        same <==> left@ == right@,
{
}

/// A list contains a text just if it holds it at some place.
pub proof fn lemma_contains(names: &[String], name: &str, found: bool)
    requires
        call_ensures(contains_text, (names, name), found),
    ensures
        found <==> exists|i: int| 0 <= i < names@.len() && (#[trigger] names@[i])@ == name@,
{
    let all = text::texts(names@);
    if found {
        let at = all.index_of(name@);
        assert(names@[at]@ == name@);
    }
    if exists|i: int| 0 <= i < names@.len() && (#[trigger] names@[i])@ == name@ {
        let at = choose|i: int| 0 <= i < names@.len() && (#[trigger] names@[i])@ == name@;
        assert(all[at] == name@);
    }
}

/// White space is what Unicode calls so: the space, what stands from tab to carriage return,
/// and the spaces beyond ASCII.
pub proof fn lemma_white(ch: char, white: bool)
    requires
        call_ensures(is_white_space, (ch,), white),
    ensures
        white <==> {
            ||| ch == ' ' || ch == '\t' || ch == '\n' || ch == '\r'
            ||| ch == '\u{b}' || ch == '\u{c}'
            ||| ch == '\u{85}' || ch == '\u{a0}' || ch == '\u{1680}'
            ||| '\u{2000}' <= ch <= '\u{200a}'
            ||| ch == '\u{2028}' || ch == '\u{2029}' || ch == '\u{202f}' || ch == '\u{205f}'
            ||| ch == '\u{3000}'
        },
{
}

/// A text is blank just if every character of it is white space.
pub proof fn lemma_is_blank(words: &str, blank: bool)
    requires
        call_ensures(is_blank, (words,), blank),
    ensures
        blank <==> forall|i: int| 0 <= i < words@.len() ==> text::is_white(#[trigger] words@[i]),
{
}

/// A text is trimmed by taking away white space at its end, and nothing else.
pub proof fn lemma_trim(words: &str, trimmed: String)
    requires
        call_ensures(trim_end, (words,), trimmed),
    ensures
        serving::is_word_and_white(words@, trimmed@),
{
    serving::lemma_trimmed(words@, trimmed@);
}

/// The texts of a list are joined with the separator between two neighbours: one more text
/// comes behind the others and a separator, and a single one is not changed.
pub proof fn lemma_join_grows(
    parts: &[String],
    more: &[String],
    separator: &str,
    joined: String,
    longer: String,
)
    requires
        call_ensures(join, (parts, separator), joined),
        call_ensures(join, (more, separator), longer),
        more@.len() == parts@.len() + 1,
        forall|i: int| 0 <= i < parts@.len() ==> (#[trigger] more@[i])@ == parts@[i]@,
    ensures
        parts@.len() == 0 ==> joined@.len() == 0 && longer@ == more@[0]@,
        parts@.len() > 0 ==> longer@ == joined@ + separator@ + more@.last()@,
{
    let short = text::texts(parts@);
    let all = text::texts(more@);
    assert(all.drop_last() =~= short);
    assert(all.last() == more@.last()@);
    assert(all[0] == more@[0]@);
}

/// Where a pattern stands first in a text, it is replaced, and what follows it is treated in
/// the same way; where it stands nowhere, nothing is changed.
pub proof fn lemma_replace(
    words: &str,
    pattern: &str,
    with: &str,
    front: Seq<char>,
    rest: &str,
    result: String,
    tail: String,
)
    requires
        call_ensures(replace_all, (words, pattern, with), result),
        call_ensures(replace_all, (rest, pattern, with), tail),
        pattern@.len() > 0,
    ensures
        words@ == front + pattern@ + rest@ && (forall|i: int|
            0 <= i < front.len() ==> !#[trigger] text::occurs_at(words@, pattern@, i))
            ==> result@ == front + with@ + tail@,
        (forall|i: int| 0 <= i < words@.len() ==> !#[trigger] text::occurs_at(words@, pattern@, i))
            ==> result@ == words@,
{
    if words@ == front + pattern@ + rest@ && (forall|i: int|
        0 <= i < front.len() ==> !#[trigger] text::occurs_at(words@, pattern@, i)) {
        let at = front.len() as int;
        assert(words@.subrange(at, at + pattern@.len()) =~= pattern@);
        lemma_replaced_at(words@, pattern@, with@, at);
        assert(words@.skip(at + pattern@.len()) =~= rest@);
        assert(words@.take(front.len() as int) =~= front);
        assert(front + (with@ + tail@) =~= front + with@ + tail@);
    }
    if forall|i: int| 0 <= i < words@.len() ==> !#[trigger] text::occurs_at(words@, pattern@, i) {
        lemma_replaced_nowhere(words@, pattern@, with@);
    }
}

/// What stands at a place is what stands there after the first character is left away.
proof fn lemma_occurs_later(words: Seq<char>, pattern: Seq<char>, at: int)
    requires
        words.len() > 0,
        at >= 0,
    ensures
        text::occurs_at(words.skip(1), pattern, at) == text::occurs_at(words, pattern, at + 1),
{
    if at + 1 + pattern.len() <= words.len() {
        assert(words.skip(1).subrange(at, at + pattern.len()) =~= words.subrange(
            at + 1,
            at + 1 + pattern.len(),
        ));
    }
}

proof fn lemma_replaced_nowhere(words: Seq<char>, pattern: Seq<char>, with: Seq<char>)
    requires
        pattern.len() > 0,
        forall|i: int| 0 <= i < words.len() ==> !#[trigger] text::occurs_at(words, pattern, i),
    ensures
        text::replaced(words, pattern, with) == words,
    decreases words.len(),
{
    if words.len() > 0 {
        let rest = words.skip(1);
        assert forall|i: int| 0 <= i < rest.len() implies !#[trigger] text::occurs_at(
            rest,
            pattern,
            i,
        ) by {
            lemma_occurs_later(words, pattern, i);
            assert(!text::occurs_at(words, pattern, i + 1));
        }
        lemma_replaced_nowhere(rest, pattern, with);
        assert(!text::occurs_at(words, pattern, 0));
        assert(seq![words[0]] + rest =~= words);
    }
}

proof fn lemma_replaced_at(words: Seq<char>, pattern: Seq<char>, with: Seq<char>, at: int)
    requires
        pattern.len() > 0,
        0 <= at,
        at + pattern.len() <= words.len(),
        words.subrange(at, at + pattern.len()) == pattern,
        forall|i: int| 0 <= i < at ==> !#[trigger] text::occurs_at(words, pattern, i),
    ensures
        text::replaced(words, pattern, with) == words.take(at) + (with + text::replaced(
            words.skip(at + pattern.len()),
            pattern,
            with,
        )),
    decreases at,
{
    let tail = with + text::replaced(words.skip(at + pattern.len()), pattern, with);
    if at == 0 {
        assert(text::occurs_at(words, pattern, 0));
        assert(words.take(0) + tail =~= tail);
    } else {
        let rest = words.skip(1);
        assert(!text::occurs_at(words, pattern, 0));
        assert forall|i: int| 0 <= i < at - 1 implies !#[trigger] text::occurs_at(
            rest,
            pattern,
            i,
        ) by {
            lemma_occurs_later(words, pattern, i);
            assert(!text::occurs_at(words, pattern, i + 1));
        }
        assert(rest.subrange(at - 1, at - 1 + pattern.len()) =~= pattern);
        lemma_replaced_at(rest, pattern, with, at - 1);
        assert(rest.skip(at - 1 + pattern.len()) =~= words.skip(at + pattern.len()));
        assert(seq![words[0]] + (rest.take(at - 1) + tail) =~= words.take(at) + tail);
    }
}

/// The order of texts is that of a dictionary: the one that comes first is a proper start of
/// the other, or has the smaller character where they first differ.
pub proof fn lemma_order(left: &str, right: &str, before: bool)
    requires
        call_ensures(is_before, (left, right), before),
    ensures
        before <==> exists|at: int| #[trigger] differ_first(left@, right@, at),
{
    lemma_before(left@, right@);
}

/// Whether two texts are the same up to `at`, where the first one ends before the second or
/// has the smaller character.
pub open spec fn differ_first(left: Seq<char>, right: Seq<char>, at: int) -> bool {
    &&& 0 <= at <= left.len()
    &&& at < right.len()
    &&& forall|i: int| 0 <= i < at ==> #[trigger] left[i] == right[i]
    &&& at < left.len() ==> (left[at] as int) < (right[at] as int)
}

proof fn lemma_before(left: Seq<char>, right: Seq<char>)
    ensures
        text::text_before(left, right) <==> exists|at: int| #[trigger]
            differ_first(left, right, at),
    decreases left.len(),
{
    if right.len() > 0 {
        if left.len() == 0 {
            assert(differ_first(left, right, 0));
        } else {
            let a = left.drop_first();
            let b = right.drop_first();
            lemma_before(a, b);
            if left[0] == right[0] {
                if exists|at: int| #[trigger] differ_first(a, b, at) {
                    let at = choose|at: int| #[trigger] differ_first(a, b, at);
                    assert forall|i: int| 0 <= i < at + 1 implies #[trigger] left[i]
                        == right[i] by {
                        if i > 0 {
                            assert(a[i - 1] == b[i - 1]);
                        }
                    }
                    assert(at < a.len() ==> left[at + 1] == a[at] && right[at + 1] == b[at]);
                    assert(differ_first(left, right, at + 1));
                }
                if exists|at: int| #[trigger] differ_first(left, right, at) {
                    let at = choose|at: int| #[trigger] differ_first(left, right, at);
                    assert(at > 0);
                    assert forall|i: int| 0 <= i < at - 1 implies #[trigger] a[i] == b[i] by {
                        assert(left[i + 1] == right[i + 1]);
                    }
                    assert(differ_first(a, b, at - 1));
                }
            } else {
                if (left[0] as int) < (right[0] as int) {
                    assert(differ_first(left, right, 0));
                }
                if exists|at: int| #[trigger] differ_first(left, right, at) {
                    let at = choose|at: int| #[trigger] differ_first(left, right, at);
                    assert(at == 0) by {
                        if at > 0 {
                            assert(left[0] == right[0]);
                        }
                    }
                }
            }
        }
    }
}

// ---- numbers ----

/// A number is written digit by digit: what it holds beyond its last digit, and then the last
/// digit.
pub proof fn lemma_number(value: u128, tens: String, number: String)
    requires
        call_ensures(decimal_text, (value,), number),
        call_ensures(decimal_text, (value / 10,), tens),
    ensures
        value >= 10 ==> number@ == tens@.push(('0' as int + value % 10) as char),
        10 > value ==> number@ == seq![('0' as int + value) as char],
{
    text::lemma_char_range('0');
}

/// A negative number is written with a `-` in front of what it is without the sign.
pub proof fn lemma_signed_number(value: i32, size: String, number: String)
    requires
        call_ensures(signed_decimal_text, (value,), number),
        call_ensures(
            decimal_text,
            ((if 0 > value {
                -(value as int)
            } else {
                value as int
            }) as u128,),
            size,
        ),
    ensures
        0 > value ==> number@ == seq!['-'] + size@,
        0 <= value ==> number@ == size@,
{
}

// ---- spans of time ----

/// A span has the seconds and nanoseconds that it was made of.
pub proof fn lemma_span(
    secs: u64,
    nanos: u32,
    span: Option<TimeSpan>,
    whole: TimeSpan,
)
    requires
        call_ensures(TimeSpan::from_parts, (secs, nanos), span),
        call_ensures(TimeSpan::from_secs, (secs,), whole),
    ensures
        span is Some <==> 1_000_000_000 > nanos,
        forall|found: u64| #[trigger]
            call_ensures(TimeSpan::secs, (&whole,), found) ==> found == secs,
        forall|found: u32| #[trigger]
            call_ensures(TimeSpan::subsec_nanos, (&whole,), found) ==> found == 0,
        span matches Some(span) ==> {
            &&& forall|found: u64| #[trigger]
                call_ensures(TimeSpan::secs, (&span,), found) ==> found == secs
            &&& forall|found: u32| #[trigger]
                call_ensures(TimeSpan::subsec_nanos, (&span,), found) ==> found == nanos
        },
{
}

/// A span that was written is read as what it was, where the text is one that is read.
pub proof fn lemma_span_is_read_back(
    span: TimeSpan,
    written: String,
    source: &str,
    reading: SpanReading,
)
    requires
        call_ensures(TimeSpan::text, (&span,), written),
        source@ == written@,
        call_ensures(read_time_span, (source,), reading),
        1_000_000_000 > span.extra_nanos(),
    ensures
        match reading {
            SpanReading::Span { span: read } => {
                &&& read.whole_secs() == span.whole_secs()
                &&& read.extra_nanos() == span.extra_nanos()
            },
            SpanReading::Invalid { .. } => false,
            SpanReading::TooLong => !time_span::is_moderate(source@),
        },
{
}

// ---- names ----

/// Whether a character may stand in a name.
pub open spec fn is_letter(ch: char) -> bool {
    ||| ch == '_'
    ||| 'a' <= ch <= 'z'
    ||| 'A' <= ch <= 'Z'
}

/// A name is a letter or `_`, and then letters, digits and `_`.
pub proof fn lemma_name(name: &str, valid: bool)
    requires
        call_ensures(is_valid_name, (name,), valid),
    ensures
        valid <==> {
            &&& name@.len() > 0
            &&& is_letter(name@[0])
            &&& forall|i: int|
                0 <= i < name@.len() ==> is_letter(#[trigger] name@[i]) || '0' <= name@[i] <= '9'
        },
{
    if valid {
        assert forall|i: int| 0 <= i < name@.len() implies is_letter(#[trigger] name@[i]) || '0'
            <= name@[i] <= '9' by {
            if i > 0 {
                assert(text::is_name_char(name@[i]));
            }
        }
    } else if name@.len() > 0 && is_letter(name@[0]) && forall|i: int|
        0 <= i < name@.len() ==> is_letter(#[trigger] name@[i]) || '0' <= name@[i] <= '9' {
        assert forall|i: int| 1 <= i < name@.len() implies text::is_name_char(
            #[trigger] name@[i],
        ) by {
            assert(is_letter(name@[i]) || '0' <= name@[i] <= '9');
        }
    }
}

// ---- reports ----

/// The report on a task names the task and what it lacks.
pub proof fn lemma_task_report(error: TaskError, message: String)
    requires
        call_ensures(TaskError::message, (&error,), message),
    ensures
        match error {
            TaskError::UnknownTask { task } => message@ == "unknown task `"@ + task@ + "`"@,
            TaskError::InvalidArgument { arg } => message@ == "invalid task argument `"@ + arg@
                + "`; use name=value before `--`"@,
            TaskError::InvalidVariable { name } => message@ == "invalid task variable `"@ + name@
                + "`; names must match [A-Za-z_][A-Za-z0-9_]*"@,
            TaskError::InvalidTemplate { cause } => forall|told: String| #[trigger]
                call_ensures(TemplateError::message, (&cause,), told) ==> message@ == told@,
            TaskError::UnfillableTemplate { task, .. } => message@ == "task `"@ + task@
                + "` has invalid template"@,
            TaskError::MissingVar { task, name } => message@ == "task `"@ + task@
                + "` requires var `"@ + name@ + "`"@,
            TaskError::MissingEnvVar { task, name, .. } => message@ == "task `"@ + task@
                + "` requires env var `"@ + name@ + "`"@,
            TaskError::InvalidCommandString { task } => message@ == "task `"@ + task@
                + "` produced an invalid command string"@,
            TaskError::EmptyCommandString { task } => message@ == "task `"@ + task@
                + "` produced an empty command string"@,
        },
{
}

/// The full report on a task is the report, and then its cause where it has one.
pub proof fn lemma_full_task_report(error: TaskError, message: String, full: String)
    requires
        call_ensures(TaskError::message, (&error,), message),
        call_ensures(TaskError::full_message, (&error,), full),
    ensures
        match error {
            TaskError::UnfillableTemplate { cause, .. } => forall|told: String| #[trigger]
                call_ensures(TemplateError::message, (&cause,), told) ==> full@ == message@
                    + ": "@ + told@,
            TaskError::MissingEnvVar { invalid: None, .. } => full@ == message@
                + ": environment variable not found"@,
            TaskError::MissingEnvVar { invalid: Some(shown), .. } => full@ == message@
                + ": environment variable was not valid unicode: "@ + shown@,
            TaskError::InvalidCommandString { .. } => full@ == message@
                + ": missing closing quote"@,
            _ => full@ == message@,
        },
{
}

/// The report on a path says what is wrong with it.
pub proof fn lemma_path_report(error: PathError, message: String)
    requires
        call_ensures(PathError::message, (&error,), message),
    ensures
        match error {
            PathError::OutsideRoot { cwd, local_root } => message@ == "cwd "@ + cwd@
                + " is not under "@ + local_root@,
            PathError::Absolute { path } => message@ == "absolute paths are not allowed: "@
                + path@,
            PathError::Escapes => message@ == "path escapes project root"@,
            PathError::Unsupported { path } => message@ == "unsupported path component in "@
                + path@,
        },
{
}

/// The report on a template quotes it.
pub proof fn lemma_template_report(error: TemplateError, message: String)
    requires
        call_ensures(TemplateError::message, (&error,), message),
    ensures
        match error {
            TemplateError::UnterminatedPlaceholder { template } => message@
                == "unterminated placeholder in `"@ + template@ + "`"@,
            TemplateError::InvalidName { name, template } => message@
                == "invalid placeholder name `"@ + name@ + "` in `"@ + template@
                + "`; names must match [A-Za-z_][A-Za-z0-9_]*"@,
            TemplateError::InvalidStart { template } => message@
                == "invalid placeholder start in `"@ + template@
                + "`; use `{`, `{#name}`, or `{$NAME}`"@,
            TemplateError::UnterminatedBrace { template } => message@ == "unterminated `{` in `"@
                + template@ + "`"@,
            TemplateError::UnescapedBrace { template } => message@ == "unescaped `}` in `"@
                + template@ + "`; use `}}` for a literal closing brace"@,
        },
{
}

/// The report on a configuration names the field, or the task and the variable.
pub proof fn lemma_config_report(error: ConfigError, message: String)
    requires
        call_ensures(ConfigError::message, (&error,), message),
    ensures
        match error {
            ConfigError::EmptySshTarget => message@ == "config ssh_target must not be empty"@,
            ConfigError::RelativeLocalRoot => message@
                == "config local_root must be an absolute path"@,
            ConfigError::RelativeRemoteRoot => message@
                == "config remote_root must be an absolute path"@,
            ConfigError::EmptyRemoteBinPath => message@
                == "config remote_bin_path must not be empty"@,
            ConfigError::EmptyTaskName => message@ == "config task names must not be empty"@,
            ConfigError::ReservedTaskName => message@
                == "config task name `tasks-help` is reserved"@,
            ConfigError::EmptyCommandString { task } => message@ == "config task `"@ + task@
                + "` must define a non-empty command string"@,
            ConfigError::InvalidRunString { task, .. } => message@ == "config task `"@ + task@
                + "` has invalid run string"@,
            ConfigError::NoCommand { task } => message@ == "config task `"@ + task@
                + "` must define at least one command"@,
            ConfigError::EmptyCommandArray { task } => message@ == "config task `"@ + task@
                + "` must define non-empty command arrays"@,
            ConfigError::InvalidArgv { task, .. } => message@ == "config task `"@ + task@
                + "` has invalid argv template"@,
            ConfigError::EmptyVarName { task } => message@ == "config task `"@ + task@
                + "` has an empty documented var name"@,
            ConfigError::InvalidVarName { task, name } => message@ == "config task `"@ + task@
                + "` documents invalid var `"@ + name@
                + "`; names must match [A-Za-z_][A-Za-z0-9_]*"@,
            ConfigError::EmptyVarDescription { task, name } => message@ == "config task `"@
                + task@ + "` var `"@ + name@ + "` description must not be empty"@,
            ConfigError::UnusedVar { task, name } => message@ == "config task `"@ + task@
                + "` documents var `"@ + name@ + "` but never references it in run"@,
            ConfigError::NotFound { start } => message@ == "no .sshpal.toml found from "@ + start@,
        },
{
    reveal_strlit("no ");
    reveal_strlit(".sshpal.toml");
    reveal_strlit(" found from ");
    reveal_strlit("no .sshpal.toml found from ");
    assert("no .sshpal.toml found from "@ =~= "no "@ + ".sshpal.toml"@ + " found from "@);
}

} // verus!
