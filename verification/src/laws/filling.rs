//! Filling templates: what stands for a placeholder, a brace or a plain text, and what is no
//! template.
use vstd::prelude::*;

use crate::config::Task;
use crate::laws::loading;
use crate::name_map::NameMap;
use crate::tasks;
use crate::tasks::{render_template, Environment, TaskError};
use crate::template;
use crate::template::{parse_template, Placeholder, TemplateError, TemplatePart, Token};
use crate::text;

verus! {

proof fn lemma_source_concat(
    left: Seq<TemplatePart<Seq<char>>>,
    right: Seq<TemplatePart<Seq<char>>>,
)
    ensures
        template::template_source(left + right) == template::template_source(left)
            + template::template_source(right),
    decreases right.len(),
{
    if right.len() == 0 {
        assert(left + right =~= left);
        assert(template::template_source(left) + template::template_source(right)
            =~= template::template_source(left));
    } else {
        lemma_source_concat(left, right.drop_last());
        assert((left + right).drop_last() =~= left + right.drop_last());
        assert((left + right).last() == right.last());
        assert(template::template_source(left + right) =~= template::template_source(left)
            + template::template_source(right));
    }
}

proof fn lemma_filled_concat(
    left: Seq<TemplatePart<Seq<char>>>,
    right: Seq<TemplatePart<Seq<char>>>,
    vars: Map<Seq<char>, Seq<char>>,
    env: Map<Seq<char>, Seq<char>>,
)
    ensures
        tasks::filled(left + right, vars, env) == tasks::filled(left, vars, env) + tasks::filled(
            right,
            vars,
            env,
        ),
    decreases right.len(),
{
    if right.len() == 0 {
        assert(left + right =~= left);
        assert(tasks::filled(left, vars, env) + tasks::filled(right, vars, env)
            =~= tasks::filled(left, vars, env));
    } else {
        lemma_filled_concat(left, right.drop_last(), vars, env);
        assert((left + right).drop_last() =~= left + right.drop_last());
        assert((left + right).last() == right.last());
        assert(tasks::filled(left + right, vars, env) =~= tasks::filled(left, vars, env)
            + tasks::filled(right, vars, env));
    }
}

proof fn lemma_fault_concat(
    task_name: Seq<char>,
    left: Seq<TemplatePart<Seq<char>>>,
    right: Seq<TemplatePart<Seq<char>>>,
    task: Task,
    vars: Set<Seq<char>>,
    env: tasks::EnvironmentView,
)
    ensures
        tasks::parts_fault(task_name, left + right, task, vars, env) == match tasks::parts_fault(
            task_name,
            left,
            task,
            vars,
            env,
        ) {
            Some(error) => Some(error),
            None => tasks::parts_fault(task_name, right, task, vars, env),
        },
    decreases right.len(),
{
    if right.len() == 0 {
        assert(left + right =~= left);
    } else {
        lemma_fault_concat(task_name, left, right.drop_last(), task, vars, env);
        assert((left + right).drop_last() =~= left + right.drop_last());
        assert((left + right).last() == right.last());
    }
}

/// A template around a placeholder is read as what stands before it, the placeholder, and what
/// stands behind it.
proof fn lemma_parts_around(
    left: Seq<char>,
    hole: Placeholder<Seq<char>>,
    right: Seq<char>,
)
    requires
        template::template_parts(left) is Ok,
        template::template_parts(right) is Ok,
        match hole {
            Placeholder::Client(name) => text::is_name(name),
            Placeholder::Env(name) => text::is_name(name),
        },
    ensures
        template::template_parts(
            left + template::part_source(TemplatePart::Placeholder(hole)) + right,
        ) == Ok::<_, TemplateError<Seq<char>>>(
            template::template_parts(left)->Ok_0 + seq![TemplatePart::Placeholder(hole)]
                + template::template_parts(right)->Ok_0,
        ),
{
    let before = template::template_parts(left)->Ok_0;
    let after = template::template_parts(right)->Ok_0;
    let middle = seq![TemplatePart::Placeholder(hole)];
    let parts = before + middle + after;
    template::lemma_template_reads_back(left);
    template::lemma_template_reads_back(right);
    lemma_source_concat(before, middle);
    lemma_source_concat(before + middle, after);
    reveal_with_fuel(template::template_source, 2);
    assert(middle.drop_last() =~= Seq::<TemplatePart<Seq<char>>>::empty());
    assert(template::template_source(middle) =~= template::part_source(
        TemplatePart::Placeholder(hole),
    ));
    assert forall|i: int| 0 <= i < parts.len() implies match #[trigger] parts[i] {
        TemplatePart::Literal(literal) => literal.len() > 0,
        TemplatePart::Placeholder(Placeholder::Client(name)) => text::is_name(name),
        TemplatePart::Placeholder(Placeholder::Env(name)) => text::is_name(name),
    } by {
        if i < before.len() {
            assert(parts[i] == before[i]);
        } else if i > before.len() {
            assert(parts[i] == after[i - before.len() - 1]);
        }
    }
    assert forall|i: int, j: int|
        0 <= i && j == i + 1 && j < parts.len() implies !(#[trigger] parts[i] is Literal
        && #[trigger] parts[j] is Literal) by {
        if j < before.len() {
            assert(parts[i] == before[i] && parts[j] == before[j]);
        } else if i > before.len() {
            assert(parts[i] == after[i - before.len() - 1]);
            assert(parts[j] == after[j - before.len() - 1]);
        }
    }
    template::lemma_template_writes(parts);
}

/// `{#name}` stands for the value of the variable `name`, whatever that holds, and what stands
/// around it is filled as it would be by itself. A variable that is not given stands for
/// nothing where the task calls it optional, and is missed otherwise.
pub proof fn lemma_variable_is_filled_in(
    task_name: &str,
    task: Task,
    vars: NameMap<String>,
    env: Environment,
    left: &str,
    name: Seq<char>,
    right: &str,
    whole: &str,
    before: String,
    after: String,
    filled: Result<String, TaskError>,
)
    requires
        text::is_name(name),
        whole@ == left@ + (seq!['{', '#'] + name + seq!['}']) + right@,
        call_ensures(render_template, (task_name, left, &task, &vars, &env), Ok(before)),
        call_ensures(render_template, (task_name, right, &task, &vars, &env), Ok(after)),
        call_ensures(render_template, (task_name, whole, &task, &vars, &env), filled),
    ensures
        if vars@.contains_key(name) {
            filled matches Ok(filled) && filled@ == before@ + vars@[name]@ + after@
        } else if task.vars@.contains_key(name) && task.vars@[name].optional {
            filled matches Ok(filled) && filled@ == before@ + after@
        } else {
            filled matches Err(error) && error@ == (TaskError::MissingVar {
                task: task_name@,
                name,
            })
        },
{
    let hole = Placeholder::Client(name);
    lemma_around(task_name, task, vars, env, left, hole, right, whole, before, after, filled);
    let given = text::map_texts(vars@);
    let value = tasks::part_text(TemplatePart::Placeholder(hole), given, env@.texts);
    if !vars@.contains_key(name) {
        assert(before@ + value + after@ =~= before@ + after@);
    }
}

/// `{$NAME}` stands for the value of the environment variable `NAME`, whatever that holds, and
/// what stands around it is filled as it would be by itself. One that is not set is missed.
pub proof fn lemma_environment_is_filled_in(
    task_name: &str,
    task: Task,
    vars: NameMap<String>,
    env: Environment,
    left: &str,
    name: Seq<char>,
    right: &str,
    whole: &str,
    before: String,
    after: String,
    filled: Result<String, TaskError>,
)
    requires
        text::is_name(name),
        whole@ == left@ + (seq!['{', '$'] + name + seq!['}']) + right@,
        call_ensures(render_template, (task_name, left, &task, &vars, &env), Ok(before)),
        call_ensures(render_template, (task_name, right, &task, &vars, &env), Ok(after)),
        call_ensures(render_template, (task_name, whole, &task, &vars, &env), filled),
    ensures
        if env.texts@.contains_key(name) {
            filled matches Ok(filled) && filled@ == before@ + env.texts@[name]@ + after@
        } else {
            &&& filled matches Err(error)
            &&& error@ matches TaskError::MissingEnvVar { task: told, name: missing, invalid }
            &&& told == task_name@
            &&& missing == name
            &&& invalid == if env.invalid@.contains_key(name) {
                Some(env.invalid@[name]@)
            } else {
                None
            }
        },
{
    let hole = Placeholder::Env(name);
    lemma_around(task_name, task, vars, env, left, hole, right, whole, before, after, filled);
}

/// What a template around a placeholder is filled with.
proof fn lemma_around(
    task_name: &str,
    task: Task,
    vars: NameMap<String>,
    env: Environment,
    left: &str,
    hole: Placeholder<Seq<char>>,
    right: &str,
    whole: &str,
    before: String,
    after: String,
    filled: Result<String, TaskError>,
)
    requires
        match hole {
            Placeholder::Client(name) => text::is_name(name),
            Placeholder::Env(name) => text::is_name(name),
        },
        whole@ == left@ + template::part_source(TemplatePart::Placeholder(hole)) + right@,
        call_ensures(render_template, (task_name, left, &task, &vars, &env), Ok(before)),
        call_ensures(render_template, (task_name, right, &task, &vars, &env), Ok(after)),
        call_ensures(render_template, (task_name, whole, &task, &vars, &env), filled),
    ensures
        ({
            let given = text::map_texts(vars@);
            let part = TemplatePart::Placeholder(hole);
            match tasks::part_fault(task_name@, part, task, given.dom(), env@) {
                Some(fault) => filled matches Err(error) && error@ == fault,
                None => filled matches Ok(filled) && filled@ == before@ + tasks::part_text(
                    part,
                    given,
                    env@.texts,
                ) + after@,
            }
        }),
{
    let given = text::map_texts(vars@);
    let part = TemplatePart::Placeholder(hole);
    let front = template::template_parts(left@)->Ok_0;
    let back = template::template_parts(right@)->Ok_0;
    let middle = seq![part];
    lemma_parts_around(left@, hole, right@);
    lemma_fault_concat(task_name@, front, middle, task, given.dom(), env@);
    lemma_fault_concat(task_name@, front + middle, back, task, given.dom(), env@);
    lemma_filled_concat(front, middle, given, env@.texts);
    lemma_filled_concat(front + middle, back, given, env@.texts);
    assert(middle.drop_last() =~= Seq::<TemplatePart<Seq<char>>>::empty());
    reveal_with_fuel(tasks::parts_fault, 2);
    reveal_with_fuel(tasks::filled, 2);
    assert(tasks::filled(middle, given, env@.texts) =~= tasks::part_text(
        part,
        given,
        env@.texts,
    ));
}

proof fn lemma_plain_is_escaped(literal: Seq<char>)
    requires
        forall|i: int|
            0 <= i < literal.len() ==> (#[trigger] literal[i]) != '{' && literal[i] != '}',
    ensures
        template::escaped(literal) == literal,
    decreases literal.len(),
{
    if literal.len() > 0 {
        let short = literal.drop_last();
        assert forall|i: int| 0 <= i < short.len() implies (#[trigger] short[i]) != '{' && short[i]
            != '}' by {
            assert(short[i] == literal[i]);
        }
        lemma_plain_is_escaped(short);
        assert(literal[literal.len() - 1] == literal.last());
        assert(template::escaped(literal) =~= literal);
    }
}

/// A text without braces stands for itself, and any text does where its braces are doubled.
pub proof fn lemma_text_stands_for_itself(
    task_name: &str,
    task: Task,
    vars: NameMap<String>,
    env: Environment,
    source: &str,
    literal: Seq<char>,
    filled: Result<String, TaskError>,
)
    requires
        call_ensures(render_template, (task_name, source, &task, &vars, &env), filled),
        source@ == template::escaped(literal) || source@ == literal && forall|i: int|
            0 <= i < literal.len() ==> (#[trigger] literal[i]) != '{' && literal[i] != '}',
    ensures
        filled matches Ok(filled) && filled@ == literal,
{
    let given = text::map_texts(vars@);
    if source@ != template::escaped(literal) {
        lemma_plain_is_escaped(literal);
    }
    tasks::lemma_escaped_renders(literal, given, env@.texts);
    let parts: Seq<TemplatePart<Seq<char>>> = if literal.len() == 0 {
        Seq::empty()
    } else {
        seq![TemplatePart::Literal(literal)]
    };
    template::lemma_template_writes(parts);
    reveal_with_fuel(template::template_source, 2);
    reveal_with_fuel(tasks::parts_fault, 2);
    if literal.len() > 0 {
        assert(parts.drop_last() =~= Seq::<TemplatePart<Seq<char>>>::empty());
        assert(template::template_source(parts) =~= template::escaped(literal));
    } else {
        assert(template::template_source(parts) =~= template::escaped(literal));
    }
}

/// What a template stands for, token by token.
spec fn filled_tokens(
    tokens: Seq<Token>,
    vars: Map<Seq<char>, Seq<char>>,
    env: Map<Seq<char>, Seq<char>>,
) -> Seq<char>
    decreases tokens.len(),
{
    if tokens.len() == 0 {
        Seq::empty()
    } else {
        filled_tokens(tokens.drop_last(), vars, env) + match tokens.last() {
            Token::Char(ch) => seq![ch],
            Token::Hole(hole) => tasks::part_text(TemplatePart::Placeholder(hole), vars, env),
        }
    }
}

/// Why a template cannot be filled, token by token.
spec fn tokens_fault(
    task_name: Seq<char>,
    tokens: Seq<Token>,
    task: Task,
    vars: Set<Seq<char>>,
    env: tasks::EnvironmentView,
) -> Option<TaskError<Seq<char>>>
    decreases tokens.len(),
{
    if tokens.len() == 0 {
        None
    } else {
        match tokens_fault(task_name, tokens.drop_last(), task, vars, env) {
            Some(error) => Some(error),
            None => match tokens.last() {
                Token::Char(_) => None,
                Token::Hole(hole) => tasks::part_fault(
                    task_name,
                    TemplatePart::Placeholder(hole),
                    task,
                    vars,
                    env,
                ),
            },
        }
    }
}

proof fn lemma_by_token(
    task_name: Seq<char>,
    tokens: Seq<Token>,
    task: Task,
    vars: Map<Seq<char>, Seq<char>>,
    env: tasks::EnvironmentView,
)
    ensures
        tasks::filled(template::grouped(tokens), vars, env.texts) == filled_tokens(
            tokens,
            vars,
            env.texts,
        ),
        tasks::parts_fault(task_name, template::grouped(tokens), task, vars.dom(), env)
            == tokens_fault(task_name, tokens, task, vars.dom(), env),
    decreases tokens.len(),
{
    let parts = template::grouped(tokens);
    if tokens.len() > 0 {
        let short = tokens.drop_last();
        let before = template::grouped(short);
        lemma_by_token(task_name, short, task, vars, env);
        match tokens.last() {
            Token::Hole(hole) => {
                assert(parts.drop_last() =~= before);
            },
            Token::Char(ch) => {
                if before.len() > 0 && before.last() is Literal {
                    let literal = before.last()->Literal_0;
                    assert(parts.drop_last() =~= before.drop_last());
                    assert(tasks::filled(before.drop_last(), vars, env.texts) + literal.push(ch)
                        =~= tasks::filled(before.drop_last(), vars, env.texts) + literal
                        + seq![ch]);
                } else {
                    assert(parts.drop_last() =~= before);
                }
            },
        }
    }
}

proof fn lemma_by_token_concat(
    task_name: Seq<char>,
    left: Seq<Token>,
    right: Seq<Token>,
    task: Task,
    vars: Map<Seq<char>, Seq<char>>,
    env: tasks::EnvironmentView,
)
    ensures
        filled_tokens(left + right, vars, env.texts) == filled_tokens(left, vars, env.texts)
            + filled_tokens(right, vars, env.texts),
        tokens_fault(task_name, left + right, task, vars.dom(), env) == match tokens_fault(
            task_name,
            left,
            task,
            vars.dom(),
            env,
        ) {
            Some(error) => Some(error),
            None => tokens_fault(task_name, right, task, vars.dom(), env),
        },
    decreases right.len(),
{
    if right.len() == 0 {
        assert(left + right =~= left);
        assert(filled_tokens(left, vars, env.texts) + Seq::<char>::empty() =~= filled_tokens(
            left,
            vars,
            env.texts,
        ));
    } else {
        lemma_by_token_concat(task_name, left, right.drop_last(), task, vars, env);
        assert((left + right).drop_last() =~= left + right.drop_last());
        assert((left + right).last() == right.last());
        assert(filled_tokens(left + right, vars, env.texts) =~= filled_tokens(
            left,
            vars,
            env.texts,
        ) + filled_tokens(right, vars, env.texts));
    }
}

/// Two templates, one behind the other, stand for what each of them stands for, one behind
/// the other; where one of them cannot be filled, both together cannot be.
pub proof fn lemma_templates_are_filled_piece_by_piece(
    task_name: &str,
    task: Task,
    vars: NameMap<String>,
    env: Environment,
    left: &str,
    right: &str,
    whole: &str,
    before: Result<String, TaskError>,
    after: Result<String, TaskError>,
    filled: Result<String, TaskError>,
)
    requires
        whole@ == left@ + right@,
        call_ensures(render_template, (task_name, left, &task, &vars, &env), before),
        call_ensures(render_template, (task_name, right, &task, &vars, &env), after),
        call_ensures(render_template, (task_name, whole, &task, &vars, &env), filled),
        loading::well_formed(left@),
        loading::well_formed(right@),
    ensures
        match (before, after) {
            (Ok(before), Ok(after)) => filled matches Ok(filled) && filled@ == before@ + after@,
            (Err(fault), _) => filled matches Err(error) && error@ == fault@,
            (Ok(_), Err(fault)) => filled matches Err(error) && error@ == fault@,
        },
{
    let given = text::map_texts(vars@);
    let first = template::template_tokens(left@, 0)->Ok_0;
    let second = template::template_tokens(right@, 0)->Ok_0;
    template::lemma_tokens_concat(left@, right@);
    lemma_by_token(task_name@, first, task, given, env@);
    lemma_by_token(task_name@, second, task, given, env@);
    lemma_by_token(task_name@, first + second, task, given, env@);
    lemma_by_token_concat(task_name@, first, second, task, given, env@);
}

/// A doubled brace stands for one.
pub proof fn lemma_doubled_braces(
    task_name: &str,
    task: Task,
    vars: NameMap<String>,
    env: Environment,
    source: &str,
    brace: char,
    filled: Result<String, TaskError>,
)
    requires
        brace == '{' || brace == '}',
        source@ == seq![brace, brace],
        call_ensures(render_template, (task_name, source, &task, &vars, &env), filled),
    ensures
        filled matches Ok(filled) && filled@ == seq![brace],
        loading::well_formed(source@),
{
    let given = text::map_texts(vars@);
    let tokens = seq![Token::Char(brace)];
    assert(template::template_tokens(source@, 2) == Ok::<_, TemplateError<Seq<char>>>(
        Seq::<Token>::empty(),
    ));
    assert(seq![Token::Char(brace)] + Seq::<Token>::empty() =~= tokens);
    assert(template::template_tokens(source@, 0) == Ok::<_, TemplateError<Seq<char>>>(tokens));
    lemma_by_token(task_name@, tokens, task, given, env@);
    assert(tokens.drop_last() =~= Seq::<Token>::empty());
    reveal_with_fuel(filled_tokens, 2);
    reveal_with_fuel(tokens_fault, 2);
    assert(filled_tokens(tokens, given, env@.texts) =~= seq![brace]);
}

/// A placeholder by itself is a template.
pub proof fn lemma_placeholder_is_a_template(name: Seq<char>)
    requires
        text::is_name(name),
    ensures
        loading::well_formed(seq!['{', '#'] + name + seq!['}']),
        loading::well_formed(seq!['{', '$'] + name + seq!['}']),
{
    let nothing = Seq::<char>::empty();
    template::lemma_template_writes(Seq::empty());
    assert(template::template_source(Seq::empty()) == nothing);
    lemma_parts_around(nothing, Placeholder::Client(name), nothing);
    lemma_parts_around(nothing, Placeholder::Env(name), nothing);
    assert(nothing + (seq!['{', '#'] + name + seq!['}']) + nothing =~= seq!['{', '#'] + name + seq![
        '}',
    ]);
    assert(nothing + (seq!['{', '$'] + name + seq!['}']) + nothing =~= seq!['{', '$'] + name + seq![
        '}',
    ]);
}

/// What is no template is refused, for the first thing wrong with it: behind a well-formed
/// start, a `}` that is not doubled; a `{` at the end, or before anything but `{`, `#` and
/// `$`; a placeholder that is not closed, or whose name is none.
pub proof fn lemma_malformed_templates(
    source: &str,
    left: Seq<char>,
    rest: Seq<char>,
    read: Result<Vec<TemplatePart>, TemplateError>,
)
    requires
        call_ensures(parse_template, (source,), read),
        loading::well_formed(left),
        source@ == left + rest,
    ensures
        rest.len() > 0 && rest[0] == '}' && (rest.len() == 1 || rest[1] != '}') ==> (
        read matches Err(error) && error@ == (TemplateError::UnescapedBrace {
            template: source@,
        })),
        rest == seq!['{'] ==> (read matches Err(error) && error@ == (
        TemplateError::UnterminatedBrace { template: source@ })),
        rest.len() > 1 && rest[0] == '{' && rest[1] != '{' && rest[1] != '#' && rest[1] != '$' ==> (
        read matches Err(error) && error@ == (TemplateError::InvalidStart { template: source@ })),
        rest.len() > 1 && rest[0] == '{' && (rest[1] == '#' || rest[1] == '$') && (forall|i: int|
            2 <= i < rest.len() ==> #[trigger] rest[i] != '}') ==> (read matches Err(error)
            && error@ == (TemplateError::UnterminatedPlaceholder { template: source@ })),
        forall|close: int|
            1 < close < rest.len() && rest[0] == '{' && (rest[1] == '#' || rest[1] == '$')
                && #[trigger] rest[close] == '}' && (forall|i: int|
                2 <= i < close ==> #[trigger] rest[i] != '}') && !text::is_name(
                rest.subrange(2, close),
            ) ==> (read matches Err(error) && error@ == (TemplateError::InvalidName {
                name: rest.subrange(2, close),
                template: source@,
            })),
{
    let at = left.len() as int;
    let whole = source@;
    template::lemma_tokens_prefix(left, rest, 0);
    if rest.len() > 0 {
        assert(whole[at] == rest[0]);
        text::lemma_char_range(rest[0]);
    }
    if rest.len() > 1 {
        assert(whole[at + 1] == rest[1]);
        text::lemma_char_range(rest[1]);
    }
    if rest.len() > 1 && rest[0] == '{' && (rest[1] == '#' || rest[1] == '$') {
        template::lemma_closing_brace(whole, at + 2);
        let end = template::closing_brace(whole, at + 2);
        if forall|i: int| 2 <= i < rest.len() ==> #[trigger] rest[i] != '}' {
            assert(end >= whole.len()) by {
                if end < whole.len() {
                    assert(rest[end - at] == '}');
                }
            }
        }
        assert forall|close: int|
            1 < close < rest.len() && #[trigger] rest[close] == '}' && (forall|i: int|
                2 <= i < close ==> #[trigger] rest[i] != '}') && !text::is_name(
                rest.subrange(2, close),
            ) implies (read matches Err(error) && error@ == (TemplateError::InvalidName {
            name: rest.subrange(2, close),
            template: source@,
        })) by {
            assert(whole[at + close] == '}');
            assert(end == at + close) by {
                if end < at + close {
                    assert(rest[end - at] == '}');
                }
                if at + close < end {
                    assert(whole[at + close] != '}');
                }
            }
            assert(whole.subrange(at + 2, end) =~= rest.subrange(2, close));
        }
    }
}

/// A template is read as its parts, from which it can be written again, and each list of parts
/// that a template can have is read from the template that it writes.
pub proof fn lemma_template_is_its_parts(
    source: &str,
    parts: Seq<TemplatePart<Seq<char>>>,
    read: Result<Vec<TemplatePart>, TemplateError>,
)
    requires
        call_ensures(parse_template, (source,), read),
    ensures
        read matches Ok(found) ==> {
            &&& template::template_source(template::part_views(found@)) == source@
            &&& template::canonical(template::part_views(found@))
        },
        template::canonical(parts) && source@ == template::template_source(parts) ==> (
        read matches Ok(found) && template::part_views(found@) == parts),
{
    if read is Ok {
        template::lemma_template_reads_back(source@);
    }
    if template::canonical(parts) && source@ == template::template_source(parts) {
        template::lemma_template_writes(parts);
    }
}

} // verus!
