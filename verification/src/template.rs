//! Command templates: literal text with `{#name}` for a task variable, `{$NAME}` for an
//! environment variable, and `{{` and `}}` for literal braces.
use vstd::prelude::*;

use crate::text;
use crate::text::{chars_of, is_valid_name, text_between};

verus! {

/// A place in a template that a value fills.
#[derive(Debug, PartialEq, Eq)]
pub enum Placeholder<S = String> {
    /// A variable that the caller of a task gives.
    Client(S),
    /// A variable of the environment.
    Env(S),
}

/// A piece of a template.
#[derive(Debug, PartialEq, Eq)]
pub enum TemplatePart<S = String> {
    /// Text that stands for itself.
    Literal(S),
    /// A place for a value.
    Placeholder(Placeholder<S>),
}

/// What is wrong with a template.
#[derive(Debug, PartialEq, Eq)]
pub enum TemplateError<S = String> {
    /// A placeholder has no closing brace.
    UnterminatedPlaceholder { template: S },
    /// A placeholder's name is not a name.
    InvalidName { name: S, template: S },
    /// An opening brace is followed by something other than `{`, `#` or `$`.
    InvalidStart { template: S },
    /// The template ends after an opening brace.
    UnterminatedBrace { template: S },
    /// A closing brace is not doubled.
    UnescapedBrace { template: S },
}

impl View for Placeholder<String> {
    type V = Placeholder<Seq<char>>;

    open spec fn view(&self) -> Placeholder<Seq<char>> {
        match self {
            Placeholder::Client(name) => Placeholder::Client(name@),
            Placeholder::Env(name) => Placeholder::Env(name@),
        }
    }
}

impl View for TemplatePart<String> {
    type V = TemplatePart<Seq<char>>;

    open spec fn view(&self) -> TemplatePart<Seq<char>> {
        match self {
            TemplatePart::Literal(literal) => TemplatePart::Literal(literal@),
            TemplatePart::Placeholder(placeholder) => TemplatePart::Placeholder(placeholder@),
        }
    }
}

impl View for TemplateError<String> {
    type V = TemplateError<Seq<char>>;

    open spec fn view(&self) -> TemplateError<Seq<char>> {
        match self {
            TemplateError::UnterminatedPlaceholder { template } => {
                TemplateError::UnterminatedPlaceholder { template: template@ }
            },
            TemplateError::InvalidName { name, template } => {
                TemplateError::InvalidName { name: name@, template: template@ }
            },
            TemplateError::InvalidStart { template } => {
                TemplateError::InvalidStart { template: template@ }
            },
            TemplateError::UnterminatedBrace { template } => {
                TemplateError::UnterminatedBrace { template: template@ }
            },
            TemplateError::UnescapedBrace { template } => {
                TemplateError::UnescapedBrace { template: template@ }
            },
        }
    }
}

impl TemplateError<Seq<char>> {
    /// The sentence that reports the error.
    pub open spec fn text(self) -> Seq<char> {
        match self {
            TemplateError::UnterminatedPlaceholder { template } => {
                "unterminated placeholder in `"@ + template + "`"@
            },
            TemplateError::InvalidName { name, template } => {
                "invalid placeholder name `"@ + name + "` in `"@ + template
                    + "`; names must match [A-Za-z_][A-Za-z0-9_]*"@
            },
            TemplateError::InvalidStart { template } => {
                "invalid placeholder start in `"@ + template
                    + "`; use `{`, `{#name}`, or `{$NAME}`"@
            },
            TemplateError::UnterminatedBrace { template } => {
                "unterminated `{` in `"@ + template + "`"@
            },
            TemplateError::UnescapedBrace { template } => {
                "unescaped `}` in `"@ + template + "`; use `}}` for a literal closing brace"@
            },
        }
    }
}

impl TemplateError<String> {
    /// The sentence that reports the error.
    pub fn message(&self) -> (message: String)
        ensures
            message@ == self@.text(),
    {
        match self {
            TemplateError::UnterminatedPlaceholder { template } => {
                "unterminated placeholder in `".to_owned().concat(template.as_str()).concat("`")
            },
            TemplateError::InvalidName { name, template } => {
                "invalid placeholder name `".to_owned().concat(name.as_str()).concat(
                    "` in `",
                ).concat(template.as_str()).concat("`; names must match [A-Za-z_][A-Za-z0-9_]*")
            },
            TemplateError::InvalidStart { template } => {
                "invalid placeholder start in `".to_owned().concat(template.as_str()).concat(
                    "`; use `{`, `{#name}`, or `{$NAME}`",
                )
            },
            TemplateError::UnterminatedBrace { template } => {
                "unterminated `{` in `".to_owned().concat(template.as_str()).concat("`")
            },
            TemplateError::UnescapedBrace { template } => {
                "unescaped `}` in `".to_owned().concat(template.as_str()).concat(
                    "`; use `}}` for a literal closing brace",
                )
            },
        }
    }
}

// ---- the grammar ----

/// One unit of a template: a character that stands for itself, or a place for a value.
pub enum Token {
    Char(char),
    Hole(Placeholder<Seq<char>>),
}

/// The first place at or after `from` that holds a closing brace, or the end.
pub open spec fn closing_brace(template: Seq<char>, from: int) -> int
    decreases template.len() - from,
{
    if from >= template.len() || template[from] == '}' {
        from
    } else {
        closing_brace(template, from + 1)
    }
}

/// Where the search for a closing brace ends.
pub proof fn lemma_closing_brace(template: Seq<char>, from: int)
    ensures
        closing_brace(template, from) >= from,
        from <= template.len() ==> closing_brace(template, from) <= template.len(),
        closing_brace(template, from) < template.len() && from >= 0 ==> template[closing_brace(
            template,
            from,
        )] == '}',
        forall|i: int| from <= i < closing_brace(template, from) ==> template[i] != '}',
    decreases template.len() - from,
{
    if from < template.len() && template[from] != '}' {
        lemma_closing_brace(template, from + 1);
    }
}

/// A token in front of what follows it.
pub open spec fn preceded(
    token: Token,
    rest: Result<Seq<Token>, TemplateError<Seq<char>>>,
) -> Result<Seq<Token>, TemplateError<Seq<char>>> {
    match rest {
        Ok(tokens) => Ok(seq![token] + tokens),
        Err(error) => Err(error),
    }
}

/// The tokens of a template from `at` on, or the first thing wrong with it.
pub open spec fn template_tokens(template: Seq<char>, at: int) -> Result<
    Seq<Token>,
    TemplateError<Seq<char>>,
>
    decreases template.len() - at,
{
    if at >= template.len() {
        Ok(Seq::empty())
    } else if template[at] == '{' {
        if at + 1 >= template.len() {
            Err(TemplateError::UnterminatedBrace { template })
        } else if template[at + 1] == '{' {
            preceded(Token::Char('{'), template_tokens(template, at + 2))
        } else if template[at + 1] == '#' || template[at + 1] == '$' {
            let end = closing_brace(template, at + 2);
            let name = template.subrange(at + 2, end);
            if end >= template.len() {
                Err(TemplateError::UnterminatedPlaceholder { template })
            } else if !text::is_name(name) {
                Err(TemplateError::InvalidName { name, template })
            } else if template[at + 1] == '#' {
                proof {
                    lemma_closing_brace(template, at + 2);
                }
                preceded(
                    Token::Hole(Placeholder::Client(name)),
                    template_tokens(template, end + 1),
                )
            } else {
                proof {
                    lemma_closing_brace(template, at + 2);
                }
                preceded(Token::Hole(Placeholder::Env(name)), template_tokens(template, end + 1))
            }
        } else {
            Err(TemplateError::InvalidStart { template })
        }
    } else if template[at] == '}' {
        if at + 1 < template.len() && template[at + 1] == '}' {
            preceded(Token::Char('}'), template_tokens(template, at + 2))
        } else {
            Err(TemplateError::UnescapedBrace { template })
        }
    } else {
        preceded(Token::Char(template[at]), template_tokens(template, at + 1))
    }
}

/// Tokens as parts: neighbouring characters make one literal.
pub open spec fn grouped(tokens: Seq<Token>) -> Seq<TemplatePart<Seq<char>>>
    decreases tokens.len(),
{
    if tokens.len() == 0 {
        Seq::empty()
    } else {
        let parts = grouped(tokens.drop_last());
        match tokens.last() {
            Token::Hole(placeholder) => parts.push(TemplatePart::Placeholder(placeholder)),
            Token::Char(ch) => {
                if parts.len() > 0 && parts.last() is Literal {
                    parts.drop_last().push(TemplatePart::Literal(parts.last()->Literal_0.push(ch)))
                } else {
                    parts.push(TemplatePart::Literal(seq![ch]))
                }
            },
        }
    }
}

/// The parts of a template, or the first thing wrong with it.
pub open spec fn template_parts(template: Seq<char>) -> Result<
    Seq<TemplatePart<Seq<char>>>,
    TemplateError<Seq<char>>,
> {
    match template_tokens(template, 0) {
        Ok(tokens) => Ok(grouped(tokens)),
        Err(error) => Err(error),
    }
}

/// The parts that a list of parts holds.
pub open spec fn part_views(parts: Seq<TemplatePart>) -> Seq<TemplatePart<Seq<char>>> {
    parts.map_values(|part: TemplatePart| part@)
}

/// Tokens already read, in front of what follows them.
spec fn after_tokens(
    done: Seq<Token>,
    rest: Result<Seq<Token>, TemplateError<Seq<char>>>,
) -> Result<Seq<Token>, TemplateError<Seq<char>>> {
    match rest {
        Ok(tokens) => Ok(done + tokens),
        Err(error) => Err(error),
    }
}

/// The parts found so far, and the literal that is still open.
spec fn with_open_literal(
    parts: Seq<TemplatePart<Seq<char>>>,
    literal: Seq<char>,
) -> Seq<TemplatePart<Seq<char>>> {
    if literal.len() == 0 {
        parts
    } else {
        parts.push(TemplatePart::Literal(literal))
    }
}

proof fn lemma_after_push(
    done: Seq<Token>,
    token: Token,
    rest: Result<Seq<Token>, TemplateError<Seq<char>>>,
)
    ensures
        after_tokens(done, preceded(token, rest)) == after_tokens(done.push(token), rest),
{
    if let Ok(tokens) = rest {
        assert(done + (seq![token] + tokens) == done.push(token) + tokens);
    }
}

proof fn lemma_group_char(
    done: Seq<Token>,
    parts: Seq<TemplatePart<Seq<char>>>,
    literal: Seq<char>,
    ch: char,
)
    requires
        grouped(done) == with_open_literal(parts, literal),
        literal.len() == 0 && parts.len() > 0 ==> parts.last() is Placeholder,
    ensures
        grouped(done.push(Token::Char(ch))) == with_open_literal(parts, literal.push(ch)),
{
    assert(done.push(Token::Char(ch)).drop_last() == done);
    if literal.len() > 0 {
        assert(grouped(done).drop_last() == parts);
    } else {
        assert(literal.push(ch) == seq![ch]);
    }
}

/// Reads a template into its parts.
pub fn parse_template(template: &str) -> (result: Result<Vec<TemplatePart>, TemplateError>)
    ensures
        match result {
            Ok(parts) => template_parts(template@) == Ok::<_, TemplateError<Seq<char>>>(
                part_views(parts@),
            ),
            Err(error) => template_parts(template@) == Err::<
                Seq<TemplatePart<Seq<char>>>,
                _,
            >(error@),
        },
{
    let chars = chars_of(template);
    let mut parts: Vec<TemplatePart> = Vec::new();
    let mut literal = String::new();
    let mut index: usize = 0;
    let ghost mut done: Seq<Token> = Seq::empty();
    assert(part_views(parts@) == Seq::<TemplatePart<Seq<char>>>::empty());
    proof {
        if let Ok(tokens) = template_tokens(template@, 0) {
            assert(done + tokens == tokens);
        }
    }
    while index < chars.len()
        invariant
            chars@ == template@,
            index <= chars.len(),
            template_tokens(template@, 0) == after_tokens(
                done,
                template_tokens(template@, index as int),
            ),
            grouped(done) == with_open_literal(part_views(parts@), literal@),
            literal@.len() == 0 && parts@.len() > 0 ==> part_views(parts@).last() is Placeholder,
        decreases chars.len() - index,
    {
        let ch = chars[index];
        if ch != '{' && ch != '}' {
            proof {
                text::lemma_char_range(ch);
                lemma_after_push(done, Token::Char(ch), template_tokens(template@, index + 1));
                lemma_group_char(done, part_views(parts@), literal@, ch);
                done = done.push(Token::Char(ch));
            }
            literal.push(ch);
            index = index + 1;
        } else if ch == '{' {
            if index + 1 >= chars.len() {
                return Err(TemplateError::UnterminatedBrace { template: template.to_owned() });
            }
            let kind = chars[index + 1];
            if kind == '{' {
                proof {
                    lemma_after_push(
                        done,
                        Token::Char('{'),
                        template_tokens(template@, index + 2),
                    );
                    lemma_group_char(done, part_views(parts@), literal@, '{');
                    done = done.push(Token::Char('{'));
                }
                literal.push('{');
                index = index + 2;
            } else if kind == '#' || kind == '$' {
                let ghost found = with_open_literal(part_views(parts@), literal@);
                if !literal.as_str().is_empty() {
                    let ghost before = parts@;
                    let ghost text = literal@;
                    parts.push(TemplatePart::Literal(literal));
                    literal = String::new();
                    assert(part_views(parts@) == part_views(before).push(
                        TemplatePart::Literal(text),
                    ));
                }
                assert(part_views(parts@) == found);
                let start: usize = index + 2;
                let mut end: usize = start;
                while end < chars.len() && chars[end] != '}'
                    invariant
                        chars@ == template@,
                        start <= end <= chars.len(),
                        closing_brace(template@, start as int) == closing_brace(
                            template@,
                            end as int,
                        ),
                    decreases chars.len() - end,
                {
                    end = end + 1;
                }
                assert(closing_brace(template@, start as int) == end);
                if end >= chars.len() {
                    return Err(
                        TemplateError::UnterminatedPlaceholder { template: template.to_owned() },
                    );
                }
                let name = text_between(chars.as_slice(), start, end);
                if !is_valid_name(name.as_str()) {
                    return Err(TemplateError::InvalidName { name, template: template.to_owned() });
                }
                let placeholder = if kind == '#' {
                    Placeholder::Client(name)
                } else {
                    Placeholder::Env(name)
                };
                let ghost token = Token::Hole(placeholder@);
                let ghost before = parts@;
                proof {
                    lemma_after_push(done, token, template_tokens(template@, end + 1));
                    assert(done.push(token).drop_last() == done);
                    done = done.push(token);
                }
                parts.push(TemplatePart::Placeholder(placeholder));
                assert(part_views(parts@) == part_views(before).push(
                    TemplatePart::Placeholder(placeholder@),
                ));
                index = end + 1;
            } else {
                return Err(TemplateError::InvalidStart { template: template.to_owned() });
            }
        } else {
            if index + 1 < chars.len() && chars[index + 1] == '}' {
                proof {
                    lemma_after_push(
                        done,
                        Token::Char('}'),
                        template_tokens(template@, index + 2),
                    );
                    lemma_group_char(done, part_views(parts@), literal@, '}');
                    done = done.push(Token::Char('}'));
                }
                literal.push('}');
                index = index + 2;
            } else {
                return Err(TemplateError::UnescapedBrace { template: template.to_owned() });
            }
        }
    }
    assert(done + Seq::<Token>::empty() == done);
    if !literal.as_str().is_empty() {
        let ghost before = parts@;
        parts.push(TemplatePart::Literal(literal));
        assert(part_views(parts@) == part_views(before).push(TemplatePart::Literal(literal@)));
    }
    Ok(parts)
}

// ---- templates and their parts ----

/// Literal text as a template writes it: each brace is doubled.
pub open spec fn escaped(literal: Seq<char>) -> Seq<char>
    decreases literal.len(),
{
    if literal.len() == 0 {
        Seq::empty()
    } else {
        let last = literal.last();
        let before = escaped(literal.drop_last());
        if last == '{' || last == '}' {
            before + seq![last, last]
        } else {
            before + seq![last]
        }
    }
}

/// A part as a template writes it.
pub open spec fn part_source(part: TemplatePart<Seq<char>>) -> Seq<char> {
    match part {
        TemplatePart::Literal(literal) => escaped(literal),
        TemplatePart::Placeholder(Placeholder::Client(name)) => {
            seq!['{', '#'] + name + seq!['}']
        },
        TemplatePart::Placeholder(Placeholder::Env(name)) => { seq!['{', '$'] + name + seq!['}'] },
    }
}

/// The template that writes `parts` one after another.
pub open spec fn template_source(parts: Seq<TemplatePart<Seq<char>>>) -> Seq<char>
    decreases parts.len(),
{
    if parts.len() == 0 {
        Seq::empty()
    } else {
        template_source(parts.drop_last()) + part_source(parts.last())
    }
}

/// The parts that a template can have: no literal is empty or follows another, and each
/// placeholder has a valid name.
pub open spec fn canonical(parts: Seq<TemplatePart<Seq<char>>>) -> bool {
    &&& forall|i: int|
        0 <= i < parts.len() ==> match #[trigger] parts[i] {
            TemplatePart::Literal(literal) => literal.len() > 0,
            TemplatePart::Placeholder(Placeholder::Client(name)) => text::is_name(name),
            TemplatePart::Placeholder(Placeholder::Env(name)) => text::is_name(name),
        }
    &&& forall|i: int, j: int|
        0 <= i && j == i + 1 && j < parts.len() ==> !(#[trigger] parts[i] is Literal
            && #[trigger] parts[j] is Literal)
}

spec fn token_source(token: Token) -> Seq<char> {
    match token {
        Token::Char(ch) => if ch == '{' || ch == '}' {
            seq![ch, ch]
        } else {
            seq![ch]
        },
        Token::Hole(placeholder) => part_source(TemplatePart::Placeholder(placeholder)),
    }
}

spec fn tokens_source(tokens: Seq<Token>) -> Seq<char>
    decreases tokens.len(),
{
    if tokens.len() == 0 {
        Seq::empty()
    } else {
        tokens_source(tokens.drop_last()) + token_source(tokens.last())
    }
}

spec fn valid_token(token: Token) -> bool {
    match token {
        Token::Char(_) => true,
        Token::Hole(Placeholder::Client(name)) => text::is_name(name),
        Token::Hole(Placeholder::Env(name)) => text::is_name(name),
    }
}

spec fn valid_tokens(tokens: Seq<Token>) -> bool {
    forall|i: int| 0 <= i < tokens.len() ==> valid_token(#[trigger] tokens[i])
}

proof fn lemma_tokens_source_first(token: Token, rest: Seq<Token>)
    ensures
        tokens_source(seq![token] + rest) == token_source(token) + tokens_source(rest),
    decreases rest.len(),
{
    let all = seq![token] + rest;
    if rest.len() == 0 {
        reveal_with_fuel(tokens_source, 2);
        assert(all == seq![token]);
        assert(all.drop_last() == Seq::<Token>::empty());
        assert(Seq::<char>::empty() + token_source(token) == token_source(token)
            + Seq::<char>::empty());
    } else {
        lemma_tokens_source_first(token, rest.drop_last());
        assert(all.drop_last() == seq![token] + rest.drop_last());
        assert(all.last() == rest.last());
        assert(token_source(token) + tokens_source(rest.drop_last()) + token_source(rest.last())
            == token_source(token) + (tokens_source(rest.drop_last()) + token_source(
            rest.last(),
        )));
    }
}

/// What is read from a template, written again, is the rest of the template.
proof fn lemma_tokens_read_back(template: Seq<char>, at: int)
    requires
        0 <= at <= template.len(),
        template_tokens(template, at) is Ok,
    ensures
        tokens_source(template_tokens(template, at)->Ok_0) == template.skip(at),
        valid_tokens(template_tokens(template, at)->Ok_0),
    decreases template.len() - at,
{
    let tokens = template_tokens(template, at)->Ok_0;
    if at == template.len() {
        assert(template.skip(at) == Seq::<char>::empty());
    } else {
        text::lemma_char_range(template[at]);
        lemma_closing_brace(template, at + 2);
        let next = if template[at] == '{' {
            if template[at + 1] == '{' {
                at + 2
            } else {
                closing_brace(template, at + 2) + 1
            }
        } else if template[at] == '}' {
            at + 2
        } else {
            at + 1
        };
        lemma_tokens_read_back(template, next);
        let rest = template_tokens(template, next)->Ok_0;
        assert(tokens == seq![tokens[0]] + rest);
        lemma_tokens_source_first(tokens[0], rest);
        assert(template.skip(at) == template.subrange(at, next) + template.skip(next));
        assert(token_source(tokens[0]) == template.subrange(at, next));
    }
}

proof fn lemma_grouped(tokens: Seq<Token>)
    requires
        valid_tokens(tokens),
    ensures
        template_source(grouped(tokens)) == tokens_source(tokens),
        canonical(grouped(tokens)),
    decreases tokens.len(),
{
    if tokens.len() > 0 {
        let short = tokens.drop_last();
        lemma_grouped(short);
        let before = grouped(short);
        let parts = grouped(tokens);
        match tokens.last() {
            Token::Hole(placeholder) => {
                assert(parts.drop_last() == before);
                assert(valid_token(tokens.last()));
            },
            Token::Char(ch) => {
                text::lemma_char_range(ch);
                if before.len() > 0 && before.last() is Literal {
                    let literal = before.last()->Literal_0;
                    assert(parts.drop_last() == before.drop_last());
                    assert(literal.push(ch).drop_last() == literal);
                    assert(template_source(before.drop_last()) + (escaped(literal) + token_source(
                        tokens.last(),
                    )) == template_source(before.drop_last()) + escaped(literal) + token_source(
                        tokens.last(),
                    ));
                } else {
                    reveal_with_fuel(escaped, 2);
                    assert(parts.drop_last() == before);
                    assert(seq![ch].drop_last() == Seq::<char>::empty());
                    assert(Seq::<char>::empty() + token_source(tokens.last()) == token_source(
                        tokens.last(),
                    ));
                }
            },
        }
    }
}

/// A template that is read is the one that its parts write: nothing is lost, added or
/// moved. What is read is in canonical form.
pub proof fn lemma_template_reads_back(template: Seq<char>)
    requires
        template_parts(template) is Ok,
    ensures
        template_source(template_parts(template)->Ok_0) == template,
        canonical(template_parts(template)->Ok_0),
{
    lemma_tokens_read_back(template, 0);
    lemma_grouped(template_tokens(template, 0)->Ok_0);
    assert(template.skip(0) == template);
}

proof fn lemma_closing_brace_at(template: Seq<char>, from: int, at: int)
    requires
        0 <= from <= at < template.len(),
        template[at] == '}',
        forall|i: int| from <= i < at ==> template[i] != '}',
    ensures
        closing_brace(template, from) == at,
    decreases at - from,
{
    if from < at {
        lemma_closing_brace_at(template, from + 1, at);
    }
}

/// Valid tokens that are written into a template are read from it.
proof fn lemma_tokens_write(template: Seq<char>, at: int, tokens: Seq<Token>)
    requires
        0 <= at <= template.len(),
        template.skip(at) == tokens_source(tokens),
        valid_tokens(tokens),
    ensures
        template_tokens(template, at) == Ok::<_, TemplateError<Seq<char>>>(tokens),
    decreases tokens.len(),
{
    let left = template.skip(at);
    if tokens.len() == 0 {
        assert(tokens == Seq::<Token>::empty());
    } else {
        let first = tokens[0];
        let rest = tokens.drop_first();
        assert(tokens == seq![first] + rest);
        lemma_tokens_source_first(first, rest);
        let written = token_source(first);
        let next = at + written.len();
        assert(left.len() == written.len() + tokens_source(rest).len());
        assert(template.skip(next) == left.skip(written.len() as int));
        assert(left.skip(written.len() as int) == tokens_source(rest));
        assert(valid_tokens(rest)) by {
            assert forall|i: int| 0 <= i < rest.len() implies valid_token(#[trigger] rest[i]) by {
                assert(rest[i] == tokens[i + 1]);
            }
        }
        lemma_tokens_write(template, next, rest);
        assert(valid_token(first));
        assert forall|i: int| 0 <= i < written.len() implies template[at + i] == written[i] by {
            assert(left[i] == template[at + i]);
        }
        assert(template[at + 0] == written[0]);
        match first {
            Token::Char(ch) => {
                if ch == '{' || ch == '}' {
                    assert(template[at + 1] == written[1]);
                }
            },
            Token::Hole(placeholder) => {
                let name = match placeholder {
                    Placeholder::Client(name) => name,
                    Placeholder::Env(name) => name,
                };
                assert(template[at + 1] == written[1]);
                assert forall|i: int| at + 2 <= i < next - 1 implies template[i] != '}' by {
                    assert(template[at + (i - at)] == written[i - at]);
                    assert(written[i - at] == name[i - at - 2]);
                }
                assert(template[at + (written.len() - 1)] == written[written.len() - 1]);
                lemma_closing_brace_at(template, at + 2, next - 1);
                assert(template.subrange(at + 2, next - 1) == name) by {
                    assert forall|i: int| 0 <= i < name.len() implies template.subrange(
                        at + 2,
                        next - 1,
                    )[i] == name[i] by {
                        assert(template[at + (i + 2)] == written[i + 2]);
                    }
                }
            },
        }
    }
}

spec fn char_tokens(literal: Seq<char>) -> Seq<Token>
    decreases literal.len(),
{
    if literal.len() == 0 {
        Seq::empty()
    } else {
        char_tokens(literal.drop_last()).push(Token::Char(literal.last()))
    }
}

spec fn flattened(parts: Seq<TemplatePart<Seq<char>>>) -> Seq<Token>
    decreases parts.len(),
{
    if parts.len() == 0 {
        Seq::empty()
    } else {
        flattened(parts.drop_last()) + (match parts.last() {
            TemplatePart::Literal(literal) => char_tokens(literal),
            TemplatePart::Placeholder(placeholder) => seq![Token::Hole(placeholder)],
        })
    }
}

proof fn lemma_literal_tokens(done: Seq<Token>, literal: Seq<char>)
    requires
        valid_tokens(done),
    ensures
        valid_tokens(done + char_tokens(literal)),
        tokens_source(done + char_tokens(literal)) == tokens_source(done) + escaped(literal),
        literal.len() > 0 && (grouped(done).len() > 0 ==> grouped(done).last() is Placeholder)
            ==> grouped(done + char_tokens(literal)) == grouped(done).push(
            TemplatePart::Literal(literal),
        ),
    decreases literal.len(),
{
    if literal.len() == 0 {
        assert(done + char_tokens(literal) == done);
        assert(tokens_source(done) + escaped(literal) == tokens_source(done));
    } else {
        let short = literal.drop_last();
        let last = literal.last();
        text::lemma_char_range(last);
        lemma_literal_tokens(done, short);
        let before = done + char_tokens(short);
        let after = done + char_tokens(literal);
        assert(after == before.push(Token::Char(last)));
        assert(after.drop_last() == before);
        assert(tokens_source(done) + escaped(short) + token_source(Token::Char(last))
            == tokens_source(done) + escaped(literal));
        if short.len() == 0 {
            assert(char_tokens(short) == Seq::<Token>::empty());
            assert(before == done);
            assert(literal == seq![last]);
        } else {
            assert(short.push(last) == literal);
            assert(grouped(done).push(TemplatePart::Literal(short)).drop_last() == grouped(done));
        }
    }
}

proof fn lemma_flattened(parts: Seq<TemplatePart<Seq<char>>>)
    requires
        canonical(parts),
    ensures
        valid_tokens(flattened(parts)),
        tokens_source(flattened(parts)) == template_source(parts),
        grouped(flattened(parts)) == parts,
    decreases parts.len(),
{
    if parts.len() > 0 {
        let short = parts.drop_last();
        assert(canonical(short)) by {
            assert forall|i: int| 0 <= i < short.len() implies short[i] == parts[i] by {}
        }
        lemma_flattened(short);
        let done = flattened(short);
        let last = parts[parts.len() - 1];
        assert(parts == short.push(last));
        match last {
            TemplatePart::Literal(literal) => {
                if short.len() > 0 {
                    assert(short.last() == parts[parts.len() - 2]);
                    assert(!(parts[parts.len() - 2] is Literal && parts[parts.len() - 1] is Literal));
                }
                lemma_literal_tokens(done, literal);
            },
            TemplatePart::Placeholder(placeholder) => {
                let tokens = flattened(parts);
                assert(tokens == done.push(Token::Hole(placeholder)));
                assert(tokens.drop_last() == done);
            },
        }
    } else {
        assert(parts == Seq::<TemplatePart<Seq<char>>>::empty());
    }
}

/// Every list of parts in canonical form is what its template reads as: any text can be
/// written as a literal, and any name as a placeholder.
pub proof fn lemma_template_writes(parts: Seq<TemplatePart<Seq<char>>>)
    requires
        canonical(parts),
    ensures
        template_parts(template_source(parts)) == Ok::<_, TemplateError<Seq<char>>>(parts),
{
    lemma_flattened(parts);
    let template = template_source(parts);
    assert(template.skip(0) == template);
    lemma_tokens_write(template, 0, flattened(parts));
}

/// A template that starts with a well-formed one is read as that, and then as what follows it.
pub proof fn lemma_tokens_prefix(left: Seq<char>, rest: Seq<char>, at: int)
    requires
        0 <= at <= left.len(),
        template_tokens(left, at) is Ok,
    ensures
        template_tokens(left + rest, at) == match template_tokens(
            left + rest,
            left.len() as int,
        ) {
            Ok(tokens) => Ok::<Seq<Token>, TemplateError<Seq<char>>>(
                template_tokens(left, at)->Ok_0 + tokens,
            ),
            Err(error) => Err(error),
        },
    decreases left.len() - at,
{
    let whole = left + rest;
    let end = left.len() as int;
    if at == end {
        if let Ok(tokens) = template_tokens(whole, end) {
            assert(Seq::<Token>::empty() + tokens =~= tokens);
        }
    } else {
        assert(whole[at] == left[at]);
        text::lemma_char_range(left[at]);
        lemma_closing_brace(left, at + 2);
        let next = if left[at] == '{' {
            assert(whole[at + 1] == left[at + 1]);
            if left[at + 1] == '{' {
                at + 2
            } else {
                let close = closing_brace(left, at + 2);
                assert(whole[close] == '}');
                assert forall|i: int| at + 2 <= i < close implies whole[i] != '}' by {
                    assert(whole[i] == left[i]);
                }
                lemma_closing_brace_at(whole, at + 2, close);
                assert(whole.subrange(at + 2, close) =~= left.subrange(at + 2, close));
                close + 1
            }
        } else if left[at] == '}' {
            assert(whole[at + 1] == left[at + 1]);
            at + 2
        } else {
            at + 1
        };
        lemma_tokens_prefix(left, rest, next);
        let tokens = template_tokens(left, at)->Ok_0;
        let later = template_tokens(left, next)->Ok_0;
        assert(tokens =~= seq![tokens[0]] + later);
        if let Ok(more) = template_tokens(whole, end) {
            assert(seq![tokens[0]] + (later + more) =~= tokens + more);
        }
    }
}

/// Two well-formed templates, one behind the other, are read as the one and then the other.
pub proof fn lemma_tokens_concat(left: Seq<char>, right: Seq<char>)
    requires
        template_tokens(left, 0) is Ok,
        template_tokens(right, 0) is Ok,
    ensures
        template_tokens(left + right, 0) == Ok::<Seq<Token>, TemplateError<Seq<char>>>(
            template_tokens(left, 0)->Ok_0 + template_tokens(right, 0)->Ok_0,
        ),
{
    let tokens = template_tokens(right, 0)->Ok_0;
    lemma_tokens_read_back(right, 0);
    assert(right.skip(0) =~= right);
    assert((left + right).skip(left.len() as int) =~= right);
    lemma_tokens_write(left + right, left.len() as int, tokens);
    lemma_tokens_prefix(left, right, 0);
}

} // verus!
