//! Templates and their parts.
use sshpal::template::{parse_template, Placeholder, TemplateError, TemplatePart};

fn literal(text: &str) -> TemplatePart {
    TemplatePart::Literal(text.to_string())
}

fn client(name: &str) -> TemplatePart {
    TemplatePart::Placeholder(Placeholder::Client(name.to_string()))
}

fn env(name: &str) -> TemplatePart {
    TemplatePart::Placeholder(Placeholder::Env(name.to_string()))
}

#[test]
fn reads_literals_and_placeholders() {
    assert_eq!(parse_template(""), Ok(vec![]));
    assert_eq!(parse_template("plain"), Ok(vec![literal("plain")]));
    assert_eq!(
        parse_template("a{#b}{$C}d"),
        Ok(vec![literal("a"), client("b"), env("C"), literal("d")])
    );
    assert_eq!(
        parse_template("{{{#x}}}"),
        Ok(vec![literal("{"), client("x"), literal("}")])
    );
    assert_eq!(parse_template("}}{{"), Ok(vec![literal("}{")]));
}

#[test]
fn reports_malformed_templates() {
    let message = |template: &str| parse_template(template).unwrap_err().message();
    assert_eq!(message("a{#b"), "unterminated placeholder in `a{#b`");
    assert_eq!(
        message("{$1}"),
        "invalid placeholder name `1` in `{$1}`; names must match [A-Za-z_][A-Za-z0-9_]*"
    );
    assert_eq!(
        message("{x}"),
        "invalid placeholder start in `{x}`; use `{`, `{#name}`, or `{$NAME}`"
    );
    assert_eq!(message("a{"), "unterminated `{` in `a{`");
    assert_eq!(
        message("a}b"),
        "unescaped `}` in `a}b`; use `}}` for a literal closing brace"
    );
    assert_eq!(
        parse_template("{#}"),
        Err(TemplateError::InvalidName {
            name: String::new(),
            template: "{#}".to_string()
        })
    );
}
