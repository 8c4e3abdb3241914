use litopts::syntax::{parse_opt, Expected, PreOpt, SyntaxError};
use litopts::OptType;

fn ok(decl: &str) -> PreOpt {
    match parse_opt(decl, String::from("text")) {
        Ok(o) => o,
        Err(e) => panic!("{:?} at {} in {:?}", e.expected, e.pos, decl),
    }
}

fn err(decl: &str) -> SyntaxError {
    match parse_opt(decl, String::new()) {
        Ok(_) => panic!("{:?} is accepted", decl),
        Err(e) => e,
    }
}

fn fields(o: &PreOpt) -> (Option<char>, Option<&str>, Option<&str>, OptType) {
    (o.short, o.long.as_deref(), o.para.as_deref(), o.ty)
}

#[test]
fn short_and_long_with_optional_value() {
    let o = ok("-c, --color[=WHEN]");
    assert_eq!(fields(&o), (Some('c'), Some("color"), Some("WHEN"), OptType::LitOptOptOpt));
    assert_eq!(o.help, "text");
}

#[test]
fn switches() {
    assert_eq!(fields(&ok("-s, --short")), (Some('s'), Some("short"), None, OptType::LitOptFlag));
    assert_eq!(fields(&ok("    --version")), (None, Some("version"), None, OptType::LitOptFlag));
    assert_eq!(fields(&ok("-x")), (Some('x'), None, None, OptType::LitOptFlag));
    assert_eq!(fields(&ok("\t-x \t")), (Some('x'), None, None, OptType::LitOptFlag));
    assert_eq!(fields(&ok("-Z,--a-b--c ")), (Some('Z'), Some("a-b--c"), None, OptType::LitOptFlag));
    assert_eq!(fields(&ok("-x ,  --name")), (Some('x'), Some("name"), None, OptType::LitOptFlag));
}

#[test]
fn values_that_must_be_given() {
    assert_eq!(fields(&ok("-o <FILE>")), (Some('o'), None, Some("FILE"), OptType::LitOptOpt));
    assert_eq!(fields(&ok("-o   <out_file>  ")), (Some('o'), None, Some("out_file"), OptType::LitOptOpt));
    assert_eq!(fields(&ok("--depth=N")), (None, Some("depth"), Some("N"), OptType::LitOptOpt));
    assert_eq!(fields(&ok("-d, --depth=_n ")), (Some('d'), Some("depth"), Some("_n"), OptType::LitOptOpt));
    assert_eq!(fields(&ok("-o <>")), (Some('o'), None, Some(""), OptType::LitOptOpt));
}

#[test]
fn values_that_may_be_left_out() {
    assert_eq!(fields(&ok("-c[WHEN]")), (Some('c'), None, Some("WHEN"), OptType::LitOptOptOpt));
    assert_eq!(fields(&ok("--jobs[=N] ")), (None, Some("jobs"), Some("N"), OptType::LitOptOptOpt));
    assert_eq!(fields(&ok("-c[]")), (Some('c'), None, Some(""), OptType::LitOptOptOpt));
    assert_eq!(fields(&ok("--jobs[=]")), (None, Some("jobs"), Some(""), OptType::LitOptOptOpt));
}

#[test]
fn each_fault_with_its_place() {
    let e = |pos, expected| SyntaxError { pos, expected };
    assert_eq!(err(""), e(0, Expected::Dash));
    assert_eq!(err("  "), e(2, Expected::Dash));
    assert_eq!(err("x"), e(0, Expected::Dash));
    assert_eq!(err("-"), e(1, Expected::LetterOrDash));
    assert_eq!(err("-1"), e(1, Expected::LetterOrDash));
    assert_eq!(err("--"), e(2, Expected::Letter));
    assert_eq!(err("---"), e(2, Expected::Letter));
    assert_eq!(err("-xy"), e(2, Expected::BlankOrBracket));
    assert_eq!(err("-x<a>"), e(2, Expected::BlankOrBracket));
    assert_eq!(err("-x[a"), e(4, Expected::NameOrBracket));
    assert_eq!(err("-x[a-]"), e(4, Expected::NameOrBracket));
    assert_eq!(err("-x y"), e(3, Expected::BlankAngleOrComma));
    assert_eq!(err("-x [a]"), e(3, Expected::BlankAngleOrComma));
    assert_eq!(err("-x <a"), e(5, Expected::NameOrAngle));
    assert_eq!(err("-x <a b>"), e(5, Expected::NameOrAngle));
    assert_eq!(err("--name="), e(7, Expected::Name));
    assert_eq!(err("--name=1"), e(7, Expected::Name));
    assert_eq!(err("--name["), e(7, Expected::Equals));
    assert_eq!(err("--name[x]"), e(7, Expected::Equals));
    assert_eq!(err("--name?"), e(6, Expected::InLong));
    assert_eq!(err("--name,"), e(6, Expected::InLong));
    assert_eq!(err("--name=a?"), e(8, Expected::NameOrBlank));
    assert_eq!(err("--name[=a"), e(9, Expected::NameOrBracket));
    assert_eq!(err("--name[=a b]"), e(9, Expected::NameOrBracket));
    assert_eq!(err("--name x"), e(7, Expected::End));
    assert_eq!(err("-x[a] ,"), e(6, Expected::End));
    assert_eq!(err("--name=a b"), e(9, Expected::End));
}

#[test]
fn second_short_identifier_is_refused() {
    assert_eq!(err("-x, -y"), SyntaxError { pos: 5, expected: Expected::Dash });
    assert_eq!(err("-x,y"), SyntaxError { pos: 3, expected: Expected::Dash });
    assert_eq!(err("-x, "), SyntaxError { pos: 4, expected: Expected::Dash });
    assert_eq!(err("-x, -"), SyntaxError { pos: 5, expected: Expected::LetterOrDash });
    assert_eq!(err("-x, -?"), SyntaxError { pos: 5, expected: Expected::LetterOrDash });
}

#[test]
fn bytes_outside_ascii_are_refused_where_they_stand() {
    assert_eq!(err("-é"), SyntaxError { pos: 1, expected: Expected::Ascii });
    assert_eq!(err("é"), SyntaxError { pos: 0, expected: Expected::Ascii });
    assert_eq!(err("--name é"), SyntaxError { pos: 7, expected: Expected::Ascii });
    // An earlier fault comes first.
    assert_eq!(err("x é"), SyntaxError { pos: 0, expected: Expected::Dash });
}

#[test]
fn messages() {
    assert_eq!(Expected::Ascii.message(), "expected Ascii");
    assert_eq!(Expected::Dash.message(), "expected `-`");
    assert_eq!(Expected::Letter.message(), "expected `[A-Za-z]`");
    assert_eq!(Expected::LetterOrDash.message(), "expected `[A-Za-z-]`");
    assert_eq!(Expected::BlankOrBracket.message(), r"expected `[ \t\[]`");
    assert_eq!(Expected::NameOrBracket.message(), r"expected `[A-Za-z_\]]`");
    assert_eq!(Expected::BlankAngleOrComma.message(), r"expected `[ \t<,]`");
    assert_eq!(Expected::NameOrAngle.message(), "expected `[A-Za-z_>]`");
    assert_eq!(Expected::Name.message(), "expected `[A-Za-z_]`");
    assert_eq!(Expected::Equals.message(), "expected `=`");
    assert_eq!(Expected::InLong.message(), r"expected `[A-Za-z- \t=\[]`");
    assert_eq!(Expected::NameOrBlank.message(), r"expected `[A-Za-z_ \t]`");
    assert_eq!(Expected::End.message(), "expected EOF");
}
