//! Splits match arms of small files.
//!
//! A file is given as text with the cursor as `$0`, and with the types of its bindings. A small
//! parser makes its syntax tree.

use case_splitting::arms::ExprFillDefaultMode;
use case_splitting::semantics::{BindingFacts, Place, Semantics, Type, Variant, VariantFields};
use case_splitting::replace::{find_replacement_context, ReplacementContext};
use case_splitting::split::{
    edit_for, find_pattern_to_split, find_split, split_match_arm, Assist, AssistContext, AssistKind,
};
use case_splitting::tree::{Element, SyntaxKind, SyntaxTree, TextRange};

/// The types of the bindings of a file, by their names.
type Types<'a> = &'a [(&'a str, fn() -> Type)];

fn lex(text: &str) -> Vec<String> {
    let chars: Vec<char> = text.chars().collect();
    let mut tokens = Vec::new();
    let mut i = 0;
    while i < chars.len() {
        let start = i;
        let c = chars[i];
        if c.is_whitespace() {
            while i < chars.len() && chars[i].is_whitespace() {
                i += 1;
            }
        } else if c == '/' && chars.get(i + 1) == Some(&'/') {
            while i < chars.len() && chars[i] != '\n' {
                i += 1;
            }
        } else if c.is_ascii_digit() {
            while i < chars.len() && (chars[i].is_ascii_digit() || chars[i] == '.') {
                i += 1;
            }
        } else if c.is_alphanumeric() || c == '_' {
            while i < chars.len() && (chars[i].is_alphanumeric() || chars[i] == '_') {
                i += 1;
            }
        } else if c == '"' {
            i += 1;
            while chars[i] != '"' {
                i += 1;
            }
            i += 1;
        } else {
            let pair: String = chars[i..].iter().take(2).collect();
            i += if pair == "::" || pair == "=>" || pair == ".." { 2 } else { 1 };
        }
        tokens.push(chars[start..i].iter().collect());
    }
    tokens
}

struct Parser {
    tokens: Vec<String>,
    next: usize,
    elements: Vec<Element>,
    open: Vec<usize>,
    offset: usize,
}

fn is_trivia(token: &str) -> bool {
    token.starts_with(char::is_whitespace) || token.starts_with("//")
}

impl Parser {
    fn peek_nth(&self, n: usize) -> &str {
        let mut rest = self.tokens[self.next..].iter().filter(|token| !is_trivia(token));
        rest.nth(n).map_or("", |token| token.as_str())
    }

    fn peek(&self) -> &str {
        self.peek_nth(0)
    }

    fn bump_raw(&mut self) {
        let token = self.tokens[self.next].clone();
        let kind = if token.starts_with(char::is_whitespace) {
            SyntaxKind::Whitespace
        } else if token == "," {
            SyntaxKind::Comma
        } else {
            SyntaxKind::OtherToken
        };
        let end = self.offset + token.len();
        self.elements.push(Element {
            kind,
            parent: self.open.last().copied(),
            range: TextRange { start: self.offset, end },
            text: token,
        });
        self.offset = end;
        self.next += 1;
    }

    fn skip_trivia(&mut self) {
        while self.next < self.tokens.len() && is_trivia(&self.tokens[self.next]) {
            self.bump_raw();
        }
    }

    fn bump(&mut self) {
        self.skip_trivia();
        self.bump_raw();
    }

    fn start(&mut self, kind: SyntaxKind) {
        if !self.open.is_empty() {
            self.skip_trivia();
        }
        self.elements.push(Element {
            kind,
            parent: self.open.last().copied(),
            range: TextRange { start: self.offset, end: self.offset },
            text: String::new(),
        });
        self.open.push(self.elements.len() - 1);
    }

    fn finish(&mut self) {
        let node = self.open.pop().unwrap();
        self.elements[node].range.end = self.offset;
    }

    fn pats(&mut self, close: &str) {
        while self.peek() != close {
            self.pat();
            if self.peek() == "," {
                self.bump();
            }
        }
        self.bump();
    }

    fn single(&mut self, kind: SyntaxKind) {
        self.start(kind);
        self.bump();
        self.finish();
    }

    fn path(&mut self) {
        self.start(SyntaxKind::Path);
        self.bump();
        while self.peek() == "::" {
            self.bump();
            self.bump();
        }
        self.finish();
    }

    fn pat(&mut self) {
        let first = self.peek().to_string();
        if first == "_" {
            return self.single(SyntaxKind::WildcardPat);
        }
        if first == ".." {
            return self.single(SyntaxKind::RestPat);
        }
        if first == "true" || first == "false" || first.starts_with(|c: char| c.is_ascii_digit()) {
            return self.single(SyntaxKind::LiteralPat);
        }
        if first == "(" {
            self.start(SyntaxKind::TuplePat);
            self.bump();
            self.pats(")");
            return self.finish();
        }
        if first == "&" {
            self.start(SyntaxKind::RefPat);
            self.bump();
            self.pat();
            return self.finish();
        }
        let mut behind = 1;
        while self.peek_nth(behind) == "::" {
            behind += 2;
        }
        match self.peek_nth(behind) {
            "(" => {
                self.start(SyntaxKind::TupleStructPat);
                self.path();
                self.bump();
                self.pats(")");
                self.finish();
            }
            "{" => {
                self.start(SyntaxKind::RecordPat);
                self.path();
                self.start(SyntaxKind::RecordPatFieldList);
                self.bump();
                while self.peek() != "}" {
                    if self.peek() == ".." {
                        self.single(SyntaxKind::RestPat);
                    } else {
                        self.start(SyntaxKind::RecordPatField);
                        if self.peek_nth(1) == ":" {
                            self.single(SyntaxKind::NameRef);
                            self.bump();
                        }
                        self.pat();
                        self.finish();
                    }
                    if self.peek() == "," {
                        self.bump();
                    }
                }
                self.bump();
                self.finish();
                self.finish();
            }
            _ if behind == 1 => self.single(SyntaxKind::IdentPat),
            _ => {
                self.start(SyntaxKind::PathPat);
                self.path();
                self.finish();
            }
        }
    }

    fn body(&mut self) {
        if self.peek() == "match" {
            return self.match_expr();
        }
        let block = self.peek() == "{";
        self.start(if block { SyntaxKind::BlockLikeExpr } else { SyntaxKind::Expr });
        let mut depth = 0;
        loop {
            match self.peek() {
                "{" | "(" => depth += 1,
                "," | "}" if depth == 0 => break,
                "}" | ")" => depth -= 1,
                _ => {}
            }
            self.bump();
            if block && depth == 0 {
                break;
            }
        }
        self.finish();
    }

    fn arm(&mut self) {
        self.start(SyntaxKind::MatchArm);
        self.pat();
        if self.peek() == "if" {
            self.start(SyntaxKind::MatchGuard);
            while self.peek() != "=>" {
                self.bump();
            }
            self.finish();
        }
        self.bump();
        self.body();
        if self.peek() == "," {
            self.bump();
        }
        self.finish();
    }

    fn match_expr(&mut self) {
        self.start(SyntaxKind::BlockLikeExpr);
        while self.peek() != "{" {
            self.bump();
        }
        self.start(SyntaxKind::MatchArmList);
        self.bump();
        while self.peek() != "}" {
            self.arm();
        }
        self.bump();
        self.finish();
        self.finish();
    }

    fn file(&mut self) {
        self.start(SyntaxKind::OtherNode);
        while self.peek() != "" {
            match self.peek() {
                "match" => self.match_expr(),
                "let" => {
                    self.bump();
                    self.pat();
                }
                _ => self.bump(),
            }
        }
        self.skip_trivia();
        self.finish();
    }
}

fn parse(text: &str) -> Vec<Element> {
    let mut parser = Parser {
        tokens: lex(text),
        next: 0,
        elements: Vec::new(),
        open: Vec::new(),
        offset: 0,
    };
    parser.file();
    assert_eq!(parser.offset, text.len());
    parser.elements
}

/// The text of a fixture: without the line break at its start and without its header.
fn fixture_text(fixture: &str) -> String {
    let text = fixture.strip_prefix('\n').unwrap_or(fixture);
    text.split_inclusive('\n').filter(|line| !line.starts_with("//- ")).collect()
}

/// The text of a fixture without the cursor, and where the cursor is.
fn take_cursor(fixture: &str) -> (String, usize) {
    let text = fixture_text(fixture);
    let offset = text.find("$0").unwrap();
    (text.replacen("$0", "", 1), offset)
}

fn indent_of_line(text: &str, offset: usize) -> u8 {
    let line = text[..offset].rfind('\n').map_or(0, |end| end + 1);
    let spaces = text[line..].chars().take_while(|c| *c == ' ').count();
    (spaces / 4) as u8
}

fn context(text: &str, offset: usize, types: Types<'_>) -> AssistContext {
    let elements = parse(text);
    let mut bindings = Vec::new();
    let mut places = Vec::new();
    for (i, element) in elements.iter().enumerate() {
        let range = element.range;
        if element.kind == SyntaxKind::IdentPat {
            let name = &text[range.start..range.end];
            if let Some((_, ty)) = types.iter().find(|(own, _)| *own == name) {
                bindings.push(BindingFacts {
                    pat: i,
                    binding_type: Some(ty()),
                    pat_type: Some(ty()),
                    in_module: true,
                });
            }
        }
        if element.kind == SyntaxKind::MatchArmList {
            places.push(Place { arm_list: i, range, indent: indent_of_line(text, range.start) });
        }
    }
    AssistContext {
        tree: SyntaxTree::new(elements).unwrap(),
        offset,
        sema: Semantics { bindings, places },
        expr_fill_default: ExprFillDefaultMode::Todo,
    }
}

fn edited(text: &str, assist: &Assist) -> String {
    let edit = assist.edit.as_ref().unwrap();
    let mut result = text.to_string();
    result.replace_range(edit.range.start..edit.range.end, &edit.text);
    result
}

fn check_assist(before: &str, types: Types<'_>, after: &str) {
    let (text, offset) = take_cursor(before);
    let assist = split_match_arm(&context(&text, offset, types)).unwrap();
    assert_eq!(edited(&text, &assist), fixture_text(after));
}

/// As `check_assist`, with the list of arms at this level of indentation.
fn check_assist_at_level(before: &str, types: Types<'_>, level: u8, after: &str) {
    let (text, offset) = take_cursor(before);
    let mut ctx = context(&text, offset, types);
    for place in &mut ctx.sema.places {
        place.indent = level;
    }
    let assist = split_match_arm(&ctx).unwrap();
    assert_eq!(edited(&text, &assist), fixture_text(after));
}

fn check_assist_not_applicable(before: &str, types: Types<'_>) {
    let (text, offset) = take_cursor(before);
    assert!(split_match_arm(&context(&text, offset, types)).is_none());
}

fn tuple(path: &str, names: &[Option<&str>]) -> Variant {
    let names = names.iter().map(|name| name.map(|name| name.to_string())).collect();
    Variant { path: Some(path.to_string()), fields: VariantFields::Tuple(names) }
}

fn record(path: &str, names: &[&str]) -> Variant {
    let names = names.iter().map(|name| name.to_string()).collect();
    Variant { path: Some(path.to_string()), fields: VariantFields::Record(names) }
}

fn unit(path: &str) -> Variant {
    Variant { path: Some(path.to_string()), fields: VariantFields::Unit }
}

fn option() -> Type {
    Type::Enum(vec![tuple("Some", &[Some("val")]), unit("None")])
}

fn result() -> Type {
    Type::Enum(vec![tuple("Ok", &[Some("val")]), tuple("Err", &[Some("val")])])
}

fn color() -> Type {
    Type::Enum(vec![unit("Color::Red"), unit("Color::Green"), unit("Color::Blue")])
}

fn boolean() -> Type {
    Type::Bool
}

fn other() -> Type {
    Type::Other
}

#[test]
fn test_split_simple_option() {
    check_assist(
        r#"
//- minicore: option
fn main() {
    let x: Option<Option<i32>> = Some(Some(42));
    match x {
        Some(inner$0) => todo!(),
        None => todo!(),
    }
}
"#,
        &[("inner", option)],
        r#"
fn main() {
    let x: Option<Option<i32>> = Some(Some(42));
    match x {
        Some(Some(val)) => todo!(),
        Some(None) => todo!(),
        None => todo!(),
    }
}
"#,
    );
}

#[test]
fn test_split_result_ok() {
    check_assist(
        r#"
//- minicore: option, result
fn main() {
    let x: Result<Option<i32>, ()> = Ok(Some(42));
    match x {
        Ok(res$0) => todo!(),
        Err(err) => todo!(),
    }
}
"#,
        &[("res", option), ("err", other)],
        r#"
fn main() {
    let x: Result<Option<i32>, ()> = Ok(Some(42));
    match x {
        Ok(Some(val)) => todo!(),
        Ok(None) => todo!(),
        Err(err) => todo!(),
    }
}
"#,
    );
}

#[test]
fn test_split_option_some() {
    check_assist_at_level(
        r#"
//- minicore: option, result
fn main() {
    let x: Option<Result<i32, ()>> = Some(Ok(42));
    match x {
        Some(res$0) => todo!(),
        None => todo!(),
    }
}
"#,
        &[("res", result)],
        0,
        r#"
fn main() {
    let x: Option<Result<i32, ()>> = Some(Ok(42));
    match x {
    Some(Ok(val)) => todo!(),
    Some(Err(val)) => todo!(),
    None => todo!(),
}
}
"#,
    );
}

#[test]
fn test_split_custom_enum_tuple_struct() {
    check_assist(
        r#"
enum MyEnum { A(bool), B(i32), C }
fn main() {
    let x: MyEnum = MyEnum::A(true);
    match x {
        MyEnum::A(inner$0) => todo!(),
        _ => todo!(),
    }
}
"#,
        &[("inner", boolean)],
        r#"
enum MyEnum { A(bool), B(i32), C }
fn main() {
    let x: MyEnum = MyEnum::A(true);
    match x {
        MyEnum::A(true) => todo!(),
        MyEnum::A(false) => todo!(),
        _ => todo!(),
    }
}
"#,
    );
}

#[test]
fn test_split_custom_enum_record_struct() {
    check_assist(
        r#"
enum Color { Red, Green, Blue }
enum Shape { Circle { radius: f64, color: Color }, Square { side: f64 } }
fn main() {
    let shape = Shape::Circle { radius: 1.0, color: Color::Red };
    match shape {
        Shape::Circle { color: c$0, .. } => todo!(),
        _ => todo!(),
    }
}
"#,
        &[("c", color)],
        r#"
enum Color { Red, Green, Blue }
enum Shape { Circle { radius: f64, color: Color }, Square { side: f64 } }
fn main() {
    let shape = Shape::Circle { radius: 1.0, color: Color::Red };
    match shape {
        Shape::Circle { color: Color::Red, .. } => todo!(),
        Shape::Circle { color: Color::Green, .. } => todo!(),
        Shape::Circle { color: Color::Blue, .. } => todo!(),
        _ => todo!(),
    }
}
"#,
    );
}

#[test]
fn test_split_deeply_nested() {
    check_assist(
        r#"
//- minicore: option
enum MyEnum { X(Option<bool>), Y }
fn main() {
    let x: Option<MyEnum> = Some(MyEnum::X(Some(true)));
    match x {
        Some(MyEnum::X(inner$0)) => todo!(),
        _ => todo!(),
    }
}
"#,
        &[("inner", option)],
        r#"
enum MyEnum { X(Option<bool>), Y }
fn main() {
    let x: Option<MyEnum> = Some(MyEnum::X(Some(true)));
    match x {
        MyEnum::X(Some(val)) => todo!(),
        MyEnum::X(None) => todo!(),
        _ => todo!(),
    }
}
"#,
    );
}

#[test]
fn test_not_applicable_non_enum_type() {
    check_assist_not_applicable(
        r#"
fn main() {
    let x: i32 = 42;
    match x {
        val$0 => todo!(),
    }
}
"#,
        &[("val", other)],
    );
}

#[test]
fn test_not_applicable_struct_type() {
    check_assist_not_applicable(
        r#"
struct Point { x: i32, y: i32 }
fn main() {
    let p = Point { x: 1, y: 2 };
    match p {
        Point { x: val$0, y: _ } => todo!(),
    }
}
"#,
        &[("val", other)],
    );
}

#[test]
fn test_not_applicable_single_variant_enum() {
    check_assist_not_applicable(
        r#"
enum Single { Only(i32) }
fn main() {
    let x = Single::Only(42);
    match x {
        Single::Only(val$0) => todo!(),
    }
}
"#,
        &[("val", other)],
    );
}

#[test]
fn test_split_with_explicit_path() {
    check_assist(
        r#"
mod inner {
    pub enum Status { Ready(bool), Waiting }
}
fn main() {
    let status = inner::Status::Ready(true);
    match status {
        inner::Status::Ready(ready$0) => todo!(),
        inner::Status::Waiting => todo!(),
    }
}
"#,
        &[("ready", boolean)],
        r#"
mod inner {
    pub enum Status { Ready(bool), Waiting }
}
fn main() {
    let status = inner::Status::Ready(true);
    match status {
        inner::Status::Ready(true) => todo!(),
        inner::Status::Ready(false) => todo!(),
        inner::Status::Waiting => todo!(),
    }
}
"#,
    );
}

#[test]
fn test_split_preserves_other_arms_order() {
    check_assist(
        r#"
//- minicore: option
fn main() {
    let x: Option<bool> = Some(true);
    match x {
        None => println!("none"),
        Some(val$0) => todo!(),
    }
}
"#,
        &[("val", boolean)],
        r#"
fn main() {
    let x: Option<bool> = Some(true);
    match x {
        None => println!("none"),
        Some(true) => todo!(),
        Some(false) => todo!(),
    }
}
"#,
    );
}

#[test]
fn test_split_mixed_variant_types() {
    check_assist(
        r#"
enum Message {
    Text(String),
    Number(i32),
    Flag(bool),
    Empty,
}
fn main() {
    let msg = Message::Flag(true);
    match msg {
        Message::Flag(flag$0) => todo!(),
        _ => todo!(),
    }
}
"#,
        &[("flag", boolean)],
        r#"
enum Message {
    Text(String),
    Number(i32),
    Flag(bool),
    Empty,
}
fn main() {
    let msg = Message::Flag(true);
    match msg {
        Message::Flag(true) => todo!(),
        Message::Flag(false) => todo!(),
        _ => todo!(),
    }
}
"#,
    );
}

#[test]
fn test_not_applicable_already_expanded() {
    check_assist_not_applicable(
        r#"
//- minicore: option
fn main() {
    let x: Option<bool> = Some(true);
    match x {
        Some(true$0) => todo!(),
        Some(false) => todo!(),
        None => todo!(),
    }
}
"#,
        &[],
    );
}

#[test]
fn test_split_with_import() {
    check_assist(
        r#"
//- minicore: option
fn main() {
    let x: Option<bool> = Some(true);
    match x {
        Some(val$0) => todo!(),
        None => todo!(),
    }
}
"#,
        &[("val", boolean)],
        r#"
fn main() {
    let x: Option<bool> = Some(true);
    match x {
        Some(true) => todo!(),
        Some(false) => todo!(),
        None => todo!(),
    }
}
"#,
    );
}

#[test]
fn test_not_applicable_cursor_not_on_binding() {
    check_assist_not_applicable(
        r#"
//- minicore: option
fn main() {
    let x: Option<bool> = Some(true);
    match x {
        $0Some(val) => todo!(),
        None => todo!(),
    }
}
"#,
        &[("val", boolean)],
    );
}

#[test]
fn test_not_applicable_on_wildcard() {
    check_assist_not_applicable(
        r#"
//- minicore: option
fn main() {
    let x: Option<i32> = Some(42);
    match x {
        _ $0=> todo!(),
    }
}
"#,
        &[],
    );
}

#[test]
fn test_not_applicable_with_guard() {
    check_assist_not_applicable(
        r#"
//- minicore: option
fn main() {
    let x: Option<i32> = Some(42);
    match x {
        Some(val$0) if val > 10 => todo!(),
        _ => todo!(),
    }
}
"#,
        &[("val", other)],
    );
}

#[test]
fn splits_inside_result() {
    check_assist(
        r#"
enum Result<T, E> { Ok(T), Err(E) }
enum Option<T> { Some(T), None }

fn handle(x: Result<Option<u32>, String>) {
    match x {
        Ok(res$0) => todo!(),
        Err(err) => todo!(),
    }
}
"#,
        &[("res", option), ("err", other)],
        r#"
enum Result<T, E> { Ok(T), Err(E) }
enum Option<T> { Some(T), None }

fn handle(x: Result<Option<u32>, String>) {
    match x {
        Ok(Some(val)) => todo!(),
        Ok(None) => todo!(),
        Err(err) => todo!(),
    }
}
"#,
    );
}

#[test]
fn names_the_assist_and_its_target() {
    let (text, offset) = take_cursor("fn f() { match x { Some(in$0ner) => 1, None => 2 } }");
    let assist = split_match_arm(&context(&text, offset, &[("inner", option)])).unwrap();
    assert_eq!(assist.name, "split_match_arm");
    assert_eq!(assist.kind, AssistKind::RefactorRewrite);
    assert_eq!(assist.label, "Case splitting on match arms");
    assert_eq!(&text[assist.target.start..assist.target.end], "inner");
}

#[test]
fn cursor_may_be_anywhere_in_the_binding() {
    let mut seen = Vec::new();
    for at in [
        "fn f() { match x { Some($0inner) => 1, None => 2 } }",
        "fn f() { match x { Some(inn$0er) => 1, None => 2 } }",
        "fn f() { match x { Some(inner$0) => 1, None => 2 } }",
    ] {
        let (text, offset) = take_cursor(at);
        let assist = split_match_arm(&context(&text, offset, &[("inner", option)])).unwrap();
        seen.push(edited(&text, &assist));
    }
    assert_eq!(seen[0], seen[1]);
    assert_eq!(seen[1], seen[2]);
    assert_eq!(
        seen[0],
        "fn f() { match x {\n    Some(Some(val)) => todo!(),\n    Some(None) => todo!(),\n    \
         None => 2,\n} }"
    );
}

#[test]
fn guarded_enum_is_not_split() {
    check_assist_not_applicable(
        "fn f() { match x { Some(val$0) if ready => 1, _ => 2 } }",
        &[("val", option)],
    );
}

#[test]
fn unknown_type_is_not_split() {
    check_assist_not_applicable("fn f() { match x { Some(val$0) => 1, _ => 2 } }", &[]);
}

#[test]
fn type_of_the_pattern_must_be_known_too() {
    let (text, offset) = take_cursor("fn f() { match x { Some(val$0) => 1, _ => 2 } }");
    let mut ctx = context(&text, offset, &[("val", option)]);
    ctx.sema.bindings[0].pat_type = None;
    assert!(split_match_arm(&ctx).is_none());
    ctx.sema.bindings[0].pat_type = Some(Type::Other);
    assert!(split_match_arm(&ctx).is_none());
    ctx.sema.bindings[0].pat_type = Some(Type::Bool);
    assert!(split_match_arm(&ctx).is_some());
    ctx.sema.bindings[0].binding_type = None;
    assert!(split_match_arm(&ctx).is_none());
}

#[test]
fn pattern_must_stand_in_a_module() {
    let (text, offset) = take_cursor("fn f() { match x { Some(val$0) => 1, _ => 2 } }");
    let mut ctx = context(&text, offset, &[("val", option)]);
    ctx.sema.bindings[0].in_module = false;
    assert!(split_match_arm(&ctx).is_none());
}

fn empty_enum() -> Type {
    Type::Enum(Vec::new())
}

fn partly_hidden_enum() -> Type {
    Type::Enum(vec![unit("Seen"), Variant { path: None, fields: VariantFields::Unit }])
}

#[test]
fn every_variant_must_have_a_name() {
    check_assist_not_applicable(
        "fn f() { match x { Some(val$0) => 1, _ => 2 } }",
        &[("val", empty_enum)],
    );
    check_assist_not_applicable(
        "fn f() { match x { Some(val$0) => 1, _ => 2 } }",
        &[("val", partly_hidden_enum)],
    );
}

#[test]
fn cursor_in_the_body_is_not_in_the_pattern() {
    check_assist_not_applicable(
        "fn f() { match x { Some(val) => va$0l, _ => 2 } }",
        &[("val", option)],
    );
}

#[test]
fn bare_binding_is_split() {
    check_assist(
        "fn f() { match x { $0val => 1 } }",
        &[("val", option)],
        "fn f() { match x {\n    Some(val) => todo!(),\n    None => todo!(),\n} }",
    );
    let (text, offset) = take_cursor("fn f() { match x { v$0al => 1 } }");
    let ctx = context(&text, offset, &[("val", option)]);
    let split = find_split(&ctx).unwrap();
    assert_eq!(split.pat, split.arm_pat);
    assert!(matches!(split.context, ReplacementContext::Direct));
    check_assist_not_applicable("fn f() { match x { v$0al => 1 } }", &[("val", other)]);
}

#[test]
fn innermost_arm_is_split() {
    check_assist(
        "fn f() { match x { Some(a) => match y { Some(b$0) => 1, _ => 2 }, _ => 3 } }",
        &[("a", boolean), ("b", boolean)],
        "fn f() { match x { Some(a) => match y {\n    Some(true) => todo!(),\n    \
         Some(false) => todo!(),\n    _ => 2,\n}, _ => 3 } }",
    );
}

#[test]
fn other_fields_of_the_same_pattern_stay() {
    check_assist(
        "fn f() { match x { Pair(first, flag$0, 3) => 1, _ => 2 } }",
        &[("first", other), ("flag", boolean)],
        "fn f() { match x {\n    Pair(first, true, 3) => todo!(),\n    \
         Pair(first, false, 3) => todo!(),\n    _ => 2,\n} }",
    );
}

#[test]
fn fields_of_an_inner_pattern_become_wildcards() {
    check_assist(
        "fn f() { match x { Some(Pair(first, flag$0)) => 1, _ => 2 } }",
        &[("first", other), ("flag", boolean)],
        "fn f() { match x {\n    Pair(_, true) => todo!(),\n    Pair(_, false) => todo!(),\n    \
         _ => 2,\n} }",
    );
}

#[test]
fn inner_pattern_with_the_same_path_takes_outer_fields() {
    check_assist(
        "fn f() { match x { Pair(Pair(a, flag$0), c, d) => 1, _ => 2 } }",
        &[("flag", boolean)],
        "fn f() { match x {\n    Pair(Pair(a, flag), true) => todo!(),\n    \
         Pair(Pair(a, flag), false) => todo!(),\n    _ => 2,\n} }",
    );
    check_assist(
        "fn f() { match x { Node(Node(a, b, flag$0)) => 1, _ => 2 } }",
        &[("flag", boolean)],
        "fn f() { match x {\n    Node(Node(a, b, flag), _, true) => todo!(),\n    \
         Node(Node(a, b, flag), _, false) => todo!(),\n    _ => 2,\n} }",
    );
}

#[test]
fn binding_in_no_field_is_not_split() {
    for before in [
        "fn f() { match x { (a$0, b) => 1, _ => 2 } }",
        "fn f() { match x { &$0a => 1, _ => 2 } }",
        "fn f() { match x { P { a$0 } => 1, _ => 2 } }",
    ] {
        check_assist_not_applicable(before, &[("a", boolean)]);
    }
}

#[test]
fn further_layers_change_nothing() {
    let (text, offset) = take_cursor("fn f() { match x { A(B(1, (v$0, 2))) => 1 } }");
    let ctx = context(&text, offset, &[("v", boolean)]);
    ctx.tree.show_tree();
    let split = find_split(&ctx).unwrap();
    let at = |arm_pat: usize| {
        find_replacement_context(&ctx.tree, split.pat, arm_pat).map(|found| format!("{found:?}"))
    };
    let layers: Vec<usize> = (0..ctx.tree.len())
        .filter(|node| ctx.tree.kind(*node).is_pat() && ctx.tree.is_within(*node, split.pat))
        .collect();
    assert_eq!(layers.len(), 4);
    assert_eq!(at(layers[3]), Some("Direct".to_string()));
    assert_eq!(at(layers[2]), None);
    assert!(at(layers[1]).unwrap().starts_with("TupleStruct"));
    assert_eq!(at(layers[0]), at(layers[1]));
}

#[test]
fn walk_ends_at_the_pattern_of_the_arm() {
    let (text, offset) = take_cursor("fn f() { match x { Some((v$0, 2)) => 1 } }");
    let ctx = context(&text, offset, &[("v", boolean)]);
    let split = find_split(&ctx).unwrap();
    let tuple_pat = ctx.tree.parent(split.pat).unwrap();
    assert!(find_replacement_context(&ctx.tree, split.pat, split.arm_pat).is_some());
    assert!(find_replacement_context(&ctx.tree, split.pat, tuple_pat).is_none());
}

fn shape() -> Type {
    Type::Enum(vec![
        record("Shape::Circle", &["radius", "color"]),
        tuple("Shape::Line", &[None, Some("point"), None]),
        tuple("Shape::Nothing", &[]),
        record("Shape::Odd", &[]),
        unit("Shape::Dot"),
    ])
}

#[test]
fn writes_every_sort_of_variant() {
    check_assist(
        "fn f() { match x { Some(s$0) => 1, None => 2 } }",
        &[("s", shape)],
        "fn f() { match x {\n    Some(Shape::Circle { radius, color }) => todo!(),\n    \
         Some(Shape::Line(_0, point, _2)) => todo!(),\n    Some(Shape::Nothing()) => todo!(),\n    \
         Some(Shape::Odd {  }) => todo!(),\n    Some(Shape::Dot) => todo!(),\n    None => 2,\n} }",
    );
}

#[test]
fn new_arms_get_the_configured_body() {
    let (text, offset) = take_cursor("fn f() { match x { Some(val$0) => 1 } }");
    let mut ctx = context(&text, offset, &[("val", boolean)]);
    let body = |ctx: &AssistContext| split_match_arm(ctx).unwrap().edit.unwrap().text;
    assert_eq!(body(&ctx), "{\n    Some(true) => todo!(),\n    Some(false) => todo!(),\n}");
    ctx.expr_fill_default = ExprFillDefaultMode::Underscore;
    assert_eq!(body(&ctx), "{\n    Some(true) => _,\n    Some(false) => _,\n}");
    ctx.expr_fill_default = ExprFillDefaultMode::Default;
    assert_eq!(body(&ctx), "{\n    Some(true) => todo!(),\n    Some(false) => todo!(),\n}");
}

#[test]
fn list_without_a_place_is_left() {
    let (text, offset) = take_cursor("fn f() { match x { Some(val$0) => 1 } }");
    let mut ctx = context(&text, offset, &[("val", boolean)]);
    ctx.sema.places.clear();
    let assist = split_match_arm(&ctx).unwrap();
    assert!(assist.edit.is_none());
    assert_eq!(&text[assist.target.start..assist.target.end], "val");
}

#[test]
fn commas_are_added_where_they_are_needed() {
    check_assist(
        "fn f() { match x { A => {} B => { 1 }, Some(val$0) => 1, C => 2 } }",
        &[("val", boolean)],
        "fn f() { match x {\n    A => {}\n    B => { 1 },\n    Some(true) => todo!(),\n    \
         Some(false) => todo!(),\n    C => 2,\n} }",
    );
}

#[test]
fn lines_of_an_arm_move_with_the_list() {
    check_assist(
        r#"
fn main() {
    match x {
        None => {
            work(); // two
        }
        Some(val$0) => todo!(),
    }
}
"#,
        &[("val", boolean)],
        r#"
fn main() {
    match x {
        None => {
                work(); // two
            }
        Some(true) => todo!(),
        Some(false) => todo!(),
    }
}
"#,
    );
}

#[test]
fn deeper_lists_are_indented_more() {
    check_assist_at_level(
        "fn f() { match x { Some(val$0) => 1 } }",
        &[("val", boolean)],
        3,
        "fn f() { match x {\n                Some(true) => todo!(),\n                \
         Some(false) => todo!(),\n            } }",
    );
}

#[test]
fn split_is_of_the_arm_at_the_cursor() {
    let (text, offset) = take_cursor("fn f() { match x { A => 0, Some(val$0) => 1, B => 2 } }");
    let ctx = context(&text, offset, &[("val", boolean)]);
    let split = find_split(&ctx).unwrap();
    let text_at = |node: usize| {
        let range = ctx.tree.range(node);
        &text[range.start..range.end]
    };
    assert_eq!(split.arm_index, 1);
    assert_eq!(ctx.tree.kind(split.arm_list), SyntaxKind::MatchArmList);
    assert_eq!(text_at(split.arm_pat), "Some(val)");
    assert_eq!(text_at(split.pat), "val");
    assert_eq!(split.patterns.len(), 2);
    let edit = edit_for(&ctx, &split).unwrap();
    assert_eq!(
        edit.text,
        "{\n    A => 0,\n    Some(true) => todo!(),\n    Some(false) => todo!(),\n    B => 2,\n}"
    );
    let (pat, _) = find_pattern_to_split(split.arm_pat, &ctx).unwrap();
    assert_eq!(pat, split.pat);
}

#[test]
fn nearest_pattern_decides() {
    let (text, offset) = take_cursor("fn f() { match x { A(1, B { f: C(g, (v$0, 2)) }) => 1 } }");
    let ctx = context(&text, offset, &[("v", boolean)]);
    let split = find_split(&ctx).unwrap();
    match find_replacement_context(&ctx.tree, split.pat, split.arm_pat) {
        Some(ReplacementContext::TupleStruct { outer_path, field_index, total_fields }) => {
            let range = ctx.tree.range(outer_path);
            assert_eq!(&text[range.start..range.end], "C");
            assert_eq!((field_index, total_fields), (1, 2));
        }
        other => panic!("{other:?}"),
    }
    let (text, offset) = take_cursor("fn f() { match x { A(1, B { e: 1, f: (v$0, 2) }) => 1 } }");
    let ctx = context(&text, offset, &[("v", boolean)]);
    let split = find_split(&ctx).unwrap();
    match find_replacement_context(&ctx.tree, split.pat, split.arm_pat) {
        Some(ReplacementContext::Record { outer_path, field_name }) => {
            let range = ctx.tree.range(outer_path);
            assert_eq!(&text[range.start..range.end], "B");
            assert_eq!(field_name, "f");
        }
        other => panic!("{other:?}"),
    }
}

#[test]
fn other_fields_of_a_record_pattern_become_rest() {
    check_assist(
        "fn f() { match x { P { a: v$0, b, c: _ } => 1, _ => 2 } }",
        &[("v", boolean)],
        "fn f() { match x {\n    P { a: true, .. } => todo!(),\n    \
         P { a: false, .. } => todo!(),\n    _ => 2,\n} }",
    );
    // The literal could fail to match, and what stands in its place cannot.
    check_assist(
        "fn f() { match x { P { a: v$0, b: 1 } => 1, _ => 2 } }",
        &[("v", boolean)],
        "fn f() { match x {\n    P { a: true, .. } => todo!(),\n    \
         P { a: false, .. } => todo!(),\n    _ => 2,\n} }",
    );
}

#[test]
fn values_reach_the_same_arm_or_a_new_one() {
    let before = ["A", "Some(val)", "B", "_"];
    let (text, offset) =
        take_cursor("fn f() { match x { A => 0, Some(val$0) => 1, B => 2, _ => 3 } }");
    let ctx = context(&text, offset, &[("val", boolean)]);
    let split = find_split(&ctx).unwrap();
    let edit = edit_for(&ctx, &split).unwrap();
    let arms = edit.text.lines().filter_map(|line| line.trim().split_once(" => "));
    let after: Vec<&str> = arms.map(|(pat, _)| pat).collect();
    assert_eq!(after, ["A", "Some(true)", "Some(false)", "B", "_"]);
    let takes = |arm: &str, value: &str| {
        arm == value || arm == "_" || (arm == "Some(val)" && value.starts_with("Some("))
    };
    let reached = |arms: &[&str], value: &str| arms.iter().position(|arm| takes(arm, value));
    for (value, old, new) in
        [("A", 0, 0), ("Some(true)", 1, 1), ("Some(false)", 1, 2), ("B", 2, 3), ("C", 3, 4)]
    {
        assert_eq!(reached(&before, value), Some(old));
        assert_eq!(reached(&after, value), Some(new));
    }
    assert_eq!(reached(&before[..3], "C"), None);
    assert_eq!(reached(&after[..4], "C"), None);
}
