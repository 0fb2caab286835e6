//! What struct declarations amount to: tables, constants, and complaints.
#![allow(dead_code)]

use recrr::derive::{
    expand, screaming_snake, Attribute, Body, Constant, Declaration, Diagnostic, Field, Form,
    Place, Plan, Token,
};
use recrr::value::Real;
use recrr::{CrdtTable, PkSpec, Schema, SkeletonValue, TableSpec, Value};

fn word(text: &str) -> Token {
    Token::Word {
        text: text.to_string(),
        keyword: false,
    }
}

fn keyword(text: &str) -> Token {
    Token::Word {
        text: text.to_string(),
        keyword: true,
    }
}

fn text(text: &str) -> Token {
    Token::Str(text.to_string())
}

fn double(f: f64) -> Real {
    Real {
        bits: f.to_bits(),
        json: serde_json::Number::from_f64(f).map(|n| n.to_string()),
    }
}

fn crdt(tokens: Vec<Token>) -> Attribute {
    Attribute {
        path: "crdt".to_string(),
        form: Form::List(tokens),
    }
}

/// `#[crdt(table = "...")]`
fn table_attr(name: &str) -> Vec<Attribute> {
    vec![crdt(vec![word("table"), Token::Punct('='), text(name)])]
}

/// `#[crdt(table = "...", pk = (a, b; sep = ':'))]`
fn composite_attr(name: &str, a: &str, b: &str) -> Vec<Attribute> {
    vec![crdt(vec![
        word("table"),
        Token::Punct('='),
        text(name),
        Token::Punct(','),
        word("pk"),
        Token::Punct('='),
        Token::Open('('),
        word(a),
        Token::Punct(','),
        word(b),
        Token::Punct(';'),
        word("sep"),
        Token::Punct('='),
        Token::Char(':'),
        Token::Close,
    ])]
}

fn plain(ident: &str) -> Field {
    Field {
        ident: ident.to_string(),
        attrs: vec![],
    }
}

fn field(ident: &str, tokens: Vec<Token>) -> Field {
    Field {
        ident: ident.to_string(),
        attrs: vec![crdt(tokens)],
    }
}

fn pk_field(ident: &str) -> Field {
    field(ident, vec![word("pk")])
}

fn skip_field(ident: &str) -> Field {
    field(ident, vec![word("skip")])
}

/// `#[crdt(skeleton = "...")]`
fn skeleton_field(ident: &str, default: &str) -> Field {
    field(
        ident,
        vec![word("skeleton"), Token::Punct('='), text(default)],
    )
}

fn rename_field(ident: &str, name: &str) -> Field {
    field(ident, vec![word("rename"), Token::Punct('='), text(name)])
}

fn declare(attrs: Vec<Attribute>, fields: Vec<Field>) -> Declaration {
    Declaration {
        generic: false,
        attrs,
        body: Body::Named(fields),
    }
}

fn paper() -> Plan {
    expand(declare(
        table_attr("papers"),
        vec![
            pk_field("id"),
            skeleton_field("title", "\"\""),
            skeleton_field("authors", "\"[]\""),
            skeleton_field("is_favorite", "0"),
            skeleton_field("is_read", "0"),
            skeleton_field("date_added", "now_rfc3339"),
            skeleton_field("date_modified", "now_rfc3339"),
            plain("citation_count"),
            plain("cover"),
            plain("notes"),
            // A field that exists on the struct but is not synced.
            skip_field("local_only"),
        ],
    ))
    .unwrap()
}

fn widget() -> Plan {
    expand(declare(
        table_attr("widgets"),
        vec![pk_field("id"), rename_field("favorite", "is_favorite")],
    ))
    .unwrap()
}

fn paper_collection() -> Plan {
    expand(declare(
        composite_attr("paper_collections", "paper_id", "collection_id"),
        vec![plain("paper_id"), plain("collection_id")],
    ))
    .unwrap()
}

fn constant<'a>(plan: &'a Plan, name: &str) -> &'a str {
    let found: &Constant = plan.constants.iter().find(|c| c.name == name).unwrap();
    found.value.as_str()
}

fn all(plan: &Plan) -> Vec<&str> {
    plan.all.iter().map(|name| constant(plan, name)).collect()
}

struct Paper;

impl CrdtTable for Paper {
    const TABLE: &'static str = "papers";

    fn table_spec() -> TableSpec {
        paper().table
    }
}

struct Widget;

impl CrdtTable for Widget {
    const TABLE: &'static str = "widgets";

    fn table_spec() -> TableSpec {
        widget().table
    }
}

struct PaperCollection;

impl CrdtTable for PaperCollection {
    const TABLE: &'static str = "paper_collections";

    fn table_spec() -> TableSpec {
        paper_collection().table
    }
}

#[test]
fn column_constants_honor_field_names_and_rename() {
    let paper = paper();
    assert_eq!(constant(&paper, "TITLE"), "title");
    assert_eq!(constant(&paper, "AUTHORS"), "authors");
    assert_eq!(constant(&paper, "NOTES"), "notes");
    assert_eq!(constant(&paper, "ID"), "id");
    // The constant is named after the field; its value honors `rename`.
    assert_eq!(constant(&widget(), "FAVORITE"), "is_favorite");
}

#[test]
fn all_lists_tracked_columns_in_declaration_order_excluding_pk_and_skip() {
    let paper = paper();
    assert_eq!(
        all(&paper),
        &[
            "title",
            "authors",
            "is_favorite",
            "is_read",
            "date_added",
            "date_modified",
            "citation_count",
            "cover",
            "notes",
        ]
    );
    // `id` (pk) and `local_only` (skip) are absent.
    assert!(!all(&paper).contains(&"id"));
    assert!(!all(&paper).contains(&"local_only"));
}

#[test]
fn table_spec_matches_hand_written() {
    let plan = paper();
    let spec = Paper::table_spec();
    assert_eq!(Paper::TABLE, "papers");
    assert_eq!(spec.name, "papers");
    assert_eq!(spec.columns, all(&plan));
    match spec.pk {
        PkSpec::Single { column } => assert_eq!(column, "id"),
        _ => panic!("expected single pk"),
    }
    // Skeleton entries were generated for the columns that declared one.
    let skeleton_cols: Vec<&str> = spec.skeleton.iter().map(|(c, _)| c.as_str()).collect();
    assert_eq!(
        skeleton_cols,
        vec![
            "title",
            "authors",
            "is_favorite",
            "is_read",
            "date_added",
            "date_modified",
        ]
    );
}

#[test]
fn composite_pk_junction_has_no_tracked_columns() {
    let plan = paper_collection();
    let spec = PaperCollection::table_spec();
    assert_eq!(spec.name, "paper_collections");
    assert!(
        spec.columns.is_empty(),
        "key columns are not tracked columns"
    );
    assert!(plan.all.is_empty());
    match spec.pk {
        PkSpec::Composite { columns, sep } => {
            assert_eq!(
                columns,
                ("paper_id".to_string(), "collection_id".to_string())
            );
            assert_eq!(sep, ':');
        }
        _ => panic!("expected composite pk"),
    }
}

#[test]
fn derived_and_hand_written_schemas_have_the_same_fingerprint() {
    // The fingerprint ignores skeletons, so only tables/columns/pk shape must match.
    let hand = Schema::new(vec![
        TableSpec::new(
            "papers",
            &[
                "title",
                "authors",
                "is_favorite",
                "is_read",
                "date_added",
                "date_modified",
                "citation_count",
                "cover",
                "notes",
            ],
        ),
        TableSpec::new("paper_collections", &[]).with_pk(PkSpec::composite(
            "paper_id",
            "collection_id",
            ':',
        )),
    ]);
    let derived = Schema::new(vec![Paper::table_spec(), PaperCollection::table_spec()]);
    assert_eq!(
        hand.fingerprint(),
        derived.fingerprint(),
        "derived schema must be wire-compatible with the hand-written one"
    );
}

#[test]
fn schema_of_builds_a_single_table_schema() {
    let s = Schema::of::<Widget>();
    assert_eq!(s.tables.len(), 1);
    assert_eq!(s.tables[0].name, "widgets");
}

fn complaint(input: Declaration) -> Diagnostic {
    expand(input).unwrap_err()
}

#[test]
fn ui() {
    // A basic struct.
    let basic = expand(declare(
        table_attr("papers"),
        vec![
            pk_field("id"),
            plain("title"),
            skeleton_field("authors", "\"[]\""),
            rename_field("favorite", "is_favorite"),
            skip_field("local_cache"),
        ],
    ))
    .unwrap();
    assert_eq!(constant(&basic, "TITLE"), "title");
    assert_eq!(constant(&basic, "AUTHORS"), "authors");
    assert_eq!(constant(&basic, "FAVORITE"), "is_favorite");
    assert_eq!(constant(&basic, "ID"), "id");
    assert_eq!(all(&basic), &["title", "authors", "is_favorite"]);
    assert_eq!(basic.table.name, "papers");
    assert_eq!(
        basic.table.columns,
        vec!["title", "authors", "is_favorite"]
    );

    // A junction table: composite key, no tracked columns.
    let spec = paper_collection().table;
    assert_eq!(spec.name, "paper_collections");
    assert!(spec.columns.is_empty());
    match spec.pk {
        PkSpec::Composite { columns, sep } => {
            assert_eq!(columns.0, "paper_id");
            assert_eq!(columns.1, "collection_id");
            assert_eq!(sep, ':');
        }
        _ => panic!("expected composite pk"),
    }

    // No table.
    let missing_table = complaint(declare(vec![], vec![pk_field("id"), plain("title")]));
    assert_eq!(
        missing_table.message,
        "#[derive(Crdt)] requires #[crdt(table = \"...\")] on the struct"
    );

    // No key.
    let no_pk = complaint(declare(table_attr("papers"), vec![plain("title")]));
    assert_eq!(
        no_pk.message,
        "a Crdt struct needs a primary key: mark a field with #[crdt(pk)] or declare a \
         composite key with #[crdt(table = \"...\", pk = (a, b; sep = ':'))]"
    );
    assert_eq!(no_pk.place, Place::Name);

    // Both a field pk and a composite pk: ambiguous.
    let double_pk = complaint(declare(
        composite_attr("papers", "a", "b"),
        vec![pk_field("id"), plain("title")],
    ));
    assert_eq!(
        double_pk.message,
        "a struct cannot have both a #[crdt(pk)] field and a composite pk = (...)"
    );

    // An unknown key.
    let unknown_key = complaint(declare(
        table_attr("papers"),
        vec![
            pk_field("id"),
            field("title", vec![word("bogus"), Token::Punct('='), text("x")]),
        ],
    ));
    assert_eq!(
        unknown_key.message,
        "unknown crdt(...) key `bogus` on this field; expected `pk`, `skip`, `rename`, or `skeleton`"
    );
    assert_eq!(
        unknown_key.place,
        Place::FieldArgument {
            field: 1,
            attr: 0,
            token: 0
        }
    );

    // A tuple struct.
    let tuple_struct = complaint(Declaration {
        generic: false,
        attrs: table_attr("papers"),
        body: Body::Unnamed,
    });
    assert_eq!(
        tuple_struct.message,
        "#[derive(Crdt)] requires a struct with named fields"
    );
    assert_eq!(tuple_struct.place, Place::Whole);
}

#[test]
fn generic_types_and_other_items_are_refused() {
    let generic = complaint(Declaration {
        generic: true,
        attrs: table_attr("papers"),
        body: Body::Named(vec![pk_field("id")]),
    });
    assert_eq!(
        generic.message,
        "#[derive(Crdt)] does not support generic types"
    );
    assert_eq!(generic.place, Place::Generics);

    let other = complaint(Declaration {
        generic: false,
        attrs: table_attr("papers"),
        body: Body::Other,
    });
    assert_eq!(
        other.message,
        "#[derive(Crdt)] can only be applied to structs"
    );
    assert_eq!(other.place, Place::Whole);
}

#[test]
fn field_attributes_that_exclude_each_other_are_refused() {
    let renamed_skip = complaint(declare(
        table_attr("t"),
        vec![
            pk_field("id"),
            field(
                "a",
                vec![
                    word("skip"),
                    Token::Punct(','),
                    word("rename"),
                    Token::Punct('='),
                    text("b"),
                ],
            ),
        ],
    ));
    assert_eq!(
        renamed_skip.message,
        "#[crdt(skip)] cannot be combined with rename or skeleton"
    );
    assert_eq!(renamed_skip.place, Place::Field(1));

    let skeleton_pk = complaint(declare(
        table_attr("t"),
        vec![field(
            "id",
            vec![
                word("pk"),
                Token::Punct(','),
                word("skeleton"),
                Token::Punct('='),
                Token::Int(0),
            ],
        )],
    ));
    assert_eq!(
        skeleton_pk.message,
        "a #[crdt(pk)] field cannot also have a skeleton default"
    );

    let two_pks = complaint(declare(
        table_attr("t"),
        vec![pk_field("a"), pk_field("b")],
    ));
    assert_eq!(two_pks.message, "only one #[crdt(pk)] field is allowed");
    assert_eq!(two_pks.place, Place::Field(1));

    let skeleton_key = complaint(declare(
        composite_attr("t", "a", "b"),
        vec![plain("a"), skeleton_field("b", "x")],
    ));
    assert_eq!(
        skeleton_key.message,
        "a composite key column cannot also have a skeleton default"
    );
}

#[test]
fn struct_attributes_are_read_argument_by_argument() {
    // The separator is a colon where none is given.
    let plan = expand(declare(
        vec![crdt(vec![
            word("pk"),
            Token::Punct('='),
            Token::Open('('),
            word("a"),
            Token::Punct(','),
            word("b"),
            Token::Close,
            Token::Punct(','),
            word("table"),
            Token::Punct('='),
            text("t"),
            Token::Punct(','),
        ])],
        vec![plain("a"), plain("b"), plain("c")],
    ))
    .unwrap();
    assert_eq!(plan.table.columns, vec!["c"]);
    match plan.table.pk {
        PkSpec::Composite { columns, sep } => {
            assert_eq!(columns, ("a".to_string(), "b".to_string()));
            assert_eq!(sep, ':');
        }
        _ => panic!("expected composite pk"),
    }

    // Attributes of other names do not matter, nor do bare ones.
    let plan = expand(declare(
        vec![
            Attribute {
                path: "doc".to_string(),
                form: Form::NameValue,
            },
            Attribute {
                path: "crdt".to_string(),
                form: Form::Bare,
            },
            crdt(vec![word("table"), Token::Punct('='), text("first")]),
            crdt(vec![word("table"), Token::Punct('='), text("last")]),
        ],
        vec![pk_field("id")],
    ))
    .unwrap();
    assert_eq!(plan.table.name, "last");

    let unknown = complaint(declare(
        vec![crdt(vec![word("name"), Token::Punct('='), text("t")])],
        vec![pk_field("id")],
    ));
    assert_eq!(
        unknown.message,
        "unknown crdt(...) key `name` on the struct; expected `table` or `pk`"
    );
    assert_eq!(unknown.place, Place::Argument { attr: 0, token: 0 });

    let wrong_sep = complaint(declare(
        vec![crdt(vec![
            word("pk"),
            Token::Punct('='),
            Token::Open('('),
            word("a"),
            Token::Punct(','),
            word("b"),
            Token::Punct(';'),
            word("by"),
            Token::Punct('='),
            Token::Char('/'),
            Token::Close,
        ])],
        vec![plain("a"), plain("b")],
    ));
    assert_eq!(
        wrong_sep.message,
        "expected `sep = '<char>'` in composite pk"
    );
    assert_eq!(wrong_sep.place, Place::Argument { attr: 0, token: 7 });

    let reserved = complaint(declare(
        vec![crdt(vec![keyword("type"), Token::Punct('='), text("t")])],
        vec![pk_field("id")],
    ));
    assert_eq!(
        reserved.message,
        "expected identifier, found keyword `type`"
    );

    let cut_short = complaint(declare(
        vec![crdt(vec![word("table"), Token::Punct('=')])],
        vec![pk_field("id")],
    ));
    assert_eq!(
        cut_short.message,
        "unexpected end of input, expected string literal"
    );

    let no_string = complaint(declare(
        vec![crdt(vec![word("table"), Token::Punct('='), Token::Int(3)])],
        vec![pk_field("id")],
    ));
    assert_eq!(no_string.message, "expected string literal");
    assert_eq!(no_string.place, Place::Argument { attr: 0, token: 2 });
}

fn skeleton_of(token: Token) -> Result<SkeletonValue, String> {
    let mut plan = expand(declare(
        table_attr("t"),
        vec![
            pk_field("id"),
            field("a", vec![word("skeleton"), Token::Punct('='), token]),
        ],
    ))
    .map_err(|d| d.message)?;
    assert_eq!(plan.table.skeleton.len(), 1);
    let (column, value) = plan.table.skeleton.remove(0);
    assert_eq!(column, "a");
    Ok(value)
}

fn literal_of(token: Token) -> Value {
    match skeleton_of(token) {
        Ok(SkeletonValue::Literal(value)) => value,
        other => panic!("expected a literal, got {other:?}"),
    }
}

#[test]
fn skeleton_defaults_are_literals_or_the_current_time() {
    assert_eq!(literal_of(text("x")), Value::Text("x".to_string()));
    assert_eq!(literal_of(Token::Int(7)), Value::Integer(7));
    assert_eq!(literal_of(keyword("true")), Value::Integer(1));
    assert_eq!(literal_of(keyword("false")), Value::Integer(0));
    assert_eq!(literal_of(Token::Float(double(1.5))), Value::Real(double(1.5)));
    // A string is a string, whatever it says.
    assert_eq!(
        literal_of(text("now_rfc3339")),
        Value::Text("now_rfc3339".to_string())
    );
    assert!(matches!(
        skeleton_of(word("now_rfc3339")),
        Ok(SkeletonValue::NowRfc3339)
    ));
    assert_eq!(
        skeleton_of(word("later")).unwrap_err(),
        "unknown skeleton keyword; expected `now_rfc3339` or a literal"
    );
    assert_eq!(
        skeleton_of(Token::Char('c')).unwrap_err(),
        "unsupported skeleton literal; use a string, integer, float, or bool"
    );
    assert_eq!(
        skeleton_of(Token::Literal).unwrap_err(),
        "unsupported skeleton literal; use a string, integer, float, or bool"
    );
}

#[test]
fn skeleton_numbers_are_those_that_a_column_holds() {
    assert_eq!(literal_of(Token::integer("7", "")), Value::Integer(7));
    assert_eq!(literal_of(Token::integer("0042", "i64")), Value::Integer(42));
    assert_eq!(literal_of(Token::integer("-1", "")), Value::Integer(-1));
    assert_eq!(
        literal_of(Token::integer("9223372036854775807", "")),
        Value::Integer(i64::MAX)
    );
    assert_eq!(
        literal_of(Token::integer("-9223372036854775808", "")),
        Value::Integer(i64::MIN)
    );
    assert_eq!(
        literal_of(Token::float(double(1.5), "f64")),
        Value::Real(double(1.5))
    );

    let large = "literal out of range for `i64`";
    for text in [
        "9223372036854775808",
        "-9223372036854775809",
        "340282366920938463463374607431768211456",
        "",
        "-",
        "1_0",
    ] {
        assert_eq!(skeleton_of(Token::integer(text, "")).unwrap_err(), large);
    }
    assert_eq!(
        skeleton_of(Token::integer("1", "u8")).unwrap_err(),
        "mismatched types: expected `i64`"
    );
    assert_eq!(
        skeleton_of(Token::float(double(f64::INFINITY), "")).unwrap_err(),
        "literal out of range for `f64`"
    );
    assert_eq!(
        skeleton_of(Token::float(double(1.0), "f32")).unwrap_err(),
        "mismatched types: expected `f64`"
    );

    // Elsewhere such a literal is as wrong as any other.
    let d = complaint(declare(
        vec![crdt(vec![word("table"), Token::Punct('='), Token::integer("1", "u8")])],
        vec![pk_field("id")],
    ));
    assert_eq!(d.message, "expected string literal");
}

#[test]
fn an_attribute_with_a_leading_path_is_not_ours() {
    let plan = expand(declare(
        vec![
            Attribute {
                path: "::crdt".to_string(),
                form: Form::Bare,
            },
            crdt(vec![word("table"), Token::Punct('='), text("t")]),
        ],
        vec![pk_field("id")],
    ))
    .unwrap();
    assert_eq!(plan.table.name, "t");
}

/// What comes of a field with the tokens of a skeleton default and what follows it.
fn skeleton_complaint(tokens: Vec<Token>) -> String {
    let mut all = vec![word("skeleton"), Token::Punct('=')];
    all.extend(tokens);
    complaint(declare(table_attr("t"), vec![pk_field("id"), field("a", all)])).message
}

#[test]
fn skeleton_paths_of_any_form_are_unknown_keywords() {
    let colons = || vec![Token::Punct(':'), Token::Punct(':')];
    let unknown = "unknown skeleton keyword; expected `now_rfc3339` or a literal";

    let mut leading = colons();
    leading.push(word("now_rfc3339"));
    assert_eq!(skeleton_complaint(leading), unknown);

    // a::b::<Map<K, V>>::c
    let mut generic = vec![word("a")];
    generic.extend(colons());
    generic.push(word("b"));
    generic.extend(colons());
    generic.extend(vec![
        Token::Punct('<'),
        word("Map"),
        Token::Punct('<'),
        word("K"),
        Token::Punct(','),
        word("V"),
        Token::Punct('>'),
        Token::Punct('>'),
    ]);
    generic.extend(colons());
    generic.push(word("c"));
    assert_eq!(skeleton_complaint(generic), unknown);
}

#[test]
fn a_skeleton_default_is_followed_by_a_comma() {
    assert_eq!(skeleton_complaint(vec![Token::Int(0), word("skip")]), "expected `,`");
    assert_eq!(
        skeleton_complaint(vec![text("x"), Token::Str("y".to_string())]),
        "expected `,`"
    );
    assert_eq!(
        skeleton_complaint(vec![word("now_rfc3339"), word("skip")]),
        "expected `,`"
    );
    // What goes on with the expression is part of it.
    let neither = "skeleton must be a literal (string / integer / float / bool) or `now_rfc3339`";
    assert_eq!(
        skeleton_complaint(vec![Token::Int(1), Token::Punct('+'), Token::Int(1)]),
        neither
    );
    assert_eq!(
        skeleton_complaint(vec![Token::Int(1), word("as"), word("i64")]),
        neither
    );
    assert_eq!(
        skeleton_complaint(vec![word("f"), Token::Open('('), Token::Close]),
        neither
    );
}

#[test]
fn malformed_field_attributes_are_refused() {
    let bare = complaint(declare(
        table_attr("t"),
        vec![Field {
            ident: "id".to_string(),
            attrs: vec![Attribute {
                path: "crdt".to_string(),
                form: Form::Bare,
            }],
        }],
    ));
    assert_eq!(
        bare.message,
        "expected attribute arguments in parentheses: #[crdt(...)]"
    );
    assert_eq!(bare.place, Place::FieldAttribute { field: 0, attr: 0 });

    let assigned = complaint(declare(
        table_attr("t"),
        vec![Field {
            ident: "id".to_string(),
            attrs: vec![Attribute {
                path: "crdt".to_string(),
                form: Form::NameValue,
            }],
        }],
    ));
    assert_eq!(assigned.message, "expected parentheses: #[crdt(...)]");

    let no_value = complaint(declare(
        table_attr("t"),
        vec![field("id", vec![word("rename")])],
    ));
    assert_eq!(no_value.message, "unexpected end of input, expected `=`");

    let literal = complaint(declare(
        table_attr("t"),
        vec![field("id", vec![Token::Int(1)])],
    ));
    assert_eq!(
        literal.message,
        "unexpected literal in nested attribute, expected ident"
    );
}

#[test]
fn constants_are_named_in_screaming_snake_case() {
    assert_eq!(screaming_snake("is_favorite"), "IS_FAVORITE");
    assert_eq!(screaming_snake("kebab-case2"), "KEBAB_CASE2");
    assert_eq!(screaming_snake("\u{e9}t\u{e9}"), "\u{e9}T\u{e9}");
    assert_eq!(screaming_snake(""), "");
}
