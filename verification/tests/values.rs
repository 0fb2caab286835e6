//! Values, JSON, texts, statements and fingerprints, on exact values.

use recrr::backends::SqliteDb;
use recrr::helpers::{pk_decodes, pk_where};
use recrr::json::{compare_json_values, fits_json, json_to_value, value_to_json, Json};
use recrr::migrate::pk_roundtrips;
use recrr::schema::fnv1a;
use recrr::state::{decode_i64, decode_u64, encode_u64};
use recrr::statement::{
    clock_table, shift_placeholders, Cell, KeyPart, Stamp, Statement,
};
use recrr::text::{
    compare_bytes, compare_texts, decimal_text, join, signed_decimal_text, split_at_first, Ranking,
};
use recrr::value::Real;
use recrr::{Error, PkSpec, Row, Schema, SkeletonValue, TableSpec, Value};

fn double(f: f64) -> Real {
    Real {
        bits: f.to_bits(),
        json: serde_json::Number::from_f64(f).map(|n| n.to_string()),
    }
}

fn number(f: f64) -> Json {
    let value = double(f);
    Json::Number {
        text: value.json.clone().unwrap(),
        value,
    }
}

#[test]
fn values_answer_for_their_own_kind_only() {
    let values = [
        Value::Null,
        Value::Integer(-3),
        Value::Real(double(0.5)),
        Value::Text("t".to_string()),
        Value::Blob(vec![1, 2]),
    ];
    assert_eq!(
        values.iter().map(Value::as_integer).collect::<Vec<_>>(),
        vec![None, Some(-3), None, None, None]
    );
    assert_eq!(
        values.iter().map(Value::as_text).collect::<Vec<_>>(),
        vec![None, None, None, Some("t"), None]
    );
    assert_eq!(
        values.iter().map(Value::as_blob).collect::<Vec<_>>(),
        vec![None, None, None, None, Some(&[1u8, 2][..])]
    );
    assert_eq!(
        values.iter().map(Value::as_real).collect::<Vec<_>>(),
        vec![None, None, Some(&double(0.5)), None, None]
    );
    assert_eq!(values[1].integer_or(9), -3);
    assert_eq!(values[3].integer_or(9), 9);
    assert_eq!(values[3].text_or_empty(), "t");
    assert_eq!(values[0].text_or_empty(), "");
    assert_eq!(values[4].bytes_or_empty(), vec![1, 2]);
    assert_eq!(values[2].bytes_or_empty(), Vec::<u8>::new());
    for value in &values {
        assert_eq!(&value.copy(), value);
    }
}

#[test]
fn a_row_is_null_past_its_last_column() {
    let row = Row(vec![Value::Integer(1), Value::Text("x".to_string())]);
    assert_eq!(row.get(0), Value::Integer(1));
    assert_eq!(row.get(1), Value::Text("x".to_string()));
    assert_eq!(row.get(2), Value::Null);
    assert_eq!(Row::default().get(0), Value::Null);
}

#[test]
fn errors_tell_what_went_wrong() {
    assert_eq!(Error::NoRows.message(), "query returned no rows");
    assert_eq!(
        Error::Backend("disk full".to_string()).message(),
        "database backend error: disk full"
    );
    assert!(matches!(Error::NoRows.copy(), Error::NoRows));
}

#[test]
fn blobs_become_tagged_objects_and_come_back() {
    for bytes in [
        vec![],
        vec![0u8],
        vec![0, 1, 2, 255, 128, 0, 42],
        (0..=255).collect::<Vec<u8>>(),
    ] {
        let json = value_to_json(&Value::Blob(bytes.clone()));
        assert_eq!(json_to_value(&json), Value::Blob(bytes));
    }
    assert_eq!(
        value_to_json(&Value::Blob(vec![0, 1, 2, 255, 128, 0, 42])),
        Json::Document("{\"$blob\":\"AAEC/4AAKg==\"}".to_string())
    );
    assert!(fits_json(&Value::Blob(vec![0; 64])));
    assert!(fits_json(&Value::Null));
}

#[test]
fn values_come_through_json() {
    assert_eq!(value_to_json(&Value::Null), Json::Null);
    assert_eq!(value_to_json(&Value::Integer(-7)), Json::Integer(-7));
    assert_eq!(
        value_to_json(&Value::Text("a\"b".to_string())),
        Json::Text("a\"b".to_string())
    );
    assert_eq!(value_to_json(&Value::Real(double(1.5))), number(1.5));
    assert_eq!(value_to_json(&Value::Real(double(f64::NAN))), Json::Null);
    assert_eq!(value_to_json(&Value::Real(double(f64::INFINITY))), Json::Null);
    for value in [
        Value::Null,
        Value::Integer(i64::MIN),
        Value::Real(double(-0.1)),
        Value::Text(String::new()),
    ] {
        assert_eq!(json_to_value(&value_to_json(&value)), value);
    }
}

#[test]
fn json_becomes_sql_values() {
    assert_eq!(json_to_value(&Json::Null), Value::Null);
    assert_eq!(json_to_value(&Json::Bool(true)), Value::Integer(1));
    assert_eq!(json_to_value(&Json::Bool(false)), Value::Integer(0));
    assert_eq!(json_to_value(&Json::Integer(5)), Value::Integer(5));
    assert_eq!(json_to_value(&number(2.25)), Value::Real(double(2.25)));
    assert_eq!(
        json_to_value(&Json::Text("x".to_string())),
        Value::Text("x".to_string())
    );
    // Documents other than tagged blobs are kept as their text.
    for document in [
        "[1,2]",
        "{}",
        "{\"a\":\"AAEC\"}",
        "{\"$blob\":3}",
        "{\"$blob\":\"***\"}",
        "{\"$blob\":\"AAEC\",\"a\":\"b\"}",
    ] {
        assert_eq!(
            json_to_value(&Json::Document(document.to_string())),
            Value::Text(document.to_string())
        );
    }
    assert_eq!(
        json_to_value(&Json::Document("{\"$blob\":\"AAEC\"}".to_string())),
        Value::Blob(vec![0, 1, 2])
    );
}

#[test]
fn json_texts_are_compact() {
    assert_eq!(Json::Null.text(), "null");
    assert_eq!(Json::Bool(true).text(), "true");
    assert_eq!(Json::Bool(false).text(), "false");
    assert_eq!(Json::Integer(-12).text(), "-12");
    assert_eq!(number(1e21).text(), "1e+21");
    let odd = "q\" b\\ /\u{8}\u{c}\n\r\t\u{1}\u{1f}\u{7f}\u{e9}\u{1f600}";
    assert_eq!(
        Json::Text(odd.to_string()).text(),
        "\"q\\\" b\\\\ /\\b\\f\\n\\r\\t\\u0001\\u001f\u{7f}\u{e9}\u{1f600}\""
    );
    assert_eq!(
        Json::Text(odd.to_string()).text(),
        serde_json::Value::from(odd).to_string()
    );
    assert_eq!(Json::Document("[1]".to_string()).text(), "[1]");
    for json in [Json::Null, number(0.5), Json::Text("t".to_string())] {
        assert_eq!(json.copy(), json);
    }
}

#[test]
fn json_values_are_compared_by_their_texts() {
    let text = |s: &str| Json::Text(s.to_string());
    assert_eq!(
        compare_json_values(&text("Title from B"), &text("Title from A")),
        Ranking::Greater
    );
    assert_eq!(
        compare_json_values(&Json::Integer(9), &Json::Integer(10)),
        Ranking::Greater
    );
    assert_eq!(
        compare_json_values(&Json::Null, &Json::Bool(true)),
        Ranking::Less
    );
    assert_eq!(
        compare_json_values(&text("a"), &text("a")),
        Ranking::Equal
    );
    // The closing quotation mark counts.
    assert_eq!(
        compare_json_values(&text("a"), &text("a!")),
        Ranking::Greater
    );
}

#[test]
fn texts_are_compared_as_their_bytes_are() {
    let texts = ["", "a", "ab", "b", "\u{7f}", "\u{e9}", "\u{ffff}", "\u{10000}"];
    for a in texts {
        for b in texts {
            let expected = match a.as_bytes().cmp(b.as_bytes()) {
                std::cmp::Ordering::Less => Ranking::Less,
                std::cmp::Ordering::Equal => Ranking::Equal,
                std::cmp::Ordering::Greater => Ranking::Greater,
            };
            assert_eq!(compare_texts(a, b), expected);
            assert_eq!(
                compare_bytes(&a.as_bytes().to_vec(), &b.as_bytes().to_vec()),
                expected
            );
        }
    }
}

#[test]
fn numbers_are_written_in_decimal() {
    assert_eq!(decimal_text(0), "0");
    assert_eq!(decimal_text(10), "10");
    assert_eq!(decimal_text(u64::MAX), "18446744073709551615");
    assert_eq!(signed_decimal_text(-1), "-1");
    assert_eq!(signed_decimal_text(i64::MIN), "-9223372036854775808");
    assert_eq!(signed_decimal_text(i64::MAX), "9223372036854775807");
}

#[test]
fn texts_are_split_at_the_first_separator_and_joined() {
    assert_eq!(
        split_at_first("a:b:c", ':'),
        Some(("a".to_string(), "b:c".to_string()))
    );
    assert_eq!(
        split_at_first(":", ':'),
        Some((String::new(), String::new()))
    );
    assert_eq!(split_at_first("ab", ':'), None);
    assert!(pk_roundtrips("a:b", ':'));
    assert!(!pk_roundtrips("a:b", '/'));
    let parts = vec!["a".to_string(), "b".to_string(), "c".to_string()];
    assert_eq!(join(&parts, ", "), "a, b, c");
    assert_eq!(join(&Vec::new(), ", "), "");
}

#[test]
fn placeholders_are_shifted_number_by_number() {
    assert_eq!(shift_placeholders("id = ?1", 1), "id = ?2");
    assert_eq!(
        shift_placeholders("a = ?1 AND b = ?2", 9),
        "a = ?10 AND b = ?11"
    );
    assert_eq!(shift_placeholders("a = ?", 1), "a = ?");
    assert_eq!(shift_placeholders("a = 1", 1), "a = 1");
    assert_eq!(shift_placeholders("", 3), "");

    // Two shifts add up, and nothing but the numbers changes.
    let clause = "a = ?1 AND b IN (?, ?09) OR c = 'x?'";
    let once = shift_placeholders(clause, 2);
    assert_eq!(once, "a = ?3 AND b IN (?, ?11) OR c = 'x?'");
    assert_eq!(shift_placeholders(&once, 95), shift_placeholders(clause, 97));
    assert_eq!(once.matches('?').count(), clause.matches('?').count());
}

#[test]
fn keys_are_decoded_by_their_shape() {
    let single = PkSpec::single("id");
    let pair = PkSpec::composite("a", "b", ':');
    let parts = |key: Vec<KeyPart>| {
        key.into_iter()
            .map(|part| (part.column, part.value))
            .collect::<Vec<_>>()
    };
    assert_eq!(
        parts(pk_where(&single, "x:y")),
        vec![("id".to_string(), "x:y".to_string())]
    );
    assert_eq!(
        parts(pk_where(&pair, "x:y:z")),
        vec![
            ("a".to_string(), "x".to_string()),
            ("b".to_string(), "y:z".to_string())
        ]
    );
    // A key without a separator is all first component.
    assert_eq!(
        parts(pk_where(&pair, "xy")),
        vec![
            ("a".to_string(), "xy".to_string()),
            ("b".to_string(), String::new())
        ]
    );
    assert!(pk_decodes(&single, "xy"));
    assert!(pk_decodes(&pair, "x:y"));
    assert!(!pk_decodes(&pair, "xy"));
}

#[test]
fn statements_are_written_in_sql() {
    let key = vec![
        KeyPart {
            column: "a".to_string(),
            value: "x".to_string(),
        },
        KeyPart {
            column: "b".to_string(),
            value: "y".to_string(),
        },
    ];
    let table = "t".to_string();
    assert_eq!(clock_table("t"), "t__crr_clock");

    let probe = Statement::ProbeRow {
        table: table.clone(),
        key: key.clone(),
    };
    assert_eq!(probe.sql(), "SELECT 1 FROM t WHERE a = ?1 AND b = ?2");
    assert!(probe.is_query());
    assert_eq!(
        probe.params(),
        vec![Value::Text("x".to_string()), Value::Text("y".to_string())]
    );

    let update = Statement::WriteCell {
        table: table.clone(),
        column: "v".to_string(),
        value: Value::Integer(3),
        key: key.clone(),
    };
    assert_eq!(update.sql(), "UPDATE t SET v = ?1 WHERE a = ?2 AND b = ?3");
    assert!(!update.is_query());
    assert_eq!(
        update.params(),
        vec![
            Value::Integer(3),
            Value::Text("x".to_string()),
            Value::Text("y".to_string())
        ]
    );

    let insert = Statement::InsertRow {
        table: table.clone(),
        key: key.clone(),
        defaults: vec![Cell {
            column: "v".to_string(),
            value: Value::Null,
        }],
    };
    assert_eq!(
        insert.sql(),
        "INSERT OR IGNORE INTO t (a, b, v) VALUES (?1, ?2, ?3)"
    );
    assert_eq!(insert.params().len(), 3);

    let stamp = Stamp {
        pk: "x:y".to_string(),
        column: "v".to_string(),
        col_ver: 1,
        db_ver: 2,
        site_id: vec![9],
        seq: 3,
    };
    let put = Statement::PutClock {
        table: table.clone(),
        stamp,
    };
    assert_eq!(
        put.sql(),
        "INSERT OR REPLACE INTO t__crr_clock (pk, col_name, col_ver, db_ver, site_id, seq) \
         VALUES (?1, ?2, ?3, ?4, ?5, ?6)"
    );
    assert_eq!(
        put.params(),
        vec![
            Value::Text("x:y".to_string()),
            Value::Text("v".to_string()),
            Value::Integer(1),
            Value::Integer(2),
            Value::Blob(vec![9]),
            Value::Integer(3),
        ]
    );

    let rename = Statement::RenameClock {
        old_table: table.clone(),
        new_table: "u".to_string(),
    };
    assert_eq!(
        rename.sql(),
        "ALTER TABLE t__crr_clock RENAME TO u__crr_clock"
    );

    let exists = Statement::ClockExists { table };
    assert_eq!(
        exists.params(),
        vec![Value::Text("t__crr_clock".to_string())]
    );
}

#[test]
fn numbers_are_stored_big_endian() {
    assert_eq!(encode_u64(1), vec![0, 0, 0, 0, 0, 0, 0, 1]);
    assert_eq!(
        encode_u64(0x0102030405060708),
        vec![1, 2, 3, 4, 5, 6, 7, 8]
    );
    for bits in [0, 1, u64::MAX, 0xcbf29ce484222325] {
        assert_eq!(encode_u64(bits), bits.to_be_bytes().to_vec());
        assert_eq!(decode_u64(&encode_u64(bits)), Some(bits));
    }
    assert_eq!(decode_i64(&encode_u64(u64::MAX)), Some(-1));
    assert_eq!(decode_i64(&encode_u64(5)), Some(5));
    assert_eq!(decode_u64(&vec![0; 7]), None);
    assert_eq!(decode_i64(&vec![0; 9]), None);
}

#[test]
fn hashes_are_those_of_the_published_function() {
    assert_eq!(fnv1a(b""), 0xcbf29ce484222325);
    assert_eq!(fnv1a(b"a"), 0xaf63dc4c8601ec8c);
    assert_eq!(fnv1a(b"foobar"), 0x85944171f73967e8);
}

#[test]
fn fingerprints_hash_the_canonical_text() {
    let schema = Schema::new(vec![
        TableSpec::new("t", &["b", "a"]),
        TableSpec::new("s", &[]).with_pk(PkSpec::composite("x", "y", '/')),
    ]);
    assert_eq!(
        schema.fingerprint(),
        fnv1a(b"s|c:x,y,/|;t|s:id|a,b,;")
    );
    assert_eq!(Schema::new(vec![]).fingerprint(), fnv1a(b""));
}

#[test]
fn schemas_know_their_tables_and_columns() {
    let schema = Schema::new(vec![
        TableSpec::new("t", &["a"]),
        TableSpec::new("t", &["b"]),
    ]);
    assert_eq!(schema.table("t").unwrap().columns, vec!["a"]);
    assert!(schema.table("u").is_none());
    assert!(schema.is_valid_column("t", "a"));
    assert!(!schema.is_valid_column("t", "b"));
    assert!(schema.is_valid_column("t", "__sentinel"));
    assert!(!schema.is_valid_column("u", "__sentinel"));
    assert_eq!(schema.clone().fingerprint(), schema.fingerprint());
}

#[test]
fn skeleton_defaults_resolve() {
    let literal = SkeletonValue::Literal(Value::Integer(4));
    assert_eq!(literal.resolve(), Value::Integer(4));
    assert_eq!(literal.resolve_at("now"), Value::Integer(4));
    assert_eq!(
        SkeletonValue::NowRfc3339.resolve_at("now"),
        Value::Text("now".to_string())
    );
    let before = chrono::Utc::now();
    let now = SkeletonValue::NowRfc3339.resolve().text_or_empty();
    let after = chrono::Utc::now();
    assert!(now.ends_with("+00:00"), "{now} is in UTC");
    let read = chrono::DateTime::parse_from_rfc3339(&now).unwrap();
    assert!(before <= read && read <= after, "{now} is the current time");
}

#[test]
fn sqlite_databases_are_opened() {
    let db = SqliteDb::in_memory().unwrap();
    let one: i64 = db
        .connection()
        .query_row("SELECT 1", [], |row| row.get(0))
        .unwrap();
    assert_eq!(one, 1);
    let wrapped = SqliteDb::new(rusqlite::Connection::open_in_memory().unwrap());
    assert!(wrapped.connection().is_autocommit());
    assert!(matches!(
        SqliteDb::open("/nowhere/at/all/x.db"),
        Err(Error::Backend(_))
    ));
    // A zero character cannot be part of a path.
    assert!(matches!(
        SqliteDb::open("a\0b.db"),
        Err(Error::Backend(_))
    ));
    assert!(matches!(
        SqliteDb::opened(Err("no such file".to_string())),
        Err(Error::Backend(cause)) if cause == "no such file"
    ));
}

#[test]
fn turso_databases_are_cheap_to_share() {
    fn shared<T: Clone>() -> bool {
        true
    }
    assert!(shared::<recrr::backends::TursoDb>());
}
