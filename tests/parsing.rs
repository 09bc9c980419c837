use boml::types::{TomlFloat, TomlTable, TomlValue};
use boml::Toml;

fn float_of(f: &TomlFloat) -> f64 {
    let text = String::from_utf8(f.text()).unwrap();
    text.parse::<f64>().unwrap()
}

fn assert_bools(table: &TomlTable<'_>, expected: &[(&str, bool)]) {
    for (key, value) in expected {
        assert_eq!(table.get_boolean(key).unwrap(), *value, "key {key}");
    }
}

fn assert_ints(table: &TomlTable<'_>, expected: &[(&str, i64)]) {
    for (key, value) in expected {
        assert_eq!(table.get_integer(key).unwrap(), *value, "key {key}");
    }
}

fn assert_strings(table: &TomlTable<'_>, expected: &[(&str, &str)]) {
    for (key, value) in expected {
        assert_eq!(table.get_string(key).unwrap(), *value, "key {key}");
    }
}

/// Booleans and bare keys.
#[test]
fn bools_and_bare_keys() {
    let toml_source = &[
        "val1 = true\n",
        "val2 = false\n",
        "5678 = true\n",
        "dash-ed = true\n",
        "under_score = true\n"
    ].concat();
    let toml = Toml::parse(toml_source).unwrap();
    assert_bools(
        toml.table(),
        &[("val1", true), ("val2", false), ("5678", true), ("dash-ed", true), ("under_score", true)],
    );
}

/// Quoted keys.
#[test]
fn quoted_keys() {
    let toml_source = &[
        "'val0.1.1' = true\n",
        "'ʎǝʞ' = true\n",
        "\"quoted 'key'\" = true\n",
        "'quoted \"key\" 2' = true\n",
    ].concat();
    let toml = Toml::parse(toml_source).unwrap();
    assert_bools(
        toml.table(),
        &[("val0.1.1", true), ("ʎǝʞ", true), ("quoted 'key'", true), ("quoted \"key\" 2", true)],
    );
}

/// Dotted keys build sub-tables.
#[test]
fn dotted_keys() {
    let toml_source = &[
        "table.bool = true\n",
        "table.string = 'hi'\n",
        "table. spaced = 69\n",
        "table  .infinity = -inf\n",
    ].concat();
    let toml = Toml::parse(toml_source).unwrap();

    let table = toml.table().get_table("table").unwrap();
    assert!(table.get_boolean("bool").unwrap());
    assert_eq!(table.get_string("string").unwrap(), "hi");
    assert_eq!(table.get_integer("spaced").unwrap(), 69);
    assert_eq!(float_of(table.get_float("infinity").unwrap()), -f64::INFINITY);
}

/// Literal strings and multi-line literal strings.
#[test]
fn literal_strings() {
    let single = "Me when I have to write a demo sentence to test my incredible TOML parser but dunno what to say";
    let multi = "Bruhhhh I gotta write\n*another*\ndemo sentence???\n:(";
    let toml_source = format!("single = '{single}'\n") + &format!("multi = '''{multi}'''");
    let toml = Toml::parse(&toml_source).unwrap();
    assert_strings(toml.table(), &[("single", single), ("multi", multi)]);
}

/// Basic strings and multi-line basic strings.
#[test]
fn basic_strings() {
    let toml_source = &[
        "normal = \"normality 100\"\n",
        r#"quotes = "Bro I got \"quotes\"" "#,
        "\n",
        r#"escapes = "\t\n\r\\" "#,
        "\n",
        "multi = \"\"\"me when\\n",
        "i do multiline\\r pretty neat",
        "\"\"\"\n",
        "whitespace = \"\"\"white\\    \n\n\n\r\n    space\"\"\""
    ].concat();
    let toml = Toml::parse(toml_source).unwrap();
    assert_strings(
        toml.table(),
        &[
            ("normal", "normality 100"),
            ("quotes", "Bro I got \"quotes\""),
            ("escapes", "\t\n\r\\"),
            ("multi", "me when\ni do multiline\r pretty neat"),
            ("whitespace", "whitespace"),
        ],
    );
}

/// Integers in all bases.
#[test]
fn integers() {
    let toml_source = &[
        "hex = 0x10\n",
        "decimal = 10\n",
        "octal = 0o10\n",
        "binary = 0b10\n",
        "neghex = -0x10\n",
        "posoctal = +0o10\n",
        "lmao = -0\n",
        "underscore = 10_00\n",
        "single = 2\n",
    ].concat();
    let toml = Toml::parse(toml_source).unwrap();
    assert_ints(
        toml.table(),
        &[
            ("hex", 16),
            ("decimal", 10),
            ("octal", 8),
            ("binary", 2),
            ("neghex", -16),
            ("posoctal", 8),
            ("lmao", 0),
            ("underscore", 1000),
            ("single", 2),
        ],
    );
}

/// Floats of every shape.
#[test]
fn floats() {
    let toml_source = &[
        "fractional = 0.345\n",
        "exponential = 4e2\n",
        "exponential_neg = 4e-2\n",
        "exponential_pos = 4e+2\n",
        "pos_fractional = +0.567\n",
        "neg_fractional = -0.123\n",
        "capital_exponential = 2E2\n",
        "combined = 7.27e2\n",
        "nan = +nan\n",
        "infinity = -inf\n",
        "underscore = 10_00.0\n",
    ].concat();
    let toml = Toml::parse(toml_source).unwrap();
    let expected = [
        ("fractional", 0.345),
        ("exponential", 4e2),
        ("exponential_neg", 4e-2),
        ("exponential_pos", 4e2),
        ("pos_fractional", 0.567),
        ("neg_fractional", -0.123),
        ("capital_exponential", 2e2),
        ("combined", 727.0),
        ("infinity", -f64::INFINITY),
        ("underscore", 1000.0),
    ];
    for (key, value) in expected {
        assert_eq!(float_of(toml.table().get_float(key).unwrap()), value, "key {key}");
    }

    let nan = toml.table().get_float("nan");
    assert!(nan.is_ok());
    assert!(float_of(nan.unwrap()).is_nan())
}

/// Inline tables and standard tables.
#[test]
fn tables() {
    let toml_source = &[
        "empty = {}\n",
        "inline = { name = 'inline', num = inf }\n",
        "\n",
        "[table1]\n",
        "name = 'table1'\n",
        "\n",
        "[table2]\n",
        "name = 'table2'\n",
        "num = 420\n",
        "\n",
        "[table3]\n",
        "array = ['hi', 'bye']\n",
        "array2 = [1]\n",
    ].concat();
    let toml = Toml::parse(toml_source).unwrap();
    let root = toml.table();

    let _empty = root.get_table("empty").unwrap();

    let inline = root.get_table("inline").unwrap();
    assert_eq!(inline.get_string("name").unwrap(), "inline");
    assert_eq!(float_of(inline.get_float("num").unwrap()), f64::INFINITY);

    let table1 = root.get_table("table1").unwrap();
    assert_eq!(table1.get_string("name").unwrap(), "table1");

    let table2 = root.get_table("table2").unwrap();
    assert_eq!(table2.get_string("name").unwrap(), "table2");
    assert_eq!(table2.get_integer("num").unwrap(), 420);

    let table3 = root.get_table("table3").unwrap();
    let array = table3.get_array("array").unwrap();
    let array2 = table3.get_array("array2").unwrap();
    assert_eq!(array.len(), 2);
    assert_eq!(array2.len(), 1);
    assert_eq!(array[0].as_string().unwrap(), "hi");
    assert_eq!(array[1].as_string().unwrap(), "bye");
    assert_eq!(array2[0].as_integer().unwrap(), 1);
}

/// Arrays, nested arrays, arrays of inline tables.
#[test]
fn arrays() {
    let toml_source = &[
        "strings = ['hi', 'hello', 'how are you']\n",
        "nested = ['me', ['when i', 'nest'], 'arrays']\n",
        "tables = [{name = 'bruh'}, {name = 'bruh 2 electric boogaloo'}]\n",
        "single = [2]\n"
    ].concat();
    let toml = Toml::parse(toml_source).unwrap();
    let root = toml.table();

    let strings = root.get_array("strings").unwrap();
    let strings: Vec<&str> = strings.iter().map(|val| val.as_string().unwrap()).collect();
    assert_eq!(strings, vec!["hi", "hello", "how are you"]);

    let mut nested = root.get_array("nested").unwrap().iter();
    assert_eq!(nested.next().unwrap().as_string().unwrap(), "me");
    let mut subtable = nested.next().unwrap().as_array().unwrap().iter();
    assert_eq!(subtable.next().unwrap().as_string().unwrap(), "when i");
    assert_eq!(subtable.next().unwrap().as_string().unwrap(), "nest");
    assert_eq!(nested.next().unwrap().as_string().unwrap(), "arrays");

    let mut tables = root.get_array("tables").unwrap().iter();
    let table1 = tables.next().unwrap().as_table().unwrap();
    assert_eq!(table1.get_string("name").unwrap(), "bruh");
    let table2 = tables.next().unwrap().as_table().unwrap();
    assert_eq!(table2.get_string("name").unwrap(), "bruh 2 electric boogaloo");

    let single = root.get_array("single").unwrap();
    assert_eq!(single.len(), 1);
    assert_eq!(single[0].as_integer().unwrap(), 2);
}

/// Arrays of tables append in order.
#[test]
fn array_tables() {
    let toml_source = &[
        "[[entry]]\n",
        "idx = 0\n",
        "value = 'HALLO'\n",
        "\n",
        "[[entry]]\n",
        "idx = 1\n",
        "value = 727\n",
        "\n",
        "[[entry]]\n",
        "idx = 2\n",
        "value = true\n",
    ].concat();
    let toml = Toml::parse(toml_source).unwrap();

    let entries = toml.table().get_array("entry").unwrap();

    let first = entries[0].as_table().unwrap();
    assert_eq!(first.get_integer("idx").unwrap(), 0);
    assert_eq!(first.get_string("value").unwrap(), "HALLO");

    let second = entries[1].as_table().unwrap();
    assert_eq!(second.get_integer("idx").unwrap(), 1);
    assert_eq!(second.get_integer("value").unwrap(), 727);

    let third = entries[2].as_table().unwrap();
    assert_eq!(third.get_integer("idx").unwrap(), 2);
    assert!(third.get_boolean("value").unwrap());
}

/// CRLF, odd spacing, and a quoted dotted header segment.
#[test]
fn weird_formats() {
    let toml_source = &[
        "   val1 = true\r\n",
        "val2=      false",
        "\n\r\n\r\n\n",
        "val3  =true\n",
        "val4=false\n",
        "val5 = true      \n",
        "[parent .  \"child.dotted\"]\n",
        "yippee = true"
    ].concat();
    let toml = Toml::new(toml_source).unwrap();
    assert_bools(
        toml.table(),
        &[("val1", true), ("val2", false), ("val3", true), ("val4", false), ("val5", true)],
    );

    let parent = toml.table().get_table("parent").unwrap();
    let child = parent.get_table("child.dotted").unwrap();
    assert!(child.get_boolean("yippee").unwrap());
}

#[test]
fn nan_keeps_its_sign() {
    let toml = Toml::parse("a = -nan\nb = nan\n").unwrap();
    let a = toml.table().get_float("a").unwrap();
    let b = toml.table().get_float("b").unwrap();
    assert!(a.negative);
    assert!(!b.negative);
    assert!(float_of(a).is_nan() && float_of(a).is_sign_negative());
    assert!(matches!(toml.table().get("b"), Some(TomlValue::Float(_))));
}
