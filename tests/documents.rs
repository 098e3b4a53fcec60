use randl::{
    assign, get_path_struct, int_string, select_branch, EvalError, Expr, FloatHost,
    FloatLit, Node, NodeValue, ParamKind, ParamList, ParamStruct, ParseError, PrcPath,
    PrcPathComponent, RandlEntry, RandlFile, Range, Registry, Return, Value, ValueSet, CHANCE_SPAN,
};

struct Floats;

impl FloatHost for Floats {
    fn float_in(&mut self, lo: u64, hi: u64) -> u64 {
        let (l, h) = (f64::from_bits(lo), f64::from_bits(hi));
        (l + (h - l) * 0.25).to_bits()
    }

    fn widen(&self, v: i64) -> u64 {
        (v as f64).to_bits()
    }

    fn narrow_int(&self, v: i64) -> u32 {
        (v as f32).to_bits()
    }

    fn narrow(&self, v: u64) -> u32 {
        (f64::from_bits(v) as f32).to_bits()
    }
}

fn s(x: &str) -> NodeValue {
    NodeValue::String(x.to_string())
}

fn float(f: f64) -> NodeValue {
    NodeValue::Float(FloatLit { bits: f.to_bits(), millionths: (f * 1_000_000.0).round() as i64 })
}

fn node(name: &str, values: Vec<NodeValue>, props: Vec<(&str, NodeValue)>, children: Vec<Node>) -> Node {
    Node {
        name: name.to_string(),
        values,
        properties: props.into_iter().map(|(k, v)| (k.to_string(), v)).collect(),
        children,
    }
}

fn ret(values: Vec<NodeValue>) -> Node {
    node("return", values, vec![], vec![])
}

fn chance(percent: NodeValue, body: Vec<Node>) -> Node {
    node("chance", vec![], vec![("percent", percent)], body)
}

fn file(name: &str, edits: Vec<Node>) -> Node {
    node("file", vec![s(name)], vec![], edits)
}

fn load(nodes: Vec<Node>) -> Result<RandlFile, ParseError> {
    RandlFile::from_nodes(&nodes)
}

fn field(name: &str, value: ParamKind) -> (u64, ParamKind) {
    (hash40::hash40(name).0, value)
}

fn get<'a>(tree: &'a ParamStruct, name: &str) -> &'a ParamKind {
    let h = hash40::hash40(name).0;
    &tree.0.iter().find(|f| f.0 == h).unwrap().1
}

fn apply_first(doc: &RandlFile, tree: &mut ParamStruct) -> Result<(), EvalError> {
    doc.entries[0].apply(tree, &doc.sets, &mut Floats)
}

#[test]
fn scenario_constant_return_sets_only_that_field() {
    let doc = load(vec![file("param.prc", vec![node("foo", vec![], vec![], vec![ret(vec![NodeValue::Int(5)])])])]).unwrap();
    let mut tree = ParamStruct(vec![field("foo", ParamKind::I32(0)), field("bar", ParamKind::I32(7))]);
    apply_first(&doc, &mut tree).unwrap();
    assert!(matches!(get(&tree, "foo"), ParamKind::I32(5)));
    assert!(matches!(get(&tree, "bar"), ParamKind::I32(7)));
}

#[test]
fn scenario_even_chance_splits_between_two_values() {
    let expr = vec![
        chance(NodeValue::Int(50), vec![ret(vec![NodeValue::Int(1)])]),
        chance(NodeValue::Int(50), vec![ret(vec![NodeValue::Int(2)])]),
    ];
    let doc = load(vec![file("param.prc", vec![node("x", vec![], vec![], expr)])]).unwrap();
    let (mut ones, mut twos) = (0, 0);
    for _ in 0..1000 {
        let mut tree = ParamStruct(vec![field("x", ParamKind::I32(0))]);
        apply_first(&doc, &mut tree).unwrap();
        match get(&tree, "x") {
            ParamKind::I32(1) => ones += 1,
            ParamKind::I32(2) => twos += 1,
            other => panic!("unexpected value {:?}", other),
        }
    }
    assert_eq!(ones + twos, 1000);
    assert!(ones > 380 && twos > 380, "{} ones, {} twos", ones, twos);
}

fn items_tree() -> ParamStruct {
    let item = || ParamKind::Struct(ParamStruct(vec![field("flag", ParamKind::Bool(false)), field("n", ParamKind::U8(3))]));
    ParamStruct(vec![field("items", ParamKind::List(ParamList(vec![item(), item(), item()])))])
}

#[test]
fn scenario_wildcard_reaches_each_list_element() {
    let path = PrcPath::from_str("items.*.flag").unwrap();
    let tree = items_tree();
    let locs = get_path_struct(&tree, path.as_ref()).unwrap();
    assert_eq!(locs, vec![vec![0, 0, 0], vec![0, 1, 0], vec![0, 2, 0]]);

    let doc = load(vec![file("p", vec![node("items.*.flag", vec![], vec![], vec![ret(vec![NodeValue::Boolean(true)])])])]).unwrap();
    let mut tree = items_tree();
    apply_first(&doc, &mut tree).unwrap();
    match get(&tree, "items") {
        ParamKind::List(l) => {
            assert_eq!(l.0.len(), 3);
            for item in &l.0 {
                match item {
                    ParamKind::Struct(st) => {
                        assert!(matches!(get(st, "flag"), ParamKind::Bool(true)));
                        assert!(matches!(get(st, "n"), ParamKind::U8(3)));
                    }
                    _ => panic!("item is not a struct"),
                }
            }
        }
        _ => panic!("items is not a list"),
    }
}

#[test]
fn scenario_int_into_bool_and_into_i8_fail() {
    let mut b = ParamKind::Bool(false);
    assert_eq!(assign(&mut b, Value::Int(300), &Floats), Err(EvalError::InvalidAssignment("int", "bool")));
    assert!(matches!(b, ParamKind::Bool(false)));
    let mut i = ParamKind::I8(1);
    assert_eq!(assign(&mut i, Value::Int(300), &Floats), Err(EvalError::IntTooBig));
    assert!(matches!(i, ParamKind::I8(1)));
}

fn chance_doc(a: f64, b: f64) -> Result<RandlFile, ParseError> {
    let expr = vec![
        chance(float(a), vec![ret(vec![NodeValue::Int(1)])]),
        chance(float(b), vec![ret(vec![NodeValue::Int(2)])]),
    ];
    load(vec![file("p", vec![node("x", vec![], vec![], expr)])])
}

#[test]
fn scenario_chance_totals_are_checked_at_load() {
    assert_eq!(
        chance_doc(45.0, 50.0).unwrap_err(),
        ParseError::InvalidChance("Chance statements must add up to >99.9%")
    );
    assert!(chance_doc(49.95, 50.0).is_ok());
}

#[test]
fn original_keeps_every_leaf_kind() {
    let leaves = vec![
        ParamKind::Bool(true),
        ParamKind::I8(-3),
        ParamKind::U8(3),
        ParamKind::I16(-300),
        ParamKind::U16(300),
        ParamKind::I32(-70000),
        ParamKind::U32(70000),
        ParamKind::Float(1.5f32.to_bits()),
        ParamKind::Hash(0x1234),
        ParamKind::Str("abc".to_string()),
    ];
    for leaf in leaves {
        let before = format!("{:?}", leaf);
        let doc = load(vec![file("p", vec![node("x", vec![], vec![], vec![node("original", vec![], vec![], vec![])])])]).unwrap();
        let mut tree = ParamStruct(vec![field("x", leaf)]);
        apply_first(&doc, &mut tree).unwrap();
        assert_eq!(format!("{:?}", get(&tree, "x")), before);
    }
}

#[test]
fn draws_pick_branches_by_running_total() {
    let ps = vec![50_000_000i64, 50_000_000];
    assert_eq!(select_branch(&ps, 0), 0);
    assert_eq!(select_branch(&ps, 49_999_999), 0);
    assert_eq!(select_branch(&ps, 50_000_000), 1);
    assert_eq!(select_branch(&ps, CHANCE_SPAN - 1), 1);
    let short = vec![30_000_000i64, 69_950_000];
    assert_eq!(select_branch(&short, 99_990_000), 1);
    assert_eq!(select_branch(&vec![7i64], 12), 0);
}

#[test]
fn integer_range_stays_within_bounds() {
    let doc = load(vec![file("p", vec![node("x", vec![], vec![], vec![node("return", vec![], vec![("from", NodeValue::Int(3)), ("to", NodeValue::Int(7))], vec![])])])]).unwrap();
    let mut seen = [false; 4];
    for _ in 0..400 {
        let mut tree = ParamStruct(vec![field("x", ParamKind::I32(0))]);
        apply_first(&doc, &mut tree).unwrap();
        match get(&tree, "x") {
            ParamKind::I32(v) if (3..7).contains(v) => seen[(*v - 3) as usize] = true,
            other => panic!("out of range: {:?}", other),
        }
    }
    assert!(seen.iter().all(|s| *s));
}

#[test]
fn float_range_goes_through_the_host() {
    let props = vec![("from", NodeValue::Int(1)), ("to", float(3.0))];
    let doc = load(vec![file("p", vec![node("x", vec![], vec![], vec![node("return", vec![], props, vec![])])])]).unwrap();
    let mut tree = ParamStruct(vec![field("x", ParamKind::Float(0))]);
    apply_first(&doc, &mut tree).unwrap();
    assert!(matches!(get(&tree, "x"), ParamKind::Float(b) if *b == 1.5f32.to_bits()));
}

#[test]
fn paths_are_split_on_dots() {
    let p = PrcPath::from_str("a.12.*").unwrap();
    assert_eq!(p.0.len(), 3);
    assert!(matches!(&p.0[0], PrcPathComponent::Field(f) if f == "a"));
    assert!(matches!(p.0[1], PrcPathComponent::Index(12)));
    assert!(matches!(p.0[2], PrcPathComponent::Wildcard));
    assert!(matches!(PrcPathComponent::from_str("").unwrap(), PrcPathComponent::Field(f) if f.is_empty()));
    assert_eq!(
        PrcPath::from_str("a.99999999999999999999999").unwrap_err(),
        ParseError::InvalidRandlEntry("path index is too large")
    );
}

#[test]
fn value_nodes_of_a_set() {
    assert!(matches!(Value::from_node(&node("value", vec![NodeValue::Int(4)], vec![], vec![])), Ok(Value::Int(4))));
    assert!(matches!(Value::from_node(&node("value", vec![s("hi")], vec![], vec![])), Ok(Value::String(x)) if x == "hi"));
    let hashed = Value::from_node(&node("value", vec![], vec![("hash40", s("fighter"))], vec![])).unwrap();
    assert!(matches!(hashed, Value::Hash40(h) if h == hash40::hash40("fighter").0));
    assert_eq!(Value::from_node(&node("value", vec![NodeValue::Null], vec![], vec![])).unwrap_err(), ParseError::InvalidType);
    assert_eq!(Value::from_node(&node("item", vec![NodeValue::Int(1)], vec![], vec![])).unwrap_err(), ParseError::NonValueInSet("item".to_string()));
    assert!(matches!(
        Value::from_node(&node("value", vec![], vec![], vec![])),
        Err(ParseError::InvalidValueStmt(_))
    ));
    assert!(matches!(
        Value::from_node(&node("value", vec![NodeValue::Int(1), NodeValue::Int(2)], vec![], vec![])),
        Err(ParseError::InvalidReturn(_))
    ));
}

#[test]
fn return_node_forms() {
    let r = |values, props, children| Return::from_node(&node("return", values, props, children));
    assert!(matches!(r(vec![], vec![("from", NodeValue::Int(1))], vec![]), Err(ParseError::InvalidReturn("Return range missing `to` property"))));
    assert!(matches!(r(vec![], vec![("to", NodeValue::Int(1))], vec![]), Err(ParseError::InvalidReturn("Return range missing `from` property"))));
    assert!(matches!(r(vec![], vec![("from", NodeValue::Int(1)), ("to", NodeValue::Int(5))], vec![]), Ok(Return::Range(Range::Int(1, 5)))));
    assert!(matches!(r(vec![], vec![("set", s("ids"))], vec![]), Ok(Return::SetRef(n)) if n == "ids"));
    assert!(matches!(r(vec![], vec![("hash40", NodeValue::Int(9))], vec![]), Ok(Return::Constant(Value::Hash40(9)))));
    assert!(matches!(r(vec![], vec![("colour", NodeValue::Int(9))], vec![]), Err(ParseError::InvalidReturn(_))));
    assert!(matches!(r(vec![], vec![("set", s("ids")), ("colour", NodeValue::Int(9))], vec![]), Err(ParseError::InvalidReturn(_))));
    assert!(matches!(
        r(vec![], vec![("from", NodeValue::Int(1)), ("to", NodeValue::Int(5)), ("hash40", NodeValue::Int(3))], vec![]),
        Err(ParseError::InvalidReturn(_))
    ));
    assert!(matches!(r(vec![], vec![("hash40", NodeValue::Int(9)), ("set", s("a"))], vec![]), Err(ParseError::InvalidReturn(_))));
    assert!(matches!(r(vec![], vec![("from", NodeValue::Int(5)), ("to", NodeValue::Int(5))], vec![]), Ok(Return::Range(Range::Int(5, 5)))));
    assert!(matches!(r(vec![NodeValue::Int(1)], vec![("set", s("a"))], vec![]), Err(ParseError::InvalidReturn("Returns may not have both properties and values"))));
    assert!(matches!(r(vec![], vec![], vec![]), Err(ParseError::InvalidReturn(_))));
    assert!(matches!(r(vec![NodeValue::Null], vec![], vec![]), Err(ParseError::InvalidType)));
    let members = vec![node("value", vec![NodeValue::Int(1)], vec![], vec![]), node("value", vec![s("x")], vec![], vec![])];
    match r(vec![], vec![], members).unwrap() {
        Return::AnonymousSet(ValueSet(v)) => assert_eq!(v.len(), 2),
        other => panic!("{:?}", other),
    }
}

#[test]
fn expression_grammar_errors() {
    let e = |nodes: Vec<Node>| Expr::from_nodes(&nodes);
    assert_eq!(e(vec![]).unwrap_err(), ParseError::ExprRequired);
    assert_eq!(e(vec![ret(vec![NodeValue::Int(1)]), ret(vec![NodeValue::Int(2)])]).unwrap_err(), ParseError::TooManyExprs);
    assert_eq!(
        e(vec![chance(NodeValue::Int(100), vec![ret(vec![NodeValue::Int(1)])]), ret(vec![NodeValue::Int(2)])]).unwrap_err(),
        ParseError::MixedExprs
    );
    assert_eq!(e(vec![node("pick", vec![], vec![], vec![])]).unwrap_err(), ParseError::InvalidExpr("pick".to_string()));
    assert_eq!(e(vec![node("chance", vec![], vec![], vec![ret(vec![NodeValue::Int(1)])])]).unwrap_err(), ParseError::NoPercent);
    assert!(matches!(e(vec![chance(s("all"), vec![ret(vec![NodeValue::Int(1)])])]), Err(ParseError::InvalidChance(_))));
    assert!(matches!(e(vec![node("original", vec![], vec![], vec![])]), Ok(Expr::Original)));
    let nested = vec![chance(NodeValue::Int(100), vec![chance(NodeValue::Int(100), vec![node("original", vec![], vec![], vec![])])])];
    assert!(matches!(e(nested), Ok(Expr::Random(c)) if c.len() == 1));
}

#[test]
fn documents_accept_only_sets_and_files() {
    assert_eq!(
        load(vec![node("other", vec![], vec![], vec![])]).unwrap_err(),
        ParseError::InvalidRandlEntry("entries must be of type `file` or `set`")
    );
    assert!(matches!(load(vec![node("file", vec![], vec![], vec![])]), Err(ParseError::InvalidRandlEntry(_))));
    assert!(matches!(load(vec![node("file", vec![NodeValue::Int(1)], vec![], vec![])]), Err(ParseError::InvalidRandlEntry("filename must be string"))));
    assert!(matches!(load(vec![node("set", vec![s("a"), s("b")], vec![], vec![])]), Err(ParseError::InvalidRandlEntry("only one name per set"))));
    assert!(matches!(load(vec![file("{a}/{b}.prc", vec![])]), Err(ParseError::InvalidRandlEntry(_))));
    assert!(matches!(load(vec![file("{a.prc", vec![])]), Err(ParseError::InvalidRandlEntry(_))));
}

#[test]
fn a_later_set_replaces_an_earlier_one() {
    let set = |n: &str, v: i64| node("set", vec![s(n)], vec![], vec![node("value", vec![NodeValue::Int(v)], vec![], vec![])]);
    let doc = load(vec![set("a", 1), set("b", 2), set("a", 3)]).unwrap();
    assert_eq!(doc.sets.len(), 2);
    assert_eq!(doc.sets[0].0, "a");
    assert!(matches!(doc.sets[0].1 .0[0], Value::Int(3)));
}

#[test]
fn templated_file_names_expand_over_a_set() {
    let ids = node("set", vec![s("ids")], vec![], vec![
        node("value", vec![NodeValue::Int(-12)], vec![], vec![]),
        node("value", vec![s("mario")], vec![], vec![]),
    ]);
    let doc = load(vec![ids, file("fighter/{ids}/param.prc", vec![])]).unwrap();
    let names = doc.entries[0].target_names(&doc.sets);
    assert_eq!(names, vec!["fighter/-12/param.prc".to_string(), "fighter/mario/param.prc".to_string()]);
    let hashes = doc.entries[0].target_hashes(&doc.sets);
    assert_eq!(hashes, vec![hash40::hash40("fighter/-12/param.prc").0, hash40::hash40("fighter/mario/param.prc").0]);

    let plain = RandlEntry { prc_name: "a.prc".to_string(), prc_fields: vec![] };
    assert_eq!(plain.target_names(&doc.sets), vec!["a.prc".to_string()]);
    let missing = RandlEntry { prc_name: "{nope}.prc".to_string(), prc_fields: vec![] };
    assert!(missing.expand_names(&doc.sets).is_err());
    let two = RandlEntry { prc_name: "{ids}/{ids}".to_string(), prc_fields: vec![] };
    assert!(matches!(two.expand_names(&doc.sets), Err(ParseError::InvalidRandlEntry(_))));
    let bad = vec![("b".to_string(), ValueSet(vec![Value::Bool(true)]))];
    let uses_bad = RandlEntry { prc_name: "{b}".to_string(), prc_fields: vec![] };
    assert!(matches!(uses_bad.expand_names(&bad), Err(ParseError::InvalidRandlEntry(_))));
}

#[test]
fn name_patterns_are_checked_against_sets_at_load() {
    assert_eq!(
        load(vec![file("{nope}.prc", vec![])]).unwrap_err(),
        ParseError::InvalidRandlEntry("file name placeholder names no set")
    );
    let flags = node("set", vec![s("flags")], vec![], vec![node("value", vec![NodeValue::Boolean(true)], vec![], vec![])]);
    assert_eq!(
        load(vec![file("{flags}.prc", vec![]), flags]).unwrap_err(),
        ParseError::InvalidRandlEntry("only integers and strings may fill a file name")
    );
    let ids = node("set", vec![s("ids")], vec![], vec![node("value", vec![NodeValue::Int(3)], vec![], vec![])]);
    assert!(load(vec![file("{ids}.prc", vec![]), ids]).is_ok());
}

#[test]
fn integers_print_in_decimal() {
    assert_eq!(int_string(0), "0");
    assert_eq!(int_string(-123), "-123");
    assert_eq!(int_string(9_876_543_210), "9876543210");
    assert_eq!(int_string(i64::MIN), i64::MIN.to_string());
}

#[test]
fn fields_are_found_by_name_hash() {
    let tree = ParamStruct(vec![field("Param", ParamKind::I32(1)), field("other", ParamKind::I32(2))]);
    let locs = get_path_struct(&tree, PrcPath::from_str("other").unwrap().as_ref()).unwrap();
    assert_eq!(locs, vec![vec![1]]);
    let locs = get_path_struct(&tree, PrcPath::from_str("param").unwrap().as_ref()).unwrap();
    assert_eq!(locs, vec![vec![0]]);
}

#[test]
fn resolution_errors() {
    let tree = items_tree();
    let go = |p: &str| get_path_struct(&tree, PrcPath::from_str(p).unwrap().as_ref());
    assert_eq!(go("missing").unwrap_err(), EvalError::MissingField("missing".to_string()));
    assert_eq!(go("items.5.flag").unwrap_err(), EvalError::IndexOutOfBounds(5));
    assert!(matches!(go("items.0"), Ok(l) if l == vec![vec![0, 0]]));
    assert_eq!(go("3").unwrap_err(), EvalError::MissingField("Cannot index into a `ParamStruct`".to_string()));
    assert_eq!(go("items.0.flag.x").unwrap_err(), EvalError::MissingField("x".to_string()));
    assert!(matches!(go("items.*.flag.*"), Err(EvalError::InvalidField(_))));
    let doc = load(vec![file("p", vec![node("items", vec![], vec![], vec![ret(vec![NodeValue::Int(1)])])])]).unwrap();
    let mut t = items_tree();
    assert_eq!(apply_first(&doc, &mut t).unwrap_err(), EvalError::InvalidAssignment("values", "lists"));
}

#[test]
fn assignment_table() {
    let mut h = ParamKind::Hash(0);
    assign(&mut h, Value::String("abc".to_string()), &Floats).unwrap();
    assert!(matches!(h, ParamKind::Hash(x) if x == hash40::hash40("abc").0));
    let mut f = ParamKind::Float(0);
    assign(&mut f, Value::Int(2), &Floats).unwrap();
    assert!(matches!(f, ParamKind::Float(b) if b == 2.0f32.to_bits()));
    let mut u = ParamKind::U16(0);
    assert_eq!(assign(&mut u, Value::Bool(true), &Floats), Err(EvalError::InvalidAssignment("bool", "int")));
    assert_eq!(assign(&mut u, Value::Int(-1), &Floats), Err(EvalError::IntTooBig));
    assign(&mut u, Value::Int(65535), &Floats).unwrap();
    assert!(matches!(u, ParamKind::U16(65535)));
    let mut st = ParamKind::Str(String::new());
    assert_eq!(assign(&mut st, Value::Hash40(1), &Floats), Err(EvalError::InvalidAssignment("hash40", "string")));
}

#[test]
fn unknown_or_empty_sets_fail_evaluation() {
    let doc = load(vec![
        node("set", vec![s("empty")], vec![], vec![]),
        file("p", vec![node("x", vec![], vec![], vec![node("return", vec![], vec![("set", s("nope"))], vec![])])]),
        file("q", vec![node("x", vec![], vec![], vec![node("return", vec![], vec![("set", s("empty"))], vec![])])]),
    ]).unwrap();
    let mut tree = ParamStruct(vec![field("x", ParamKind::I32(0))]);
    assert_eq!(doc.entries[0].apply(&mut tree, &doc.sets, &mut Floats), Err(EvalError::InvalidSet("nope".to_string())));
    assert_eq!(doc.entries[1].apply(&mut tree, &doc.sets, &mut Floats), Err(EvalError::InvalidSet("empty".to_string())));
}

#[test]
fn loading_twice_gives_the_same_document() {
    let build = || vec![file("p", vec![node("x", vec![], vec![], vec![chance(float(99.95), vec![ret(vec![NodeValue::Int(1)])])])])];
    let a = format!("{:?}", load(build()));
    let b = format!("{:?}", load(build()));
    assert_eq!(a, b);
}

#[test]
fn registry_routes_hashes_to_the_last_entry() {
    let first = load(vec![file("a.prc", vec![]), file("b.prc", vec![])]).unwrap();
    let second = load(vec![file("b.prc", vec![])]).unwrap();
    let reg = Registry::build(&vec![first, second]);
    assert_eq!(reg.routes.len(), 2);
    assert_eq!(reg.find(hash40::hash40("a.prc").0), Some((0, 0)));
    assert_eq!(reg.find(hash40::hash40("b.prc").0), Some((1, 0)));
    assert_eq!(reg.find(hash40::hash40("c.prc").0), None);
}

#[test]
fn empty_integer_range_gives_its_lower_bound() {
    let props = vec![("from", NodeValue::Int(9)), ("to", NodeValue::Int(4))];
    let doc = load(vec![file("p", vec![node("x", vec![], vec![], vec![node("return", vec![], props, vec![])])])]).unwrap();
    let mut tree = ParamStruct(vec![field("x", ParamKind::I32(0))]);
    apply_first(&doc, &mut tree).unwrap();
    assert!(matches!(get(&tree, "x"), ParamKind::I32(9)));
}

#[test]
fn failing_edit_stops_the_entry_and_keeps_earlier_edits() {
    let edits = vec![
        node("a", vec![], vec![], vec![ret(vec![NodeValue::Int(5)])]),
        node("b", vec![], vec![], vec![ret(vec![NodeValue::Int(300)])]),
        node("c", vec![], vec![], vec![ret(vec![NodeValue::Int(6)])]),
    ];
    let doc = load(vec![file("p", edits)]).unwrap();
    let mut tree = ParamStruct(vec![field("a", ParamKind::I32(0)), field("b", ParamKind::I8(1)), field("c", ParamKind::I32(0))]);
    assert_eq!(apply_first(&doc, &mut tree), Err(EvalError::IntTooBig));
    assert!(matches!(get(&tree, "a"), ParamKind::I32(5)));
    assert!(matches!(get(&tree, "b"), ParamKind::I8(1)));
    assert!(matches!(get(&tree, "c"), ParamKind::I32(0)));
}

#[test]
fn choice_between_originals_changes_nothing() {
    let expr = vec![
        chance(NodeValue::Int(50), vec![node("original", vec![], vec![], vec![])]),
        chance(NodeValue::Int(50), vec![node("original", vec![], vec![], vec![])]),
    ];
    let doc = load(vec![file("p", vec![node("x", vec![], vec![], expr)])]).unwrap();
    for _ in 0..20 {
        let mut tree = ParamStruct(vec![field("x", ParamKind::U16(7)), field("y", ParamKind::Bool(true))]);
        apply_first(&doc, &mut tree).unwrap();
        assert!(matches!(get(&tree, "x"), ParamKind::U16(7)));
        assert!(matches!(get(&tree, "y"), ParamKind::Bool(true)));
    }
}
