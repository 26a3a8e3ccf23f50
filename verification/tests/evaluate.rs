use laskea::Evaluator;
use laskea::EvaluationError;
use laskea::Expression;
use laskea::Node;
use laskea::NodeResult;
use laskea::Response;
use laskea::Sequence;
use laskea::Text;
use laskea::Value;

fn text(s: &str) -> Text {
    Text::new(s)
}

#[test]
fn constant_expression() {
    let mut db = Evaluator::new();
    db.set_nodes(Sequence::empty());
    let expr = Expression::string(text("asdf"));

    let got = db.eval(text(""), expr).unwrap();

    assert_eq!(got, Value::String(text("asdf")));
}

#[test]
fn unfulfilled_request() {
    let mut db = Evaluator::new();
    db.set_nodes(Sequence::empty());
    let expr = Expression::Request { url: text(""), response: None, error: None };

    let got = db.eval(text(""), expr).unwrap();

    assert_eq!(got, Value::Indeterminate);
}

#[test]
fn successful_request() {
    let mut db = Evaluator::new();
    db.set_nodes(Sequence::empty());
    let response = Response {
        url: text("http://example.com/"),
        status: 200,
        status_text: Text::new("OK"),
        body: Value::Number(42),
    };
    let expr = Expression::Request {
        url: text(""),
        response: Some(response.clone()),
        error: None,
    };
    let should_be = Value::from_response(&response);

    let got = db.eval(text(""), expr).unwrap();

    assert_eq!(got, should_be);
}

#[test]
fn failed_request() {
    let mut db = Evaluator::new();
    db.set_nodes(Sequence::empty());
    let error = EvaluationError::new("an error occurred");
    let expr = Expression::Request {
        url: text(""),
        response: None,
        error: Some(error.clone()),
    };

    let got = db.eval(text(""), expr).unwrap_err();

    assert_eq!(got, error);
}

#[test]
fn string_equals() {
    let mut db = Evaluator::new();
    let equals = Expression::equals(text("input"), Value::String(text("Hello, World!")));
    let nodes = vec![
        Node {
            name: text("input"),
            expr: Expression::StringConstant(Text::new("Hello, World!")),
        },
        Node { name: text("equals"), expr: equals.clone() },
    ];
    db.set_nodes(Sequence::new(nodes));

    let got = db.eval(text(""), equals).unwrap();

    assert_eq!(got, Value::Boolean(true));
}

#[test]
fn string_equals_unknown_input() {
    let mut db = Evaluator::new();
    let equals = Expression::equals(text("input"), Value::String(text("Hello, World!")));
    db.set_nodes(Sequence::new(Vec::new()));

    let err = db.eval(text(""), equals).unwrap_err();

    assert_eq!(err, EvaluationError::new("No \"input\" input found"));
}

#[test]
fn cycles_are_errors() {
    let mut db = Evaluator::new();
    let nodes = vec![
        Node {
            name: text("first"),
            expr: Expression::equals(text("second"), Value::Number(42)),
        },
        Node {
            name: text("second"),
            expr: Expression::equals(text("first"), Value::Number(42)),
        },
    ];
    db.set_nodes(Sequence::new(nodes));

    let should_be = Sequence::new(vec![
        NodeResult {
            name: text("first"),
            value: Err(EvaluationError::new("Cycle detected: first → second → first")),
        },
        NodeResult {
            name: text("second"),
            value: Err(EvaluationError::new("Cycle detected: second → first → second")),
        },
    ]);

    let got = db.evaluate();

    assert_eq!(got, should_be);
}

#[test]
fn self_reference_is_a_cycle() {
    let mut db = Evaluator::new();
    let nodes = vec![Node {
        name: text("me"),
        expr: Expression::equals(text("me"), Value::Number(1)),
    }];
    db.set_nodes(Sequence::new(nodes));

    let got = db.evaluate();

    assert_eq!(got.len(), 1);
    assert_eq!(
        got.get(0).value,
        Err(EvaluationError::new("Cycle detected: me → me"))
    );
}

#[test]
fn loop_not_through_start_downgrades() {
    // The chain a -> b -> c -> b runs into a loop that never returns to a:
    // a itself reports no cycle, its dependency b does, and that failure is
    // downgraded to Indeterminate at a.
    let mut db = Evaluator::new();
    let nodes = vec![
        Node { name: text("a"), expr: Expression::equals(text("b"), Value::Number(1)) },
        Node { name: text("b"), expr: Expression::equals(text("c"), Value::Number(1)) },
        Node { name: text("c"), expr: Expression::equals(text("b"), Value::Number(1)) },
    ];
    db.set_nodes(Sequence::new(nodes));

    let got = db.evaluate();

    assert_eq!(got.get(0).value, Ok(Value::Indeterminate));
    assert_eq!(
        got.get(1).value,
        Err(EvaluationError::new("Cycle detected: b → c → b"))
    );
    assert_eq!(
        got.get(2).value,
        Err(EvaluationError::new("Cycle detected: c → b → c"))
    );
}

#[test]
fn evaluate_empty_list() {
    let mut db = Evaluator::new();
    db.set_nodes(Sequence::empty());
    assert_eq!(db.evaluate().len(), 0);
}

#[test]
fn evaluate_keeps_length_and_order() {
    let mut db = Evaluator::new();
    let nodes = vec![
        Node { name: text("one"), expr: Expression::string(text("1")) },
        Node { name: text("two"), expr: Expression::string(text("2")) },
        Node { name: text("three"), expr: Expression::string(text("3")) },
    ];
    db.set_nodes(Sequence::new(nodes));

    let got = db.evaluate();

    assert_eq!(got.len(), 3);
    assert_eq!(got.get(0).name, text("one"));
    assert_eq!(got.get(1).name, text("two"));
    assert_eq!(got.get(2).name, text("three"));
    assert_eq!(got.get(0).value, Ok(Value::String(text("1"))));
    assert_eq!(got.get(1).value, Ok(Value::String(text("2"))));
    assert_eq!(got.get(2).value, Ok(Value::String(text("3"))));
}

#[test]
fn evaluate_twice_is_identical() {
    let mut db = Evaluator::new();
    let nodes = vec![
        Node { name: text("input"), expr: Expression::string(text("x")) },
        Node {
            name: text("eq"),
            expr: Expression::equals(text("input"), Value::String(text("x"))),
        },
        Node { name: text("missing"), expr: Expression::equals(text("gone"), Value::Number(1)) },
    ];
    db.set_nodes(Sequence::new(nodes));

    let first = db.evaluate();
    let second = db.evaluate();

    assert_eq!(first, second);
}

#[test]
fn first_registered_name_wins() {
    // Two nodes share a name: lookups resolve to the first, while both still
    // evaluate at the top level with their own expressions.
    let mut db = Evaluator::new();
    let nodes = vec![
        Node { name: text("dup"), expr: Expression::string(text("first")) },
        Node { name: text("dup"), expr: Expression::string(text("second")) },
        Node {
            name: text("eq"),
            expr: Expression::equals(text("dup"), Value::String(text("first"))),
        },
    ];
    db.set_nodes(Sequence::new(nodes));

    let got = db.evaluate();

    assert_eq!(got.len(), 3);
    assert_eq!(got.get(0).value, Ok(Value::String(text("first"))));
    assert_eq!(got.get(1).value, Ok(Value::String(text("second"))));
    assert_eq!(got.get(2).value, Ok(Value::Boolean(true)));
}

#[test]
fn equals_compares_false() {
    let mut db = Evaluator::new();
    let nodes = vec![Node { name: text("input"), expr: Expression::string(text("left")) }];
    db.set_nodes(Sequence::new(nodes));

    let got = db
        .eval(
            text(""),
            Expression::equals(text("input"), Value::String(text("right"))),
        )
        .unwrap();

    assert_eq!(got, Value::Boolean(false));
}

#[test]
fn failing_dependency_downgrades_to_indeterminate() {
    // The target of an Equals fails (its request carries an error); the
    // comparing node downgrades that failure to "not known yet".
    let mut db = Evaluator::new();
    let nodes = vec![Node {
        name: text("req"),
        expr: Expression::Request {
            url: text("http://example.com/"),
            response: None,
            error: Some(EvaluationError::new("boom")),
        },
    }];
    db.set_nodes(Sequence::new(nodes));

    let got = db
        .eval(text(""), Expression::equals(text("req"), Value::Number(1)))
        .unwrap();

    assert_eq!(got, Value::Indeterminate);
}

#[test]
fn get_property_reads_a_field() {
    let mut db = Evaluator::new();
    let response = Response {
        url: text("http://example.com/"),
        status: 200,
        status_text: text("OK"),
        body: Value::Number(42),
    };
    let nodes = vec![Node {
        name: text("req"),
        expr: Expression::Request { url: text(""), response: Some(response), error: None },
    }];
    db.set_nodes(Sequence::new(nodes));

    let status = db
        .eval(text(""), Expression::get(text("req"), text("status")))
        .unwrap();
    let body = db
        .eval(text(""), Expression::get(text("req"), text("body")))
        .unwrap();

    assert_eq!(status, Value::Number(200));
    assert_eq!(body, Value::Number(42));
}

#[test]
fn get_property_missing_field_is_an_error() {
    let mut db = Evaluator::new();
    let response = Response {
        url: text(""),
        status: 200,
        status_text: text("OK"),
        body: Value::Indeterminate,
    };
    let nodes = vec![Node {
        name: text("req"),
        expr: Expression::Request { url: text(""), response: Some(response), error: None },
    }];
    db.set_nodes(Sequence::new(nodes));

    let err = db
        .eval(text(""), Expression::get(text("req"), text("nope")))
        .unwrap_err();

    assert_eq!(
        err,
        EvaluationError::new("Unresolved field access: no field \"nope\"")
    );
}

#[test]
fn get_property_on_non_object_is_an_error() {
    let mut db = Evaluator::new();
    let nodes = vec![Node { name: text("s"), expr: Expression::string(text("hi")) }];
    db.set_nodes(Sequence::new(nodes));

    let err = db
        .eval(text(""), Expression::get(text("s"), text("field")))
        .unwrap_err();

    assert_eq!(
        err,
        EvaluationError::new("Unresolved field access: \"s\" is not an object")
    );
}

#[test]
fn get_property_unknown_target_is_an_error() {
    let mut db = Evaluator::new();
    db.set_nodes(Sequence::empty());

    let err = db
        .eval(text(""), Expression::get(text("gone"), text("field")))
        .unwrap_err();

    assert_eq!(err, EvaluationError::new("No \"gone\" input found"));
}

#[test]
fn reference_cycle_reports_the_chain() {
    let mut db = Evaluator::new();
    let nodes = vec![
        Node { name: text("x"), expr: Expression::equals(text("y"), Value::Number(0)) },
        Node { name: text("y"), expr: Expression::equals(text("x"), Value::Number(0)) },
        Node { name: text("z"), expr: Expression::string(text("end")) },
    ];
    db.set_nodes(Sequence::new(nodes));

    let chain = db.reference_cycle(&text("x")).unwrap();
    assert_eq!(chain.len(), 3);
    assert_eq!(*chain.get(0), text("x"));
    assert_eq!(*chain.get(1), text("y"));
    assert_eq!(*chain.get(2), text("x"));

    assert!(db.reference_cycle(&text("z")).is_none());
    assert!(db.reference_cycle(&text("unknown")).is_none());
}
