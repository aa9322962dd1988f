use jsonpath_rs::get;
use jsonpath_rs::map_each;
use jsonpath_rs::parser::parse;
use jsonpath_rs::to_quoted;
use jsonpath_rs::Json;
use jsonpath_rs::MapAction;
use jsonpath_rs::PathSegment;

fn obj(entries: Vec<(&str, Json)>) -> Json {
    Json::Obj(entries.into_iter().map(|(k, v)| (k.to_string(), v)).collect())
}

fn arr(items: Vec<Json>) -> Json {
    Json::Arr(items)
}

fn s(v: &str) -> Json {
    Json::Str(v.to_string())
}

fn n(v: i64) -> Json {
    Json::Num(v.to_string())
}

#[test]
fn get_success_tests() {
    struct Expectation<'a> {
        path: &'a str,
        expect: Vec<Json>,
    }
    struct Test<'a> {
        input: Json,
        expectations: Vec<Expectation<'a>>,
    }
    vec![
        Test {
            input: obj(vec![
                ("a", s("foo")),
                ("b", s("bar")),
                ("c", arr(vec![s("1"), s("2"), s("3")])),
            ]),
            expectations: vec![
                Expectation {
                    path: "$.c",
                    expect: vec![arr(vec![s("1"), s("2"), s("3")])],
                },
                Expectation {
                    path: "$['a']",
                    expect: vec![s("foo")],
                },
                Expectation {
                    path: "$.c[0]",
                    expect: vec![s("1")],
                },
                Expectation {
                    path: "$.c[1]",
                    expect: vec![s("2")],
                },
                Expectation {
                    path: "$.c.*",
                    expect: vec![s("1"), s("2"), s("3")],
                },
                Expectation {
                    path: "$['a','b']",
                    expect: vec![s("foo"), s("bar")],
                },
                Expectation {
                    path: "$['a','d']",
                    expect: vec![s("foo")],
                },
                Expectation {
                    path: "$.c[0,-1]",
                    expect: vec![s("1"), s("3")],
                },
                Expectation {
                    path: "$.c[0,-4]",
                    expect: vec![s("1")],
                },
                Expectation {
                    path: "$.c[0:1]",
                    expect: vec![s("1")],
                },
                Expectation {
                    path: "$.c[0:1:1]",
                    expect: vec![s("1")],
                },
                Expectation {
                    path: "$.c[0:1:0]",
                    expect: vec![],
                },
                Expectation {
                    path: "$.c[0:1:-1]",
                    expect: vec![],
                },
                Expectation {
                    path: "$.c[1:0:-1]",
                    expect: vec![s("2")],
                },
                Expectation {
                    path: "$.c[-1:1:-1]",
                    expect: vec![s("3")],
                },
                Expectation {
                    path: "$.c[-1:0:-1]",
                    expect: vec![s("3"), s("2")],
                },
                Expectation {
                    path: "$.c[-100:100:-1]",
                    expect: vec![],
                },
                Expectation {
                    path: "$.c[-100:100]",
                    expect: vec![s("1"), s("2"), s("3")],
                },
            ],
        },
        Test {
            input: obj(vec![
                ("a", obj(vec![("b", s("c"))])),
                ("d", s("e")),
                ("f", obj(vec![("b", s("g"))])),
                ("h", obj(vec![("j", obj(vec![("b", s("k"))]))])),
            ]),
            expectations: vec![
                Expectation {
                    path: "$.*.b",
                    expect: vec![s("c"), s("g")],
                },
                Expectation {
                    path: "$['h'].*.b",
                    expect: vec![s("k")],
                },
            ],
        },
        Test {
            input: arr(vec![s("a"), s("b"), s("c")]),
            expectations: vec![
                Expectation {
                    path: "$.b",
                    expect: vec![],
                },
                Expectation {
                    path: "$.*",
                    expect: vec![s("a"), s("b"), s("c")],
                },
                Expectation {
                    path: "$[-1]",
                    expect: vec![s("c")],
                },
                Expectation {
                    path: "$[-2]",
                    expect: vec![s("b")],
                },
                Expectation {
                    path: "$[-3]",
                    expect: vec![s("a")],
                },
                Expectation {
                    path: "$[0]",
                    expect: vec![s("a")],
                },
                Expectation {
                    path: "$[1]",
                    expect: vec![s("b")],
                },
                Expectation {
                    path: "$[2]",
                    expect: vec![s("c")],
                },
                Expectation {
                    path: "$[-5]",
                    expect: vec![],
                },
            ],
        },
        Test {
            input: obj(vec![
                ("a", obj(vec![("x", s("1"))])),
                ("c", obj(vec![("x", s("2"))])),
            ]),
            expectations: vec![Expectation {
                path: "$..x",
                expect: vec![s("2"), s("1")],
            }],
        },
        Test {
            input: obj(vec![
                ("a", obj(vec![("x", s("1"))])),
                ("c", obj(vec![("x", obj(vec![("x", s("2"))]))])),
            ]),
            expectations: vec![
                Expectation {
                    path: "$..x.x",
                    expect: vec![s("2")],
                },
                Expectation {
                    path: "$..*.x",
                    expect: vec![s("1"), obj(vec![("x", s("2"))]), s("2")],
                },
                Expectation {
                    path: "$..x",
                    expect: vec![obj(vec![("x", s("2"))]), s("2"), s("1")],
                },
            ],
        },
    ]
    .iter()
    .for_each(|test| {
        test.expectations
            .iter()
            .for_each(|e| assert_eq!(get(e.path, &test.input).expect("error get"), e.expect));
    });
}

#[test]
fn fuzzing_crash_on_explosion_in_passthrough_matches() {
    fn deep(level: usize) -> Json {
        if level == 0 {
            return Json::Arr(vec![]);
        }
        Json::Arr(vec![deep(level - 1)])
    }

    struct Test<'a> {
        input: Json,
        path: &'a str,
    }
    vec![Test {
        input: deep(35),
        path: "$..*..*..*..*..*..*",
    }]
    .iter()
    .for_each(|test| {
        let selectors = parse(test.path).expect("error parse");
        let _ = jsonpath_rs::matcher::matches(selectors, &test.input);
    });
}

#[test]
fn del_success_tests() {
    struct Expectation<'a> {
        path: &'a str,
        expect: Json,
    }
    struct Test<'a> {
        input: Json,
        expectations: Vec<Expectation<'a>>,
    }
    vec![
        Test {
            input: obj(vec![("a", n(1)), ("b", n(2))]),
            expectations: vec![Expectation {
                path: "$.a",
                expect: obj(vec![("b", n(2))]),
            }],
        },
        Test {
            input: arr(vec![n(1), n(2), n(3)]),
            expectations: vec![
                Expectation {
                    path: "$[1]",
                    expect: arr(vec![n(1), n(3)]),
                },
                Expectation {
                    path: "$[-1]",
                    expect: arr(vec![n(1), n(2)]),
                },
            ],
        },
        Test {
            input: obj(vec![
                ("a", obj(vec![("x", s("1"))])),
                ("c", obj(vec![("x", obj(vec![("x", s("2"))]))])),
            ]),
            expectations: vec![
                Expectation {
                    path: "$..x.x",
                    expect: obj(vec![
                        ("a", obj(vec![("x", s("1"))])),
                        ("c", obj(vec![("x", obj(vec![]))])),
                    ]),
                },
                Expectation {
                    path: "$..x",
                    expect: obj(vec![("a", obj(vec![])), ("c", obj(vec![]))]),
                },
                Expectation {
                    path: "$..*",
                    expect: obj(vec![]),
                },
            ],
        },
        Test {
            input: obj(vec![
                ("a", n(1)),
                ("b", obj(vec![("a", n(2)), ("c", n(3))])),
            ]),
            expectations: vec![Expectation {
                path: "$..a",
                expect: obj(vec![("b", obj(vec![("c", n(3))]))]),
            }],
        },
    ]
    .iter()
    .for_each(|test| {
        test.expectations.iter().for_each(|e| {
            assert_eq!(
                map_each(e.path, &test.input, &|_: &Json| MapAction::Delete).expect("error del"),
                e.expect
            )
        });
    });
}

#[test]
fn set_success_tests() {
    struct Expectation<'a> {
        path: &'a str,
        set_to: Json,
        expect: Json,
    }
    struct Test<'a> {
        input: Json,
        expectations: Vec<Expectation<'a>>,
    }
    vec![
        Test {
            input: obj(vec![
                ("a", n(1)),
                ("b", obj(vec![("a", n(2)), ("c", n(3))])),
            ]),
            expectations: vec![
                Expectation {
                    path: "$..a",
                    set_to: s("foo"),
                    expect: obj(vec![
                        ("a", s("foo")),
                        ("b", obj(vec![("a", s("foo")), ("c", n(3))])),
                    ]),
                },
                Expectation {
                    path: "$..*",
                    set_to: n(1),
                    expect: obj(vec![("a", n(1)), ("b", n(1))]),
                },
                Expectation {
                    path: "$",
                    set_to: n(1),
                    expect: n(1),
                },
                Expectation {
                    path: "..*",
                    set_to: obj(vec![("a", s("c"))]),
                    expect: obj(vec![
                        ("a", obj(vec![("a", s("c"))])),
                        ("b", obj(vec![("a", s("c"))])),
                    ]),
                },
            ],
        },
        Test {
            input: obj(vec![
                ("a", obj(vec![("b", obj(vec![("c", n(1))]))])),
                ("d", obj(vec![("b", obj(vec![("c", n(2))]))])),
            ]),
            expectations: vec![Expectation {
                path: "$..b.d",
                set_to: n(3),
                expect: obj(vec![
                    ("a", obj(vec![("b", obj(vec![("c", n(1)), ("d", n(3))]))])),
                    ("d", obj(vec![("b", obj(vec![("c", n(2)), ("d", n(3))]))])),
                ]),
            }],
        },
        Test {
            input: obj(vec![("a", n(1))]),
            expectations: vec![Expectation {
                path: "$.b",
                set_to: n(2),
                expect: obj(vec![("a", n(1)), ("b", n(2))]),
            }],
        },
        Test {
            input: obj(vec![("a", n(1)), ("b", n(2))]),
            expectations: vec![Expectation {
                path: "$.a",
                set_to: n(2),
                expect: obj(vec![("a", n(2)), ("b", n(2))]),
            }],
        },
    ]
    .iter()
    .for_each(|test| {
        test.expectations.iter().for_each(|e| {
            assert_eq!(
                jsonpath_rs::apply::set(e.path, &test.input, &e.set_to).expect("error set"),
                e.expect
            )
        });
    });
}

#[test]
fn get_identity_returns_whole_document() {
    let doc = obj(vec![("a", n(1)), ("b", arr(vec![s("x"), Json::Null]))]);
    let got = get("$", &doc).expect("error get");
    assert_eq!(got, vec![doc.duplicate()]);
    let got_empty = get("", &doc).expect("error get");
    assert_eq!(got_empty, vec![doc]);
}

#[test]
fn set_same_value_twice_is_idempotent() {
    let doc = obj(vec![("a", n(1))]);
    let once = jsonpath_rs::apply::set("$.b", &doc, &n(2)).expect("error set");
    let twice = jsonpath_rs::apply::set("$.b", &once, &n(2)).expect("error set");
    assert_eq!(once, obj(vec![("a", n(1)), ("b", n(2))]));
    assert_eq!(once, twice);
}

#[test]
fn explosion_guard_reports_an_error() {
    fn deep(level: usize) -> Json {
        if level == 0 {
            return Json::Arr(vec![]);
        }
        Json::Arr(vec![deep(level - 1)])
    }
    let doc = deep(35);
    let err = get("$..*..*..*..*..*..*", &doc).expect_err("expected explosion error");
    assert!(err.contains("too many passthrough matches"));
}

#[test]
fn filter_selectors_are_unimplemented() {
    let err = parse("$[?(@.a > 1)]").expect_err("expected filter error");
    assert!(err.contains("unimplemented"));
}

#[test]
fn map_each_replaces_matched_nodes() {
    let doc = obj(vec![
        ("obj", obj(vec![("k", n(1))])),
        ("arr", arr(vec![n(1), n(2)])),
        ("str", s("foo")),
    ]);
    let cleared = map_each("$.*", &doc, &|v: &Json| match v {
        Json::Obj(_) => MapAction::ReplaceWith(obj(vec![])),
        Json::Arr(_) => MapAction::ReplaceWith(arr(vec![])),
        other => MapAction::ReplaceWith(other.duplicate()),
    })
    .expect("error map");
    assert_eq!(
        cleared,
        obj(vec![
            ("obj", obj(vec![])),
            ("arr", arr(vec![])),
            ("str", s("foo")),
        ])
    );
}

#[test]
fn matcher_returns_concrete_paths() {
    let doc = obj(vec![("a", arr(vec![s("x"), s("y")]))]);
    let sels = parse("$.a[-1]").expect("error parse");
    let paths = jsonpath_rs::matcher::matches(sels, &doc).expect("error matches");
    assert_eq!(
        paths,
        vec![vec![
            PathSegment::MemberName("a".to_string()),
            PathSegment::ArrayIndex(1),
        ]]
    );
}

#[test]
fn to_quoted_escapes_double_quotes() {
    assert_eq!(to_quoted(&"ab".to_string()), "\"ab\"".to_string());
    assert_eq!(to_quoted(&"a\"b".to_string()), "\"a\\\"b\"".to_string());
    assert_eq!(to_quoted(&"".to_string()), "\"\"".to_string());
}

#[test]
fn decimal_rendering_is_exact() {
    assert_eq!(jsonpath_rs::util::dec_string(0), "0".to_string());
    assert_eq!(jsonpath_rs::util::dec_string(7), "7".to_string());
    assert_eq!(jsonpath_rs::util::dec_string(1042), "1042".to_string());
}

#[test]
fn wrapped_index_resolves_negative_offsets() {
    assert_eq!(jsonpath_rs::matcher::wrapped_index(-1, 3), Some(2));
    assert_eq!(jsonpath_rs::matcher::wrapped_index(2, 3), Some(2));
    assert_eq!(jsonpath_rs::matcher::wrapped_index(-4, 3), None);
    assert_eq!(jsonpath_rs::matcher::wrapped_index(3, 3), None);
    assert_eq!(jsonpath_rs::matcher::wrapped_index(0, 0), None);
}

#[test]
fn descendant_delete_removes_keys_bottom_up() {
    let doc = obj(vec![
        ("a", obj(vec![("x", s("1"))])),
        ("c", obj(vec![("x", obj(vec![("x", s("2"))]))])),
    ]);
    let res = map_each("$..x", &doc, &|_: &Json| MapAction::Delete).expect("error del");
    assert_eq!(res, obj(vec![("a", obj(vec![])), ("c", obj(vec![]))]));
}

#[test]
fn explosion_guard_checks_the_final_stage() {
    let mut items = Vec::new();
    for _ in 0..1001 {
        items.push(n(0));
    }
    let doc = Json::Arr(items);
    let err = get("$.*", &doc).expect_err("expected explosion error");
    assert!(err.contains("too many passthrough matches"));
    assert!(err.contains("1001"));
}

#[test]
fn set_skips_descendants_of_every_applied_path() {
    let doc = obj(vec![
        ("a", obj(vec![("x", s("1"))])),
        ("c", obj(vec![("x", obj(vec![("x", s("2"))]))])),
    ]);
    let res = jsonpath_rs::apply::set("$..*", &doc, &obj(vec![])).expect("error set");
    assert_eq!(res, obj(vec![("a", obj(vec![])), ("c", obj(vec![]))]));
}
