use jsonpath_rs::parser::parse;
use jsonpath_rs::parser::Selector;
use jsonpath_rs::parser::UnionMember;

#[test]
fn parse_success_tests() {
    struct Test<'a> {
        input: &'a str,
        expect: Vec<Selector>,
    }
    vec![
        Test {
            input: "",
            expect: vec![Selector::Root],
        },
        Test {
            input: ".a",
            expect: vec![Selector::Root, Selector::DotMemberName("a".to_owned())],
        },
        Test {
            input: "$.ab",
            expect: vec![Selector::Root, Selector::DotMemberName("ab".to_owned())],
        },
        Test {
            input: "$",
            expect: vec![Selector::Root],
        },
        Test {
            input: "$..[*]",
            expect: vec![Selector::Root, Selector::DecendantWildcard],
        },
        Test {
            input: "$..*",
            expect: vec![Selector::Root, Selector::DecendantWildcard],
        },
        Test {
            input: "$[-1]",
            expect: vec![Selector::Root, Selector::ArrayIndex(-1)],
        },
        Test {
            input: "$[10]",
            expect: vec![Selector::Root, Selector::ArrayIndex(10)],
        },
        Test {
            input: r#"$["a"]"#,
            expect: vec![Selector::Root, Selector::DotMemberName("a".to_owned())],
        },
        Test {
            input: r#"$["\"a\""]"#,
            expect: vec![Selector::Root, Selector::DotMemberName("\"a\"".to_owned())],
        },
        Test {
            input: "$['\\'a\\'']",
            expect: vec![Selector::Root, Selector::DotMemberName("'a'".to_owned())],
        },
        Test {
            input: "$[\"\\u263A\"]",
            expect: vec![Selector::Root, Selector::DotMemberName("☺".to_owned())],
        },
        Test {
            input: "$.a.b",
            expect: vec![
                Selector::Root,
                Selector::DotMemberName("a".to_owned()),
                Selector::DotMemberName("b".to_owned()),
            ],
        },
        Test {
            input: "$..a",
            expect: vec![
                Selector::Root,
                Selector::DecendantDotMemberName("a".to_owned()),
            ],
        },
        Test {
            input: "$['a']['b']..c[*]",
            expect: vec![
                Selector::Root,
                Selector::DotMemberName("a".to_owned()),
                Selector::DotMemberName("b".to_owned()),
                Selector::DecendantDotMemberName("c".to_owned()),
                Selector::Wildcard,
            ],
        },
        Test {
            input: "$['a'][100][*]",
            expect: vec![
                Selector::Root,
                Selector::DotMemberName("a".to_owned()),
                Selector::ArrayIndex(100),
                Selector::Wildcard,
            ],
        },
        Test {
            input: "$['a','b',1]",
            expect: vec![
                Selector::Root,
                Selector::Union(vec![
                    UnionMember::MemberName("a".to_owned()),
                    UnionMember::MemberName("b".to_owned()),
                    UnionMember::ArrayIndex(1),
                ]),
            ],
        },
        Test {
            input: r"$[::]",
            expect: vec![Selector::Root, Selector::ArraySlice(None, None, None)],
        },
        Test {
            input: r"$[:]",
            expect: vec![Selector::Root, Selector::ArraySlice(None, None, None)],
        },
        Test {
            input: r"$[1:1:1]",
            expect: vec![
                Selector::Root,
                Selector::ArraySlice(Some(1), Some(1), Some(1)),
            ],
        },
        Test {
            input: r"$[1::1]",
            expect: vec![Selector::Root, Selector::ArraySlice(Some(1), None, Some(1))],
        },
        Test {
            input: r"$[::-1]",
            expect: vec![Selector::Root, Selector::ArraySlice(None, None, Some(-1))],
        },
        Test {
            input: r"$[::-00001]",
            expect: vec![Selector::Root, Selector::ArraySlice(None, None, Some(-1))],
        },
        Test {
            input: r"$[::00001]",
            expect: vec![Selector::Root, Selector::ArraySlice(None, None, Some(1))],
        },
        Test {
            input: r"$[-1::]",
            expect: vec![Selector::Root, Selector::ArraySlice(Some(-1), None, None)],
        },
    ]
    .iter()
    .for_each(|test| {
        let selectors =
            parse(test.input).unwrap_or_else(|e| panic!("error parsing {}: {}", test.input, e));
        assert_eq!(selectors, test.expect);
    })
}

#[test]
fn parse_failure_tests() {
    vec![
        ".",
        "()",
        "$.",
        "$..",
        "..",
        "$.5",
        "$[abc]",
        "$[9999999999999999999999999999999999999999]",
        "$['1'",
        "$['1]",
        "$['1',]",
        "$[abc]",
        "$['a',99999999999999999999999999999999999999]",
        r#"$["\uXX"]"#,
        r#"$["\u001"]"#,
        r#"$["\uABCG"]"#,
        "$[::-]",
        "$[:-:]",
        "$[-::]",
    ]
    .iter()
    .for_each(|input| {
        parse(input).expect_err(&format!("expected error parsing {input}"));
    })
}
