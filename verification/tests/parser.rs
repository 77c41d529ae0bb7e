use axon_ast_parser::{
    normalize_unit, parse, parse_date, parse_num, parse_ref, parse_str, parse_symbol,
    parse_tag_name, parse_time, parse_uri, parse_year_month, str_to_number, Date, Lit, Month,
    Time, Val, YearMonth,
};
use raystack_core::{Number, Ref, Symbol, TagName};

fn tn(s: &str) -> TagName {
    TagName::new(s.to_owned()).unwrap()
}

fn str_lit_val(s: &str) -> Val {
    Val::Lit(str_lit(s))
}

fn num_lit_val(n: f64) -> Val {
    Val::Lit(num_lit(n))
}

fn str_lit(s: &str) -> Lit {
    Lit::Str(s.to_owned())
}

fn num_lit(n: f64) -> Lit {
    Lit::Num(Number::new(n, None))
}

fn sci(base: f64, exp: i32, unit: Option<&str>) -> Number {
    Number::new_scientific(base, exp, unit.map(|u| u.to_owned())).unwrap()
}

#[test]
fn str_to_number_works() {
    assert_eq!(str_to_number("1").unwrap(), Number::new(1.0, None));
    assert_eq!(
        str_to_number("1min").unwrap(),
        Number::new(1.0, Some("min".to_owned()))
    );
    assert_eq!(str_to_number("-1").unwrap(), Number::new(-1.0, None));
    assert_eq!(
        str_to_number("-1min").unwrap(),
        Number::new(-1.0, Some("min".to_owned()))
    );
    assert_eq!(str_to_number("1.2").unwrap(), Number::new(1.2, None));
    assert_eq!(
        str_to_number("1.2min").unwrap(),
        Number::new(1.2, Some("min".to_owned()))
    );
    assert_eq!(str_to_number("-1.2").unwrap(), Number::new(-1.2, None));
    assert_eq!(
        str_to_number("-1.2min").unwrap(),
        Number::new(-1.2, Some("min".to_owned()))
    );

    assert_eq!(str_to_number("1E7").unwrap(), sci(1.0, 7, None));
    assert_eq!(str_to_number("1E7min").unwrap(), sci(1.0, 7, Some("min")));
    assert_eq!(str_to_number("-1E7").unwrap(), sci(-1.0, 7, None));
    assert_eq!(str_to_number("-1E7min").unwrap(), sci(-1.0, 7, Some("min")));
    assert_eq!(str_to_number("1.2E7").unwrap(), sci(1.2, 7, None));
    assert_eq!(str_to_number("1.2E7min").unwrap(), sci(1.2, 7, Some("min")));
    assert_eq!(str_to_number("-1.2E7").unwrap(), sci(-1.2, 7, None));
    assert_eq!(
        str_to_number("-1.2E7min").unwrap(),
        sci(-1.2, 7, Some("min"))
    );

    assert_eq!(str_to_number("1E789").unwrap(), sci(1.0, 789, None));
    assert_eq!(
        str_to_number("1E789min").unwrap(),
        sci(1.0, 789, Some("min"))
    );
    assert_eq!(str_to_number("-1E789").unwrap(), sci(-1.0, 789, None));
    assert_eq!(
        str_to_number("-1E789min").unwrap(),
        sci(-1.0, 789, Some("min"))
    );
    assert_eq!(str_to_number("1.2E789").unwrap(), sci(1.2, 789, None));
    assert_eq!(
        str_to_number("1.2E789min").unwrap(),
        sci(1.2, 789, Some("min"))
    );
    assert_eq!(str_to_number("-1.2E789").unwrap(), sci(-1.2, 789, None));
    assert_eq!(
        str_to_number("-1.2E789min").unwrap(),
        sci(-1.2, 789, Some("min"))
    );
}

#[test]
fn time_parser_works() {
    assert_eq!(parse_time("12:34:56").unwrap(), Time::new(12, 34, 56, 0));
}

#[test]
fn time_parser_with_fractional_secs_works() {
    assert_eq!(
        parse_time("12:34:56.7").unwrap(),
        Time::new(12, 34, 56, 700_000_000)
    );
    assert_eq!(
        parse_time("12:34:56.789").unwrap(),
        Time::new(12, 34, 56, 789_000_000)
    );
}

#[test]
fn year_month_parser_works() {
    assert_eq!(
        parse_year_month("2020-12").unwrap(),
        YearMonth::new(2020, Month::Dec)
    )
}

#[test]
fn date_parser_works() {
    assert_eq!(parse_date("2020-12-01").unwrap(), Date::new(2020, 12, 1))
}

#[test]
fn uri_parser_works() {
    assert_eq!(
        parse_uri(r"`http://www.google.com/search?q=hello&q2=world`").unwrap(),
        "http://www.google.com/search?q=hello&q2=world".to_owned()
    );
}

#[test]
fn str_parser_works() {
    assert_eq!(
        parse_str(r#""hello world""#).unwrap(),
        "hello world".to_owned()
    );
    assert_eq!(parse_str(r#""\n""#).unwrap(), "\n".to_owned());
    assert_eq!(parse_str(r#""\t""#).unwrap(), "\t".to_owned());
    assert_eq!(parse_str(r#""\\""#).unwrap(), r"\".to_owned());
    assert_eq!(
        parse_str(r#""hello \"world\" quoted""#).unwrap(),
        r#"hello "world" quoted"#.to_owned()
    );
}

#[test]
fn tag_name_parser_works() {
    assert_eq!(
        parse_tag_name("lower").unwrap(),
        TagName::new("lower".to_owned()).unwrap()
    );
    assert_eq!(
        parse_tag_name("camelCase").unwrap(),
        TagName::new("camelCase".to_owned()).unwrap()
    );
    assert_eq!(
        parse_tag_name("elundis_core").unwrap(),
        TagName::new("elundis_core".to_owned()).unwrap()
    );
}

#[test]
fn empty_dict_works() {
    let expected = Val::Dict(Vec::new());
    assert_eq!(parse("{}").unwrap(), expected);
}

#[test]
fn dict1_works() {
    let name = TagName::new("tagName".to_owned()).unwrap();
    let val = Val::Lit(Lit::Str("hello world".to_owned()));
    let expected = Val::Dict(vec![(name, val)]);
    assert_eq!(parse(r#"{tagName:"hello world"}"#).unwrap(), expected);
}

#[test]
fn dict2_works() {
    let name1 = TagName::new("tagName1".to_owned()).unwrap();
    let val1 = Val::Lit(Lit::Str("hello world".to_owned()));
    let name2 = TagName::new("tagName2".to_owned()).unwrap();
    let val2 = Val::Lit(Lit::Str("test".to_owned()));
    let expected = Val::Dict(vec![(name1, val1), (name2, val2)]);
    assert_eq!(
        parse(r#"{tagName1:"hello world", tagName2:"test"}"#).unwrap(),
        expected
    );
}

#[test]
fn empty_list_works() {
    let expected = Val::List(vec![]);
    assert_eq!(parse("[]").unwrap(), expected);
}

#[test]
fn list1_works() {
    let val = Val::Lit(Lit::Str("hello world".to_owned()));
    let expected = Val::List(vec![val]);
    assert_eq!(parse(r#"["hello world"]"#).unwrap(), expected);
}

#[test]
fn list2_works() {
    let val1 = Val::Lit(Lit::Str("hello world".to_owned()));
    let val2 = Val::Lit(Lit::Str("test".to_owned()));
    let expected = Val::List(vec![val1, val2]);
    assert_eq!(parse(r#"["hello world", "test"]"#).unwrap(), expected);
}

#[test]
fn number_parser_no_units_works() {
    assert_eq!(parse_num("123").unwrap(), Number::new(123.0, None));
    assert_eq!(parse_num("-123").unwrap(), Number::new(-123.0, None));
    assert_eq!(parse_num("123.45").unwrap(), Number::new(123.45, None));
    assert_eq!(parse_num("-123.45").unwrap(), Number::new(-123.45, None));
}

#[test]
fn number_parser_unicode_units_works() {
    assert_eq!(
        parse_num("123psi/°F").unwrap(),
        Number::new(123.0, Some("psi/°F".to_owned()))
    );
    assert_eq!(
        parse_num("-123m²/N").unwrap(),
        Number::new(-123.0, Some("m²/N".to_owned()))
    );
    assert_eq!(
        parse_num("123.45dBµV").unwrap(),
        Number::new(123.45, Some("dBµV".to_owned()))
    );
    assert_eq!(
        parse_num("-123.45gH₂O/kgAir").unwrap(),
        Number::new(-123.45, Some("gH₂O/kgAir".to_owned()))
    );
}

#[test]
fn number_parser_units_works() {
    assert_eq!(
        parse_num("123percent").unwrap(),
        Number::new(123.0, Some("percent".to_owned()))
    );
    assert_eq!(
        parse_num("-123db").unwrap(),
        Number::new(-123.0, Some("db".to_owned()))
    );
    assert_eq!(
        parse_num("123.45db").unwrap(),
        Number::new(123.45, Some("db".to_owned()))
    );
    assert_eq!(
        parse_num("-123.45%").unwrap(),
        Number::new(-123.45, Some("%".to_owned()))
    );
}

#[test]
fn number_parser_exponents_works() {
    assert_eq!(parse_num("1E47").unwrap(), sci(1.0, 47, None));
    assert_eq!(parse_num("-1.23E47min").unwrap(), sci(-1.23, 47, Some("min")));
    assert_eq!(parse_num("1.23E-18").unwrap(), sci(1.23, -18, None));
    assert_eq!(parse_num("-1E-18min").unwrap(), sci(-1.0, -18, Some("min")));
}

#[test]
fn hello_world_works() {
    let hello = r###"{type:"func", params:[], body:{type:"block", exprs:[{type:"literal", val:"hello world"}]}}"###;
    parse(hello).unwrap();
}

#[test]
fn simple_dict_works() {
    let mut map: Vec<(TagName, Val)> = Vec::new();
    map.push((tn("type"), str_lit_val("dict")));
    let names = Val::List(vec![str_lit_val("markerTag"), str_lit_val("numTag")]);
    map.push((tn("names"), names));

    let sub_map1 = vec![
        (tn("type"), str_lit_val("literal")),
        (tn("val"), Val::Lit(Lit::DictMarker)),
    ];
    let lit_val1 = Val::Dict(sub_map1);

    let sub_map2 = vec![
        (tn("type"), str_lit_val("literal")),
        (tn("val"), num_lit_val(1.0)),
    ];
    let lit_val2 = Val::Dict(sub_map2);

    let vals = Val::List(vec![lit_val1, lit_val2]);
    map.push((tn("vals"), vals));
    let expected = Val::Dict(map);

    let val = parse(r#"{type:"dict", names:["markerTag", "numTag"], vals:[{type:"literal", val}, {type:"literal", val:1}]}"#).unwrap();
    assert_eq!(val, expected);
}

#[test]
fn dict_with_remove_marker_works() {
    let mut map: Vec<(TagName, Val)> = Vec::new();
    map.push((tn("type"), str_lit_val("dict")));
    let names = Val::List(vec![str_lit_val("deleteThisTag")]);
    map.push((tn("names"), names));

    let sub_map = vec![
        (tn("type"), str_lit_val("literal")),
        (tn("val"), Val::Lit(Lit::DictRemoveMarker)),
    ];
    let lit_val = Val::Dict(sub_map);

    let vals = Val::List(vec![lit_val]);
    map.push((tn("vals"), vals));
    let expected = Val::Dict(map);

    let val = parse(r#"{type:"dict", names:["deleteThisTag"], vals:[{type:"literal", val:removeMarker()}]}"#).unwrap();
    assert_eq!(val, expected);
}

#[test]
fn ref_works() {
    let expected = Ref::new("@p:demo:r:276dcffa-13c94a57".to_owned()).unwrap();
    let val = parse_ref("@p:demo:r:276dcffa-13c94a57").unwrap();
    assert_eq!(val, expected);
}

#[test]
fn ref_literal_works() {
    let r = Ref::new("@p:demo:r:276dcffa-13c94a57".to_owned()).unwrap();
    let map = vec![
        (tn("type"), str_lit_val("literal")),
        (tn("val"), Val::Lit(Lit::Ref(r))),
    ];
    let expected = Val::Dict(map);
    let val = parse(r#"{type:"literal", val:@p:demo:r:276dcffa-13c94a57}"#).unwrap();
    assert_eq!(val, expected);
}

#[test]
fn symbol_works() {
    let expected = Symbol::new("^steam-boiler".to_owned()).unwrap();
    let val = parse_symbol("^steam-boiler").unwrap();
    assert_eq!(val, expected);
}

#[test]
fn symbol_literal_works() {
    let sym = Symbol::new("^steam-boiler".to_owned()).unwrap();
    let map = vec![
        (tn("type"), str_lit_val("literal")),
        (tn("val"), Val::Lit(Lit::Symbol(sym))),
    ];
    let expected = Val::Dict(map);
    let val = parse(r#"{type:"literal", val:^steam-boiler}"#).unwrap();
    assert_eq!(val, expected);
}

#[test]
fn func_containing_symbol_works() {
    parse(r#"{type:"func", params:[], body:{type:"dict", names:["symTag", "testTag"], vals:[{type:"literal", val:^steam-boiler}, {type:"literal", val}]}}"#).unwrap();
}

#[test]
fn dict_containing_qname_works() {
    parse(r#"{type:"call", target:{type:"var", name:"core::parseNumber"}, args:[{type:"literal", val:"123"}]}"#).unwrap();
}

#[test]
fn dict_containing_partial_call_works() {
    parse(r#"{type:"partialCall", target:{type:"var", name:"utilsAssert"}, args:[null, null]}"#)
        .unwrap();
}

#[test]
fn unterminated_string_fails() {
    assert!(parse(r#""hello"#).is_err());
    assert!(parse(r#"{tagName:"hello}"#).is_err());
}

#[test]
fn missing_closing_brace_fails() {
    assert!(parse(r#"{tagName:"hello""#).is_err());
    assert!(parse("{").is_err());
}

#[test]
fn uppercase_tag_name_fails() {
    assert!(parse(r#"{TagName:"hello"}"#).is_err());
    assert!(parse_tag_name("TagName").is_err());
}

#[test]
fn invalid_escape_fails() {
    assert!(parse_str(r#""bad \x escape""#).is_err());
}

#[test]
fn unterminated_uri_fails() {
    assert!(parse_uri("`http://example.com").is_err());
}

#[test]
fn trailing_input_fails() {
    assert!(parse("{} {}").is_err());
    assert!(parse_num("123 ").is_err());
}

#[test]
fn bare_ref_sigil_fails() {
    assert!(parse_ref("@").is_err());
    assert!(parse(r#"{type:"literal", val:@}"#).is_err());
}

#[test]
fn symbol_without_lowercase_fails() {
    assert!(parse_symbol("^STEAM").is_err());
    assert!(parse_symbol("^a:b:c").is_err());
}

#[test]
fn out_of_range_time_fails() {
    assert!(parse_time("25:00:00").is_err());
    assert!(parse_time("12:61:00").is_err());
    assert!(parse_time("12:00:61").is_err());
}

#[test]
fn out_of_range_month_fails() {
    assert!(parse_year_month("2020-13").is_err());
    assert!(parse_date("2020-13-01").is_err());
    assert!(parse_date("2020-12-32").is_err());
}

#[test]
fn exponent_out_of_range_fails() {
    assert!(str_to_number("1E99999999999").is_none());
    assert!(str_to_number("1E-99999999999").is_none());
}

#[test]
fn malformed_number_fails() {
    assert!(str_to_number("min").is_none());
    assert!(str_to_number("-").is_none());
    assert!(str_to_number("").is_none());
    assert!(parse_num(".5").is_err());
}

#[test]
fn exponent_boundary_values_work() {
    assert_eq!(str_to_number("1E2147483647").unwrap(), sci(1.0, 2147483647, None));
    assert_eq!(
        str_to_number("1E-2147483648").unwrap(),
        sci(1.0, -2147483648, None)
    );
    assert!(str_to_number("1E2147483648").is_none());
    assert!(str_to_number("1E-2147483649").is_none());
}

#[test]
fn normalize_unit_works() {
    assert_eq!(normalize_unit(None), None);
    assert_eq!(normalize_unit(Some("".to_owned())), None);
    assert_eq!(
        normalize_unit(Some("min".to_owned())),
        Some("min".to_owned())
    );
}

#[test]
fn month_from_int_works() {
    assert_eq!(Month::from_int(1), Some(Month::Jan));
    assert_eq!(Month::from_int(12), Some(Month::Dec));
    assert_eq!(Month::from_int(0), None);
    assert_eq!(Month::from_int(13), None);
}

#[test]
fn year_month_new_works() {
    let ym = YearMonth::new(1999, Month::Feb);
    assert_eq!(ym.year, 1999);
    assert_eq!(ym.month, Month::Feb);
}

#[test]
fn duplicate_keys_keep_last_binding() {
    let expected = Val::Dict(vec![(tn("a"), num_lit_val(2.0))]);
    assert_eq!(parse(r#"{a:1, a:2}"#).unwrap(), expected);
}

#[test]
fn nested_structures_work() {
    let inner = Val::Dict(vec![(tn("b"), Val::List(vec![num_lit_val(1.0)]))]);
    let expected = Val::Dict(vec![(tn("a"), inner)]);
    assert_eq!(parse(r#"{a:{b:[1]}}"#).unwrap(), expected);
}

#[test]
fn keyword_literals_work() {
    let expected = Val::List(vec![
        Val::Lit(Lit::Bool(true)),
        Val::Lit(Lit::Bool(false)),
        Val::Lit(Lit::Null),
    ]);
    assert_eq!(parse("[true, false, null]").unwrap(), expected);
}

#[test]
fn date_and_time_literals_in_values_work() {
    let expected = Val::List(vec![
        Val::Lit(Lit::Date(Date::new(2021, 1, 31))),
        Val::Lit(Lit::Time(Time::new(0, 0, 0, 0))),
        Val::Lit(Lit::YearMonth(YearMonth::new(2021, Month::Jan))),
    ]);
    assert_eq!(parse("[2021-01-31, 00:00:00, 2021-01]").unwrap(), expected);
}
