use bplist::imessage::explore;
use bplist::{BPList, Error};

fn s(t: &str) -> BPList {
    BPList::Str(t.to_string())
}

fn sample() -> BPList {
    BPList::Dict(vec![
        (s("name"), s("first")),
        (BPList::Int(3), BPList::Bool(true)),
        (s("name"), s("second")),
        (BPList::Real(0), BPList::Null),
        (BPList::Array(vec![]), BPList::Null),
        (BPList::Dict(vec![]), BPList::Null),
        (BPList::UID(vec![1, 2]), BPList::Filler),
        (BPList::Data(vec![9]), BPList::Int(-1)),
        (BPList::Null, BPList::Int(0)),
    ])
}

#[test]
fn string_keys_find_the_first_pair() {
    let d = sample();
    match d.gets("name") {
        Ok(BPList::Str(t)) => assert_eq!(t, "first"),
        other => panic!("{:?}", other),
    }
    assert!(matches!(d.gets("absent"), Err(Error::NotFound)));
}

#[test]
fn integer_keys_are_found() {
    let d = sample();
    assert!(matches!(d.geti(3), Ok(BPList::Bool(true))));
    assert!(matches!(d.geti(4), Err(Error::NotFound)));
}

#[test]
fn value_keys_compare_by_value() {
    let d = sample();
    assert!(matches!(d.get(BPList::UID(vec![1, 2])), Ok(BPList::Filler)));
    assert!(matches!(d.get(BPList::Data(vec![9])), Ok(BPList::Int(-1))));
    assert!(matches!(d.get(BPList::Null), Ok(BPList::Int(0))));
    assert!(matches!(d.get(BPList::UID(vec![1])), Err(Error::NotFound)));
}

#[test]
fn reals_arrays_and_dicts_never_match() {
    let d = sample();
    assert!(matches!(d.get(BPList::Real(0)), Err(Error::NotFound)));
    assert!(matches!(d.get(BPList::Array(vec![])), Err(Error::NotFound)));
    assert!(matches!(d.get(BPList::Dict(vec![])), Err(Error::NotFound)));
    assert!(BPList::Real(0) != BPList::Real(0));
    assert!(BPList::Array(vec![]) != BPList::Array(vec![]));
    assert!(BPList::Null == BPList::Null);
    assert!(BPList::Filler == BPList::Filler);
    assert!(BPList::Int(1) != BPList::Bool(true));
}

#[test]
fn lookup_in_a_non_dict_is_not_found() {
    assert!(matches!(s("x").gets("x"), Err(Error::NotFound)));
    assert!(matches!(BPList::Array(vec![s("x")]).geti(0), Err(Error::NotFound)));
}

#[test]
fn print_renders_scalars() {
    assert_eq!(BPList::Null.print(0), "null");
    assert_eq!(BPList::Bool(true).print(0), "true");
    assert_eq!(BPList::Bool(false).print(3), "false");
    assert_eq!(BPList::Filler.print(0), "filler");
    assert_eq!(BPList::Int(-42).print(0), "-42");
    assert_eq!(BPList::Int(1234567).print(0), "1234567");
    assert_eq!(BPList::Real(0x3ff0000000000000).print(0), "0x3ff0000000000000");
    assert_eq!(BPList::Data(vec![1, 20, 255]).print(0), "[ 1 20 255 ]");
    assert_eq!(BPList::UID(vec![18]).print(0), "[ 18 ]");
    assert_eq!(BPList::Data(vec![]).print(0), "[ ]");
    assert_eq!(s("a\"b").print(0), "\"a\\\"b\"");
}

#[test]
fn print_indents_children() {
    let v = BPList::Array(vec![BPList::Int(1), BPList::Dict(vec![(s("k"), BPList::Null)])]);
    assert_eq!(v.print(0), "[ \n  1,\n  {\n    \"k\" -> null,\n  },\n]");
    assert_eq!(BPList::Array(vec![BPList::Int(1)]).print(1), "[ \n    1,\n  ]");
    assert_eq!(BPList::Dict(vec![]).print(2), "{\n    }");
}

fn archive(objects: Vec<BPList>) -> BPList {
    BPList::Dict(vec![(s("$version"), BPList::Int(100000)), (s("$objects"), BPList::Array(objects))])
}

#[test]
fn explore_collects_message_texts() {
    let message = |t: &str| {
        BPList::Dict(vec![(s("$class"), BPList::UID(vec![18])), (s("NS.string"), s(t))])
    };
    let other = BPList::Dict(vec![(s("$class"), BPList::UID(vec![7])), (s("NS.string"), s("no"))]);
    let root = archive(vec![s("$null"), message("hi"), other, message("there")]);
    let texts = explore(&root).unwrap();
    assert_eq!(texts.len(), 2);
    assert_eq!(texts[0].print(0), "\"hi\"");
    assert_eq!(texts[1].print(0), "\"there\"");
}

#[test]
fn explore_fails_without_objects_or_text() {
    assert!(matches!(explore(&BPList::Dict(vec![])), Err(Error::NotFound)));
    let broken = BPList::Dict(vec![(s("$class"), BPList::UID(vec![18]))]);
    assert!(matches!(explore(&archive(vec![broken])), Err(Error::NotFound)));
    let not_array = BPList::Dict(vec![(s("$objects"), BPList::Int(1))]);
    assert_eq!(explore(&not_array).unwrap().len(), 0);
}
