use infers_jsonschema::fragment::{clone_names, same_names, Format, Fragment};
use infers_jsonschema::merge::{
    collect_required, fill_properties, fill_required, held_by_all, holds, holds_name, note,
    push_distinct, reconcile, sort_names, try_merge, unite,
};

fn names(list: &[&str]) -> Vec<String> {
    list.iter().map(|n| n.to_string()).collect()
}

fn object(properties: Vec<(&str, Fragment)>) -> Fragment {
    let required = properties.iter().map(|p| p.0.to_string()).collect();
    Fragment::Object {
        properties: properties.into_iter().map(|(k, v)| (k.to_string(), v)).collect(),
        required: Some(required),
    }
}

fn merged(properties: Vec<(&str, Fragment)>, required: Option<Vec<&str>>) -> Fragment {
    Fragment::Object {
        properties: properties.into_iter().map(|(k, v)| (k.to_string(), v)).collect(),
        required: required.map(|list| names(&list)),
    }
}

#[test]
fn required_intersection_keeps_what_all_have() {
    let siblings = vec![object(vec![("a", Fragment::Integer)]), object(vec![("a", Fragment::Null)])];
    let one = try_merge(&siblings).unwrap();
    match one {
        Fragment::Object { required, .. } => assert_eq!(required, Some(names(&["a"]))),
        other => panic!("{other:?}"),
    }
}

#[test]
fn required_intersection_drops_what_one_lacks() {
    let siblings = vec![
        object(vec![("a", Fragment::Integer), ("b", Fragment::Integer)]),
        object(vec![("b", Fragment::Integer), ("c", Fragment::Integer)]),
        object(vec![("a", Fragment::Integer), ("b", Fragment::Integer), ("c", Fragment::Integer)]),
    ];
    assert_eq!(
        try_merge(&siblings),
        Some(merged(
            vec![("a", Fragment::Integer), ("b", Fragment::Integer), ("c", Fragment::Integer)],
            Some(vec!["b"])
        ))
    );
}

#[test]
fn an_empty_intersection_leaves_required_out() {
    let siblings =
        vec![object(vec![("a", Fragment::Integer)]), object(vec![("b", Fragment::String(None))])];
    assert_eq!(
        try_merge(&siblings),
        Some(merged(vec![("a", Fragment::Integer), ("b", Fragment::String(None))], None))
    );
}

#[test]
fn an_object_without_keys_makes_nothing_required() {
    let siblings = vec![object(vec![("a", Fragment::Integer)]), object(vec![])];
    assert_eq!(try_merge(&siblings), Some(merged(vec![("a", Fragment::Integer)], None)));
}

#[test]
fn union_collapse_lists_each_shape_once() {
    let siblings = vec![
        object(vec![("a", Fragment::Integer)]),
        object(vec![("a", Fragment::Null)]),
        object(vec![("a", Fragment::Integer)]),
    ];
    assert_eq!(
        try_merge(&siblings),
        Some(merged(
            vec![("a", Fragment::Union(vec![Fragment::Integer, Fragment::Null]))],
            Some(vec!["a"])
        ))
    );
}

#[test]
fn one_shape_never_makes_a_union() {
    let siblings = vec![
        object(vec![("a", Fragment::Integer), ("b", Fragment::Null)]),
        object(vec![("a", Fragment::Integer)]),
    ];
    assert_eq!(
        try_merge(&siblings),
        Some(merged(vec![("a", Fragment::Integer), ("b", Fragment::Null)], Some(vec!["a"])))
    );
}

#[test]
fn variants_stand_where_they_were_first_seen() {
    let siblings = vec![
        object(vec![("a", Fragment::String(None))]),
        object(vec![("a", Fragment::Boolean)]),
        object(vec![("a", Fragment::Integer)]),
        object(vec![("a", Fragment::Boolean)]),
    ];
    assert_eq!(
        try_merge(&siblings),
        Some(merged(
            vec![(
                "a",
                Fragment::Union(vec![Fragment::String(None), Fragment::Boolean, Fragment::Integer])
            )],
            Some(vec!["a"])
        ))
    );
}

#[test]
fn properties_come_out_in_the_order_of_their_names() {
    let siblings = vec![
        object(vec![("m", Fragment::Null), ("z", Fragment::Null)]),
        object(vec![("a", Fragment::Null), ("n", Fragment::Null)]),
    ];
    assert_eq!(
        try_merge(&siblings),
        Some(merged(
            vec![
                ("a", Fragment::Null),
                ("m", Fragment::Null),
                ("n", Fragment::Null),
                ("z", Fragment::Null)
            ],
            None
        ))
    );
}

#[test]
fn anything_but_objects_is_not_mergeable() {
    assert_eq!(try_merge(&vec![Fragment::Integer, Fragment::Null]), None);
    assert_eq!(try_merge(&vec![object(vec![]), Fragment::Null]), None);
    assert_eq!(try_merge(&vec![Fragment::Array(None), object(vec![])]), None);
    assert_eq!(try_merge(&vec![Fragment::Union(vec![object(vec![]), Fragment::Null])]), None);
}

#[test]
fn merging_no_sibling_gives_an_object_without_properties() {
    assert_eq!(try_merge(&vec![]), Some(merged(vec![], None)));
}

#[test]
fn merging_one_object_keeps_it() {
    let only = object(vec![("a", Fragment::Integer)]);
    assert_eq!(
        try_merge(&vec![only]),
        Some(merged(vec![("a", Fragment::Integer)], Some(vec!["a"])))
    );
}

#[test]
fn nested_objects_are_not_merged_inside_a_property() {
    let siblings = vec![
        object(vec![("a", object(vec![("x", Fragment::Null)]))]),
        object(vec![("a", object(vec![("y", Fragment::Null)]))]),
    ];
    assert_eq!(
        try_merge(&siblings),
        Some(merged(
            vec![(
                "a",
                Fragment::Union(vec![
                    object(vec![("x", Fragment::Null)]),
                    object(vec![("y", Fragment::Null)])
                ])
            )],
            Some(vec!["a"])
        ))
    );
}

#[test]
fn a_union_among_the_variants_is_taken_apart() {
    let list = vec![Fragment::Union(vec![Fragment::Integer, Fragment::Null]), Fragment::Boolean];
    assert_eq!(
        unite(&list),
        Fragment::Union(vec![Fragment::Integer, Fragment::Null, Fragment::Boolean])
    );
    let list = vec![Fragment::Union(vec![Fragment::Integer, Fragment::Null]), Fragment::Integer];
    assert_eq!(unite(&list), Fragment::Union(vec![Fragment::Integer, Fragment::Null]));
    assert_eq!(reconcile(&list), Fragment::Union(vec![Fragment::Integer, Fragment::Null]));
}

#[test]
fn a_union_of_one_is_its_member() {
    assert_eq!(unite(&vec![Fragment::Integer]), Fragment::Integer);
    assert_eq!(unite(&vec![Fragment::Integer, Fragment::Integer]), Fragment::Integer);
    assert_eq!(unite(&vec![Fragment::Union(vec![Fragment::Null])]), Fragment::Null);
    assert_eq!(reconcile(&vec![Fragment::Integer]), Fragment::Integer);
}

#[test]
fn a_single_observation_stays_as_it_is() {
    let union = Fragment::Union(vec![Fragment::Integer, Fragment::Null]);
    assert_eq!(reconcile(&vec![union.clone()]), union);
}

#[test]
fn uniting_nothing_gives_an_empty_union() {
    assert_eq!(unite(&vec![]), Fragment::Union(vec![]));
    assert_eq!(reconcile(&vec![]), Fragment::Union(vec![]));
}

#[test]
fn formats_tell_strings_apart() {
    let list = vec![
        Fragment::String(None),
        Fragment::String(Some(Format::Date)),
        Fragment::String(None),
        Fragment::String(Some(Format::Integer)),
    ];
    assert_eq!(
        unite(&list),
        Fragment::Union(vec![
            Fragment::String(None),
            Fragment::String(Some(Format::Date)),
            Fragment::String(Some(Format::Integer))
        ])
    );
}

#[test]
fn pushing_keeps_a_list_distinct() {
    let mut list = vec![Fragment::Integer];
    push_distinct(&mut list, &Fragment::Null);
    push_distinct(&mut list, &Fragment::Integer);
    push_distinct(&mut list, &Fragment::Null);
    assert_eq!(list, vec![Fragment::Integer, Fragment::Null]);
    assert!(holds(&list, &Fragment::Null));
    assert!(!holds(&list, &Fragment::Boolean));
    assert!(!holds(&vec![], &Fragment::Boolean));
}

#[test]
fn noting_fills_the_table_in_order() {
    let mut table: Vec<(String, Vec<Fragment>)> = Vec::new();
    note(&mut table, &"m".to_string(), &Fragment::Integer);
    note(&mut table, &"a".to_string(), &Fragment::Null);
    note(&mut table, &"z".to_string(), &Fragment::Null);
    note(&mut table, &"m".to_string(), &Fragment::Null);
    note(&mut table, &"m".to_string(), &Fragment::Integer);
    assert_eq!(
        table,
        vec![
            ("a".to_string(), vec![Fragment::Null]),
            ("m".to_string(), vec![Fragment::Integer, Fragment::Null]),
            ("z".to_string(), vec![Fragment::Null]),
        ]
    );
    assert_eq!(
        fill_properties(&table),
        vec![
            ("a".to_string(), Fragment::Null),
            ("m".to_string(), Fragment::Union(vec![Fragment::Integer, Fragment::Null])),
            ("z".to_string(), Fragment::Null),
        ]
    );
}

#[test]
fn collecting_takes_the_required_names_of_an_object() {
    let mut known: Vec<Vec<String>> = Vec::new();
    collect_required(&mut known, &object(vec![("a", Fragment::Null), ("b", Fragment::Null)]));
    collect_required(&mut known, &merged(vec![("a", Fragment::Null)], None));
    collect_required(&mut known, &Fragment::Integer);
    assert_eq!(known, vec![names(&["a", "b"]), vec![], vec![]]);
}

#[test]
fn collected_names_are_a_set_in_key_order() {
    let mut known: Vec<Vec<String>> = Vec::new();
    collect_required(
        &mut known,
        &merged(vec![("a", Fragment::Null), ("b", Fragment::Null)], Some(vec!["b", "a", "b"])),
    );
    assert_eq!(known, vec![names(&["a", "b"])]);
    assert_eq!(sort_names(&names(&["m", "a", "z", "a", "m"])), names(&["a", "m", "z"]));
    assert_eq!(sort_names(&vec![]), names(&[]));
}

#[test]
fn filling_required_intersects_the_lists() {
    assert_eq!(fill_required(&vec![]), None);
    assert_eq!(fill_required(&vec![names(&["a", "b"])]), Some(names(&["a", "b"])));
    assert_eq!(fill_required(&vec![vec![]]), None);
    assert_eq!(
        fill_required(&vec![names(&["a", "b", "c"]), names(&["c", "a"]), names(&["a", "c", "d"])]),
        Some(names(&["a", "c"]))
    );
    assert_eq!(fill_required(&vec![names(&["a"]), names(&["b"])]), None);
    assert_eq!(fill_required(&vec![names(&["a"]), vec![]]), None);
}

#[test]
fn required_comes_out_in_key_order_whatever_the_order_of_the_lists() {
    assert_eq!(
        fill_required(&vec![names(&["b", "a"]), names(&["c", "b", "a"])]),
        Some(names(&["a", "b"]))
    );
    assert_eq!(
        fill_required(&vec![names(&["a", "b"]), names(&["c", "b", "a"])]),
        Some(names(&["a", "b"]))
    );
    assert_eq!(
        fill_required(&vec![names(&["z", "m", "a", "k"]), names(&["k", "z", "a"])]),
        Some(names(&["a", "k", "z"]))
    );
}

#[test]
fn a_name_listed_twice_is_required_once() {
    assert_eq!(
        fill_required(&vec![names(&["b", "a", "b", "a"]), names(&["a", "b", "b"])]),
        Some(names(&["a", "b"]))
    );
    assert_eq!(fill_required(&vec![names(&["a", "a"])]), Some(names(&["a"])));
}

#[test]
fn merging_orders_required_by_key_whatever_the_siblings_list() {
    let one = merged(vec![("a", Fragment::Null), ("b", Fragment::Null)], Some(vec!["b", "a", "b"]));
    let other = merged(
        vec![("a", Fragment::Null), ("b", Fragment::Null), ("c", Fragment::Null)],
        Some(vec!["c", "b", "a"]),
    );
    assert_eq!(
        try_merge(&vec![one, other]),
        Some(merged(
            vec![("a", Fragment::Null), ("b", Fragment::Null), ("c", Fragment::Null)],
            Some(vec!["a", "b"])
        ))
    );
}

#[test]
fn names_are_looked_up_and_compared() {
    let list = names(&["a", "b"]);
    assert!(holds_name(&list, &"a".to_string()));
    assert!(!holds_name(&list, &"c".to_string()));
    assert!(held_by_all(&vec![names(&["a"]), names(&["b", "a"])], &"a".to_string()));
    assert!(!held_by_all(&vec![names(&["a"]), names(&["b"])], &"a".to_string()));
    assert!(held_by_all(&vec![], &"a".to_string()));
    assert!(same_names(&list, &names(&["a", "b"])));
    assert!(!same_names(&list, &names(&["b", "a"])));
    assert!(!same_names(&list, &names(&["a"])));
    assert_eq!(clone_names(&list), list);
}

#[test]
fn fragments_compare_by_their_whole_content() {
    let a = object(vec![("a", Fragment::Array(Some(Box::new(Fragment::Integer))))]);
    let b = object(vec![("a", Fragment::Array(Some(Box::new(Fragment::Integer))))]);
    let c = object(vec![("a", Fragment::Array(Some(Box::new(Fragment::Number))))]);
    let d = merged(vec![("a", Fragment::Array(Some(Box::new(Fragment::Integer))))], None);
    assert!(a.same(&b));
    assert!(!a.same(&c));
    assert!(!a.same(&d));
    assert!(!Fragment::Array(None).same(&Fragment::Array(Some(Box::new(Fragment::Null)))));
    assert!(Fragment::Union(vec![Fragment::Null, Fragment::Integer])
        .same(&Fragment::Union(vec![Fragment::Null, Fragment::Integer])));
    assert!(!Fragment::Union(vec![Fragment::Null, Fragment::Integer])
        .same(&Fragment::Union(vec![Fragment::Integer, Fragment::Null])));
    assert!(!Fragment::String(None).same(&Fragment::String(Some(Format::Date))));
    assert!(!Fragment::Null.same(&Fragment::Boolean));
    assert_eq!(a.clone(), a);
    assert!(a.clone().same(&a));
}
