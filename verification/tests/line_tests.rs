use datapack_gen::lines::{
    parse_combination_line, parse_grist_line, CombinationLineResult, GristLineResult,
};
use datapack_gen::recipe::{CombinationMode, Ingredient, Recipe, ResultItem};

#[test]
fn combination_line_scenario() {
    let r = parse_combination_line("minestuck:sample, or, minestuck:other, minestuck:result");
    match r {
        CombinationLineResult::Recipe(rec) => {
            assert_eq!(rec.input1, Ingredient::Item(String::from("minestuck:sample")));
            assert_eq!(rec.input2, Ingredient::Item(String::from("minestuck:other")));
            assert_eq!(rec.mode, CombinationMode::Or);
            assert_eq!(rec.output, ResultItem::Item(String::from("minestuck:result")));
            assert!(rec.is_valid());
        },
        _ => panic!("line should produce a recipe"),
    }
}

#[test]
fn combination_line_invalid_identifier_rejected_at_validation() {
    let r = parse_combination_line("bad_item_no_colon, and, minestuck:b, minestuck:c");
    match r {
        CombinationLineResult::Recipe(rec) => {
            assert!(!rec.is_valid());
        },
        _ => panic!("line has four fields and a good mode"),
    }
}

#[test]
fn combination_line_blank_and_errors() {
    assert_eq!(parse_combination_line(""), CombinationLineResult::Blank);
    assert_eq!(parse_combination_line("   "), CombinationLineResult::Blank);
    assert_eq!(
        parse_combination_line("minestuck:a, and, minestuck:b"),
        CombinationLineResult::FieldCount
    );
    assert_eq!(
        parse_combination_line("minestuck:a, xor, minestuck:b, minestuck:c"),
        CombinationLineResult::BadMode
    );
}

#[test]
fn grist_line_scenario() {
    let r = parse_grist_line("minestuck:build, cruxite=50, artifact:50");
    match r {
        GristLineResult::Recipe(rec) => {
            assert_eq!(rec.priority, Some(101));
            assert_eq!(rec.ingredient, Ingredient::Item(String::from("minestuck:build")));
            assert_eq!(rec.grist_cost.len(), 2);
            assert_eq!(rec.grist_cost.get("minestuck:cruxite"), Some(50));
            assert_eq!(rec.grist_cost.get("minestuck:artifact"), Some(50));
            assert!(Recipe::GristCost(rec).is_valid());
        },
        _ => panic!("line should produce a recipe"),
    }
}

#[test]
fn grist_line_negative_and_qualified() {
    let r = parse_grist_line("other:thing, other:uranium=-3, zillium=0");
    match r {
        GristLineResult::Recipe(rec) => {
            assert_eq!(rec.grist_cost.get("other:uranium"), Some(-3));
            assert_eq!(rec.grist_cost.get("minestuck:zillium"), Some(0));
        },
        _ => panic!("line should produce a recipe"),
    }
}

#[test]
fn grist_line_duplicate_name_keeps_last_amount() {
    let r = parse_grist_line("minestuck:build, cruxite=1, cruxite=2");
    match r {
        GristLineResult::Recipe(rec) => {
            assert_eq!(rec.grist_cost.len(), 1);
            assert_eq!(rec.grist_cost.get("minestuck:cruxite"), Some(2));
        },
        _ => panic!("line should produce a recipe"),
    }
}

#[test]
fn grist_line_accepts_plus_signs_and_leading_zeros() {
    let r = parse_grist_line("minestuck:item, cruxite=007, shale=+5, tar=-012");
    match r {
        GristLineResult::Recipe(rec) => {
            assert_eq!(rec.grist_cost.get("minestuck:cruxite"), Some(7));
            assert_eq!(rec.grist_cost.get("minestuck:shale"), Some(5));
            assert_eq!(rec.grist_cost.get("minestuck:tar"), Some(-12));
        },
        _ => panic!("line should produce a recipe"),
    }
}

#[test]
fn grist_line_blank_and_errors() {
    assert_eq!(parse_grist_line(""), GristLineResult::Blank);
    assert_eq!(parse_grist_line("minestuck:item"), GristLineResult::Blank);
    assert_eq!(parse_grist_line("minestuck:item, nonsense"), GristLineResult::BadCost);
    assert_eq!(parse_grist_line("minestuck:item, cruxite=ten"), GristLineResult::BadCost);
    assert_eq!(parse_grist_line("minestuck:item, cruxite="), GristLineResult::BadCost);
}
