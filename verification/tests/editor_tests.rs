use datapack_gen::editor::{cost_entries_of, export_datapack, retain_nonblank, CostEntry, GristField};
use datapack_gen::pack::Datapack;
use datapack_gen::recipe::{
    CombinationMode, CombinationRecipe, GristCostRecipe, GristMap, Ingredient, Recipe, ResultItem,
};

#[test]
fn grist_field_checks_qualified_name() {
    let f = GristField::new("cruxite", 50);
    assert_eq!(f.name, "cruxite");
    assert!(f.valid_name);
    assert_eq!(f.amount_string, "50");
    assert_eq!(f.amount, Some(50));
    let bad = GristField::new("Bad Name", 1);
    assert!(!bad.valid_name);
    let negative = GristField::new("uranium", -3);
    assert_eq!(negative.amount_string, "-3");
}

#[test]
fn cost_entry_checks_item() {
    let e = CostEntry::new("minestuck:build", vec![GristField::new("cruxite", 50)]);
    assert!(e.valid_item);
    let bad = CostEntry::new("no_colon_here", Vec::new());
    assert!(!bad.valid_item);
}

#[test]
fn retain_drops_blank_rows() {
    let blank = CostEntry {
        item_id: String::from("   "),
        valid_item: false,
        grist: vec![GristField {
            name: String::new(),
            valid_name: false,
            amount_string: String::new(),
            amount: None,
        }],
    };
    let kept = CostEntry::new("minestuck:build", vec![GristField::new("cruxite", 50)]);
    let out = retain_nonblank(vec![blank, kept.clone()]);
    assert_eq!(out.len(), 1);
    assert_eq!(out[0].item_id, "minestuck:build");
}

#[test]
fn export_writes_valid_entries_under_grist_keys() {
    let entry = CostEntry::new("minestuck:build", vec![GristField::new("cruxite", 50)]);
    let (pack, errors) = export_datapack(&vec![entry]);
    assert!(errors.is_empty());
    assert_eq!(pack.recipes.len(), 1);
    let rec = pack
        .recipes
        .get("data/minestuck/recipes/grist_costs/minestuck/build")
        .expect("entry exported");
    match rec {
        Recipe::GristCost(g) => {
            assert_eq!(g.priority, Some(101));
            assert_eq!(g.ingredient, Ingredient::Item(String::from("minestuck:build")));
            assert_eq!(g.grist_cost.get("minestuck:cruxite"), Some(50));
        },
        _ => panic!("exported entry is a grist cost"),
    }
}

#[test]
fn export_reports_invalid_item() {
    let entry = CostEntry::new("no_colon", vec![GristField::new("cruxite", 50)]);
    let (pack, errors) = export_datapack(&vec![entry]);
    assert_eq!(pack.recipes.len(), 0);
    assert_eq!(errors.len(), 1);
    assert_eq!(errors[0].text, "Invalid item no_colon");
    assert_eq!(errors[0].position, 0);
    assert!(errors[0].invalid);
}

#[test]
fn export_reports_invalid_grist() {
    let entry = CostEntry::new("minestuck:build", vec![GristField::new("bad name", 1)]);
    let (pack, errors) = export_datapack(&vec![entry]);
    assert_eq!(pack.recipes.len(), 0);
    assert_eq!(errors.len(), 1);
    assert_eq!(errors[0].text, "Invalid grist for minestuck:build");
}

#[test]
fn export_reports_duplicates_and_empty_grist() {
    let a = CostEntry::new("minestuck:build", vec![GristField::new("cruxite", 1)]);
    let b = CostEntry::new("minestuck:build", vec![GristField::new("cruxite", 2)]);
    let empty = CostEntry::new("minestuck:stone", Vec::new());
    let (pack, errors) = export_datapack(&vec![a, b, empty]);
    assert_eq!(pack.recipes.len(), 2);
    assert_eq!(errors.len(), 2);
    assert_eq!(errors[0].text, "Duplicate item minestuck:build");
    assert_eq!(errors[0].position, 1);
    assert!(errors[0].invalid);
    assert_eq!(errors[1].text, "No grist for minestuck:stone");
    assert!(!errors[1].invalid);
    let rec = pack
        .recipes
        .get("data/minestuck/recipes/grist_costs/minestuck/build")
        .expect("kept entry");
    match rec {
        Recipe::GristCost(g) => assert_eq!(g.grist_cost.get("minestuck:cruxite"), Some(2)),
        _ => panic!("grist cost expected"),
    }
}

#[test]
fn loaded_pack_opens_as_rows() {
    let mut gm = GristMap::new();
    gm.insert(String::from("minestuck:cruxite"), 50);
    gm.insert(String::from("other:uranium"), 3);
    let mut pack = Datapack::new();
    pack.recipes.insert(
        String::from("data/minestuck/recipes/grist_costs/minestuck/build"),
        Recipe::GristCost(GristCostRecipe {
            priority: Some(101),
            ingredient: Ingredient::Item(String::from("minestuck:build")),
            grist_cost: gm,
        }),
    );
    pack.recipes.insert(
        String::from("data/minestuck/recipes/combination/minestuck/result"),
        Recipe::Combination(CombinationRecipe {
            input1: Ingredient::Item(String::from("minestuck:a")),
            input2: Ingredient::Item(String::from("minestuck:b")),
            mode: CombinationMode::And,
            output: ResultItem::Item(String::from("minestuck:c")),
        }),
    );
    let rows = cost_entries_of(&pack);
    // the collection keeps keys sorted, so the combination row comes first
    assert_eq!(rows.len(), 2);
    assert_eq!(rows[0].item_id, "");
    assert!(!rows[0].valid_item);
    assert_eq!(rows[0].grist.len(), 1);
    assert_eq!(rows[1].item_id, "minestuck:build");
    assert!(rows[1].valid_item);
    assert_eq!(rows[1].grist.len(), 2);
    assert_eq!(rows[1].grist[0].name, "cruxite");
    assert!(rows[1].grist[0].valid_name);
    assert_eq!(rows[1].grist[0].amount_string, "50");
    assert_eq!(rows[1].grist[1].name, "other:uranium");
}
