use datapack_gen::codec::{recipe_from_json, recipe_to_json};
use datapack_gen::numbers::parse_i32;
use datapack_gen::pack::{mcmeta_from_json, mcmeta_to_json, Datapack, FileEntry, MCMeta, Pack};
use datapack_gen::recipe::{
    CombinationMode, CombinationRecipe, GristCostRecipe, GristMap, Ingredient, Recipe, ResultItem,
};

fn sample_grist_recipe() -> Recipe {
    let mut gm = GristMap::new();
    gm.insert(String::from("minestuck:cruxite"), 50);
    gm.insert(String::from("minestuck:artifact"), -2);
    Recipe::GristCost(GristCostRecipe {
        priority: Some(101),
        ingredient: Ingredient::Item(String::from("minestuck:build")),
        grist_cost: gm,
    })
}

fn sample_combination_recipe() -> Recipe {
    Recipe::Combination(CombinationRecipe {
        input1: Ingredient::Item(String::from("minestuck:sample")),
        input2: Ingredient::Item(String::from("minestuck:other")),
        mode: CombinationMode::Or,
        output: ResultItem::Item(String::from("minestuck:result")),
    })
}

#[test]
fn grist_recipe_json_text() {
    let text = recipe_to_json(&sample_grist_recipe());
    assert_eq!(
        text,
        "{\"type\":\"minestuck:grist_cost\",\"priority\":101,\"ingredient\":{\"item\":\"minestuck:build\"},\"grist_cost\":{\"minestuck:cruxite\":50,\"minestuck:artifact\":-2}}"
    );
}

#[test]
fn combination_recipe_json_text() {
    let text = recipe_to_json(&sample_combination_recipe());
    assert_eq!(
        text,
        "{\"type\":\"minestuck:combination\",\"input1\":{\"item\":\"minestuck:sample\"},\"input2\":{\"item\":\"minestuck:other\"},\"mode\":\"or\",\"output\":{\"item\":\"minestuck:result\"}}"
    );
}

#[test]
fn recipe_json_round_trips() {
    for rec in [sample_grist_recipe(), sample_combination_recipe()] {
        let text = recipe_to_json(&rec);
        let back = recipe_from_json(&text).expect("canonical text parses");
        assert_eq!(back, rec);
    }
}

#[test]
fn recipe_parser_rejects_non_canonical_text() {
    assert!(recipe_from_json("").is_none());
    assert!(recipe_from_json("{}").is_none());
    assert!(recipe_from_json("{\"type\":\"minestuck:grist_cost\"}").is_none());
    let text = recipe_to_json(&sample_combination_recipe());
    let padded = format!("{} ", text);
    assert!(recipe_from_json(&padded).is_none());
}

#[test]
fn no_priority_field_round_trips() {
    let mut gm = GristMap::new();
    gm.insert(String::from("minestuck:shale"), 7);
    let rec = Recipe::GristCost(GristCostRecipe {
        priority: None,
        ingredient: Ingredient::Item(String::from("minestuck:stone")),
        grist_cost: gm,
    });
    let text = recipe_to_json(&rec);
    assert_eq!(
        text,
        "{\"type\":\"minestuck:grist_cost\",\"ingredient\":{\"item\":\"minestuck:stone\"},\"grist_cost\":{\"minestuck:shale\":7}}"
    );
    assert_eq!(recipe_from_json(&text), Some(rec));
}

#[test]
fn save_writes_valid_recipes_under_their_keys() {
    let mut pack = Datapack::new();
    pack.recipes.insert(
        String::from("data/minestuck/recipes/combination/minestuck/result"),
        sample_combination_recipe(),
    );
    let files = pack.save_files();
    assert_eq!(files.len(), 1);
    assert_eq!(
        files[0].path,
        "data/minestuck/recipes/combination/minestuck/result.json"
    );
    assert_eq!(files[0].content, recipe_to_json(&sample_combination_recipe()));
}

#[test]
fn save_skips_invalid_recipes() {
    let invalid = Recipe::Combination(CombinationRecipe {
        input1: Ingredient::Tag(String::from("minestuck:sample")),
        input2: Ingredient::Item(String::from("minestuck:other")),
        mode: CombinationMode::And,
        output: ResultItem::Item(String::from("minestuck:result")),
    });
    assert!(!invalid.is_valid());
    let mut pack = Datapack::new();
    pack.recipes.insert(String::from("data/minestuck/recipes/combination/minestuck/bad"), invalid);
    pack.recipes.insert(
        String::from("data/minestuck/recipes/grist_costs/minestuck/build"),
        sample_grist_recipe(),
    );
    let files = pack.save_files();
    assert_eq!(files.len(), 1);
    assert_eq!(files[0].path, "data/minestuck/recipes/grist_costs/minestuck/build.json");
}

#[test]
fn save_never_names_the_metadata_file() {
    let mut pack = Datapack::new();
    pack.recipes.insert(String::from("data/pack"), sample_grist_recipe());
    for f in pack.save_files() {
        assert_ne!(f.path, "pack.mcmeta");
    }
}

#[test]
fn save_then_load_round_trips() {
    let mut pack = Datapack::new();
    pack.recipes.insert(
        String::from("data/minestuck/recipes/grist_costs/minestuck/build"),
        sample_grist_recipe(),
    );
    pack.recipes.insert(
        String::from("data/minestuck/recipes/combination/minestuck/result"),
        sample_combination_recipe(),
    );
    let files = pack.save_files();
    let loaded = Datapack::load_files(None, &files);
    assert_eq!(loaded.recipes.len(), 2);
    assert_eq!(
        loaded.recipes.get("data/minestuck/recipes/grist_costs/minestuck/build"),
        Some(&sample_grist_recipe())
    );
    assert_eq!(
        loaded.recipes.get("data/minestuck/recipes/combination/minestuck/result"),
        Some(&sample_combination_recipe())
    );
}

#[test]
fn load_skips_files_it_does_not_own() {
    let files = vec![
        FileEntry {
            path: String::from("data/minestuck/recipes/combination/minestuck/bad.json"),
            content: String::from("not canonical json"),
        },
        FileEntry {
            path: String::from("outside/minestuck/result.json"),
            content: recipe_to_json(&sample_combination_recipe()),
        },
        FileEntry {
            path: String::from("data/minestuck/recipes/combination/minestuck/result.txt"),
            content: recipe_to_json(&sample_combination_recipe()),
        },
    ];
    let loaded = Datapack::load_files(None, &files);
    assert_eq!(loaded.recipes.len(), 0);
}

#[test]
fn missing_data_directory_loads_empty() {
    let files: Vec<FileEntry> = Vec::new();
    let loaded = Datapack::load_files(None, &files);
    assert_eq!(loaded.recipes.len(), 0);
    assert_eq!(loaded.mcmeta, MCMeta::default());
}

#[test]
fn metadata_text_round_trips() {
    let m = MCMeta::default();
    let text = mcmeta_to_json(&m);
    assert_eq!(
        text,
        "{\"pack\":{\"pack_format\":10,\"description\":\"Created by Minestuck Datapack Generator\"}}"
    );
    assert_eq!(mcmeta_from_json(&text), Some(MCMeta::default()));
}

#[test]
fn metadata_description_is_escaped_and_read_back() {
    let m = MCMeta {
        pack: Pack {
            pack_format: 7,
            description: String::from("say \"hi\" and a \\ stroke"),
        },
    };
    let text = mcmeta_to_json(&m);
    assert_eq!(
        text,
        "{\"pack\":{\"pack_format\":7,\"description\":\"say \\\"hi\\\" and a \\\\ stroke\"}}"
    );
    assert_eq!(mcmeta_from_json(&text), Some(m.clone()));
    let files: Vec<FileEntry> = Vec::new();
    let loaded = Datapack::load_files(Some(&text), &files);
    assert_eq!(loaded.mcmeta, m);
}

#[test]
fn loading_canonical_metadata_returns_it() {
    let m = MCMeta { pack: Pack { pack_format: 12, description: String::from("plain words") } };
    let text = mcmeta_to_json(&m);
    let files: Vec<FileEntry> = Vec::new();
    let loaded = Datapack::load_files(Some(&text), &files);
    assert_eq!(loaded.mcmeta, m);
}

#[test]
fn bad_metadata_falls_back_to_default() {
    let files: Vec<FileEntry> = Vec::new();
    let loaded = Datapack::load_files(Some("{ malformed"), &files);
    assert_eq!(loaded.mcmeta, MCMeta::default());
}

#[test]
fn decimal_parser_is_strict() {
    assert_eq!(parse_i32("0"), Some(0));
    assert_eq!(parse_i32("-17"), Some(-17));
    assert_eq!(parse_i32("2147483647"), Some(2147483647));
    assert_eq!(parse_i32("-2147483648"), Some(-2147483648));
    assert_eq!(parse_i32("2147483648"), None);
    assert_eq!(parse_i32("007"), None);
    assert_eq!(parse_i32("+5"), None);
    assert_eq!(parse_i32("-0"), None);
    assert_eq!(parse_i32(""), None);
    assert_eq!(parse_i32("1 "), None);
}

#[test]
fn grist_map_insert_replaces() {
    let mut gm = GristMap::new();
    gm.insert(String::from("minestuck:cruxite"), 1);
    gm.insert(String::from("minestuck:cruxite"), 2);
    assert_eq!(gm.len(), 1);
    assert_eq!(gm.get("minestuck:cruxite"), Some(2));
    assert_eq!(gm.get("minestuck:shale"), None);
}

#[test]
fn recipe_map_insert_replaces() {
    let mut pack = Datapack::new();
    pack.recipes.insert(String::from("data/k"), sample_grist_recipe());
    pack.recipes.insert(String::from("data/k"), sample_combination_recipe());
    assert_eq!(pack.recipes.len(), 1);
    assert_eq!(pack.recipes.get("data/k"), Some(&sample_combination_recipe()));
}

#[test]
fn save_visits_keys_in_lexicographic_order() {
    let mut pack = Datapack::new();
    pack.recipes.insert(String::from("data/z/late"), sample_grist_recipe());
    pack.recipes.insert(String::from("data/a/early"), sample_combination_recipe());
    pack.recipes.insert(String::from("data/m/middle"), sample_grist_recipe());
    let files = pack.save_files();
    assert_eq!(files.len(), 3);
    assert_eq!(files[0].path, "data/a/early.json");
    assert_eq!(files[1].path, "data/m/middle.json");
    assert_eq!(files[2].path, "data/z/late.json");
}

#[test]
fn recipes_wrap_into_the_union() {
    let g = match sample_grist_recipe() {
        Recipe::GristCost(g) => g,
        _ => unreachable!(),
    };
    let wrapped: Recipe = g.into();
    assert_eq!(wrapped, sample_grist_recipe());
    let c = match sample_combination_recipe() {
        Recipe::Combination(c) => c,
        _ => unreachable!(),
    };
    let wrapped: Recipe = c.into();
    assert_eq!(wrapped, sample_combination_recipe());
}
