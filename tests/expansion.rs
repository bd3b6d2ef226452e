use craft_planner::error::PlanError;
use craft_planner::game_data::GameData;
use craft_planner::item_list::ItemList;
use craft_planner::models::{Drop, Item, Monster, MonsterSubArea, Recipe, SubArea};

fn item(id: i32, name: &str) -> Item {
    Item { id, name: name.to_string(), category: 0, image_id: id }
}

fn row(result: i32, ingredient: i32, quantity: i16) -> Recipe {
    Recipe { result_item_id: result, ingredient_item_id: ingredient, quantity }
}

/// test1 <- nothing, test2 <- 10 test1, test3 <- 10 test2, test4 <- 10 test3.
fn chain() -> GameData {
    GameData::new(
        vec![item(1, "test1"), item(2, "test2"), item(3, "test3"), item(4, "test4")],
        vec![row(2, 1, 10), row(3, 2, 10), row(4, 3, 10)],
        vec![],
        vec![],
        vec![],
        vec![],
    )
    .unwrap()
}

fn items(ids: &[i32]) -> Vec<Item> {
    ids.iter().map(|&id| item(id, "x")).collect()
}

fn entries(l: &ItemList) -> Vec<(i32, i16)> {
    l.to_vec()
}

#[test]
fn chain_of_three_recipes_expands_to_base_and_steps() {
    let data = chain();
    let (base, steps) = data.full_recipe(4, 1).unwrap();
    assert_eq!(entries(&base), vec![(1, 1000)]);
    assert_eq!(steps.len(), 2);
    assert_eq!(entries(&steps[0]), vec![(2, 100)]);
    assert_eq!(entries(&steps[1]), vec![(3, 10)]);
}

#[test]
fn item_methods_delegate_to_the_data() {
    let data = chain();
    let test4 = item(4, "test4");
    assert!(test4.has_recipe(&data));
    assert!(!item(1, "test1").has_recipe(&data));
    let one_level = test4.get_recipe(3, &data).unwrap();
    assert_eq!(entries(&one_level), vec![(3, 30)]);
    let (base, steps) = test4.get_full_recipe(1, &data).unwrap();
    assert_eq!(entries(&base), vec![(1, 1000)]);
    assert_eq!(steps.len(), 2);
}

#[test]
fn base_ingredient_expands_to_itself() {
    let data = chain();
    let (base, steps) = data.full_recipe(1, 7).unwrap();
    assert_eq!(entries(&base), vec![(1, 7)]);
    assert!(steps.is_empty());
}

#[test]
fn zero_quantity_keeps_empty_steps() {
    let data = chain();
    let (base, steps) = data.full_recipe(4, 0).unwrap();
    assert!(base.is_empty());
    assert_eq!(steps.len(), 2);
    assert!(steps.iter().all(|s| s.is_empty()));
    let (base, steps) = data.full_recipe(1, 0).unwrap();
    assert!(base.is_empty());
    assert!(steps.is_empty());
}

#[test]
fn rows_with_an_unknown_ingredient_are_left_out() {
    let data = GameData::new(items(&[1, 3]), vec![row(1, 2, 5), row(1, 3, 4)], vec![], vec![], vec![], vec![]).unwrap();
    assert_eq!(entries(&data.get_recipe(1, 1).unwrap()), vec![(3, 4)]);
    let only_unknown = GameData::new(vec![], vec![row(1, 2, 5), row(1, 3, 0)], vec![], vec![], vec![], vec![]).unwrap();
    assert!(only_unknown.get_recipe(1, 1).unwrap().is_empty());
    assert!(!only_unknown.has_recipe(1));
}

#[test]
fn two_units_are_one_unit_twice() {
    let data = chain();
    let (one, steps_one) = data.full_recipe(4, 1).unwrap();
    let (two, steps_two) = data.full_recipe(4, 2).unwrap();
    assert_eq!(two.get(1), one.get(1) + one.get(1));
    assert_eq!(steps_one.len(), steps_two.len());
    assert_eq!(steps_two[0].get(2), 200);
}

#[test]
fn shared_ingredient_at_two_depths_adds_up() {
    // 10 = 2 x 11 + 1 x 12, 11 = 3 x 12.
    let data = GameData::new(items(&[10, 11, 12]), vec![row(10, 11, 2), row(10, 12, 1), row(11, 12, 3)], vec![], vec![], vec![], vec![])
        .unwrap();
    let (base, steps) = data.full_recipe(10, 1).unwrap();
    assert_eq!(entries(&base), vec![(12, 7)]);
    assert_eq!(steps.len(), 1);
    assert_eq!(entries(&steps[0]), vec![(11, 2)]);
}

#[test]
fn cycle_is_reported() {
    let data = GameData::new(items(&[1, 2]), vec![row(1, 2, 1), row(2, 1, 1)], vec![], vec![], vec![], vec![]).unwrap();
    assert_eq!(data.full_recipe(1, 1).err(), Some(PlanError::CyclicRecipe));
}

#[test]
fn overflow_is_reported() {
    let data = chain();
    assert_eq!(data.full_recipe(4, 40).err(), Some(PlanError::QuantityOverflow));
    assert_eq!(data.get_recipe(2, 4000).err(), Some(PlanError::QuantityOverflow));
}

#[test]
fn non_positive_recipe_quantity_is_refused() {
    assert!(GameData::new(items(&[1, 2]), vec![row(1, 2, 0)], vec![], vec![], vec![], vec![]).is_none());
}

#[test]
fn sources_are_grouped_and_deduplicated() {
    let data = GameData::new(
        vec![],
        vec![],
        vec![Monster { id: 100, name: "a".to_string() }, Monster { id: 200, name: "b".to_string() }],
        vec![
            Drop { monster_id: 100, item_id: 1 },
            Drop { monster_id: 100, item_id: 1 },
            Drop { monster_id: 200, item_id: 1 },
            Drop { monster_id: 300, item_id: 1 },
        ],
        vec![
            MonsterSubArea { monster_id: 100, sub_area_id: 7 },
            MonsterSubArea { monster_id: 100, sub_area_id: 7 },
            MonsterSubArea { monster_id: 200, sub_area_id: 7 },
            MonsterSubArea { monster_id: 200, sub_area_id: 8 },
            MonsterSubArea { monster_id: 300, sub_area_id: 7 },
            MonsterSubArea { monster_id: 200, sub_area_id: 9 },
        ],
        vec![
            SubArea { id: 7, name: "x".to_string(), area_id: 1 },
            SubArea { id: 8, name: "y".to_string(), area_id: 1 },
        ],
    )
    .unwrap();
    let sources = data.locate_sources(1);
    assert_eq!(sources.len(), 2);
    assert_eq!(sources[0].monster_id, 100);
    assert_eq!(sources[0].sub_area_ids, vec![7]);
    assert_eq!(sources[1].monster_id, 200);
    assert_eq!(sources[1].sub_area_ids, vec![7, 8]);
    assert!(data.locate_sources(2).is_empty());
}

#[test]
fn fixture_items_expand_to_a_thousand_base_units() {
    let test1 = Item { id: 69696969, name: "test1".to_string(), category: 0, image_id: 151076 };
    let test2 = Item { id: 69696970, name: "test2".to_string(), category: 0, image_id: 151077 };
    let test3 = Item { id: 69696971, name: "test3".to_string(), category: 0, image_id: 151078 };
    let test4 = Item { id: 69696972, name: "test4".to_string(), category: 0, image_id: 151075 };
    let recipes = vec![row(test2.id, test1.id, 10), row(test3.id, test2.id, 10), row(test4.id, test3.id, 10)];
    let data = GameData::new(vec![test1.clone(), test2.clone(), test3.clone(), test4.clone()], recipes, vec![], vec![], vec![], vec![])
        .unwrap();
    let (base, steps) = test4.get_full_recipe(1, &data).unwrap();
    assert_eq!(entries(&base), vec![(test1.id, 1000)]);
    assert_eq!(steps.len(), 2);
    assert_eq!(entries(&steps[0]), vec![(test2.id, 100)]);
    assert_eq!(entries(&steps[1]), vec![(test3.id, 10)]);
    assert!(test1 == Item { id: 69696969, name: "renamed".to_string(), category: 3, image_id: 0 });
}
