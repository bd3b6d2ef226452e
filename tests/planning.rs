use craft_planner::dto::{ItemDto, MapPositionDto};
use craft_planner::error::PlanError;
use craft_planner::game_data::GameData;
use craft_planner::inventory::{apply_delta, consume_for_craft};
use craft_planner::item_list::ItemList;
use craft_planner::world_map::MapMinMax;
use craft_planner::models::{Drop, MapTile, Monster, MonsterSubArea, Recipe, SubArea, UserIngredient, UserItem};
use craft_planner::query_params::QueryParams;
use craft_planner::tabs::MonstersTab;
use craft_planner::wish_list::{resolve, AsyncStatus, WishList};

fn row(result: i32, ingredient: i32, quantity: i16) -> Recipe {
    Recipe { result_item_id: result, ingredient_item_id: ingredient, quantity }
}

/// test1 <- nothing, test2 <- 10 test1, test3 <- 10 test2, test4 <- 10 test3;
/// monster 100 drops test1 in sub-area 7, monster 200 drops item 9 in sub-area 8.
fn data() -> GameData {
    GameData::new(
        [1, 2, 3, 4, 9].iter().map(|&id| craft_planner::models::Item { id, name: format!("test{}", id), category: 0, image_id: id }).collect(),
        vec![row(2, 1, 10), row(3, 2, 10), row(4, 3, 10)],
        vec![Monster { id: 100, name: "m".to_string() }, Monster { id: 200, name: "n".to_string() }],
        vec![Drop { monster_id: 100, item_id: 1 }, Drop { monster_id: 200, item_id: 9 }],
        vec![
            MonsterSubArea { monster_id: 100, sub_area_id: 7 },
            MonsterSubArea { monster_id: 200, sub_area_id: 8 },
        ],
        vec![
            SubArea { id: 7, name: "x".to_string(), area_id: 1 },
            SubArea { id: 8, name: "y".to_string(), area_id: 1 },
        ],
    )
    .unwrap()
}

fn list(entries: &[(i32, i16)]) -> ItemList {
    let mut l = ItemList::new();
    for &(id, q) in entries {
        l.set_item(id, q);
    }
    l
}

fn resolved_wishes(data: &GameData, item: i32, quantity: i16) -> WishList {
    let mut wishes = WishList::new();
    let (record, fresh) = wishes.add(item, quantity).unwrap();
    assert_eq!(record, UserItem { item_id: item, quantity });
    assert!(fresh);
    let res = resolve(data, item);
    assert!(wishes.complete(item, res));
    wishes
}

#[test]
fn wish_list_demand_is_netted_against_inventory() {
    let data = data();
    let wishes = resolved_wishes(&data, 4, 2);
    let inventory = list(&[(1, 500)]);
    let needed = wishes.still_needed(&inventory).unwrap();
    assert_eq!(needed.to_vec(), vec![(1, 1500)]);
}

#[test]
fn demand_covered_by_inventory_is_left_out() {
    let data = data();
    let wishes = resolved_wishes(&data, 4, 2);
    let inventory = list(&[(1, 3000)]);
    assert!(wishes.still_needed(&inventory).unwrap().is_empty());
}

#[test]
fn pending_wishes_need_nothing_yet() {
    let mut wishes = WishList::new();
    wishes.add(4, 2).unwrap();
    assert!(wishes.still_needed(&ItemList::new()).unwrap().is_empty());
}

#[test]
fn demand_overflow_is_reported() {
    let data = data();
    let wishes = resolved_wishes(&data, 4, 40);
    assert_eq!(wishes.still_needed(&ItemList::new()).err(), Some(PlanError::QuantityOverflow));
}

#[test]
fn crafting_descends_past_exhausted_ingredients() {
    let data = data();
    let mut inventory = list(&[(3, 5), (1, 10000)]);
    let records = consume_for_craft(&mut inventory, &data, 4, 1).unwrap();
    assert_eq!(inventory.get(3), 0);
    assert_eq!(inventory.get(2), 0);
    assert_eq!(inventory.get(1), 9500);
    assert_eq!(inventory.to_vec(), vec![(1, 9500)]);
    assert_eq!(records.len(), 2);
    assert!(records.contains(&UserIngredient { item_id: 3, quantity: 0 }));
    assert!(records.contains(&UserIngredient { item_id: 1, quantity: 9500 }));
}

#[test]
fn crafting_stops_where_inventory_suffices() {
    let data = data();
    let mut inventory = list(&[(3, 20), (1, 10000)]);
    let records = consume_for_craft(&mut inventory, &data, 4, 1).unwrap();
    assert_eq!(inventory.to_vec(), vec![(1, 10000), (3, 10)]);
    assert_eq!(records, vec![UserIngredient { item_id: 3, quantity: 10 }]);
}

#[test]
fn crafting_with_a_cycle_fails_and_changes_nothing() {
    let both = [1, 2].iter().map(|&id| craft_planner::models::Item { id, name: "x".to_string(), category: 0, image_id: id }).collect();
    let data = GameData::new(both, vec![row(1, 2, 1), row(2, 1, 1)], vec![], vec![], vec![], vec![]).unwrap();
    let mut inventory = list(&[(5, 1)]);
    assert_eq!(consume_for_craft(&mut inventory, &data, 1, 1).err(), Some(PlanError::CyclicRecipe));
    assert_eq!(inventory.to_vec(), vec![(5, 1)]);
}

#[test]
fn inventory_quantity_set_to_zero_disappears() {
    let mut inventory = list(&[(1, 5)]);
    let record = apply_delta(&mut inventory, 1, -5).unwrap();
    assert_eq!(record, UserIngredient { item_id: 1, quantity: 0 });
    assert!(inventory.is_empty());
    let record = apply_delta(&mut inventory, 2, -3).unwrap();
    assert_eq!(record.quantity, 0);
    assert!(inventory.is_empty());
    let record = apply_delta(&mut inventory, 2, 4).unwrap();
    assert_eq!(record.quantity, 4);
    assert_eq!(apply_delta(&mut inventory, 2, 32767).err(), Some(PlanError::QuantityOverflow));
    assert_eq!(inventory.to_vec(), vec![(2, 4)]);
}

#[test]
fn item_list_set_to_zero_removes_the_entry() {
    let mut l = list(&[(3, 1), (1, 2)]);
    assert_eq!(l.to_vec(), vec![(1, 2), (3, 1)]);
    l.set_item(1, 0);
    assert_eq!(l.to_vec(), vec![(3, 1)]);
    assert_eq!(l.add_item(3, 32767).err(), Some(PlanError::QuantityOverflow));
    l.add_item(3, 4).unwrap();
    assert_eq!(l.pop_first(), Some((3, 5)));
    assert_eq!(l.pop_first(), None);
}

#[test]
fn wish_quantity_removed_to_zero_disappears() {
    let data = data();
    let mut wishes = resolved_wishes(&data, 4, 2);
    let (taken, record) = wishes.remove(4, 5);
    assert_eq!(taken, 2);
    assert_eq!(record, UserItem { item_id: 4, quantity: 0 });
    assert_eq!(wishes.get(4), 0);
    assert!(wishes.items().is_empty());
    assert!(!wishes.complete(4, resolve(&data, 4)));
}

#[test]
fn adding_to_a_pending_wish_merges_without_new_expansion() {
    let mut wishes = WishList::new();
    assert!(wishes.add(4, 1).unwrap().1);
    let (record, expand) = wishes.add(4, 3).unwrap();
    assert!(!expand);
    assert_eq!(record.quantity, 4);
    assert_eq!(wishes.add(4, 32767).err(), Some(PlanError::QuantityOverflow));
}

#[test]
fn adding_to_a_resolved_wish_expands_again() {
    let data = data();
    let mut wishes = resolved_wishes(&data, 4, 1);
    let (record, expand) = wishes.add(4, 1).unwrap();
    assert!(expand);
    assert_eq!(record, UserItem { item_id: 4, quantity: 2 });
    assert!(wishes.complete(4, resolve(&data, 4)));
    assert_eq!(wishes.still_needed(&ItemList::new()).unwrap().to_vec(), vec![(1, 2000)]);
}

#[test]
fn resolution_lists_suppliers_of_each_base_ingredient() {
    let data = data();
    let res = resolve(&data, 4).unwrap();
    assert_eq!(res.base.to_vec(), vec![(1, 1000)]);
    assert_eq!(res.sources.len(), 1);
    assert_eq!(res.sources[0].item_id, 1);
    assert_eq!(res.sources[0].monsters[0].monster_id, 100);
    assert_eq!(res.sources[0].monsters[0].sub_area_ids, vec![7]);
    assert!(matches!(AsyncStatus::<u8>::Loading, AsyncStatus::Loading));
}

#[test]
fn monsters_tab_shows_suppliers_of_what_is_missing() {
    let data = data();
    let wishes = resolved_wishes(&data, 4, 1);
    let tab = MonstersTab::new();
    assert_eq!(tab.monsters_to_show(&wishes, &ItemList::new(), None).unwrap(), vec![100]);
    assert_eq!(tab.monsters_to_show(&wishes, &ItemList::new(), Some(7)).unwrap(), vec![100]);
    assert!(tab.monsters_to_show(&wishes, &ItemList::new(), Some(8)).unwrap().is_empty());
    assert!(tab.monsters_to_show(&wishes, &list(&[(1, 1000)]), None).unwrap().is_empty());
}

#[test]
fn query_string_joins_keys_and_values() {
    let mut params = QueryParams::new();
    assert_eq!(params.to_query_string(), "");
    params.set_param("a", "1");
    params.add_param("b", "2");
    params.add_param("b", "3");
    assert_eq!(params.to_query_string(), "a=1&b=2&b=3");
    params.set_param("b", "4");
    assert_eq!(params.to_query_string(), "a=1&b=4");
    params.remove_param("a");
    assert_eq!(params.to_query_string(), "b=4");
}

#[test]
fn world_map_cover_every_tile() {
    let tiles = vec![
        MapTile { id: 1, name: None, x: 3, y: -2, sub_area_id: 1 },
        MapTile { id: 2, name: Some("t".to_string()), x: -5, y: 7, sub_area_id: 1 },
        MapTile { id: 3, name: None, x: 0, y: 0, sub_area_id: 2 },
    ];
    let b = MapMinMax::of_tiles(&tiles).unwrap();
    assert_eq!((b.x_min, b.x_max, b.y_min, b.y_max), (-5, 3, -2, 7));
    assert!(MapMinMax::of_tiles(&vec![]).is_none());
    let n = MapMinMax::new(1, 2, 3, 4);
    assert_eq!((n.x_min, n.x_max, n.y_min, n.y_max), (1, 2, 3, 4));
}

#[test]
fn dtos_convert_to_models() {
    let item = ItemDto { id: 5, name: "n".to_string(), category: 2, icon: 9 }.into_item();
    assert_eq!((item.id, item.name.as_str(), item.category, item.image_id), (5, "n", 2, 9));
    let tile = MapPositionDto { id: 1, x: -1, y: 2, sub_area_id: 3, has_priority: true }.into_tile();
    assert_eq!((tile.id, tile.x, tile.y, tile.sub_area_id), (1, -1, 2, 3));
}

#[test]
fn calculated_inventory_breaks_crafted_items_down() {
    let data = data();
    let inventory = list(&[(3, 2), (9, 4)]);
    let calculated = craft_planner::inventory::calculated_inventory(&inventory, &data).unwrap();
    assert_eq!(calculated.to_vec(), vec![(1, 200), (2, 20), (3, 2), (9, 4)]);
    let plain = list(&[(1, 5)]);
    assert_eq!(craft_planner::inventory::calculated_inventory(&plain, &data).unwrap().to_vec(), vec![(1, 5)]);
}

#[test]
fn pages_hold_base_ingredients_then_steps() {
    let data = data();
    let wishes = resolved_wishes(&data, 4, 2);
    assert_eq!(wishes.needed_on_page(0).unwrap().to_vec(), vec![(1, 2000)]);
    assert_eq!(wishes.needed_on_page(1).unwrap().to_vec(), vec![(2, 200)]);
    assert_eq!(wishes.needed_on_page(2).unwrap().to_vec(), vec![(3, 20)]);
    assert!(wishes.needed_on_page(3).unwrap().is_empty());
}

#[test]
fn item_list_from_entries_keeps_the_last_quantity() {
    let l = ItemList::with_items(vec![(4, 1), (2, 3), (4, 6), (7, 0), (8, -2)]);
    assert_eq!(l.to_vec(), vec![(2, 3), (4, 6)]);
}

#[test]
fn items_are_found_by_id() {
    let data = GameData::new(
        vec![craft_planner::models::Item { id: 3, name: "three".to_string(), category: 1, image_id: 30 }],
        vec![],
        vec![],
        vec![],
        vec![],
        vec![],
    )
    .unwrap();
    assert_eq!(data.find_item(3).map(|i| i.name.clone()), Some("three".to_string()));
    assert!(data.find_item(4).is_none());
}

#[test]
fn tiles_are_grouped_by_sub_area_and_empty_ones_dropped() {
    let groups = craft_planner::world_map::group_tiles(&vec![10, 20, 30], &vec![30, 10, 30, 40]);
    assert_eq!(groups, vec![(0, vec![1]), (2, vec![0, 2])]);
    assert!(craft_planner::world_map::group_tiles(&vec![10], &vec![]).is_empty());
}

#[test]
fn priority_positions_replace_others_at_their_spot() {
    let pos = |id: i32, x: i16, y: i16, has_priority: bool| MapPositionDto { id, x, y, sub_area_id: id * 10, has_priority };
    let mut placed = vec![pos(1, 0, 0, false), pos(2, 1, 0, false)];
    craft_planner::world_map::place_positions(&mut placed, &vec![pos(3, 0, 0, false), pos(4, 1, 0, true), pos(5, 1, 0, false), pos(6, 2, 2, false)]);
    let ids: Vec<i32> = placed.iter().map(|p| p.id).collect();
    assert_eq!(ids, vec![1, 4, 6]);
}

#[test]
fn wishes_are_filtered_by_the_sub_areas_of_their_suppliers() {
    let data = data();
    let mut wishes = resolved_wishes(&data, 4, 1);
    assert!(wishes.shown_in_area(4, None));
    assert!(wishes.shown_in_area(4, Some(7)));
    assert!(!wishes.shown_in_area(4, Some(8)));
    wishes.add(9, 1).unwrap();
    assert!(wishes.shown_in_area(9, None));
    assert!(!wishes.shown_in_area(9, Some(8)));
}

#[test]
fn sub_areas_of_suppliers_of_missing_ingredients_are_drawn() {
    let data = data();
    let wishes = resolved_wishes(&data, 4, 1);
    assert_eq!(wishes.sub_areas_to_draw(&ItemList::new()).unwrap(), vec![7]);
    assert!(wishes.sub_areas_to_draw(&list(&[(1, 1000)])).unwrap().is_empty());
}

#[test]
fn crafting_from_full_stock_succeeds_despite_a_deeper_cycle() {
    let all = [1, 2, 3].iter().map(|&id| craft_planner::models::Item { id, name: "x".to_string(), category: 0, image_id: id }).collect();
    let data = GameData::new(all, vec![row(1, 2, 1), row(2, 3, 1), row(3, 2, 1)], vec![], vec![], vec![], vec![]).unwrap();
    let mut inventory = list(&[(2, 4)]);
    let records = consume_for_craft(&mut inventory, &data, 1, 3).unwrap();
    assert_eq!(inventory.to_vec(), vec![(2, 1)]);
    assert_eq!(records, vec![UserIngredient { item_id: 2, quantity: 1 }]);
}

#[test]
fn crafting_with_everything_held_takes_exactly_the_recipe() {
    let data = data();
    let mut inventory = list(&[(3, 12), (1, 7)]);
    let records = consume_for_craft(&mut inventory, &data, 4, 1).unwrap();
    assert_eq!(inventory.to_vec(), vec![(1, 7), (3, 2)]);
    assert_eq!(records, vec![UserIngredient { item_id: 3, quantity: 2 }]);
}
