use hedonica_sim::human::{offer_to_lead, pickable_items, seat_mark, tally_picks, SeatMark};
use hedonica_sim::types::{Category, GoodsSet, PerCategory};

fn goods(money: i64, cars: i64, clothing: i64, food: i64, art: i64, travel: i64) -> GoodsSet {
    PerCategory { money, cars, clothing, food, art, travel }
}

fn as_tuple(goods: &GoodsSet) -> (i64, i64, i64, i64, i64, i64) {
    (goods.money, goods.cars, goods.clothing, goods.food, goods.art, goods.travel)
}

#[test]
fn the_lead_is_marked_before_oneself() {
    assert_eq!(seat_mark(2, 2, 0), SeatMark::Lead);
    assert_eq!(seat_mark(2, 2, 2), SeatMark::Lead);
    assert_eq!(seat_mark(0, 2, 0), SeatMark::You);
    assert_eq!(seat_mark(1, 2, 0), SeatMark::Other);
}

#[test]
fn there_is_an_item_to_pick_for_each_unit() {
    let items = pickable_items(&goods(2, 0, 1, -4, 0, 3)).unwrap();
    assert_eq!(
        items,
        vec![
            Category::Money,
            Category::Money,
            Category::Clothing,
            Category::Travel,
            Category::Travel,
            Category::Travel,
        ]
    );
    assert!(pickable_items(&goods(0, 0, 0, 0, 0, 0)).unwrap().is_empty());
}

#[test]
fn picks_are_tallied_by_category() {
    let items = pickable_items(&goods(2, 0, 1, 0, 0, 3)).unwrap();
    let picked = tally_picks(&items, &vec![5, 0, 3, 2]);
    assert_eq!(as_tuple(&picked), (1, 0, 1, 0, 0, 2));
    let picked = tally_picks(&items, &vec![1, 1]);
    assert_eq!(as_tuple(&picked), (2, 0, 0, 0, 0, 0));
    let picked = tally_picks(&items, &Vec::new());
    assert!(picked.is_empty());
}

#[test]
fn an_offer_names_what_is_wanted_and_what_is_given() {
    let wanted = goods(0, 1, 0, 0, 0, 0);
    let given = goods(3, 0, 0, 0, 0, 0);
    let offer = offer_to_lead(2, 0, wanted, given).unwrap();
    assert_eq!(offer.proposer, 2);
    assert_eq!(offer.accepter, 0);
    assert_eq!(as_tuple(&offer.from_proposor), (3, 0, 0, 0, 0, 0));
    assert_eq!(as_tuple(&offer.from_acceptor), (0, 1, 0, 0, 0, 0));
    let nothing = goods(0, 0, 0, 0, 0, 0);
    assert!(offer_to_lead(2, 0, wanted, nothing).is_some());
    assert!(offer_to_lead(2, 0, nothing, given).is_some());
}

#[test]
fn an_offer_of_nothing_for_nothing_is_no_offer() {
    let nothing = goods(0, 0, 0, 0, 0, 0);
    assert!(offer_to_lead(1, 0, nothing, nothing).is_none());
}
