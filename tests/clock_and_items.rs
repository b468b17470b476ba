use scoreboard::clock::{instant_from_reading, now_instant};
use scoreboard::expiry::LATEST_INSTANT;
use scoreboard::Item;

#[test]
fn clock_readings_become_instants() {
    assert_eq!(instant_from_reading(-1), None);
    assert_eq!(instant_from_reading(0), Some(0));
    assert_eq!(instant_from_reading(1_700_000_000), Some(1_700_000_000));
    assert_eq!(instant_from_reading(i64::MAX), Some(i64::MAX as u64));
    assert!(i64::MAX as u64 <= LATEST_INSTANT);
}

#[test]
fn wall_clock_is_after_the_epoch() {
    let now = now_instant().expect("the clock reads a usable instant");
    assert!(now > 1_500_000_000);
}

#[test]
fn new_item_is_unstored() {
    let item = Item::new("Ayla".to_string(), "Born in the northern wastes.".to_string());
    assert_eq!(item.id, None);
    assert_eq!(item.character_name, "Ayla");
    assert_eq!(item.world_lore, "Born in the northern wastes.");
}
