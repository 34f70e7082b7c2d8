//! Tests for the race model: parsing, normalization, rolls and rankings.

use camel_up::camel::{Camel, Dice, Face, Marker, NoDice, NotAMarker, Race, RaceParseError, Roll};

#[test]
fn races_can_be_equated() {
    let left = Race::from_markers(vec![
        Marker::Camel(Camel::Red),
        Marker::Divider,
        Marker::Camel(Camel::Yellow),
    ]);
    let right = Race::from_markers(vec![
        Marker::Camel(Camel::Red),
        Marker::Divider,
        Marker::Camel(Camel::Yellow),
    ]);

    assert_eq!(left, right);
}

#[test]
fn races_can_be_parsed() {
    let left = "r,y".parse::<Race>().expect("to parse");
    let right = Race::from_markers(vec![
        Marker::Camel(Camel::Red),
        Marker::Divider,
        Marker::Camel(Camel::Yellow),
    ]);

    assert_eq!(left, right);
}

#[test]
fn camel_can_not_be_in_an_oasis() {
    let left = "r+,y".parse::<Race>();
    let right = Err(RaceParseError::CamelInOasis);

    assert_eq!(left, right);
}

#[test]
fn camel_can_not_be_in_a_fata_morgana() {
    let left = "r-,y".parse::<Race>();
    let right = Err(RaceParseError::CamelInFataMorgana);

    assert_eq!(left, right);
}

#[test]
fn adjustments_can_not_be_in_same_position() {
    let left = "r,+-,y".parse::<Race>();
    let right = Err(RaceParseError::ToManyAdjustmentsInOnePosition);

    assert_eq!(left, right);
}

#[test]
fn adjustments_can_not_be_consecutive() {
    let left = "r,+,-,y".parse::<Race>();
    let right = Err(RaceParseError::ConsecutiveAdjustments);

    assert_eq!(left, right);
}

#[test]
fn races_are_normalized() {
    let left = ",,,,,,,r,y,,,,,,,,,,,".parse::<Race>().expect("to parse");
    let right = Race::from_markers(vec![
        Marker::Camel(Camel::Red),
        Marker::Divider,
        Marker::Camel(Camel::Yellow),
    ]);

    assert_eq!(left, right);
}

#[test]
fn races_can_perform_a_roll_one() {
    let race = "ro,y".parse::<Race>().expect("to parse");
    let result = race.perform(Roll::new(Camel::Red, Face::One));
    let expected = "yro".parse::<Race>().expect("to parse");

    assert_eq!(result, expected);
}

#[test]
fn races_can_perform_a_roll_two() {
    let race = "ro,y".parse::<Race>().expect("to parse");
    let result = race.perform(Roll::new(Camel::Red, Face::Two));
    let expected = "y,ro".parse::<Race>().expect("to parse");

    assert_eq!(result, expected);
}

#[test]
fn races_can_perform_a_roll_three() {
    let race = "ro,y".parse::<Race>().expect("to parse");
    let result = race.perform(Roll::new(Camel::Red, Face::Three));
    let expected = "y,,ro".parse::<Race>().expect("to parse");

    assert_eq!(result, expected);
}

#[test]
fn oasis_advance_a_camel_when_it_lands() {
    let race = "r,+,y".parse::<Race>().expect("to parse");
    let result = race.perform(Roll::new(Camel::Red, Face::One));
    let expected = "+,yr".parse::<Race>().expect("to parse");

    assert_eq!(result, expected);
}

#[test]
fn fata_morgana_retreats_a_camel_when_it_lands() {
    let race = "r,-,y".parse::<Race>().expect("to parse");
    let result = race.perform(Roll::new(Camel::Red, Face::One));
    let expected = "r,-,y".parse::<Race>().expect("to parse");

    assert_eq!(result, expected);
}

#[test]
fn dice_can_be_parsed() {
    let actual = "ryg".parse::<Dice>().expect("to parse");
    let expected = Dice::from_camels(vec![Camel::Red, Camel::Yellow, Camel::Green]);

    assert_eq!(actual, expected);
}

#[test]
fn races_have_winners_runner_ups_and_losers() {
    let race = "r,y,g".parse::<Race>().expect("to parse");
    let winner = race.winner();
    let runner_up = race.runner_up();
    let loser = race.loser();

    assert_eq!(winner, Some(Camel::Green));
    assert_eq!(runner_up, Some(Camel::Yellow));
    assert_eq!(loser, Some(Camel::Red));
}

#[test]
fn parsing_rejects_a_symbol_that_is_no_marker() {
    let left = "r|y".parse::<Race>();
    let right = Err(RaceParseError::NotAMarker(NotAMarker::But("|".to_owned())));

    assert_eq!(left, right);
}

#[test]
fn dice_reject_a_symbol_that_is_no_marker() {
    let left = "x".parse::<Dice>();
    let right = Err(NoDice::NotAMarker(NotAMarker::But("x".to_owned())));

    assert_eq!(left, right);
}

#[test]
fn dice_reject_a_marker_that_is_no_camel() {
    let left = "r+".parse::<Dice>();
    let right = Err(NoDice::NotACamel);

    assert_eq!(left, right);
}

#[test]
fn normalization_is_idempotent() {
    let once = ",,r,,y,".parse::<Race>().expect("to parse");
    let twice = Race::from_markers(once.markers());

    assert_eq!(once, twice);
}

#[test]
fn roll_of_absent_camel_changes_nothing() {
    let race = "r,y".parse::<Race>().expect("to parse");
    let result = race.perform(Roll::new(Camel::Green, Face::Two));

    assert_eq!(result, race);
}

#[test]
fn ranking_is_exclusive() {
    let race = "r,y,g".parse::<Race>().expect("to parse");
    let winner = race.winner().expect("a winner");
    let runner_up = race.runner_up().expect("a runner up");
    let loser = race.loser().expect("a loser");

    assert_ne!(winner, runner_up);
    assert_ne!(winner, loser);
    assert_ne!(runner_up, loser);
}

#[test]
fn single_camel_has_no_runner_up_or_loser() {
    let race = "r".parse::<Race>().expect("to parse");

    assert_eq!(race.winner(), Some(Camel::Red));
    assert_eq!(race.runner_up(), None);
    assert_eq!(race.loser(), None);
}

#[test]
fn faces_list_their_step_counts() {
    let faces = Face::values();

    assert_eq!(faces, vec![Face::One, Face::Two, Face::Three]);
    assert_eq!(Face::One.steps(), 1);
    assert_eq!(Face::Two.steps(), 2);
    assert_eq!(Face::Three.steps(), 3);
}

#[test]
fn the_default_dice_hold_every_camel_once() {
    let pool = Dice::default();
    let expected = Dice::from_camels(vec![
        Camel::Red,
        Camel::Orange,
        Camel::Yellow,
        Camel::Green,
        Camel::White,
    ]);

    assert_eq!(pool, expected);
    assert_eq!(pool.len(), 5);
}

#[test]
fn removing_a_die_leaves_the_original_pool_untouched() {
    let pool = Dice::default();
    let reduced = pool.remove(Camel::Red);
    let expected = Dice::from_camels(vec![
        Camel::Orange,
        Camel::Yellow,
        Camel::Green,
        Camel::White,
    ]);

    assert_eq!(reduced, expected);
    assert_eq!(pool.len(), 5);
    assert_eq!(reduced.len(), 4);
}

#[test]
fn repeated_dice_are_recorded_once() {
    let actual = "rryrr".parse::<Dice>().expect("to parse");
    let expected = Dice::from_camels(vec![Camel::Red, Camel::Yellow]);

    assert_eq!(actual, expected);
}

#[test]
fn a_stack_lands_on_top_of_another_stack() {
    let race = "rg,y".parse::<Race>().expect("to parse");
    let result = race.perform(Roll::new(Camel::Red, Face::One));
    let expected = "yrg".parse::<Race>().expect("to parse");

    assert_eq!(result, expected);
}

#[test]
fn a_fata_morgana_puts_the_stack_underneath() {
    let race = "r,g,-,y".parse::<Race>().expect("to parse");
    let result = race.perform(Roll::new(Camel::Red, Face::Two));
    let expected = "rg,-,y".parse::<Race>().expect("to parse");

    assert_eq!(result, expected);
}

#[test]
fn a_race_without_camels_is_empty() {
    let race = ",,+,,".parse::<Race>().expect("to parse");

    assert_eq!(race, "".parse::<Race>().expect("to parse"));
    assert_eq!(race.winner(), None);
    assert_eq!(race.runner_up(), None);
    assert_eq!(race.loser(), None);
}

#[test]
fn markers_can_be_parsed_one_symbol_at_a_time() {
    assert_eq!("r".parse::<Marker>(), Ok(Marker::Camel(Camel::Red)));
    assert_eq!(",".parse::<Marker>(), Ok(Marker::Divider));
    assert_eq!("+".parse::<Marker>(), Ok(Marker::Oasis));
    assert_eq!("-".parse::<Marker>(), Ok(Marker::FataMorgana));
    assert_eq!("|".parse::<Marker>(), Err(NotAMarker::But("|".to_owned())));
    assert_eq!("ry".parse::<Marker>(), Err(NotAMarker::But("ry".to_owned())));
}
