//! Tests for the oracle and the game tree it enumerates.

use camel_up::camel::{Camel, Dice, Race};
use camel_up::fraction::Fraction;
use camel_up::oracle::project;
use camel_up::tree::{LeafVisitor, Tree};

#[test]
fn should_have_a_clear_winner() {
    let race = "r,y".parse::<Race>().expect("to parse");
    let dice = "r".parse::<Dice>().expect("to parse");
    let chances = project(&race, &dice);

    assert_eq!(chances.winner.get(&Camel::Red), Fraction::one());
}

#[test]
fn should_determine_chances() {
    let race = "r,,y".parse::<Race>().expect("to parse");
    let dice = "r".parse::<Dice>().expect("to parse");
    let chances = project(&race, &dice);

    assert_eq!(chances.winner.get(&Camel::Red), Fraction::new(2, 3));
    assert_eq!(chances.winner.get(&Camel::Yellow), Fraction::new(1, 3));
}

#[test]
fn an_absent_camel_has_chance_zero() {
    let race = "r,y".parse::<Race>().expect("to parse");
    let dice = "r".parse::<Dice>().expect("to parse");
    let chances = project(&race, &dice);

    assert_eq!(chances.winner.get(&Camel::Green), Fraction::zero());
    assert_eq!(chances.loser.get(&Camel::White), Fraction::zero());
}

#[test]
fn winner_chances_sum_to_one() {
    let race = "r,y".parse::<Race>().expect("to parse");
    let dice = "ry".parse::<Dice>().expect("to parse");
    let chances = project(&race, &dice);

    let mut sum = Fraction::zero();
    for camel in [
        Camel::Red,
        Camel::Orange,
        Camel::Yellow,
        Camel::Green,
        Camel::White,
    ] {
        sum = sum.add(chances.winner.get(&camel));
    }

    assert_eq!(sum, Fraction::one());
}

#[test]
fn the_camel_behind_is_runner_up_and_loser_at_once() {
    let race = "r,y".parse::<Race>().expect("to parse");
    let dice = "r".parse::<Dice>().expect("to parse");
    let chances = project(&race, &dice);

    assert_eq!(chances.runner_up.get(&Camel::Yellow), Fraction::one());
    assert_eq!(chances.runner_up.get(&Camel::Red), Fraction::zero());
    assert_eq!(chances.loser.get(&Camel::Yellow), Fraction::one());
    assert_eq!(chances.loser.get(&Camel::Red), Fraction::zero());
}

#[test]
fn a_full_pool_enumerates_every_draw_order() {
    let race = "r,o,y,g,w".parse::<Race>().expect("to parse");
    let dice = "roygw".parse::<Dice>().expect("to parse");
    let tree = {
        let mut tree = Tree::singleton(race);
        tree.expand(&dice);
        tree
    };

    assert_eq!(tree.leaf_list().len(), 29160);
}

struct LeafTally {
    seen: usize,
}

impl LeafVisitor for LeafTally {
    fn visit(&mut self, _race: &Race) {
        self.seen += 1;
    }
}

#[test]
fn every_leaf_is_visited_exactly_once() {
    let race = "r,y".parse::<Race>().expect("to parse");
    let dice = "ry".parse::<Dice>().expect("to parse");
    let mut tree = Tree::singleton(race);
    tree.expand(&dice);

    let mut tally = LeafTally { seen: 0 };
    tree.visit_leaves(&mut tally);

    assert_eq!(tally.seen, 18);
    assert_eq!(tree.leaf_list().len(), 18);
}

#[test]
fn distribution_lists_only_reached_camels() {
    let race = "r,y".parse::<Race>().expect("to parse");
    let dice = "r".parse::<Dice>().expect("to parse");
    let chances = project(&race, &dice);

    for (camel, chance) in chances.winner.values() {
        assert!(*camel == Camel::Red || *camel == Camel::Yellow);
        assert!(*chance <= Fraction::one());
    }
}
