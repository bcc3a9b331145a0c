use takoyaki::board::load_board_from_lines;
use takoyaki::board::Board;
use takoyaki::card::{load_card_from_lines, Card, CardPosition};
use takoyaki::game::{Action, PlayerId, Rotation};
use takoyaki::state::{is_valid_action, update_state, State};



fn new_test_state(
    lines: &[&str],
    turn: i32,
    player_special_count: i32,
    opponent_special_count: i32,
    player_consumed_cards: Vec<u32>,
    opponent_consumed_cards: Vec<u32>,
) -> State {
    State::new(
        new_test_board(lines),
        turn,
        player_special_count,
        opponent_special_count,
        player_consumed_cards,
        opponent_consumed_cards,
    )
}

fn new_test_board(lines: &[&str]) -> Board {
    load_board_from_lines(String::from("test board"), lines)
}

fn new_test_card(lines: &[&str]) -> Card {
    // Using a huge special cost to prevent test codes accidentally
    // use a special attack.
    new_test_card_with_special_cost(lines, 42)
}

fn new_test_card_with_special_cost(lines: &[&str], special_cost: i32) -> Card {
    new_test_card_impl(lines, 42, special_cost)
}

fn new_test_card_impl(lines: &[&str], id: u32, special_cost: i32) -> Card {
    let lines: Vec<String> = lines.iter().map(|s| String::from(*s)).collect();
    let cell_cnt: i32 = lines
        .iter()
        .map(|line| {
            line.as_bytes()
                .iter()
                .filter(|&ch| *ch == b'=' || *ch == b'*')
                .count() as i32
        })
        .sum();
    load_card_from_lines(
        id,
        String::from("test card"),
        cell_cnt,
        special_cost,
        &lines,
    )
}

#[test]
fn state_test_conflict() {

    
    let state = new_test_state(
        &[
        "########",
        "#...P..#",
        "########"
    ], 0, 0, 0, vec![], vec![]);
    let card = new_test_card(&["==="]);

    // NO conflict
    assert!(is_valid_action(
        &state,
        PlayerId::South,
        &Action::Put(
            card.clone(),
            CardPosition {
                x: 1,
                y: 1,
                rotation: Rotation::Up,
            }
        )
    ));

    // DO conflict with wall
    assert!(!is_valid_action(
        &state,
        PlayerId::South,
        &Action::Put(
            card.clone(),
            CardPosition {
                x: 5,
                y: 1,
                rotation: Rotation::Up,
            }
        )
    ));

    // DO conflict with ink
    assert!(!is_valid_action(
        &state,
        PlayerId::South,
        &Action::Put(
            card,
            CardPosition {
                x: 2,
                y: 1,
                rotation: Rotation::Up,
            }
        )
    ));
}

#[test]
fn state_test_conflict_with_opponents_ink() {

    
    let state = new_test_state(
        &[
        "######",
        "#P.o.#",
        "######"
    ], 0, 0, 0, vec![], vec![]);
    let card = new_test_card(&["==="]);

    assert!(!is_valid_action(
        &state,
        PlayerId::South,
        &Action::Put(
            card,
            CardPosition {
                x: 1,
                y: 1,
                rotation: Rotation::Up,
            }
        )
    ));
}

#[test]
fn state_test_touching_point() {

    
    let state = new_test_state(
        &[
        "########",
        "#.....P#",
        "########"
    ], 0, 0, 0, vec![], vec![]);
    let card = new_test_card(&["==="]);

    // NO touching point
    assert!(!is_valid_action(
        &state,
        PlayerId::South,
        &Action::Put(
            card.clone(),
            CardPosition {
                x: 1,
                y: 1,
                rotation: Rotation::Up,
            }
        )
    ));

    // touch!
    assert!(is_valid_action(
        &state,
        PlayerId::South,
        &Action::Put(
            card,
            CardPosition {
                x: 3,
                y: 1,
                rotation: Rotation::Up,
            }
        )
    ));
}

#[test]
fn state_test_rotation() {

    
    let state = new_test_state(
        &[
        "#########",
        "####..###",
        "####.####",
        "#.##.####",
        "#...P...#",
        "####.##.#",
        "####.####",
        "###..####",
        "#########",
    ], 0, 0, 0, vec![], vec![]);
    
    let card = new_test_card(&[
        "===",
        "  ="
    ]);

    assert!(is_valid_action(
        &state,
        PlayerId::South,
        &Action::Put(
            card.clone(),
            CardPosition {
                x: 5,
                y: 4,
                rotation: Rotation::Up,
            }
        )
    ));
    assert!(is_valid_action(
        &state,
        PlayerId::South,
        &Action::Put(
            card.clone(),
            CardPosition {
                x: 3,
                y: 5,
                rotation: Rotation::Right,
            }
        )
    ));
    assert!(is_valid_action(
        &state,
        PlayerId::South,
        &Action::Put(
            card.clone(),
            CardPosition {
                x: 1,
                y: 3,
                rotation: Rotation::Down,
            }
        )
    ));
    assert!(is_valid_action(
        &state,
        PlayerId::South,
        &Action::Put(
            card,
            CardPosition {
                x: 4,
                y: 1,
                rotation: Rotation::Left,
            }
        )
    ));
}

#[test]
fn state_test_special() {

    
    let card = new_test_card_with_special_cost(&[
        "===",
    ], 2);

    
    let state = new_test_state(
        &[
        "###",
        "#.#",
        "#.#",
        "#.#",
        "#p#",
        "###",
    ],
    0,
    2, // player's special points
    0,
    vec![],
    vec![]);
    // Special attack can't be triggered without special ink on the board.
    assert!(!is_valid_action(
        &state,
        PlayerId::South,
        &Action::Special(
            card.clone(),
            CardPosition {
                x: 1,
                y: 1,
                rotation: Rotation::Right,
            }
        )
    ));

    
    let state = new_test_state(
        &[
        "###",
        "#.#",
        "#.#",
        "#.#",
        "#P#",
        "###",
    ],
    0,
    2,  // player's special points
    0,
    vec![],
    vec![]);
    // Now we have a special ink.
    assert!(is_valid_action(
        &state,
        PlayerId::South,
        &Action::Special(
            card.clone(),
            CardPosition {
                x: 1,
                y: 1,
                rotation: Rotation::Right,
            }
        )
    ));

    
    let state = new_test_state(
        &[
        "###",
        "#o#",
        "#p#",
        "#.#",
        "#P#",
        "###",
    ],
    0,
    2,
    0, vec![], vec![]);
    // Special attack can overdraw other ink
    assert!(is_valid_action(
        &state,
        PlayerId::South,
        &Action::Special(
            card.clone(),
            CardPosition {
                x: 1,
                y: 1,
                rotation: Rotation::Right,
            }
        )
    ));
    assert!(!is_valid_action(
        &state,
        PlayerId::South,
        &Action::Put(
            card.clone(),
            CardPosition {
                x: 1,
                y: 1,
                rotation: Rotation::Right,
            }
        )
    ));

    
    let state = new_test_state(
        &[
        "###",
        "#P#",
        "#.#",
        "#.#",
        "#P#",
        "###",
    ],
    0,
    2,
    0, vec![], vec![]);
    // Special attack can NOT overdraw player's SPECIAL ink too
    assert!(!is_valid_action(
        &state,
        PlayerId::South,
        &Action::Special(
            card,
            CardPosition {
                x: 1,
                y: 1,
                rotation: Rotation::Right,
            }
        )
    ));
}

#[test]
fn state_test_special_not_enough_points() {

    // this card requires 2 special points to use.
    
    let card = new_test_card_with_special_cost(&[
        "===",
    ], 2);

    
    let state = new_test_state(
        &[
        "###",
        "#.#",
        "#.#",
        "#.#",
        "#P#",
        "###",
    ],
    0,
    2,  // player's special points
    0, vec![], vec![]);
    // Now we have a special ink.
    assert!(is_valid_action(
        &state,
        PlayerId::South,
        &Action::Special(
            card.clone(),
            CardPosition {
                x: 1,
                y: 1,
                rotation: Rotation::Right,
            }
        )
    ));

    
    let state = new_test_state(
        &[
        "###",
        "#.#",
        "#.#",
        "#.#",
        "#P#",
        "###",
    ],
    0,
    1,  // player's special points is NOT enough.
    0, vec![], vec![]);
    assert!(!is_valid_action(
        &state,
        PlayerId::South,
        &Action::Special(
            card,
            CardPosition {
                x: 1,
                y: 1,
                rotation: Rotation::Right,
            }
        )
    ));
}

#[test]
fn state_test_update_state() {

    
    let mut state = new_test_state(
        &[
        "#######",
        "#..O..#",
        "#.....#",
        "#..P..#",
        "#######"],
        0,
        0,
        0, vec![], vec![]
    );
    
    let card = new_test_card(&[
        "=",
        "*",
        "="
    ]);

    update_state(
        &mut state,
        &Action::Put(
            card.clone(),
            CardPosition {
                x: 2,
                y: 1,
                rotation: Rotation::Up,
            },
        ),
        &Action::Put(
            card,
            CardPosition {
                x: 4,
                y: 1,
                rotation: Rotation::Up,
            },
        ),
    );

    
    let expected = new_test_state(
        &[
        "#######",
        "#.pOo.#",
        "#.P.O.#",
        "#.pPo.#",
        "#######"],
        1,
        0,
        0, vec![42], vec![42]
    );
    assert_eq!(
        state, expected,
        "\nActual:\n{}\nExpected:\n{}",
        state.to_text(), expected.to_text()
    );
}

#[test]
fn state_test_update_state_conflict() {

    
    let mut state = new_test_state(
        &[
        "#######",
        "#..O..#",
        "#.....#",
        "#..P..#",
        "#######"],
        0,
        0,
        0, vec![], vec![]
    );
    
    let card = new_test_card(&[
        "=*=",
    ]);

    update_state(
        &mut state,
        &Action::Put(
            card.clone(),
            CardPosition {
                x: 1,
                y: 2,
                rotation: Rotation::Up,
            },
        ),
        &Action::Put(
            card,
            CardPosition {
                x: 3,
                y: 2,
                rotation: Rotation::Up,
            },
        ),
    );

    
    let expected = new_test_state(
        &[
        "#######",
        "#..O..#",
        "#pP#Oo#",
        "#..P..#",
        "#######"],
        1,
        0,
        0, vec![42], vec![42]
    );
    assert_eq!(
        state, expected,
        "\nActual:\n{}\nExpected:\n{}",
        state.to_text(), expected.to_text()
    );
}

#[test]
fn state_test_update_state_prioritize_smaller() {

    
    let mut state = new_test_state(
        &[
        "#######",
        "#..O..#",
        "#.....#",
        "#..P..#",
        "#######"],
        0,
        0,
        0, vec![], vec![]
    );
    
    let card = new_test_card(&[
        "=*=",
    ]);
    
    let card_large = new_test_card(&[
        "=*=",
        "  =",
    ]);

    update_state(
        &mut state,
        &Action::Put(
            card,
            CardPosition {
                x: 1,
                y: 2,
                rotation: Rotation::Up,
            },
        ),
        &Action::Put(
            card_large,
            CardPosition {
                x: 3,
                y: 2,
                rotation: Rotation::Up,
            },
        ),
    );

    // smaller card should be prioritized
    
    let expected = new_test_state(
        &[
        "#######",
        "#..O..#",
        "#pPpOo#",
        "#..P.o#",
        "#######"],
        1,
        0,
        0, vec![42], vec![42]
    );
    assert_eq!(
        state, expected,
        "\nActual:\n{}\nExpected:\n{}",
        state.to_text(), expected.to_text()
    );
}

#[test]
fn state_test_update_state_prioritize_special_ink() {

    
    let mut state = new_test_state(
        &[
        "#######",
        "#..O..#",
        "#.....#",
        "#..P..#",
        "#######"],
        0,
        0,
        0, vec![], vec![]
    );
    
    let card = new_test_card(&[
        "=*=",
    ]);
    
    let card_large = new_test_card(&[
        "*==",
        "  =",
    ]);

    update_state(
        &mut state,
        &Action::Put(
            card,
            CardPosition {
                x: 1,
                y: 2,
                rotation: Rotation::Up,
            },
        ),
        &Action::Put(
            card_large,
            CardPosition {
                x: 3,
                y: 2,
                rotation: Rotation::Up,
            },
        ),
    );

    // smaller card should be prioritized
    
    let expected = new_test_state(
        &[
        "#######",
        "#..O..#",
        "#pPOoo#",
        "#..P.o#",
        "#######"],
        1,
        0,
        0, vec![42], vec![42]
    );
    assert_eq!(
        state, expected,
        "\nActual:\n{}\nExpected:\n{}",
        state.to_text(), expected.to_text()
    );
}

#[test]
fn state_test_update_state_special_attack_should_not_be_prioritized() {

    
    let mut state = new_test_state(
        &[
        "#######",
        "#..O..#",
        "#.....#",
        "#..P..#",
        "#######"],
        0,
        0,
        4, vec![], vec![]
    );
    
    let card = new_test_card_with_special_cost(&[
        "=*=",
    ], 1);

    update_state(
        &mut state,
        &Action::Put(
            card.clone(),
            CardPosition {
                x: 1,
                y: 2,
                rotation: Rotation::Up,
            },
        ),
        &Action::Special(
            card,
            CardPosition {
                x: 3,
                y: 2,
                rotation: Rotation::Up,
            },
        ),
    );

    // Opponent used special attack.
    // The conflicted cell should become a wall.
    
    let expected = new_test_state(
        &[
        "#######",
        "#..O..#",
        "#pP#Oo#",
        "#..P..#",
        "#######"],
        1,
        0,
        3, vec![42], vec![42]
    );
    assert_eq!(
        state, expected,
        "\nActual:\n{}\nExpected:\n{}",
        state.to_text(), expected.to_text()
    );
}

#[test]
fn state_test_update_state_pass() {

    
    let mut state = new_test_state(
        &[
        "#######",
        "#..O..#",
        "#.....#",
        "#..P..#",
        "#######"],
        0,
        0,
        0, vec![], vec![]
    );
    
    let card = new_test_card(&[
        "=*=",
    ]);

    update_state(
        &mut state,
        &Action::Put(
            card.clone(),
            CardPosition {
                x: 1,
                y: 2,
                rotation: Rotation::Up,
            },
        ),
        &Action::Pass(card),
    );

    // Opponent used special attack.
    // The conflicted cell should become a wall.
    
    let expected = new_test_state(
        &[
        "#######",
        "#..O..#",
        "#pPp..#",
        "#..P..#",
        "#######"],
        1,
        0,
        1, // Passed player earned a one special point.
        vec![42], vec![42]
    );
    assert_eq!(
        state, expected,
        "\nActual:\n{}\nExpected:\n{}",
        state.to_text(), expected.to_text()
    );
}

#[test]
fn state_test_update_state_surround_special_ink() {

    
    let mut state = new_test_state(
        &[
        "#######",
        "#..O..#",
        "#.....#",
        "#..P..#",
        "#######"],
        0,
        0,
        0, vec![], vec![]
    );
    
    let card = new_test_card(&[
        "= =",
        "===",
        "= =",
    ]);

    update_state(
        &mut state,
        &Action::Put(
            card.clone(),
            CardPosition {
                x: 2,
                y: 1,
                rotation: Rotation::Up,
            },
        ),
        &Action::Pass(card),
    );

    // Opponent used special attack.
    // The conflicted cell should become a wall.
    
    let expected = new_test_state(
        &[
        "#######",
        "#.pOp.#",
        "#.ppp.#",
        "#.pPp.#",
        "#######"],
        1,
        1, // Player has a surrounded special ink @ [33]
        2, // Passed opponent earned one more special point.
        vec![42], vec![42]
    );
    assert_eq!(
        state, expected,
        "\nActual:\n{}\nExpected:\n{}",
        state.to_text(), expected.to_text()
    );
}

#[test]
fn state_test_update_state_new_special_ink_surrounded() {

    
    let mut state = new_test_state(
        &[
        "#######",
        "#..O..#",
        "#.....#",
        "#..P..#",
        "#######"],
        0,
        0,
        0, vec![], vec![]
    );
    
    let card = new_test_card(&[
        " *",
        " =",
        "==",
    ]);
    
    let card2 = new_test_card(&[
        "=",
        "==",
    ]);

    update_state(
        &mut state,
        &Action::Put(
            card,
            CardPosition {
                x: 4,
                y: 1,
                rotation: Rotation::Up,
            },
        ),
        &Action::Put(
            card2,
            CardPosition {
                x: 4,
                y: 1,
                rotation: Rotation::Up,
            },
        ),
    );

    // Opponent used special attack.
    // The conflicted cell should become a wall.
    
    let expected = new_test_state(
        &[
        "#######",
        "#..OoP#",
        "#...oo#",
        "#..Ppp#",
        "#######"],
        1,
        1, // Player has a surrounded special ink @ [33]
        0, vec![42], vec![42]
    );
    assert_eq!(
        state, expected,
        "\nActual:\n{}\nExpected:\n{}",
        state.to_text(), expected.to_text()
    );
}
