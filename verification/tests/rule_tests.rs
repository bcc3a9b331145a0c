use takoyaki::board::{board_lines_ok, load_board_from_lines, Board};
use takoyaki::card::{card_lines_ok, load_card_from_lines, Card, CardPosition};
use takoyaki::game::{PlayerId, Rotation};
use takoyaki::state::{has_conflict, has_touching_point};

fn test_board(lines: &[&str]) -> Board {
    load_board_from_lines(String::from("test board"), lines)
}

fn test_card(lines: &[&str]) -> Card {
    let lines: Vec<String> = lines.iter().map(|s| String::from(*s)).collect();
    let cell_cnt: i32 = lines
        .iter()
        .map(|line| line.as_bytes().iter().filter(|&ch| *ch == b'=' || *ch == b'*').count() as i32)
        .sum();
    load_card_from_lines(42, String::from("test card"), cell_cnt, 42, &lines)
}





#[test]
fn rule_test_conflict() {

    
    let board = test_board(&[
        "#####",
        "#...#",
        "#####"
    ]);
    let card = test_card(&["==="]);

    // NO conflict
    assert!(!has_conflict(
        &board,
        &card,
        &CardPosition {
            x: 1,
            y: 1,
            rotation: Rotation::Up,
            
        },
        false,
    ));

    // DO conflict
    assert!(has_conflict(
        &board,
        &card,
        &CardPosition {
            x: 1,
            y: 0,
            rotation: Rotation::Up,
            
        },
        false,
    ));
    assert!(has_conflict(
        &board,
        &card,
        &CardPosition {
            x: 1,
            y: 2,
            rotation: Rotation::Up,
            
        },
        false,
    ));
    assert!(has_conflict(
        &board,
        &card,
        &CardPosition {
            x: 0,
            y: 1,
            rotation: Rotation::Up,
            
        },
        false,
    ));
}

#[test]
fn test_conflict_with_rotation() {

    
    let board = test_board(&[
        "#####",
        "#...#",
        "###.#",
        "###.#",
        "#####",
        "###.#",
        "###.#",
        "#...#",
        "#####",
        "#.###",
        "#.###",
        "#...#",
        "#####",
        "#...#",
        "#.###",
        "#.###",
        "#####",
    ]);
    
    let card = test_card(&[
        "===",
        "  =",
        "  =",
    ]);

    // NO conflict
    assert!(!has_conflict(
        &board,
        &card,
        &CardPosition {
            x: 1,
            y: 1,
            rotation: Rotation::Up,
            
        },
        false,
    ));
    assert!(!has_conflict(
        &board,
        &card,
        &CardPosition {
            x: 1,
            y: 5,
            rotation: Rotation::Right,
            
        },
        false,
    ));
    assert!(!has_conflict(
        &board,
        &card,
        &CardPosition {
            x: 1,
            y: 9,
            rotation: Rotation::Down,
            
        },
        false,
    ));
    assert!(!has_conflict(
        &board,
        &card,
        &CardPosition {
            x: 1,
            y: 13,
            rotation: Rotation::Left,
            
        },
        false,
    ));
}

#[test]
fn test_conflict_out_side_of_board() {

    
    let board = test_board(&[
        "#####",
        "##.##",
        "#...#",
        "##.##",
        "#####"
    ]);
    
    let card = test_card(&[
        "=== ="
    ]);

    assert!(has_conflict(
        &board,
        &card,
        &CardPosition {
            x: 1,
            y: 1,
            rotation: Rotation::Up,
            
        },
        false,
    ));
    assert!(has_conflict(
        &board,
        &card,
        &CardPosition {
            x: 2,
            y: 1,
            rotation: Rotation::Right,
            
        },
        false,
    ));
}

#[test]
fn test_conflict_with_ink() {

    
    let board = test_board(&[
        "#####",
        "##o##",
        "#p..#",
        "##.##",
        "#####"
    ]);
    
    let card = test_card(&[
        "==="
    ]);

    assert!(has_conflict(
        &board,
        &card,
        &CardPosition {
            x: 1,
            y: 2,
            rotation: Rotation::Up,
            
        },
        false,
    ));
    assert!(!has_conflict(
        &board,
        &card,
        &CardPosition {
            x: 1,
            y: 2,
            rotation: Rotation::Up,
            
        },
        true,
    ));

    assert!(has_conflict(
        &board,
        &card,
        &CardPosition {
            x: 2,
            y: 1,
            rotation: Rotation::Right,
            
        },
        false,
    ));
    assert!(!has_conflict(
        &board,
        &card,
        &CardPosition {
            x: 2,
            y: 1,
            rotation: Rotation::Right,
            
        },
        true,
    ));
}

#[test]
fn test_conflict_with_special() {

    
    let board = test_board(&[
        "#####",
        "##O##",
        "#P..#",
        "##.##",
        "#####"
    ]);
    
    let card = test_card(&[
        "==="
    ]);

    assert!(has_conflict(
        &board,
        &card,
        &CardPosition {
            x: 1,
            y: 2,
            rotation: Rotation::Up,
            
        },
        false,
    ));
    assert!(has_conflict(
        &board,
        &card,
        &CardPosition {
            x: 1,
            y: 2,
            rotation: Rotation::Up,
            
        },
        true,
    ));

    assert!(has_conflict(
        &board,
        &card,
        &CardPosition {
            x: 2,
            y: 1,
            rotation: Rotation::Right,
            
        },
        false,
    ));
    assert!(has_conflict(
        &board,
        &card,
        &CardPosition {
            x: 2,
            y: 1,
            rotation: Rotation::Right,
            
        },
        true,
    ));
}

#[test]
fn test_touching_with_ink() {

    
    let board = test_board(&[
        "#####",
        "#p..#",
        "#...#",
        "#..o#",
        "#####"
    ]);
    let card = test_card(&["="]);

    assert!(has_touching_point(
        &board,
        PlayerId::South,
        &card,
        &CardPosition {
            x: 2,
            y: 1,
            rotation: Rotation::Up,
            
        },
        false,
    ));
    assert!(has_touching_point(
        &board,
        PlayerId::South,
        &card,
        &CardPosition {
            x: 1,
            y: 2,
            rotation: Rotation::Up,
            
        },
        false,
    ));
    assert!(has_touching_point(
        &board,
        PlayerId::South,
        &card,
        &CardPosition {
            x: 2,
            y: 2,
            rotation: Rotation::Up,
            
        },
        false,
    ));

    // Opponent's ink shouldn't work
    assert!(!has_touching_point(
        &board,
        PlayerId::South,
        &card,
        &CardPosition {
            x: 3,
            y: 2,
            rotation: Rotation::Up,
            
        },
        false,
    ));
    assert!(!has_touching_point(
        &board,
        PlayerId::South,
        &card,
        &CardPosition {
            x: 2,
            y: 3,
            rotation: Rotation::Up,
            
        },
        false,
    ));
}

#[test]
fn board_lines_ok_accepts_only_board_characters() {
    assert!(board_lines_ok(&["#####", "#.O##", "#..P#", "####"]));
    assert!(board_lines_ok(&["p o"]));
    assert!(!board_lines_ok(&[]));
    assert!(!board_lines_ok(&["#####", "#.x.#"]));
    assert!(!board_lines_ok(&["#é#"]));
}

#[test]
fn card_lines_ok_checks_characters_and_count() {
    let lines: Vec<String> = vec![String::from("="), String::from(" =*")];
    assert!(card_lines_ok(3, &lines));
    assert!(!card_lines_ok(2, &lines));
    assert!(!card_lines_ok(4, &lines));
    let bad: Vec<String> = vec![String::from("=x")];
    assert!(!card_lines_ok(1, &bad));
    let blank: Vec<String> = vec![String::from("   ")];
    assert!(!card_lines_ok(0, &blank));
}
