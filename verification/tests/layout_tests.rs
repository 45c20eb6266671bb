use tourvia::export_layout::{elimination_layout, round_robin_layout, rr_card_position, rr_rows_height, tree_column_x, tree_slot_y};

#[test]
fn a_four_player_bracket_picture() {
    let l = elimination_layout(2, 0, 2, 0, 0, false, false);
    assert_eq!((l.canvas_width, l.canvas_height), (900, 500));
    assert_eq!((l.origin_y, l.upper_height, l.content_height), (130, 260, 260));
    assert_eq!(l.lower_origin_y, 410);
    assert_eq!((l.grand_final_x, l.grand_final_y), (580, 170));
    assert_eq!((l.third_place_x, l.third_place_y), (320, 320));
}

#[test]
fn a_double_elimination_picture_with_a_champion() {
    let l = elimination_layout(4, 2, 3, 4, 1, false, true);
    assert_eq!((l.canvas_width, l.canvas_height), (1480, 1000));
    assert_eq!((l.origin_y, l.upper_height, l.content_height), (190, 440, 750));
    assert_eq!(l.lower_origin_y, 650);
    assert_eq!((l.grand_final_x, l.grand_final_y), (1100, 475));
    assert_eq!((l.third_place_x, l.third_place_y), (840, 470));
}

#[test]
fn a_third_place_match_can_lengthen_the_picture() {
    let l = elimination_layout(1, 0, 1, 0, 0, true, false);
    assert_eq!(l.upper_height, 170);
    assert_eq!(l.content_height, 285);
    assert_eq!(l.canvas_height, 500);
}

#[test]
fn match_slots_spread_over_the_first_round() {
    assert_eq!(tree_slot_y(100, 4, 4, 0), 155);
    assert_eq!(tree_slot_y(100, 4, 2, 1), 380);
    assert_eq!(tree_slot_y(100, 4, 1, 0), 290);
    assert_eq!(tree_slot_y(0, 0, 1, 0), 10);
    assert_eq!(tree_column_x(60, 0), 90);
    assert_eq!(tree_column_x(60, 2), 610);
}

#[test]
fn round_robin_pictures() {
    assert_eq!(round_robin_layout(&vec![2, 2, 2], false), (130, 948, 658));
    assert_eq!(round_robin_layout(&vec![1], true), (190, 948, 406));
    assert_eq!(round_robin_layout(&vec![], false), (130, 948, 400));
    assert_eq!(rr_card_position(200, 4), (336, 286));
    assert_eq!(rr_card_position(0, 0), (60, 0));
    assert_eq!(rr_rows_height(4), 192);
    assert_eq!(rr_rows_height(0), 20);
}
