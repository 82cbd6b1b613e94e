use tiny_towns::board::Board;
use tiny_towns::building::Building;
use tiny_towns::pattern::Resource;

#[test]
fn test_rotations_easy() {
    assert_eq!(Building::Well.orientations().len(), 4);
    assert_eq!(Building::TradingPost.orientations().len(), 8);
}

#[test]
fn theater_has_four_orientations() {
    // the theater footprint is symmetric under the left-right mirror only
    assert_eq!(Building::Theater.orientations().len(), 4);
}

#[test]
fn orientation_counts_divide_eight() {
    for b in [Building::Well, Building::Theater, Building::TradingPost] {
        let n = b.orientations().len();
        assert!(n == 1 || n == 2 || n == 4 || n == 8);
    }
}

#[test]
fn orientations_contain_the_canonical_pattern() {
    for b in [Building::Well, Building::Theater, Building::TradingPost] {
        let canonical = b.pattern();
        let pats = b.orientations();
        assert!(pats.iter().any(|p| p.same_grid(&canonical)));
    }
}

#[test]
fn orientations_are_pairwise_distinct() {
    for b in [Building::Well, Building::Theater, Building::TradingPost] {
        let pats = b.orientations();
        for i in 0..pats.len() {
            for j in 0..pats.len() {
                if i != j {
                    assert!(!pats[i].same_grid(&pats[j]));
                }
            }
        }
    }
}

#[test]
fn orientations_keep_the_cell_count() {
    for b in [Building::Well, Building::Theater, Building::TradingPost] {
        let canonical = b.pattern();
        let cells = canonical.width as usize * canonical.height as usize;
        for p in b.orientations() {
            assert_eq!(p.width as usize * p.height as usize, cells);
        }
    }
}

#[test]
fn well_orientations_are_the_four_dominoes() {
    // [Wd St] can lie in two horizontal and two vertical ways
    let pats = Building::Well.orientations();
    assert_eq!(pats.len(), 4);
    let mut horizontal = 0;
    let mut vertical = 0;
    for p in &pats {
        if p.width == 2 && p.height == 1 {
            horizontal += 1;
        }
        if p.width == 1 && p.height == 2 {
            vertical += 1;
        }
    }
    assert_eq!(horizontal, 2);
    assert_eq!(vertical, 2);
}

#[test]
fn template_counts_follow_fitting_anchors() {
    // a 1x2 domino fits 3 * 4 anchors in each of its 4 orientations;
    // a 2x3 footprint fits 2 * 3 anchors in each of its 8 (or 4) orientations
    assert_eq!(Building::Well.placement_templates().len(), 48);
    assert_eq!(Building::TradingPost.placement_templates().len(), 48);
    assert_eq!(Building::Theater.placement_templates().len(), 24);
}

#[test]
fn first_well_template_is_the_canonical_shape_at_the_origin() {
    let templates = Building::Well.placement_templates();
    let expected: Vec<((u8, u8), Option<Resource>)> =
        vec![((0, 0), Some(Resource::Wood)), ((1, 0), Some(Resource::Stone))];
    assert!(templates.iter().any(|t| *t == expected));
}

#[test]
fn template_coordinates_stay_on_the_board() {
    for b in [Building::Well, Building::Theater, Building::TradingPost] {
        for t in b.placement_templates() {
            for ((x, y), _) in t {
                assert!(x < 4 && y < 4);
            }
        }
    }
}

#[test]
fn every_template_places_cleanly_on_an_empty_board() {
    for b in [Building::Well, Building::Theater, Building::TradingPost] {
        for t in b.placement_templates() {
            let mut board = Board::new();
            for ((x, y), cell) in t {
                if let Some(resource) = cell {
                    assert_eq!(board.place_piece(x, y, resource), Ok(()));
                }
            }
        }
    }
}

#[test]
fn templates_are_pairwise_distinct() {
    let templates = Building::Well.placement_templates();
    for i in 0..templates.len() {
        for j in 0..templates.len() {
            if i != j {
                assert!(templates[i] != templates[j]);
            }
        }
    }
}

#[test]
fn theater_pattern_matches_its_blueprint() {
    let p = Building::Theater.pattern();
    assert_eq!(p.width, 3);
    assert_eq!(p.height, 2);
    assert!(p.coords[0] == vec![None, Some(Resource::Stone), None]);
    assert!(
        p.coords[1] == vec![Some(Resource::Wood), Some(Resource::Glass), Some(Resource::Wood)]
    );
}
