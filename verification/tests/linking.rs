use epic_drawing_backend::linking::{
    bresenham_line, close_contour, link_components, link_components_with_config, Component,
    LinkConfig,
};

#[test]
fn test_bresenham_line() {
    let line = bresenham_line((0, 0), (3, 3));
    assert_eq!(line, vec![(0, 0), (1, 1), (2, 2), (3, 3)]);
}

#[test]
fn test_link_single_component() {
    let comp = Component {
        points: vec![(0, 0), (1, 1)],
    };
    let result = link_components(vec![comp]);
    assert_eq!(result, vec![(0, 0), (1, 1)]);
}

#[test]
fn test_close_contour() {
    let contour = vec![(0, 0), (3, 0), (3, 3)];
    let closed = close_contour(contour);
    assert!(closed.len() > 3);
    assert_eq!(closed[0], (0, 0));
    assert_eq!(*closed.last().unwrap(), (0, 0));
}

#[test]
fn test_link_with_max_components() {
    let comps = vec![
        Component {
            points: vec![(0, 0), (1, 1), (2, 2)],
        },
        Component {
            points: vec![(10, 10), (11, 11)],
        },
        Component {
            points: vec![(20, 20)],
        },
    ];
    let config = LinkConfig {
        max_components: 2,
        max_link_distance_sq: 0,
    };
    let result = link_components_with_config(comps, config);
    assert!(result.len() < 20);
}

#[test]
fn test_link_with_max_distance() {
    let comps = vec![
        Component {
            points: vec![(0, 0), (1, 1)],
        },
        Component {
            points: vec![(1000, 1000)],
        },
    ];
    let config = LinkConfig {
        max_components: 0,
        max_link_distance_sq: 100,
    };
    let result = link_components_with_config(comps, config);
    assert_eq!(result.len(), 2);
}

#[test]
fn bresenham_shallow_line_steps_by_midpoint() {
    let line = bresenham_line((0, 0), (5, 2));
    assert_eq!(line, vec![(0, 0), (1, 0), (2, 1), (3, 1), (4, 2), (5, 2)]);
}

#[test]
fn bresenham_runs_backwards() {
    let line = bresenham_line((3, 3), (0, 0));
    assert_eq!(line, vec![(3, 3), (2, 2), (1, 1), (0, 0)]);
}

#[test]
fn bresenham_steep_line_has_one_point_per_row() {
    let line = bresenham_line((1, 0), (2, 4));
    assert_eq!(line, vec![(1, 0), (1, 1), (1, 2), (2, 3), (2, 4)]);
}

#[test]
fn bresenham_single_point() {
    assert_eq!(bresenham_line((2, -7), (2, -7)), vec![(2, -7)]);
}

#[test]
fn bresenham_line_shape_law() {
    let from = (-4, 9);
    let to = (13, -2);
    let line = bresenham_line(from, to);
    assert_eq!(line[0], from);
    assert_eq!(*line.last().unwrap(), to);
    for w in line.windows(2) {
        let (a, b) = (w[0], w[1]);
        assert!(a != b);
        assert!((b.0 - a.0).abs() <= 1 && (b.1 - a.1).abs() <= 1);
    }
}

#[test]
fn close_contour_exact_points() {
    let closed = close_contour(vec![(0, 0), (3, 0), (3, 3)]);
    assert_eq!(
        closed,
        vec![(0, 0), (3, 0), (3, 3), (3, 3), (2, 2), (1, 1), (0, 0)]
    );
}

#[test]
fn close_contour_leaves_closed_and_short_contours() {
    let already = vec![(0, 0), (1, 0), (0, 0)];
    assert_eq!(close_contour(already.clone()), already);
    assert_eq!(close_contour(vec![(5, 5)]), vec![(5, 5)]);
    assert_eq!(close_contour(vec![]), vec![]);
}

#[test]
fn close_contour_is_idempotent() {
    let once = close_contour(vec![(2, 1), (7, 1), (7, 6), (4, 9)]);
    let twice = close_contour(once.clone());
    assert_eq!(once, twice);
    assert_eq!(once[0], *once.last().unwrap());
    assert_eq!(&once[..4], &[(2, 1), (7, 1), (7, 6), (4, 9)]);
}

#[test]
fn link_nothing_gives_nothing() {
    assert_eq!(link_components(vec![]), Vec::<(i32, i32)>::new());
}

#[test]
fn link_reverses_stroke_whose_far_end_is_nearer() {
    let comps = vec![
        Component {
            points: vec![(5, 0), (4, 0)],
        },
        Component {
            points: vec![(0, 0), (1, 0), (2, 0)],
        },
    ];
    let result = link_components(comps);
    assert_eq!(
        result,
        vec![(0, 0), (1, 0), (2, 0), (2, 0), (3, 0), (4, 0), (4, 0), (5, 0)]
    );
}

#[test]
fn link_with_max_components_exact() {
    let comps = vec![
        Component {
            points: vec![(0, 0), (1, 1), (2, 2)],
        },
        Component {
            points: vec![(10, 10), (11, 11)],
        },
        Component {
            points: vec![(20, 20)],
        },
    ];
    let config = LinkConfig {
        max_components: 2,
        max_link_distance_sq: 0,
    };
    let result = link_components_with_config(comps, config);
    assert_eq!(result.len(), 14);
    assert!(!result.contains(&(20, 20)));
    assert_eq!(*result.last().unwrap(), (11, 11));
}

#[test]
fn link_picks_nearest_stroke_first() {
    let comps = vec![
        Component {
            points: vec![(0, 0), (1, 0), (2, 0), (3, 0)],
        },
        Component {
            points: vec![(20, 0), (21, 0)],
        },
        Component {
            points: vec![(5, 0), (6, 0)],
        },
    ];
    let result = link_components(comps);
    let near = result.iter().position(|&p| p == (5, 0)).unwrap();
    let far = result.iter().position(|&p| p == (20, 0)).unwrap();
    assert!(near < far);
}

#[test]
fn link_without_limits_keeps_every_point() {
    let comps = vec![
        Component {
            points: vec![(3, 3), (4, 4)],
        },
        Component {
            points: vec![(10, 0), (11, 0), (12, 0)],
        },
        Component {
            points: vec![(-5, 8)],
        },
    ];
    let all: Vec<(i32, i32)> = comps.iter().flat_map(|c| c.points.clone()).collect();
    let result = link_components(comps);
    for p in all {
        assert!(result.contains(&p));
    }
    assert_eq!(&result[..3], &[(10, 0), (11, 0), (12, 0)]);
}

#[test]
fn component_start_and_end() {
    let c = Component {
        points: vec![(1, 2), (3, 4), (5, 6)],
    };
    assert_eq!(c.start(), (1, 2));
    assert_eq!(c.end(), (5, 6));
}

#[test]
fn link_config_default_has_no_limits() {
    let config = LinkConfig::default();
    assert_eq!(config.max_components, 0);
    assert_eq!(config.max_link_distance_sq, 0);
}

#[test]
fn single_far_stroke_is_returned_unchanged() {
    let far = vec![(i32::MAX, i32::MIN), (0, 0), (i32::MIN, 5)];
    let result = link_components(vec![Component {
        points: far.clone(),
    }]);
    assert_eq!(result, far);
    let config = LinkConfig {
        max_components: 3,
        max_link_distance_sq: 7,
    };
    let result = link_components_with_config(
        vec![Component {
            points: far.clone(),
        }],
        config,
    );
    assert_eq!(result, far);
}

#[test]
fn far_interior_points_are_linked() {
    let comps = vec![
        Component {
            points: vec![(0, 0), (i32::MAX, i32::MAX), (2, 0)],
        },
        Component {
            points: vec![(4, 0)],
        },
    ];
    let result = link_components(comps);
    assert_eq!(
        result,
        vec![(0, 0), (i32::MAX, i32::MAX), (2, 0), (2, 0), (3, 0), (4, 0), (4, 0)]
    );
}

#[test]
fn default_config_links_like_link_components() {
    let make = || {
        vec![
            Component {
                points: vec![(3, 3), (4, 4)],
            },
            Component {
                points: vec![(10, 0), (11, 0), (12, 0)],
            },
        ]
    };
    assert_eq!(
        link_components(make()),
        link_components_with_config(make(), LinkConfig::default())
    );
}

#[test]
fn reversing_a_stroke() {
    let c = Component {
        points: vec![(1, 2), (3, 4), (5, 6)],
    };
    let r = c.reversed();
    assert_eq!(r.points, vec![(5, 6), (3, 4), (1, 2)]);
    assert_eq!(r.start(), c.end());
    assert_eq!(r.end(), c.start());
    assert_eq!(r.reversed().points, c.points);
    assert!(Component { points: vec![] }.reversed().points.is_empty());
}

#[test]
fn strokes_far_from_the_origin_are_linked() {
    let x = 2_000_000_000;
    let comps = vec![
        Component {
            points: vec![(x, x), (x + 1, x), (x + 2, x)],
        },
        Component {
            points: vec![(x + 5, x + 1), (x + 4, x + 1)],
        },
    ];
    let result = link_components(comps);
    assert_eq!(
        result,
        vec![
            (x, x),
            (x + 1, x),
            (x + 2, x),
            (x + 2, x),
            (x + 3, x),
            (x + 4, x + 1),
            (x + 4, x + 1),
            (x + 5, x + 1)
        ]
    );
}
