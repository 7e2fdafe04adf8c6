use gcode_minimizer::get_profile_sq_um2;
use gcode_minimizer::get_total_length_um;
use gcode_minimizer::minimize_gcode;
use gcode_minimizer::test_gcode_equality;
use gcode_minimizer::GCodeData;
use gcode_minimizer::Layer;
use gcode_minimizer::Segment;

fn seg(x1: i32, y1: i32, x2: i32, y2: i32) -> Segment {
    Segment { x1, y1, x2, y2 }
}

/// Wall-clock estimate in minutes: sum of the Euclidean lengths of all
/// moves (micrometers), converted to millimeters, at the given speed.
fn print_time_minutes(gcode: &GCodeData, speed_mm_per_sec: u64) -> f64 {
    let total_um: f64 = get_profile_sq_um2(gcode)
        .iter()
        .map(|&d| (d as f64).sqrt())
        .sum();
    let total_mm = total_um / 1000.0;
    total_mm / (speed_mm_per_sec * 60) as f64
}

#[test]
fn test_gcode_len() {
    let gcode = GCodeData {
        num_layers: 2,
        layers: vec![
            Layer {
                id: 0,
                segments: vec![
                    Segment { x1: 0, y1: 0, x2: 10000, y2: 0 },
                    Segment { x1: 20000, y1: 0, x2: 30000, y2: 0 },
                ],
            },
            Layer {
                id: 1,
                segments: vec![
                    Segment { x1: 40000, y1: 0, x2: 40000, y2: 40000 },
                    Segment { x1: 40000, y1: 40000, x2: 0, y2: 0 },
                ],
            },
        ],
    };

    // Total length = 10 + 10 + 10 + 10 + 40 + 56.57 = 136.57 mm
    let time = print_time_minutes(&gcode, 1);

    // Allow small floating point error
    let expected_time = 136.569 / 60.0;
    let epsilon = 0.001;
    assert!(
        (time - expected_time).abs() < epsilon,
        "Expected time: {}, got: {}",
        expected_time,
        time
    );
}

#[test]
fn test_gcode_equality_function() {
    let gcode_a = GCodeData {
        num_layers: 1,
        layers: vec![Layer {
            id: 0,
            segments: vec![
                Segment { x1: 0, y1: 0, x2: 10000, y2: 0 },
                Segment { x1: 10000, y1: 0, x2: 20000, y2: 0 },
            ],
        }],
    };

    let gcode_a_inverted = GCodeData {
        num_layers: 1,
        layers: vec![Layer {
            id: 0,
            segments: vec![
                Segment { x1: 10000, y1: 0, x2: 20000, y2: 0 },
                Segment { x1: 0, y1: 0, x2: 10000, y2: 0 },
            ],
        }],
    };

    let gcode_a_other_direction = GCodeData {
        num_layers: 1,
        layers: vec![Layer {
            id: 0,
            segments: vec![
                Segment { x1: 0, y1: 0, x2: 10000, y2: 0 },
                Segment { x1: 20000, y1: 0, x2: 10000, y2: 0 }, // inverted segment
            ],
        }],
    };

    // Not equal
    let gcode_a_1_segment = GCodeData {
        num_layers: 1,
        layers: vec![Layer {
            id: 0,
            segments: vec![Segment { x1: 0, y1: 0, x2: 10000, y2: 0 }],
        }],
    };

    let gcode_a_3_segment = GCodeData {
        num_layers: 1,
        layers: vec![Layer {
            id: 0,
            segments: vec![
                Segment { x1: 0, y1: 0, x2: 10000, y2: 0 },
                Segment { x1: 10000, y1: 0, x2: 20000, y2: 0 },
                Segment { x1: 20000, y1: 0, x2: 30000, y2: 0 },
            ],
        }],
    };

    let gcode_b = GCodeData {
        num_layers: 1,
        layers: vec![Layer {
            id: 0,
            segments: vec![
                Segment { x1: 0, y1: 0, x2: 15000, y2: 0 },
                Segment { x1: 15000, y1: 0, x2: 20000, y2: 0 },
            ],
        }],
    };

    // Equal
    assert!(test_gcode_equality(&gcode_a, &gcode_a));
    assert!(test_gcode_equality(&gcode_a, &gcode_a_inverted));
    assert!(test_gcode_equality(&gcode_a, &gcode_a_other_direction));
    assert!(test_gcode_equality(&gcode_a_inverted, &gcode_a_other_direction));

    // Not equal
    assert!(!test_gcode_equality(&gcode_a, &gcode_a_1_segment));
    assert!(!test_gcode_equality(&gcode_a, &gcode_a_3_segment));
    assert!(!test_gcode_equality(&gcode_a, &gcode_b));
}

#[test]
fn test_equality_rejects_wrong_id_and_count() {
    let a = GCodeData {
        num_layers: 1,
        layers: vec![Layer { id: 0, segments: vec![seg(0, 0, 10000, 0)] }],
    };
    let wrong_id = GCodeData {
        num_layers: 1,
        layers: vec![Layer { id: 1, segments: vec![seg(0, 0, 10000, 0)] }],
    };
    let wrong_declared = GCodeData {
        num_layers: 2,
        layers: vec![Layer { id: 0, segments: vec![seg(0, 0, 10000, 0)] }],
    };
    let wrong_layer_count = GCodeData { num_layers: 1, layers: vec![] };
    assert!(!test_gcode_equality(&a, &wrong_id));
    assert!(!test_gcode_equality(&a, &wrong_declared));
    assert!(!test_gcode_equality(&a, &wrong_layer_count));
}

#[test]
fn test_segment_is_equal_and_reversed() {
    let s = seg(1, 2, 3, 4);
    assert_eq!(s.reversed(), seg(3, 4, 1, 2));
    assert_eq!(s.reversed().reversed(), s);
    assert!(s.is_equal(&seg(1, 2, 3, 4)));
    assert!(s.is_equal(&seg(3, 4, 1, 2)));
    assert!(!s.is_equal(&seg(1, 2, 3, 5)));
}

#[test]
fn test_profile_exact_values() {
    let gcode = GCodeData {
        num_layers: 2,
        layers: vec![
            Layer {
                id: 0,
                segments: vec![seg(0, 0, 10000, 0), seg(20000, 0, 30000, 0)],
            },
            Layer {
                id: 1,
                segments: vec![seg(40000, 0, 40000, 40000), seg(40000, 40000, 0, 0)],
            },
        ],
    };
    let profile = get_profile_sq_um2(&gcode);
    assert_eq!(
        profile,
        vec![
            100_000_000,
            100_000_000,
            100_000_000,
            100_000_000,
            1_600_000_000,
            0,
            3_200_000_000,
        ]
    );
    // floor square roots: 10000 + 10000 + 10000 + 10000 + 40000 + 0 + 56568
    assert_eq!(get_total_length_um(&gcode), 136_568);
}

#[test]
fn test_total_length_exact_triangle() {
    // a single 3-4-5 triangle hypotenuse: exactly 5 mm
    let gcode = GCodeData {
        num_layers: 1,
        layers: vec![Layer { id: 0, segments: vec![seg(0, 0, 3000, 4000)] }],
    };
    assert_eq!(get_total_length_um(&gcode), 5000);
}

#[test]
fn test_reorder_greedy_with_flip() {
    let mut gcode = GCodeData {
        num_layers: 1,
        layers: vec![Layer {
            id: 0,
            segments: vec![
                seg(0, 0, 10000, 0),
                seg(30000, 0, 20000, 0),
                seg(10000, 0, 20000, 0),
            ],
        }],
    };
    let result = minimize_gcode(&mut gcode);
    // first segment stays; the nearest start is picked next; the last
    // candidate is placed reversed because its end is nearer
    let expected = vec![
        seg(0, 0, 10000, 0),
        seg(10000, 0, 20000, 0),
        seg(20000, 0, 30000, 0),
    ];
    assert_eq!(gcode.layers[0].segments, expected);
    assert_eq!(result.layers[0].segments, expected);
}

#[test]
fn test_reorder_tie_breaks_to_lowest_index() {
    let mut gcode = GCodeData {
        num_layers: 1,
        layers: vec![Layer {
            id: 0,
            segments: vec![
                seg(0, 0, 10000, 0),
                seg(10000, 10000, 20000, 10000),
                seg(10000, 10000, 20000, 20000),
            ],
        }],
    };
    minimize_gcode(&mut gcode);
    // both candidates start at the same distance from (10000, 0); the
    // lower index wins, and neither is flipped
    assert_eq!(
        gcode.layers[0].segments,
        vec![
            seg(0, 0, 10000, 0),
            seg(10000, 10000, 20000, 10000),
            seg(10000, 10000, 20000, 20000),
        ]
    );
}

#[test]
fn test_reorder_rotates_for_continuity() {
    let mut gcode = GCodeData {
        num_layers: 2,
        layers: vec![
            Layer { id: 0, segments: vec![seg(0, 0, 0, 10000)] },
            Layer {
                id: 1,
                segments: vec![
                    seg(50000, 50000, 60000, 60000),
                    seg(0, 10000, 10000, 10000),
                    seg(20000, 20000, 30000, 30000),
                ],
            },
        ],
    };
    minimize_gcode(&mut gcode);
    // layer 1 is rotated so the segment starting at the end of layer 0
    // comes first, then greedily continued
    assert_eq!(gcode.layers[0].segments, vec![seg(0, 0, 0, 10000)]);
    assert_eq!(
        gcode.layers[1].segments,
        vec![
            seg(0, 10000, 10000, 10000),
            seg(20000, 20000, 30000, 30000),
            seg(50000, 50000, 60000, 60000),
        ]
    );
}

#[test]
fn test_reorder_carries_anchor_over_empty_layer() {
    let mut gcode = GCodeData {
        num_layers: 3,
        layers: vec![
            Layer { id: 0, segments: vec![seg(0, 0, 10000, 0)] },
            Layer { id: 1, segments: vec![] },
            Layer {
                id: 2,
                segments: vec![seg(50000, 0, 60000, 0), seg(10000, 0, 20000, 0)],
            },
        ],
    };
    minimize_gcode(&mut gcode);
    assert_eq!(gcode.layers[1].segments.len(), 0);
    // the anchor from layer 0 reaches layer 2 across the empty layer
    assert_eq!(
        gcode.layers[2].segments,
        vec![seg(10000, 0, 20000, 0), seg(50000, 0, 60000, 0)]
    );
}

#[test]
fn test_reorder_preserves_multiset() {
    let original = GCodeData {
        num_layers: 2,
        layers: vec![
            Layer {
                id: 0,
                segments: vec![
                    seg(5000, 5000, 0, 0),
                    seg(30000, 0, 20000, 0),
                    seg(10000, 0, 20000, 0),
                    seg(0, 0, 10000, 0),
                ],
            },
            Layer {
                id: 1,
                segments: vec![seg(7000, 7000, 8000, 8000), seg(1000, 1000, 2000, 2000)],
            },
        ],
    };
    let mut work = original.clone();
    minimize_gcode(&mut work);
    assert_eq!(work.layers.len(), original.layers.len());
    for (la, lb) in original.layers.iter().zip(work.layers.iter()) {
        assert_eq!(la.id, lb.id);
        assert_eq!(la.segments.len(), lb.segments.len());
        for sa in &la.segments {
            let matches_a = la.segments.iter().filter(|s| sa.is_equal(s)).count();
            let matches_b = lb.segments.iter().filter(|s| sa.is_equal(s)).count();
            assert_eq!(matches_a, matches_b);
        }
    }
}

#[test]
fn test_reorder_deterministic() {
    let build = || GCodeData {
        num_layers: 2,
        layers: vec![
            Layer {
                id: 0,
                segments: vec![
                    seg(5000, 5000, 0, 0),
                    seg(30000, 0, 20000, 0),
                    seg(0, 0, 10000, 0),
                ],
            },
            Layer {
                id: 1,
                segments: vec![seg(7000, 7000, 8000, 8000), seg(1000, 1000, 2000, 2000)],
            },
        ],
    };
    let mut d1 = build();
    let mut d2 = build();
    let r1 = minimize_gcode(&mut d1);
    let r2 = minimize_gcode(&mut d2);
    assert_eq!(r1.num_layers, r2.num_layers);
    assert_eq!(r1.layers.len(), r2.layers.len());
    for (la, lb) in r1.layers.iter().zip(r2.layers.iter()) {
        assert_eq!(la.id, lb.id);
        assert_eq!(la.segments, lb.segments);
    }
}

#[test]
fn test_reorder_is_equivalent_to_input() {
    let original = GCodeData {
        num_layers: 2,
        layers: vec![
            Layer {
                id: 0,
                segments: vec![
                    seg(5000, 5000, 0, 0),
                    seg(30000, 0, 20000, 0),
                    seg(10000, 0, 20000, 0),
                    seg(0, 0, 10000, 0),
                ],
            },
            Layer { id: 7, segments: vec![] },
        ],
    };
    let mut work = original.clone();
    let reordered = minimize_gcode(&mut work);
    assert!(test_gcode_equality(&original, &reordered));
    assert!(test_gcode_equality(&original, &work));
}

#[test]
fn test_scaling_scales_profile_quadratically() {
    let base = GCodeData {
        num_layers: 2,
        layers: vec![
            Layer {
                id: 0,
                segments: vec![seg(0, 0, 1000, 0), seg(3000, 0, 4000, 2000)],
            },
            Layer { id: 1, segments: vec![seg(5000, 5000, 6000, 6000)] },
        ],
    };
    let k: i32 = 3;
    let scaled = GCodeData {
        num_layers: base.num_layers,
        layers: base
            .layers
            .iter()
            .map(|l| Layer {
                id: l.id,
                segments: l
                    .segments
                    .iter()
                    .map(|s| seg(s.x1 * k, s.y1 * k, s.x2 * k, s.y2 * k))
                    .collect(),
            })
            .collect(),
    };
    let p = get_profile_sq_um2(&base);
    let q = get_profile_sq_um2(&scaled);
    assert_eq!(p.len(), q.len());
    for (a, b) in p.iter().zip(q.iter()) {
        assert_eq!(*b, (k as u128) * (k as u128) * *a);
    }
}

#[test]
fn test_empty_document() {
    let mut gcode = GCodeData { num_layers: 0, layers: vec![] };
    assert_eq!(get_total_length_um(&gcode), 0);
    assert_eq!(get_profile_sq_um2(&gcode).len(), 0);
    let reordered = minimize_gcode(&mut gcode);
    assert_eq!(reordered.num_layers, 0);
    assert_eq!(reordered.layers.len(), 0);
    assert_eq!(gcode.layers.len(), 0);
}

#[test]
fn test_empty_layer_contributes_nothing() {
    let without = GCodeData {
        num_layers: 2,
        layers: vec![
            Layer { id: 0, segments: vec![seg(0, 0, 10000, 0)] },
            Layer { id: 2, segments: vec![seg(20000, 0, 30000, 0)] },
        ],
    };
    let with_empty = GCodeData {
        num_layers: 3,
        layers: vec![
            Layer { id: 0, segments: vec![seg(0, 0, 10000, 0)] },
            Layer { id: 1, segments: vec![] },
            Layer { id: 2, segments: vec![seg(20000, 0, 30000, 0)] },
        ],
    };
    assert_eq!(get_profile_sq_um2(&without), get_profile_sq_um2(&with_empty));
    assert_eq!(get_total_length_um(&without), get_total_length_um(&with_empty));
}
