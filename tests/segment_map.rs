use segment_map::{Segment, SegmentMap};

fn contents(segment_map: SegmentMap<i32>) -> Vec<(Segment, i32)> {
    let mut it = segment_map.into_iter();
    let mut out = Vec::new();
    while let Some(entry) = it.next() {
        out.push(entry);
    }
    out
}

#[test]
fn test_insert_multiple_empty() {
    let mut segment_map = SegmentMap::new();
    assert!(segment_map.insert(Segment::new(0, 1), 0).is_ok());
    assert!(segment_map.insert(Segment::new(1, 1), 1).is_ok());
    assert!(segment_map.insert(Segment::new(1, 1), 2).is_err());
}

#[test]
fn test_remove() {
    let permutations = vec![(
            format!("{}\n{}\n{}\n{}\n{}\n",
                "  [0----)",
                "       \\",
                "      [1----)",
                "           \\",
                "          [2----)"
            ),
            vec![0, 1, 2]
        ), (
            format!("{}\n{}\n{}\n{}\n{}\n",
                "  [0----)",
                "       \\",
                "      [2----)",
                "       /",
                "  [1----)"
            ),
            vec![0, 2, 1]
        ), (
            format!("{}\n{}\n{}\n",
                "      [1----)",
                "       /   \\",
                "  [0----) [2----)",
            ),
            vec![1, 0, 2]
        ), (
            format!("{}\n{}\n{}\n{}\n{}\n",
                "      [2----)",
                "       /",
                "  [0----)",
                "       \\",
                "      [1----)"
            ),
            vec![2, 0, 1]
        ), (
            format!("{}\n{}\n{}\n{}\n{}\n",
                "          [2----)",
                "           /",
                "      [1----)",
                "       /",
                "  [0----)"
            ),
            vec![2, 1, 0]
        )
    ];
    let cases = vec![(
            format!("{}\n{}\n{}\n",
                "  [-----------------)",
                "                      -> -------------------",
                "  [0----|1----|2----)"
            ),
            Segment::new(0, 18),
            vec![
                (Segment::new(0, 6), 0),
                (Segment::new(6, 12), 1),
                (Segment::new(12, 18), 2)
            ],
            vec![],
        ), (
            format!("{}\n{}\n{}\n",
                "  [--------------)---",
                "                      -> ---------------[2-)",
                "  [0----|1----|2----)"
            ),
            Segment::new(0, 15),
            vec![
                (Segment::new(0, 6), 0),
                (Segment::new(6, 12), 1),
                (Segment::new(12, 18), 2)
            ],
            vec![
                (Segment::new(15, 18), 2)
            ],
        ), (
            format!("{}\n{}\n{}\n",
                "  [-----------)------",
                "                      -> ------------[2----)",
                "  [0----|1----|2----)"
            ),
            Segment::new(0, 12),
            vec![
                (Segment::new(0, 6), 0),
                (Segment::new(6, 12), 1),
                (Segment::new(12, 18), 2)
            ],
            vec![
                (Segment::new(12, 18), 2)
            ],
        ), (
            format!("{}\n{}\n{}\n",
                "  [--------)---------",
                "                      -> ---------[1-|2----)",
                "  [0----|1----|2----)"
            ),
            Segment::new(0, 9),
            vec![
                (Segment::new(0, 6), 0),
                (Segment::new(6, 12), 1),
                (Segment::new(12, 18), 2)
            ],
            vec![
                (Segment::new(9, 12), 1),
                (Segment::new(12, 18), 2)
            ],
        ), (
            format!("{}\n{}\n{}\n",
                "  [-----)------------",
                "                      -> ------[1----|2----)",
                "  [0----|1----|2----)"
            ),
            Segment::new(0, 6),
            vec![
                (Segment::new(0, 6), 0),
                (Segment::new(6, 12), 1),
                (Segment::new(12, 18), 2)
            ],
            vec![
                (Segment::new(6, 12), 1),
                (Segment::new(12, 18), 2)
            ],
        ), (
            format!("{}\n{}\n{}\n",
                "  [--)---------------",
                "                      -> ---[0-|1----|2----)",
                "  [0----|1----|2----)"
            ),
            Segment::new(0, 3),
            vec![
                (Segment::new(0, 6), 0),
                (Segment::new(6, 12), 1),
                (Segment::new(12, 18), 2)
            ],
            vec![
                (Segment::new(3, 6), 0),
                (Segment::new(6, 12), 1),
                (Segment::new(12, 18), 2)
            ],
        ), (
            format!("{}\n{}\n{}\n",
                "  |------------------",
                "                      -> [0----|1----|2----)",
                "  [0----|1----|2----)"
            ),
            Segment::new(0, 0),
            vec![
                (Segment::new(0, 6), 0),
                (Segment::new(6, 12), 1),
                (Segment::new(12, 18), 2)
            ],
            vec![
                (Segment::new(0, 6), 0),
                (Segment::new(6, 12), 1),
                (Segment::new(12, 18), 2)
            ],
        ), (
            format!("{}\n{}\n{}\n",
                "  ---[--------------)",
                "                      -> [0-)---------------",
                "  [0----|1----|2----)"
            ),
            Segment::new(3, 18),
            vec![
                (Segment::new(0, 6), 0),
                (Segment::new(6, 12), 1),
                (Segment::new(12, 18), 2)
            ],
            vec![
                (Segment::new(0, 3), 0)
            ],
        ), (
            format!("{}\n{}\n{}\n",
                "  ---[-----------)---",
                "                      -> [0-)-----------[2-)",
                "  [0----|1----|2----)"
            ),
            Segment::new(3, 15),
            vec![
                (Segment::new(0, 6), 0),
                (Segment::new(6, 12), 1),
                (Segment::new(12, 18), 2)
            ],
            vec![
                (Segment::new(0, 3), 0),
                (Segment::new(15, 18), 2)
            ],
        ), (
            format!("{}\n{}\n{}\n",
                "  ---[--------)------",
                "                      -> [0-)--------[2----)",
                "  [0----|1----|2----)"
            ),
            Segment::new(3, 12),
            vec![
                (Segment::new(0, 6), 0),
                (Segment::new(6, 12), 1),
                (Segment::new(12, 18), 2)
            ],
            vec![
                (Segment::new(0, 3), 0),
                (Segment::new(12, 18), 2)
            ],
        ), (
            format!("{}\n{}\n{}\n",
                "  ---[-----)---------",
                "                      -> [0-)-----[1-|2----)",
                "  [0----|1----|2----)"
            ),
            Segment::new(3, 9),
            vec![
                (Segment::new(0, 6), 0),
                (Segment::new(6, 12), 1),
                (Segment::new(12, 18), 2)
            ],
            vec![
                (Segment::new(0, 3), 0),
                (Segment::new(9, 12), 1),
                (Segment::new(12, 18), 2)
            ],
        ), (
            format!("{}\n{}\n{}\n",
                "  ---[--)------------",
                "                      -> [0-)--[1----|2----)",
                "  [0----|1----|2----)"
            ),
            Segment::new(3, 6),
            vec![
                (Segment::new(0, 6), 0),
                (Segment::new(6, 12), 1),
                (Segment::new(12, 18), 2)
            ],
            vec![
                (Segment::new(0, 3), 0),
                (Segment::new(6, 12), 1),
                (Segment::new(12, 18), 2)
            ],
        ), (
            format!("{}\n{}\n{}\n",
                "  --[-)--------------",
                "                      -> [0)-[0|1----|2----)",
                "  [0----|1----|2----)"
            ),
            Segment::new(2, 4),
            vec![
                (Segment::new(0, 6), 0),
                (Segment::new(6, 12), 1),
                (Segment::new(12, 18), 2)
            ],
            vec![
                (Segment::new(0, 2), 0),
                (Segment::new(4, 6), 0),
                (Segment::new(6, 12), 1),
                (Segment::new(12, 18), 2)
            ],
        ), (
            format!("{}\n{}\n{}\n",
                "  ---|---------------",
                "                      -> [0-|0-|1----|2----)",
                "  [0----|1----|2----)"
            ),
            Segment::new(3, 3),
            vec![
                (Segment::new(0, 6), 0),
                (Segment::new(6, 12), 1),
                (Segment::new(12, 18), 2)
            ],
            vec![
                (Segment::new(0, 3), 0),
                (Segment::new(3, 6), 0),
                (Segment::new(6, 12), 1),
                (Segment::new(12, 18), 2)
            ],
        ), (
            format!("{}\n{}\n{}\n",
                "  ------[-----------)",
                "                      -> [0----)------------",
                "  [0----|1----|2----)"
            ),
            Segment::new(6, 18),
            vec![
                (Segment::new(0, 6), 0),
                (Segment::new(6, 12), 1),
                (Segment::new(12, 18), 2)
            ],
            vec![
                (Segment::new(0, 6), 0)
            ],
        ), (
            format!("{}\n{}\n{}\n",
                "  ------[--------)---",
                "                      -> [0----)--------[2-)",
                "  [0----|1----|2----)"
            ),
            Segment::new(6, 15),
            vec![
                (Segment::new(0, 6), 0),
                (Segment::new(6, 12), 1),
                (Segment::new(12, 18), 2)
            ],
            vec![
                (Segment::new(0, 6), 0),
                (Segment::new(15, 18), 2)
            ],
        ), (
            format!("{}\n{}\n{}\n",
                "  ------[-----)------",
                "                      -> [0----)-----[2----)",
                "  [0----|1----|2----)"
            ),
            Segment::new(6, 12),
            vec![
                (Segment::new(0, 6), 0),
                (Segment::new(6, 12), 1),
                (Segment::new(12, 18), 2)
            ],
            vec![
                (Segment::new(0, 6), 0),
                (Segment::new(12, 18), 2)
            ],
        ), (
            format!("{}\n{}\n{}\n",
                "  ------[--)---------",
                "                      -> [0----)--[1-|2----)",
                "  [0----|1----|2----)"
            ),
            Segment::new(6, 9),
            vec![
                (Segment::new(0, 6), 0),
                (Segment::new(6, 12), 1),
                (Segment::new(12, 18), 2)
            ],
            vec![
                (Segment::new(0, 6), 0),
                (Segment::new(9, 12), 1),
                (Segment::new(12, 18), 2)
            ],
        ), (
            format!("{}\n{}\n{}\n",
                "  ------|------------",
                "                      -> [0----|1----|2----)",
                "  [0----|1----|2----)"
            ),
            Segment::new(6, 6),
            vec![
                (Segment::new(0, 6), 0),
                (Segment::new(6, 12), 1),
                (Segment::new(12, 18), 2)
            ],
            vec![
                (Segment::new(0, 6), 0),
                (Segment::new(6, 12), 1),
                (Segment::new(12, 18), 2)
            ],
        ), (
            format!("{}\n{}\n{}\n",
                "  |------------------",
                "                      -> [1----|2----)------",
                "  [1----|2----)------"
            ),
            Segment::new(0, 0),
            vec![
                (Segment::new(0, 0), 0),
                (Segment::new(0, 6), 1),
                (Segment::new(6, 12), 2)
            ],
            vec![
                (Segment::new(0, 6), 1),
                (Segment::new(6, 12), 2)
            ],
        )

    ];
    for (case_description, remove_segment, insert_segments, expected_segments) in cases {
        for (permutation_description, indices) in &permutations {
            let mut segment_map = SegmentMap::new();
            for &index in indices {
                let (insert_segment, insert_value) = insert_segments[index];
                assert!(segment_map.insert(insert_segment, insert_value).is_ok());
            }
            segment_map.remove(&remove_segment);
            assert_eq!(expected_segments, contents(segment_map), "\npermutation:\n\n{}\ncase:\n\n{}\n", permutation_description, case_description);
        }
    }
}

#[test]
fn test_update() {
    let permutations = vec![
        vec![
        ], vec![(
                format!("{}\n",
                    "  [0----)"
                ),
                vec![0]
            )
        ], vec![(
                format!("{}\n{}\n{}\n",
                    "  [0----)",
                    "       \\",
                    "      [1----)"
                ),
                vec![0, 1]
            ), (
                format!("{}\n{}\n{}\n",
                    "      [1----)",
                    "       /",
                    "  [0----)"
                ),
                vec![1, 0]
            )
        ], vec![(
                format!("{}\n{}\n{}\n{}\n{}\n",
                    "  [0----)",
                    "       \\",
                    "      [1----)",
                    "           \\",
                    "          [2----)"
                ),
                vec![0, 1, 2]
            ), (
                format!("{}\n{}\n{}\n{}\n{}\n",
                    "  [0----)",
                    "       \\",
                    "      [2----)",
                    "       /",
                    "  [1----)"
                ),
                vec![0, 2, 1]
            ), (
                format!("{}\n{}\n{}\n",
                    "      [1----)",
                    "       /   \\",
                    "  [0----) [2----)",
                ),
                vec![1, 0, 2]
            ), (
                format!("{}\n{}\n{}\n{}\n{}\n",
                    "      [2----)",
                    "       /",
                    "  [0----)",
                    "       \\",
                    "      [1----)"
                ),
                vec![2, 0, 1]
            ), (
                format!("{}\n{}\n{}\n{}\n{}\n",
                    "          [2----)",
                    "           /",
                    "      [1----)",
                    "       /",
                    "  [0----)"
                ),
                vec![2, 1, 0]
            )
        ]
    ];
    let cases = vec![(
            format!("{}\n{}\n{}\n",
                "  [3----------------)",
                "                      -> [3----|3----|3----)",
                "  [0----|1----|2----)"
            ),
            (Segment::new(0, 18), 3),
            vec![
                (Segment::new(0, 6), 0),
                (Segment::new(6, 12), 1),
                (Segment::new(12, 18), 2)
            ],
            vec![
                (Segment::new(0, 6), 3),
                (Segment::new(6, 12), 3),
                (Segment::new(12, 18), 3)
            ],
        ), (
            format!("{}\n{}\n{}\n",
                "  [3-------------)---",
                "                      -> [3----|3----|3-|2-)",
                "  [0----|1----|2----)"
            ),
            (Segment::new(0, 15), 3),
            vec![
                (Segment::new(0, 6), 0),
                (Segment::new(6, 12), 1),
                (Segment::new(12, 18), 2)
            ],
            vec![
                (Segment::new(0, 6), 3),
                (Segment::new(6, 12), 3),
                (Segment::new(12, 15), 3),
                (Segment::new(15, 18), 2)
            ],
        ), (
            format!("{}\n{}\n{}\n",
                "  [3----------)------",
                "                      -> [3----|3----|2----)",
                "  [0----|1----|2----)"
            ),
            (Segment::new(0, 12), 3),
            vec![
                (Segment::new(0, 6), 0),
                (Segment::new(6, 12), 1),
                (Segment::new(12, 18), 2)
            ],
            vec![
                (Segment::new(0, 6), 3),
                (Segment::new(6, 12), 3),
                (Segment::new(12, 18), 2)
            ],
        ), (
            format!("{}\n{}\n{}\n",
                "  [3-------)---------",
                "                      -> [3----|3-|1-|2----)",
                "  [0----|1----|2----)"
            ),
            (Segment::new(0, 9), 3),
            vec![
                (Segment::new(0, 6), 0),
                (Segment::new(6, 12), 1),
                (Segment::new(12, 18), 2)
            ],
            vec![
                (Segment::new(0, 6), 3),
                (Segment::new(6, 9), 3),
                (Segment::new(9, 12), 1),
                (Segment::new(12, 18), 2)
            ],
        ), (
            format!("{}\n{}\n{}\n",
                "  [3----)------------",
                "                      -> [3----|1----|2----)",
                "  [0----|1----|2----)"
            ),
            (Segment::new(0, 6), 3),
            vec![
                (Segment::new(0, 6), 0),
                (Segment::new(6, 12), 1),
                (Segment::new(12, 18), 2)
            ],
            vec![
                (Segment::new(0, 6), 3),
                (Segment::new(6, 12), 1),
                (Segment::new(12, 18), 2)
            ],
        ), (
            format!("{}\n{}\n{}\n",
                "  [3-)---------------",
                "                      -> [3-|0-|1----|2----)",
                "  [0----|1----|2----)"
            ),
            (Segment::new(0, 3), 3),
            vec![
                (Segment::new(0, 6), 0),
                (Segment::new(6, 12), 1),
                (Segment::new(12, 18), 2)
            ],
            vec![
                (Segment::new(0, 3), 3),
                (Segment::new(3, 6), 0),
                (Segment::new(6, 12), 1),
                (Segment::new(12, 18), 2)
            ],
        ), (
            format!("{}\n{}\n{}\n",
                "  |------------------",
                "                      -> [0----|1----|2----)",
                "  [0----|1----|2----)"
            ),
            (Segment::new(0, 0), 3),
            vec![
                (Segment::new(0, 6), 0),
                (Segment::new(6, 12), 1),
                (Segment::new(12, 18), 2)
            ],
            vec![
                (Segment::new(0, 0), 3),
                (Segment::new(0, 6), 0),
                (Segment::new(6, 12), 1),
                (Segment::new(12, 18), 2)
            ],
        ), (
            format!("{}\n{}\n{}\n",
                "  ---[3-------------)",
                "                      -> [0-|3-|3----|3----)",
                "  [0----|1----|2----)"
            ),
            (Segment::new(3, 18), 3),
            vec![
                (Segment::new(0, 6), 0),
                (Segment::new(6, 12), 1),
                (Segment::new(12, 18), 2)
            ],
            vec![
                (Segment::new(0, 3), 0),
                (Segment::new(3, 6), 3),
                (Segment::new(6, 12), 3),
                (Segment::new(12, 18), 3)
            ],
        ), (
            format!("{}\n{}\n{}\n",
                "  ---[3----------)---",
                "                      -> [0-|3-|3----|3-|2-)",
                "  [0----|1----|2----)"
            ),
            (Segment::new(3, 15), 3),
            vec![
                (Segment::new(0, 6), 0),
                (Segment::new(6, 12), 1),
                (Segment::new(12, 18), 2)
            ],
            vec![
                (Segment::new(0, 3), 0),
                (Segment::new(3, 6), 3),
                (Segment::new(6, 12), 3),
                (Segment::new(12, 15), 3),
                (Segment::new(15, 18), 2)
            ],
        ), (
            format!("{}\n{}\n{}\n",
                "  ---[3-------)------",
                "                      -> [0-|3-|3----|2----)",
                "  [0----|1----|2----)"
            ),
            (Segment::new(3, 12), 3),
            vec![
                (Segment::new(0, 6), 0),
                (Segment::new(6, 12), 1),
                (Segment::new(12, 18), 2)
            ],
            vec![
                (Segment::new(0, 3), 0),
                (Segment::new(3, 6), 3),
                (Segment::new(6, 12), 3),
                (Segment::new(12, 18), 2)
            ],
        ), (
            format!("{}\n{}\n{}\n",
                "  ---[3----)---------",
                "                      -> [0-|3-|3-|1-|2----)",
                "  [0----|1----|2----)"
            ),
            (Segment::new(3, 9), 3),
            vec![
                (Segment::new(0, 6), 0),
                (Segment::new(6, 12), 1),
                (Segment::new(12, 18), 2)
            ],
            vec![
                (Segment::new(0, 3), 0),
                (Segment::new(3, 6), 3),
                (Segment::new(6, 9), 3),
                (Segment::new(9, 12), 1),
                (Segment::new(12, 18), 2)
            ],
        ), (
            format!("{}\n{}\n{}\n",
                "  ---[3-)------------",
                "                      -> [0-|3-|1----|2----)",
                "  [0----|1----|2----)"
            ),
            (Segment::new(3, 6), 3),
            vec![
                (Segment::new(0, 6), 0),
                (Segment::new(6, 12), 1),
                (Segment::new(12, 18), 2)
            ],
            vec![
                (Segment::new(0, 3), 0),
                (Segment::new(3, 6), 3),
                (Segment::new(6, 12), 1),
                (Segment::new(12, 18), 2)
            ],
        ), (
            format!("{}\n{}\n{}\n",
                "  --[3)--------------",
                "                      -> [0|3|0|1----|2----)",
                "  [0----|1----|2----)"
            ),
            (Segment::new(2, 4), 3),
            vec![
                (Segment::new(0, 6), 0),
                (Segment::new(6, 12), 1),
                (Segment::new(12, 18), 2)
            ],
            vec![
                (Segment::new(0, 2), 0),
                (Segment::new(2, 4), 3),
                (Segment::new(4, 6), 0),
                (Segment::new(6, 12), 1),
                (Segment::new(12, 18), 2)
            ],
        ), (
            format!("{}\n{}\n{}\n",
                "  ---|---------------",
                "                      -> [0-|0-|1----|2----)",
                "  [0----|1----|2----)"
            ),
            (Segment::new(3, 3), 3),
            vec![
                (Segment::new(0, 6), 0),
                (Segment::new(6, 12), 1),
                (Segment::new(12, 18), 2)
            ],
            vec![
                (Segment::new(0, 3), 0),
                (Segment::new(3, 3), 3),
                (Segment::new(3, 6), 0),
                (Segment::new(6, 12), 1),
                (Segment::new(12, 18), 2)
            ],
        ), (
            format!("{}\n{}\n{}\n",
                "  ------[3----------)",
                "                      -> [0----|3----|3----)",
                "  [0----|1----|2----)"
            ),
            (Segment::new(6, 18), 3),
            vec![
                (Segment::new(0, 6), 0),
                (Segment::new(6, 12), 1),
                (Segment::new(12, 18), 2)
            ],
            vec![
                (Segment::new(0, 6), 0),
                (Segment::new(6, 12), 3),
                (Segment::new(12, 18), 3)
            ],
        ), (
            format!("{}\n{}\n{}\n",
                "  ------[3-------)---",
                "                      -> [0----|3----|3-|2-)",
                "  [0----|1----|2----)"
            ),
            (Segment::new(6, 15), 3),
            vec![
                (Segment::new(0, 6), 0),
                (Segment::new(6, 12), 1),
                (Segment::new(12, 18), 2)
            ],
            vec![
                (Segment::new(0, 6), 0),
                (Segment::new(6, 12), 3),
                (Segment::new(12, 15), 3),
                (Segment::new(15, 18), 2)
            ],
        ), (
            format!("{}\n{}\n{}\n",
                "  ------[3----)------",
                "                      -> [0----|3----|2----)",
                "  [0----|1----|2----)"
            ),
            (Segment::new(6, 12), 3),
            vec![
                (Segment::new(0, 6), 0),
                (Segment::new(6, 12), 1),
                (Segment::new(12, 18), 2)
            ],
            vec![
                (Segment::new(0, 6), 0),
                (Segment::new(6, 12), 3),
                (Segment::new(12, 18), 2)
            ],
        ), (
            format!("{}\n{}\n{}\n",
                "  ------[3-)---------",
                "                      -> [0----|3-|1-|2----)",
                "  [0----|1----|2----)"
            ),
            (Segment::new(6, 9), 3),
            vec![
                (Segment::new(0, 6), 0),
                (Segment::new(6, 12), 1),
                (Segment::new(12, 18), 2)
            ],
            vec![
                (Segment::new(0, 6), 0),
                (Segment::new(6, 9), 3),
                (Segment::new(9, 12), 1),
                (Segment::new(12, 18), 2)
            ],
        ), (
            format!("{}\n{}\n{}\n",
                "  ------|------------",
                "                      -> [0----|1----|2----)",
                "  [0----|1----|2----)"
            ),
            (Segment::new(6, 6), 3),
            vec![
                (Segment::new(0, 6), 0),
                (Segment::new(6, 12), 1),
                (Segment::new(12, 18), 2)
            ],
            vec![
                (Segment::new(0, 6), 0),
                (Segment::new(6, 6), 3),
                (Segment::new(6, 12), 1),
                (Segment::new(12, 18), 2)
            ],
        ), (
            format!("{}\n{}\n{}\n",
                "  [3----------------)",
                "                      -> [3----|3----|3----)",
                "  ------[1----|2----)"
            ),
            (Segment::new(0, 18), 3),
            vec![
                (Segment::new(6, 12), 1),
                (Segment::new(12, 18), 2)
            ],
            vec![
                (Segment::new(0, 6), 3),
                (Segment::new(6, 12), 3),
                (Segment::new(12, 18), 3)
            ],
        ), (
            format!("{}\n{}\n{}\n",
                "  [3-------------)---",
                "                      -> [3----|3----|3-|2-)",
                "  ------[1----|2----)"
            ),
            (Segment::new(0, 15), 3),
            vec![
                (Segment::new(6, 12), 1),
                (Segment::new(12, 18), 2)
            ],
            vec![
                (Segment::new(0, 6), 3),
                (Segment::new(6, 12), 3),
                (Segment::new(12, 15), 3),
                (Segment::new(15, 18), 2)
            ],
        ), (
            format!("{}\n{}\n{}\n",
                "  [3----------)------",
                "                      -> [3----|3----|2----)",
                "  ------[1----|2----)"
            ),
            (Segment::new(0, 12), 3),
            vec![
                (Segment::new(6, 12), 1),
                (Segment::new(12, 18), 2)
            ],
            vec![
                (Segment::new(0, 6), 3),
                (Segment::new(6, 12), 3),
                (Segment::new(12, 18), 2)
            ],
        ), (
            format!("{}\n{}\n{}\n",
                "  [3-------)---------",
                "                      -> [3----|3-|1-|2----)",
                "  ------[1----|2----)"
            ),
            (Segment::new(0, 9), 3),
            vec![
                (Segment::new(6, 12), 1),
                (Segment::new(12, 18), 2)
            ],
            vec![
                (Segment::new(0, 6), 3),
                (Segment::new(6, 9), 3),
                (Segment::new(9, 12), 1),
                (Segment::new(12, 18), 2)
            ],
        ), (
            format!("{}\n{}\n{}\n",
                "  [3----)------------",
                "                      -> [3----|1----|2----)",
                "  ------[1----|2----)"
            ),
            (Segment::new(0, 6), 3),
            vec![
                (Segment::new(6, 12), 1),
                (Segment::new(12, 18), 2)
            ],
            vec![
                (Segment::new(0, 6), 3),
                (Segment::new(6, 12), 1),
                (Segment::new(12, 18), 2)
            ],
        ), (
            format!("{}\n{}\n{}\n",
                "  [3-)---------------",
                "                      -> [3-)--[1----|2----)",
                "  ------[1----|2----)"
            ),
            (Segment::new(0, 3), 3),
            vec![
                (Segment::new(6, 12), 1),
                (Segment::new(12, 18), 2)
            ],
            vec![
                (Segment::new(0, 3), 3),
                (Segment::new(6, 12), 1),
                (Segment::new(12, 18), 2)
            ],
        ), (
            format!("{}\n{}\n{}\n",
                "  |------------------",
                "                      -> |-----[1----|2----)",
                "  ------[1----|2----)"
            ),
            (Segment::new(0, 0), 3),
            vec![
                (Segment::new(6, 12), 1),
                (Segment::new(12, 18), 2)
            ],
            vec![
                (Segment::new(0, 0), 3),
                (Segment::new(6, 12), 1),
                (Segment::new(12, 18), 2)
            ],
        ), (
            format!("{}\n{}\n{}\n",
                "  [3----------------)",
                "                      -> [3----|3----|3----)",
                "  [0----)-----[2----)"
            ),
            (Segment::new(0, 18), 3),
            vec![
                (Segment::new(0, 6), 0),
                (Segment::new(12, 18), 2)
            ],
            vec![
                (Segment::new(0, 6), 3),
                (Segment::new(6, 12), 3),
                (Segment::new(12, 18), 3)
            ],
        ), (
            format!("{}\n{}\n{}\n",
                "  [3-------------)---",
                "                      -> [3----|3----|3-|2-)",
                "  [0----)-----[2----)"
            ),
            (Segment::new(0, 15), 3),
            vec![
                (Segment::new(0, 6), 0),
                (Segment::new(12, 18), 2)
            ],
            vec![
                (Segment::new(0, 6), 3),
                (Segment::new(6, 12), 3),
                (Segment::new(12, 15), 3),
                (Segment::new(15, 18), 2)
            ],
        ), (
            format!("{}\n{}\n{}\n",
                "  [3----------)------",
                "                      -> [3----|3----|2----)",
                "  [0----)-----[2----)"
            ),
            (Segment::new(0, 12), 3),
            vec![
                (Segment::new(0, 6), 0),
                (Segment::new(12, 18), 2)
            ],
            vec![
                (Segment::new(0, 6), 3),
                (Segment::new(6, 12), 3),
                (Segment::new(12, 18), 2)
            ],
        ), (
            format!("{}\n{}\n{}\n",
                "  [3-------)---------",
                "                      -> [3----|3-)--[2----)",
                "  [0----)-----[2----)"
            ),
            (Segment::new(0, 9), 3),
            vec![
                (Segment::new(0, 6), 0),
                (Segment::new(12, 18), 2)
            ],
            vec![
                (Segment::new(0, 6), 3),
                (Segment::new(6, 9), 3),
                (Segment::new(12, 18), 2)
            ],
        ), (
            format!("{}\n{}\n{}\n",
                "  ---[3-------------)",
                "                      -> [0-|3-|3----|3----)",
                "  [0----)-----[2----)"
            ),
            (Segment::new(3, 18), 3),
            vec![
                (Segment::new(0, 6), 0),
                (Segment::new(12, 18), 2)
            ],
            vec![
                (Segment::new(0, 3), 0),
                (Segment::new(3, 6), 3),
                (Segment::new(6, 12), 3),
                (Segment::new(12, 18), 3)
            ],
        ), (
            format!("{}\n{}\n{}\n",
                "  ---[3----------)---",
                "                      -> [0-|3-|3----|3-|2-)",
                "  [0----)-----[2----)"
            ),
            (Segment::new(3, 15), 3),
            vec![
                (Segment::new(0, 6), 0),
                (Segment::new(12, 18), 2)
            ],
            vec![
                (Segment::new(0, 3), 0),
                (Segment::new(3, 6), 3),
                (Segment::new(6, 12), 3),
                (Segment::new(12, 15), 3),
                (Segment::new(15, 18), 2)
            ],
        ), (
            format!("{}\n{}\n{}\n",
                "  ---[3-------)------",
                "                      -> [0-|3-|3----|2----)",
                "  [0----)-----[2----)"
            ),
            (Segment::new(3, 12), 3),
            vec![
                (Segment::new(0, 6), 0),
                (Segment::new(12, 18), 2)
            ],
            vec![
                (Segment::new(0, 3), 0),
                (Segment::new(3, 6), 3),
                (Segment::new(6, 12), 3),
                (Segment::new(12, 18), 2)
            ],
        ), (
            format!("{}\n{}\n{}\n",
                "  ---[3----)---------",
                "                      -> [0-|3-|3-)--[2----)",
                "  [0----)-----[2----)"
            ),
            (Segment::new(3, 9), 3),
            vec![
                (Segment::new(0, 6), 0),
                (Segment::new(12, 18), 2)
            ],
            vec![
                (Segment::new(0, 3), 0),
                (Segment::new(3, 6), 3),
                (Segment::new(6, 9), 3),
                (Segment::new(12, 18), 2)
            ],
        ), (
            format!("{}\n{}\n{}\n",
                "  [3----------------)",
                "                      -> [3----|3----|3----)",
                "  [0----|1----)------"
            ),
            (Segment::new(0, 18), 3),
            vec![
                (Segment::new(0, 6), 0),
                (Segment::new(6, 12), 1)
            ],
            vec![
                (Segment::new(0, 6), 3),
                (Segment::new(6, 12), 3),
                (Segment::new(12, 18), 3)
            ],
        ), (
            format!("{}\n{}\n{}\n",
                "  [3-------------)---",
                "                      -> [3----|3----|3-)---",
                "  [0----|1----)------"
            ),
            (Segment::new(0, 15), 3),
            vec![
                (Segment::new(0, 6), 0),
                (Segment::new(6, 12), 1)
            ],
            vec![
                (Segment::new(0, 6), 3),
                (Segment::new(6, 12), 3),
                (Segment::new(12, 15), 3)
            ],
        ), (
            format!("{}\n{}\n{}\n",
                "  ---[3-------------)",
                "                      -> [0-|3-|3----|3----)",
                "  [0----|1----)------"
            ),
            (Segment::new(3, 18), 3),
            vec![
                (Segment::new(0, 6), 0),
                (Segment::new(6, 12), 1)
            ],
            vec![
                (Segment::new(0, 3), 0),
                (Segment::new(3, 6), 3),
                (Segment::new(6, 12), 3),
                (Segment::new(12, 18), 3)
            ],
        ), (
            format!("{}\n{}\n{}\n",
                "  [3----------------)",
                "                      -> [3----|3----|3----)",
                "  ------[1----)------"
            ),
            (Segment::new(0, 18), 3),
            vec![
                (Segment::new(6, 12), 1)
            ],
            vec![
                (Segment::new(0, 6), 3),
                (Segment::new(6, 12), 3),
                (Segment::new(12, 18), 3)
            ],
        ), (
            format!("{}\n{}\n{}\n",
                "  |------------------",
                "                      -> [1----|2----)------",
                "  [1----|2----)------"
            ),
            (Segment::new(0, 0), 3),
            vec![
                (Segment::new(0, 0), 0),
                (Segment::new(0, 6), 1),
                (Segment::new(6, 12), 2)
            ],
            vec![
                (Segment::new(0, 0), 3),
                (Segment::new(0, 6), 1),
                (Segment::new(6, 12), 2)
            ],
        )
    ];
    for (case_description, update_segment, insert_segments, expected_segments) in cases {
        for (permutation_description, indices) in &permutations[insert_segments.len()] {
            let mut segment_map = SegmentMap::new();
            for &index in indices {
                let (insert_segment, insert_value) = insert_segments[index];
                assert!(segment_map.insert(insert_segment, insert_value).is_ok());
            }
            let (update_segment, update_value) = update_segment;
            segment_map.update(&update_segment, |_| Some(update_value));
            assert_eq!(expected_segments, contents(segment_map), "\npermutation:\n\n{}\ncase:\n\n{}\n", permutation_description, case_description);
        }
    }
}

#[test]
fn test_update_remove() {
    let permutations = vec![
        vec![
        ], vec![(
                format!("{}\n",
                    "  [0----)"
                ),
                vec![0]
            )
        ], vec![(
                format!("{}\n{}\n{}\n",
                    "  [0----)",
                    "       \\",
                    "      [1----)"
                ),
                vec![0, 1]
            ), (
                format!("{}\n{}\n{}\n",
                    "      [1----)",
                    "       /",
                    "  [0----)"
                ),
                vec![1, 0]
            )
        ], vec![(
                format!("{}\n{}\n{}\n{}\n{}\n",
                    "  [0----)",
                    "       \\",
                    "      [1----)",
                    "           \\",
                    "          [2----)"
                ),
                vec![0, 1, 2]
            ), (
                format!("{}\n{}\n{}\n{}\n{}\n",
                    "  [0----)",
                    "       \\",
                    "      [2----)",
                    "       /",
                    "  [1----)"
                ),
                vec![0, 2, 1]
            ), (
                format!("{}\n{}\n{}\n",
                    "      [1----)",
                    "       /   \\",
                    "  [0----) [2----)",
                ),
                vec![1, 0, 2]
            ), (
                format!("{}\n{}\n{}\n{}\n{}\n",
                    "      [2----)",
                    "       /",
                    "  [0----)",
                    "       \\",
                    "      [1----)"
                ),
                vec![2, 0, 1]
            ), (
                format!("{}\n{}\n{}\n{}\n{}\n",
                    "          [2----)",
                    "           /",
                    "      [1----)",
                    "       /",
                    "  [0----)"
                ),
                vec![2, 1, 0]
            )
        ]
    ];
    let cases = vec![(
            format!("{}\n{}\n{}\n",
                "  [-----------------)",
                "                      -> -------------------",
                "  [0----|1----|2----)"
            ),
            Segment::new(0, 18),
            vec![
                (Segment::new(0, 6), 0),
                (Segment::new(6, 12), 1),
                (Segment::new(12, 18), 2)
            ],
            vec![],
        ), (
            format!("{}\n{}\n{}\n",
                "  [--------------)---",
                "                      -> ---------------[2-)",
                "  [0----|1----|2----)"
            ),
            Segment::new(0, 15),
            vec![
                (Segment::new(0, 6), 0),
                (Segment::new(6, 12), 1),
                (Segment::new(12, 18), 2)
            ],
            vec![
                (Segment::new(15, 18), 2)
            ],
        ), (
            format!("{}\n{}\n{}\n",
                "  [-----------)------",
                "                      -> ------------[2----)",
                "  [0----|1----|2----)"
            ),
            Segment::new(0, 12),
            vec![
                (Segment::new(0, 6), 0),
                (Segment::new(6, 12), 1),
                (Segment::new(12, 18), 2)
            ],
            vec![
                (Segment::new(12, 18), 2)
            ],
        ), (
            format!("{}\n{}\n{}\n",
                "  [--------)---------",
                "                      -> ---------[1-|2----)",
                "  [0----|1----|2----)"
            ),
            Segment::new(0, 9),
            vec![
                (Segment::new(0, 6), 0),
                (Segment::new(6, 12), 1),
                (Segment::new(12, 18), 2)
            ],
            vec![
                (Segment::new(9, 12), 1),
                (Segment::new(12, 18), 2)
            ],
        ), (
            format!("{}\n{}\n{}\n",
                "  [-----)------------",
                "                      -> ------[1----|2----)",
                "  [0----|1----|2----)"
            ),
            Segment::new(0, 6),
            vec![
                (Segment::new(0, 6), 0),
                (Segment::new(6, 12), 1),
                (Segment::new(12, 18), 2)
            ],
            vec![
                (Segment::new(6, 12), 1),
                (Segment::new(12, 18), 2)
            ],
        ), (
            format!("{}\n{}\n{}\n",
                "  [--)---------------",
                "                      -> ---[0-|1----|2----)",
                "  [0----|1----|2----)"
            ),
            Segment::new(0, 3),
            vec![
                (Segment::new(0, 6), 0),
                (Segment::new(6, 12), 1),
                (Segment::new(12, 18), 2)
            ],
            vec![
                (Segment::new(3, 6), 0),
                (Segment::new(6, 12), 1),
                (Segment::new(12, 18), 2)
            ],
        ), (
            format!("{}\n{}\n{}\n",
                "  |------------------",
                "                      -> [0----|1----|2----)",
                "  [0----|1----|2----)"
            ),
            Segment::new(0, 0),
            vec![
                (Segment::new(0, 6), 0),
                (Segment::new(6, 12), 1),
                (Segment::new(12, 18), 2)
            ],
            vec![
                (Segment::new(0, 6), 0),
                (Segment::new(6, 12), 1),
                (Segment::new(12, 18), 2)
            ],
        ), (
            format!("{}\n{}\n{}\n",
                "  ---[--------------)",
                "                      -> [0-)---------------",
                "  [0----|1----|2----)"
            ),
            Segment::new(3, 18),
            vec![
                (Segment::new(0, 6), 0),
                (Segment::new(6, 12), 1),
                (Segment::new(12, 18), 2)
            ],
            vec![
                (Segment::new(0, 3), 0)
            ],
        ), (
            format!("{}\n{}\n{}\n",
                "  ---[-----------)---",
                "                      -> [0-)-----------[2-)",
                "  [0----|1----|2----)"
            ),
            Segment::new(3, 15),
            vec![
                (Segment::new(0, 6), 0),
                (Segment::new(6, 12), 1),
                (Segment::new(12, 18), 2)
            ],
            vec![
                (Segment::new(0, 3), 0),
                (Segment::new(15, 18), 2)
            ],
        ), (
            format!("{}\n{}\n{}\n",
                "  ---[--------)------",
                "                      -> [0-)--------[2----)",
                "  [0----|1----|2----)"
            ),
            Segment::new(3, 12),
            vec![
                (Segment::new(0, 6), 0),
                (Segment::new(6, 12), 1),
                (Segment::new(12, 18), 2)
            ],
            vec![
                (Segment::new(0, 3), 0),
                (Segment::new(12, 18), 2)
            ],
        ), (
            format!("{}\n{}\n{}\n",
                "  ---[-----)---------",
                "                      -> [0-)-----[1-|2----)",
                "  [0----|1----|2----)"
            ),
            Segment::new(3, 9),
            vec![
                (Segment::new(0, 6), 0),
                (Segment::new(6, 12), 1),
                (Segment::new(12, 18), 2)
            ],
            vec![
                (Segment::new(0, 3), 0),
                (Segment::new(9, 12), 1),
                (Segment::new(12, 18), 2)
            ],
        ), (
            format!("{}\n{}\n{}\n",
                "  ---[--)------------",
                "                      -> [0-)--[1----|2----)",
                "  [0----|1----|2----)"
            ),
            Segment::new(3, 6),
            vec![
                (Segment::new(0, 6), 0),
                (Segment::new(6, 12), 1),
                (Segment::new(12, 18), 2)
            ],
            vec![
                (Segment::new(0, 3), 0),
                (Segment::new(6, 12), 1),
                (Segment::new(12, 18), 2)
            ],
        ), (
            format!("{}\n{}\n{}\n",
                "  --[-)--------------",
                "                      -> [0)-[0|1----|2----)",
                "  [0----|1----|2----)"
            ),
            Segment::new(2, 4),
            vec![
                (Segment::new(0, 6), 0),
                (Segment::new(6, 12), 1),
                (Segment::new(12, 18), 2)
            ],
            vec![
                (Segment::new(0, 2), 0),
                (Segment::new(4, 6), 0),
                (Segment::new(6, 12), 1),
                (Segment::new(12, 18), 2)
            ],
        ), (
            format!("{}\n{}\n{}\n",
                "  ---|---------------",
                "                      -> [0-|0-|1----|2----)",
                "  [0----|1----|2----)"
            ),
            Segment::new(3, 3),
            vec![
                (Segment::new(0, 6), 0),
                (Segment::new(6, 12), 1),
                (Segment::new(12, 18), 2)
            ],
            vec![
                (Segment::new(0, 3), 0),
                (Segment::new(3, 6), 0),
                (Segment::new(6, 12), 1),
                (Segment::new(12, 18), 2)
            ],
        ), (
            format!("{}\n{}\n{}\n",
                "  ------[-----------)",
                "                      -> [0----)------------",
                "  [0----|1----|2----)"
            ),
            Segment::new(6, 18),
            vec![
                (Segment::new(0, 6), 0),
                (Segment::new(6, 12), 1),
                (Segment::new(12, 18), 2)
            ],
            vec![
                (Segment::new(0, 6), 0)
            ],
        ), (
            format!("{}\n{}\n{}\n",
                "  ------[--------)---",
                "                      -> [0----)--------[2-)",
                "  [0----|1----|2----)"
            ),
            Segment::new(6, 15),
            vec![
                (Segment::new(0, 6), 0),
                (Segment::new(6, 12), 1),
                (Segment::new(12, 18), 2)
            ],
            vec![
                (Segment::new(0, 6), 0),
                (Segment::new(15, 18), 2)
            ],
        ), (
            format!("{}\n{}\n{}\n",
                "  ------[-----)------",
                "                      -> [0----)-----[2----)",
                "  [0----|1----|2----)"
            ),
            Segment::new(6, 12),
            vec![
                (Segment::new(0, 6), 0),
                (Segment::new(6, 12), 1),
                (Segment::new(12, 18), 2)
            ],
            vec![
                (Segment::new(0, 6), 0),
                (Segment::new(12, 18), 2)
            ],
        ), (
            format!("{}\n{}\n{}\n",
                "  ------[--)---------",
                "                      -> [0----)--[1-|2----)",
                "  [0----|1----|2----)"
            ),
            Segment::new(6, 9),
            vec![
                (Segment::new(0, 6), 0),
                (Segment::new(6, 12), 1),
                (Segment::new(12, 18), 2)
            ],
            vec![
                (Segment::new(0, 6), 0),
                (Segment::new(9, 12), 1),
                (Segment::new(12, 18), 2)
            ],
        ), (
            format!("{}\n{}\n{}\n",
                "  ------|------------",
                "                      -> [0----|1----|2----)",
                "  [0----|1----|2----)"
            ),
            Segment::new(6, 6),
            vec![
                (Segment::new(0, 6), 0),
                (Segment::new(6, 12), 1),
                (Segment::new(12, 18), 2)
            ],
            vec![
                (Segment::new(0, 6), 0),
                (Segment::new(6, 12), 1),
                (Segment::new(12, 18), 2)
            ],
        ), (
            format!("{}\n{}\n{}\n",
                "  [-----------------)",
                "                      -> -------------------",
                "  ------[1----|2----)"
            ),
            Segment::new(0, 18),
            vec![
                (Segment::new(6, 12), 1),
                (Segment::new(12, 18), 2)
            ],
            vec![],
        ), (
            format!("{}\n{}\n{}\n",
                "  [--------------)---",
                "                      -> ---------------[2-)",
                "  ------[1----|2----)"
            ),
            Segment::new(0, 15),
            vec![
                (Segment::new(6, 12), 1),
                (Segment::new(12, 18), 2)
            ],
            vec![
                (Segment::new(15, 18), 2)
            ],
        ), (
            format!("{}\n{}\n{}\n",
                "  [-----------)------",
                "                      -> ------------[2----)",
                "  ------[1----|2----)"
            ),
            Segment::new(0, 12),
            vec![
                (Segment::new(6, 12), 1),
                (Segment::new(12, 18), 2)
            ],
            vec![
                (Segment::new(12, 18), 2)
            ],
        ), (
            format!("{}\n{}\n{}\n",
                "  [--------)---------",
                "                      -> ---------[1-|2----)",
                "  ------[1----|2----)"
            ),
            Segment::new(0, 9),
            vec![
                (Segment::new(6, 12), 1),
                (Segment::new(12, 18), 2)
            ],
            vec![
                (Segment::new(9, 12), 1),
                (Segment::new(12, 18), 2)
            ],
        ), (
            format!("{}\n{}\n{}\n",
                "  [-----)------------",
                "                      -> ------[1----|2----)",
                "  ------[1----|2----)"
            ),
            Segment::new(0, 6),
            vec![
                (Segment::new(6, 12), 1),
                (Segment::new(12, 18), 2)
            ],
            vec![
                (Segment::new(6, 12), 1),
                (Segment::new(12, 18), 2)
            ],
        ), (
            format!("{}\n{}\n{}\n",
                "  [--)---------------",
                "                      -> ------[1----|2----)",
                "  ------[1----|2----)"
            ),
            Segment::new(0, 3),
            vec![
                (Segment::new(6, 12), 1),
                (Segment::new(12, 18), 2)
            ],
            vec![
                (Segment::new(6, 12), 1),
                (Segment::new(12, 18), 2)
            ],
        ), (
            format!("{}\n{}\n{}\n",
                "  |------------------",
                "                      -> ------[1----|2----)",
                "  ------[1----|2----)"
            ),
            Segment::new(0, 0),
            vec![
                (Segment::new(6, 12), 1),
                (Segment::new(12, 18), 2)
            ],
            vec![
                (Segment::new(6, 12), 1),
                (Segment::new(12, 18), 2)
            ],
        ), (
            format!("{}\n{}\n{}\n",
                "  [-----------------)",
                "                      -> -------------------",
                "  [0----)-----[2----)"
            ),
            Segment::new(0, 18),
            vec![
                (Segment::new(0, 6), 0),
                (Segment::new(12, 18), 2)
            ],
            vec![],
        ), (
            format!("{}\n{}\n{}\n",
                "  [--------------)---",
                "                      -> ---------------[2-)",
                "  [0----)-----[2----)"
            ),
            Segment::new(0, 15),
            vec![
                (Segment::new(0, 6), 0),
                (Segment::new(12, 18), 2)
            ],
            vec![
                (Segment::new(15, 18), 2)
            ],
        ), (
            format!("{}\n{}\n{}\n",
                "  [-----------)------",
                "                      -> ------------[2----)",
                "  [0----)-----[2----)"
            ),
            Segment::new(0, 12),
            vec![
                (Segment::new(0, 6), 0),
                (Segment::new(12, 18), 2)
            ],
            vec![
                (Segment::new(12, 18), 2)
            ],
        ), (
            format!("{}\n{}\n{}\n",
                "  [--------)---------",
                "                      -> ------------[2----)",
                "  [0----)-----[2----)"
            ),
            Segment::new(0, 9),
            vec![
                (Segment::new(0, 6), 0),
                (Segment::new(12, 18), 2)
            ],
            vec![
                (Segment::new(12, 18), 2)
            ],
        ), (
            format!("{}\n{}\n{}\n",
                "  ---[--------------)",
                "                      -> [0-)---------------",
                "  [0----)-----[2----)"
            ),
            Segment::new(3, 18),
            vec![
                (Segment::new(0, 6), 0),
                (Segment::new(12, 18), 2)
            ],
            vec![
                (Segment::new(0, 3), 0)
            ],
        ), (
            format!("{}\n{}\n{}\n",
                "  ---[-----------)---",
                "                      -> [0-)-----------[2-)",
                "  [0----)-----[2----)"
            ),
            Segment::new(3, 15),
            vec![
                (Segment::new(0, 6), 0),
                (Segment::new(12, 18), 2)
            ],
            vec![
                (Segment::new(0, 3), 0),
                (Segment::new(15, 18), 2)
            ],
        ), (
            format!("{}\n{}\n{}\n",
                "  ---[--------)------",
                "                      -> [0-)--------[2----)",
                "  [0----)-----[2----)"
            ),
            Segment::new(3, 12),
            vec![
                (Segment::new(0, 6), 0),
                (Segment::new(12, 18), 2)
            ],
            vec![
                (Segment::new(0, 3), 0),
                (Segment::new(12, 18), 2)
            ],
        ), (
            format!("{}\n{}\n{}\n",
                "  ---[-----)---------",
                "                      -> [0-)--------[2----)",
                "  [0----)-----[2----)"
            ),
            Segment::new(3, 9),
            vec![
                (Segment::new(0, 6), 0),
                (Segment::new(12, 18), 2)
            ],
            vec![
                (Segment::new(0, 3), 0),
                (Segment::new(12, 18), 2)
            ],
        ), (
            format!("{}\n{}\n{}\n",
                "  [-----------------)",
                "                      -> -------------------",
                "  [0----|1----)------"
            ),
            Segment::new(0, 18),
            vec![
                (Segment::new(0, 6), 0),
                (Segment::new(6, 12), 1)
            ],
            vec![],
        ), (
            format!("{}\n{}\n{}\n",
                "  [--------------)---",
                "                      -> -------------------",
                "  [0----|1----)------"
            ),
            Segment::new(0, 15),
            vec![
                (Segment::new(0, 6), 0),
                (Segment::new(6, 12), 1)
            ],
            vec![],
        ), (
            format!("{}\n{}\n{}\n",
                "  ---[--------------)",
                "                      -> [0-)---------------",
                "  [0----|1----)------"
            ),
            Segment::new(3, 18),
            vec![
                (Segment::new(0, 6), 0),
                (Segment::new(6, 12), 1)
            ],
            vec![
                (Segment::new(0, 3), 0)
            ],
        ), (
            format!("{}\n{}\n{}\n",
                "  [-----------------)",
                "                      -> -------------------",
                "  ------[1----)------"
            ),
            Segment::new(0, 18),
            vec![
                (Segment::new(6, 12), 1)
            ],
            vec![],
        ), (
            format!("{}\n{}\n{}\n",
                "  |------------------",
                "                      -> [1----|2----)------",
                "  [1----|2----)------"
            ),
            Segment::new(0, 0),
            vec![
                (Segment::new(0, 0), 0),
                (Segment::new(0, 6), 1),
                (Segment::new(6, 12), 2)
            ],
            vec![
                (Segment::new(0, 6), 1),
                (Segment::new(6, 12), 2)
            ],
        )
    ];
    for (case_description, update_segment, insert_segments, expected_segments) in cases {
        for (permutation_description, indices) in &permutations[insert_segments.len()] {
            let mut segment_map = SegmentMap::new();
            for &index in indices {
                let (insert_segment, insert_value) = insert_segments[index];
                assert!(segment_map.insert(insert_segment, insert_value).is_ok());
            }
            segment_map.update(&update_segment, |_| None);
            assert_eq!(expected_segments, contents(segment_map), "\npermutation:\n\n{}\ncase:\n\n{}\n", permutation_description, case_description);
        }
    }
}
