use osmpbf::bbox::Bbox;

#[test]
fn test_bbox() {
    let mut bbox = Bbox::default();
    assert!(bbox.is_empty());
    bbox.add_node(10, 20);
    assert!(!bbox.is_empty());
    assert_eq!(
        bbox,
        Bbox {
            left: 10,
            right: 10,
            top: 20,
            bottom: 20
        }
    );
    bbox.add_node(12, 25);
    assert_eq!(
        bbox,
        Bbox {
            left: 10,
            right: 12,
            top: 25,
            bottom: 20
        }
    );
    bbox.add_node_list(&[14, 8], &[27, 23]);
    assert_eq!(
        bbox,
        Bbox {
            left: 8,
            right: 14,
            top: 27,
            bottom: 20
        }
    );
}

#[test]
fn bbox_of_points_is_their_extremes() {
    let mut bbox = Bbox::default();
    bbox.add_node_list(&[5, -3, 9, 0], &[-7, 4, 2, 11]);
    assert_eq!(
        bbox,
        Bbox {
            left: -3,
            right: 9,
            top: 11,
            bottom: -7
        }
    );
    assert!(!bbox.is_empty());
}

#[test]
fn bbox_empty_lists_keep_it_empty() {
    let mut bbox = Bbox::default();
    bbox.add_node_list(&[], &[]);
    assert!(bbox.is_empty());
    assert_eq!(bbox, Bbox::default());
}

#[test]
fn bbox_extreme_values() {
    let mut bbox = Bbox::default();
    bbox.add_node(i64::MIN, i64::MAX);
    assert!(!bbox.is_empty());
    assert_eq!(
        bbox,
        Bbox {
            left: i64::MIN,
            right: i64::MIN,
            top: i64::MAX,
            bottom: i64::MAX
        }
    );
}
