use dependency_graph::enum_slicer::IntoEnumSlice;

#[derive(Debug, PartialEq, Eq, Clone, Copy)]
enum Direction {
    North,
    East,
    South,
    West,
}

impl IntoEnumSlice for Direction {
    fn variants_slice<'a>() -> &'a [Self]
    where
        Self: Sized,
    {
        &[Direction::North, Direction::East, Direction::South, Direction::West]
    }
}

#[test]
fn test_variants_slice_lists_all_variants() {
    let variants = Direction::variants_slice();
    assert_eq!(
        variants,
        &[Direction::North, Direction::East, Direction::South, Direction::West]
    );
    assert_eq!(variants.len(), 4);
}
