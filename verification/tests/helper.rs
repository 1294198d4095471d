use tensor_graph::position::Position;
use tensor_graph::shape::Shape;
use tensor_graph::slice::{Interval, Slice};
use tensor_graph::stride::Stride;

fn incdec_cases() {
    let shapes = [
        Shape::from_slice(&[1]),
        Shape::from_slice(&[3]),
        Shape::from_slice(&[3, 5, 9]),
        Shape::from_slice(&[9, 5, 3]),
        Shape::from_slice(&[5, 9, 3]),
    ];
    for shape in shapes.iter() {
        let zero = Position::from_slice(&vec![0; shape.len()]);
        let mut curr = zero.clone();
        for off in 1..shape.len() {
            let max_reps = shape.len() / off;
            for _ in 0..max_reps {
                curr.incdec_mut(shape, off as i64).unwrap();
                assert!(curr.within_bounds(&shape));
            }
            for _ in 0..max_reps {
                curr.incdec_mut(shape, -(off as i64)).unwrap();
                assert!(curr.within_bounds(&shape));
            }
        }
        assert_eq!(curr, zero);
    }
}

#[test]
fn position_incdec() {
    incdec_cases();
}

#[test]
fn mod_incdec() {
    incdec_cases();
}

fn interval_cases() {
    let dim = 512usize;

    let i0 = Interval::start_to(8);
    assert_eq!(i0.start_index(), 0);
    assert_eq!(i0.end_index(dim), 8);
    assert_eq!(i0.step(), 1);
    assert_eq!(i0.len(dim), 8);

    let start = 256usize;
    let i1 = Interval::end_from(start);
    assert_eq!(i1.start_index(), start);
    assert_eq!(i1.end_index(dim), dim);
    assert_eq!(i1.step(), 1);
    assert_eq!(i1.len(dim), dim - start);

    let start = 256usize - 128usize;
    let end = 256usize + 128usize;
    let i2 = Interval::between(start, end);
    assert_eq!(i2.start_index(), start);
    assert_eq!(i2.end_index(dim), end);
    assert_eq!(i2.step(), 1);
    assert_eq!(i2.len(dim), end - start);

    let start = 256usize - 128usize;
    let end = 256usize + 128usize;
    let step = 2usize;
    let i3 = Interval::between_with_step(start, end, step);
    assert_eq!(i3.start_index(), start);
    assert_eq!(i3.end_index(dim), end);
    assert_eq!(i3.step(), step);
    assert_eq!(i3.len(dim), (end - start) / step);

    let start = 256usize;
    let i4 = Interval::only(start);
    assert_eq!(i4.start_index(), start);
    assert_eq!(i4.end_index(dim), start + 1);
    assert_eq!(i4.step(), 1);
    assert_eq!(i4.len(dim), 1);

    let i5 = Interval::all();
    assert_eq!(i5.start_index(), 0);
    assert_eq!(i5.end_index(dim), dim);
    assert_eq!(i5.step(), 1);
    assert_eq!(i5.len(dim), dim);
}

#[test]
fn interval_create_and_properties() {
    interval_cases();
}

#[test]
fn mod_interval_create_and_properties() {
    interval_cases();
}

#[test]
fn basic_intervals() {
    let base_shape = Shape::from_slice(&[6, 5, 4, 3, 2]);
    let intervals = vec![
        Interval::all(),
        Interval::between(2, 4),
        Interval::start_to(2),
        Interval::end_from(1),
        Interval::only(1),
    ];
    let slice = Slice::new(intervals, base_shape);

    let ref_positions: Vec<Vec<usize>> = vec![
        vec![0, 2, 0, 1, 1], vec![0, 2, 0, 2, 1], vec![0, 2, 1, 1, 1], vec![0, 2, 1, 2, 1],
        vec![0, 3, 0, 1, 1], vec![0, 3, 0, 2, 1], vec![0, 3, 1, 1, 1], vec![0, 3, 1, 2, 1],
        vec![1, 2, 0, 1, 1], vec![1, 2, 0, 2, 1], vec![1, 2, 1, 1, 1], vec![1, 2, 1, 2, 1],
        vec![1, 3, 0, 1, 1], vec![1, 3, 0, 2, 1], vec![1, 3, 1, 1, 1], vec![1, 3, 1, 2, 1],
        vec![2, 2, 0, 1, 1], vec![2, 2, 0, 2, 1], vec![2, 2, 1, 1, 1], vec![2, 2, 1, 2, 1],
        vec![2, 3, 0, 1, 1], vec![2, 3, 0, 2, 1], vec![2, 3, 1, 1, 1], vec![2, 3, 1, 2, 1],
        vec![3, 2, 0, 1, 1], vec![3, 2, 0, 2, 1], vec![3, 2, 1, 1, 1], vec![3, 2, 1, 2, 1],
        vec![3, 3, 0, 1, 1], vec![3, 3, 0, 2, 1], vec![3, 3, 1, 1, 1], vec![3, 3, 1, 2, 1],
        vec![4, 2, 0, 1, 1], vec![4, 2, 0, 2, 1], vec![4, 2, 1, 1, 1], vec![4, 2, 1, 2, 1],
        vec![4, 3, 0, 1, 1], vec![4, 3, 0, 2, 1], vec![4, 3, 1, 1, 1], vec![4, 3, 1, 2, 1],
        vec![5, 2, 0, 1, 1], vec![5, 2, 0, 2, 1], vec![5, 2, 1, 1, 1], vec![5, 2, 1, 2, 1],
        vec![5, 3, 0, 1, 1], vec![5, 3, 0, 2, 1], vec![5, 3, 1, 1, 1], vec![5, 3, 1, 2, 1],
    ];

    let mut it = slice.iter();
    let mut collected: Vec<Position> = Vec::new();
    while let Some(p) = it.next() {
        collected.push(p);
    }
    assert_eq!(collected.len(), slice.elements());
    for (e, r) in collected.iter().zip(ref_positions.iter()) {
        assert_eq!(*e, Position::from_slice(r));
    }
}

#[test]
fn from_shape_examples() {
    let examples = [
        (Shape::from_slice(&[1]), Stride::from_slice(&[1])),
        (Shape::from_slice(&[20, 50, 4]), Stride::from_slice(&[200, 4, 1])),
    ];
    for (shape, stride) in examples {
        assert_eq!(Stride::default_from_shape(&shape), stride);
    }
}
