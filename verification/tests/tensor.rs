use tensor_graph::position::Position;
use tensor_graph::shape::Shape;
use tensor_graph::slice::Interval;
use tensor_graph::tensor::Array;

fn elems_of(t: &Array) -> Vec<i64> {
    let mut out = Vec::new();
    let mut it = t.iter_units();
    while let Some(v) = it.next() {
        out.push(v);
    }
    out
}

#[test]
fn slice_with_normal_step() {
    let tensor = Array::from_slice(&[0, 1, 2, 3, 4, 5], Shape::from_slice(&[2, 3]));
    let sliced = tensor.slice(&[Interval::all(), Interval::end_from(1)]);
    assert_eq!(sliced.shape(), &Shape::from_slice(&[2, 2]));
    assert_eq!(elems_of(&sliced), vec![1, 2, 4, 5]);
}

#[test]
fn reshape_keeps_elements() {
    let tensor = Array::from_slice(&[1, 2, 3, 4, 5, 6], Shape::from_slice(&[2, 3]));
    let reshaped = tensor.reshape(&Shape::from_slice(&[3, 2])).unwrap();
    assert_eq!(elems_of(&reshaped), vec![1, 2, 3, 4, 5, 6]);
    assert!(tensor.reshape(&Shape::from_slice(&[4, 2])).is_err());
    // a non-contiguous view reshapes through a fresh buffer
    let sliced = tensor.slice(&[Interval::all(), Interval::start_to(2)]);
    let packed = sliced.reshape(&Shape::from_slice(&[4])).unwrap();
    assert_eq!(elems_of(&packed), vec![1, 2, 4, 5]);
}

#[test]
fn broadcast_splice_repeats() {
    let tensor = Array::from_slice(&[1, 2, 3], Shape::from_slice(&[3]));
    let wide = tensor.broadcast_splice(0, &[2]);
    assert_eq!(wide.shape(), &Shape::from_slice(&[2, 3]));
    assert_eq!(elems_of(&wide), vec![1, 2, 3, 1, 2, 3]);
}

#[test]
fn structural_equality() {
    let a = Array::from_slice(&[1, 2, 3, 4], Shape::from_slice(&[2, 2]));
    let b = Array::from_slice(&[1, 2, 3, 4], Shape::from_slice(&[2, 2]));
    let c = Array::from_slice(&[1, 2, 3, 4], Shape::from_slice(&[4]));
    assert!(a.equals(&b));
    assert!(!a.equals(&c));
    // a strided view equals a fresh tensor showing the same elements
    let wide = Array::from_slice(&[9, 1, 2, 9, 3, 4], Shape::from_slice(&[3, 2]));
    let sub = wide.slice(&[Interval::end_from(1), Interval::all()]);
    let same = Array::from_slice(&[2, 9, 3, 4], Shape::from_slice(&[2, 2]));
    assert!(sub.equals(&same));
    let fresh = sub.reshape(&Shape::from_slice(&[2, 2])).unwrap();
    assert!(fresh.equals(&sub));
}

#[test]
fn get_reads_strided() {
    let tensor = Array::from_slice(&[10, 11, 12, 13, 14, 15], Shape::from_slice(&[2, 3]));
    assert_eq!(tensor.get(&Position::from_slice(&[0, 0])), 10);
    assert_eq!(tensor.get(&Position::from_slice(&[1, 2])), 15);
    assert_eq!(tensor.element(4), 14);
}
