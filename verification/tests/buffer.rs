use electrocute::{CircuitError, ComponentBuffer};

const DEMO: u64 = 42;

#[test]
fn test_component_iteration() {
    let mut buffer = ComponentBuffer::new(4, 4, DEMO);

    const N: u32 = 5;

    (0..N).for_each(|_| buffer.push(DEMO, &0u32.to_ne_bytes()).unwrap());

    let n = buffer
        .iter(DEMO)
        .unwrap()
        .iter()
        .fold(0u32, |acc, _| acc + 1);

    assert_eq!(n, N);
}

#[test]
fn test_component_mut_iteration() {
    let mut buffer = ComponentBuffer::new(4, 4, DEMO);

    const N: usize = 5;
    (0..N).for_each(|_| buffer.push(DEMO, &0u32.to_ne_bytes()).unwrap());

    for i in 0..buffer.len() {
        buffer.write(DEMO, i, &1u32.to_ne_bytes()).unwrap();
    }

    for record in buffer.iter(DEMO).unwrap() {
        let inner = u32::from_ne_bytes([record[0], record[1], record[2], record[3]]);
        assert_eq!(inner, 1);
    }

    let n = buffer.iter(DEMO).unwrap().len();
    assert_eq!(n, N);
}

#[test]
fn stride_is_the_aligned_size() {
    assert_eq!(ComponentBuffer::new(0, 1, 0).stride(), 1);
    assert_eq!(ComponentBuffer::new(0, 8, 0).stride(), 8);
    assert_eq!(ComponentBuffer::new(1, 1, 0).stride(), 1);
    assert_eq!(ComponentBuffer::new(8, 8, 0).stride(), 8);
    assert_eq!(ComponentBuffer::new(9, 8, 0).stride(), 16);
    assert_eq!(ComponentBuffer::new(40, 8, 0).stride(), 40);
    assert_eq!(ComponentBuffer::new(5, 4, 0).stride(), 8);
    assert_eq!(ComponentBuffer::new(3, 2, 0).stride(), 4);
    assert_eq!(ComponentBuffer::new(12, 16, 0).stride(), 16);
}

#[test]
fn records_are_padded_with_zeros() {
    let mut buffer = ComponentBuffer::new(5, 4, 7);
    assert_eq!(buffer.len(), 0);
    assert_eq!(buffer.type_id(), 7);
    buffer.push(7, &[1, 2, 3, 4, 5]).unwrap();
    buffer.push(7, &[9]).unwrap();
    buffer.push(7, &[]).unwrap();
    assert_eq!(buffer.len(), 3);
    assert_eq!(buffer.get(7, 0), Ok(&[1u8, 2, 3, 4, 5, 0, 0, 0][..]));
    assert_eq!(buffer.get(7, 1), Ok(&[9u8, 0, 0, 0, 0, 0, 0, 0][..]));
    assert_eq!(buffer.record(2), &[0u8; 8][..]);
    buffer.write(7, 1, &[6, 6]).unwrap();
    assert_eq!(buffer.record(0), &[1u8, 2, 3, 4, 5, 0, 0, 0][..]);
    assert_eq!(buffer.record(1), &[6u8, 6, 0, 0, 0, 0, 0, 0][..]);
    assert_eq!(buffer.record(2), &[0u8; 8][..]);
    assert_eq!(buffer.len(), 3);
}

#[test]
fn wrong_type_is_a_hard_error() {
    let mut buffer = ComponentBuffer::new(2, 2, 1);
    buffer.push(1, &[1, 1]).unwrap();
    let mismatch = CircuitError::TypeMismatch {
        stored: 1,
        requested: 2,
    };
    assert_eq!(buffer.push(2, &[2, 2]), Err(mismatch));
    assert_eq!(buffer.len(), 1);
    assert_eq!(buffer.get(2, 0), Err(mismatch));
    assert_eq!(buffer.iter(2), Err(mismatch));
    assert_eq!(buffer.write(2, 0, &[3, 3]), Err(mismatch));
    assert_eq!(buffer.record(0), &[1u8, 1][..]);
}
