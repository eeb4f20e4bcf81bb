use index_ref_buf::{IndexRef, IndexRefBuf};

#[test]
pub fn make_sure_reference_points_to_same_element_after_modifications() {
    const INITIAL_BUF_SIZE: usize = 4;
    const INSERTED_SLICES_LEN: usize = 2;
    const SPLICE_SRC_LEN: usize = 2;
    const SPLICE_DST_LEN: usize = 3;
    for magic_index in 0..INITIAL_BUF_SIZE {
        // initialize the buffer with 1 magic element
        let mut raw_buf = vec![0u8; INITIAL_BUF_SIZE];
        raw_buf[magic_index] = 1;

        let mut buf = IndexRefBuf::from_vec(raw_buf);

        // take a reference to the magic element
        let magic_elem_index_ref = buf.create_index_ref(magic_index);

        // insert elements at every possible location, skipping both the
        // element just passed and the one just inserted.
        let len = buf.len();
        for i in (0..(len + 1) * 2).step_by(2) {
            buf.insert(i, 0);
        }

        // insert slices at every possible location.
        let slice_to_insert = [0u8; INSERTED_SLICES_LEN];
        let len = buf.len();
        let step = INSERTED_SLICES_LEN + 1;
        for i in (0..(len + 1) * step).step_by(step) {
            buf.insert_slice(i, slice_to_insert.as_slice());
        }

        // replace every range of the source length with a slice of the
        // destination length, unless it holds the magic element.
        let mut i = 0;
        let slice_to_splice = [0u8; SPLICE_DST_LEN];
        while i + SPLICE_SRC_LEN <= buf.len() {
            if buf[i..i + SPLICE_SRC_LEN].contains(&1) {
                i += 1;
                continue;
            }

            buf.splice(i..i + SPLICE_SRC_LEN, slice_to_splice.as_slice());

            // skip the whole range just replaced.
            i += SPLICE_DST_LEN;
        }

        let final_index = buf.read_index_ref(magic_elem_index_ref);
        assert_eq!(buf[final_index], 1);
    }
}

#[test]
fn scenario_insert_then_insert_slice() {
    let mut buf = IndexRefBuf::from_vec(vec![0, 0, 1, 0]);
    let r = buf.create_index_ref(2);
    buf.insert(0, 0);
    assert_eq!(buf.as_slice(), &[0, 0, 0, 1, 0]);
    assert_eq!(buf.read_index_ref(r), 3);
    assert_eq!(buf[3], 1);
    buf.insert_slice(1, &[0, 0]);
    assert_eq!(buf.as_slice(), &[0, 0, 0, 0, 0, 1, 0]);
    assert_eq!(buf.len(), 7);
    assert_eq!(buf.read_index_ref(r), 5);
    assert_eq!(buf[5], 1);
}

#[test]
fn scenario_splice_growth() {
    let mut buf = IndexRefBuf::from_vec(vec![1, 2, 3, 4, 5]);
    let r = buf.create_index_ref(4);
    let removed = buf.splice(0..2, &[9, 9, 9]);
    assert_eq!(removed, vec![1, 2]);
    assert_eq!(buf.as_slice(), &[9, 9, 9, 3, 4, 5]);
    assert_eq!(buf.read_index_ref(r), 5);
    assert_eq!(buf[5], 5);
}

#[test]
fn scenario_splice_covering_reference() {
    let mut buf = IndexRefBuf::from_vec(vec![1, 2, 3]);
    let r = buf.create_index_ref(1);
    let removed = buf.splice(0..2, &[8, 8, 8, 8]);
    assert_eq!(removed, vec![1, 2]);
    assert_eq!(buf.as_slice(), &[8, 8, 8, 8, 3]);
    assert_eq!(buf.read_index_ref(r), 1);
    assert_eq!(buf[1], 8);
}

#[test]
fn new_buffer_is_empty() {
    let buf = IndexRefBuf::new();
    assert!(buf.is_empty());
    assert_eq!(buf.len(), 0);
    assert_eq!(buf.as_slice(), &[] as &[u8]);
}

#[test]
fn from_vec_keeps_content() {
    let buf = IndexRefBuf::from_vec(vec![7, 8]);
    assert!(!buf.is_empty());
    assert_eq!(buf.len(), 2);
    assert_eq!(&buf[..], &[7, 8]);
}

#[test]
fn handles_name_their_own_slots() {
    let mut buf = IndexRefBuf::from_vec(vec![1, 2, 3]);
    let a = buf.create_index_ref(0);
    let b = buf.create_index_ref(2);
    let c = buf.create_index_ref(0);
    assert_ne!(a, b);
    assert_ne!(a, c);
    let copy: IndexRef = b;
    assert_eq!(copy, b);
    assert_eq!(buf.read_index_ref(a), 0);
    assert_eq!(buf.read_index_ref(b), 2);
    assert_eq!(buf.read_index_ref(c), 0);
}

#[test]
fn insert_at_reference_pushes_it_forward() {
    let mut buf = IndexRefBuf::from_vec(vec![5, 6, 7]);
    let r = buf.create_index_ref(1);
    buf.insert(1, 0);
    assert_eq!(buf.read_index_ref(r), 2);
    assert_eq!(buf[2], 6);
    buf.insert_slice(2, &[1, 1, 1]);
    assert_eq!(buf.read_index_ref(r), 5);
    assert_eq!(buf[5], 6);
}

#[test]
fn insert_before_and_after_reference() {
    let mut buf = IndexRefBuf::from_vec(vec![5, 6, 7]);
    let r = buf.create_index_ref(1);
    buf.insert(3, 9);
    assert_eq!(buf.as_slice(), &[5, 6, 7, 9]);
    assert_eq!(buf.read_index_ref(r), 1);
    buf.insert(0, 4);
    assert_eq!(buf.as_slice(), &[4, 5, 6, 7, 9]);
    assert_eq!(buf.read_index_ref(r), 2);
    assert_eq!(buf[2], 6);
}

#[test]
fn insert_empty_slice_moves_nothing() {
    let mut buf = IndexRefBuf::from_vec(vec![5, 6]);
    let r = buf.create_index_ref(0);
    buf.insert_slice(0, &[]);
    assert_eq!(buf.as_slice(), &[5, 6]);
    assert_eq!(buf.read_index_ref(r), 0);
}

#[test]
fn splice_of_same_length_moves_nothing() {
    let mut buf = IndexRefBuf::from_vec(vec![1, 2, 3, 4]);
    let r = buf.create_index_ref(3);
    let removed = buf.splice(1..3, &[8, 9]);
    assert_eq!(removed, vec![2, 3]);
    assert_eq!(buf.as_slice(), &[1, 8, 9, 4]);
    assert_eq!(buf.read_index_ref(r), 3);
}

#[test]
fn splice_leaves_earlier_positions() {
    let mut buf = IndexRefBuf::from_vec(vec![1, 2, 3, 4]);
    let before = buf.create_index_ref(0);
    let at_end = buf.create_index_ref(3);
    let removed = buf.splice(2..3, &[7, 7, 7]);
    assert_eq!(removed, vec![3]);
    assert_eq!(buf.as_slice(), &[1, 2, 7, 7, 7, 4]);
    assert_eq!(buf.read_index_ref(before), 0);
    assert_eq!(buf.read_index_ref(at_end), 5);
    assert_eq!(buf[5], 4);
}

#[test]
fn splice_of_empty_range_at_end_appends() {
    let mut buf = IndexRefBuf::from_vec(vec![1]);
    let r = buf.create_index_ref(0);
    let removed = buf.splice(1..1, &[2, 3]);
    assert!(removed.is_empty());
    assert_eq!(buf.as_slice(), &[1, 2, 3]);
    assert_eq!(buf.read_index_ref(r), 0);
}

#[test]
fn appending_moves_no_reference() {
    let mut buf = IndexRefBuf::new();
    let r = buf.create_index_ref(0);
    buf.push(4);
    assert_eq!(buf.read_index_ref(r), 0);
    assert_eq!(buf[0], 4);
    buf.extend_from_slice(&[5, 6]);
    let mut more = vec![7, 8];
    buf.append(&mut more);
    assert!(more.is_empty());
    assert_eq!(buf.as_slice(), &[4, 5, 6, 7, 8]);
    assert_eq!(buf.read_index_ref(r), 0);
}

#[test]
fn out_of_range_position_is_stored_as_is() {
    let mut buf = IndexRefBuf::from_vec(vec![1, 2]);
    let r = buf.create_index_ref(10);
    assert_eq!(buf.read_index_ref(r), 10);
    buf.insert(1, 0);
    assert_eq!(buf.read_index_ref(r), 11);
    buf.push(3);
    assert_eq!(buf.read_index_ref(r), 11);
}

#[test]
fn length_grows_by_each_operation() {
    let mut buf = IndexRefBuf::from_vec(vec![1, 2, 3]);
    buf.insert(0, 0);
    assert_eq!(buf.len(), 4);
    buf.insert_slice(2, &[9, 9]);
    assert_eq!(buf.len(), 6);
    buf.splice(0..3, &[5, 5, 5, 5, 5]);
    assert_eq!(buf.len(), 8);
    buf.push(1);
    assert_eq!(buf.len(), 9);
}

#[test]
fn clones_compare_equal_until_one_grows() {
    let mut buf = IndexRefBuf::from_vec(vec![1, 2]);
    buf.create_index_ref(1);
    let mut copy = buf.clone();
    assert_eq!(copy, buf);
    copy.insert(0, 0);
    assert_ne!(copy, buf);
    assert_eq!(buf.as_slice(), &[1, 2]);
}
