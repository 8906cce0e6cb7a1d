use tmf::merge::merge_identical_normals;
use tmf::normals::QuantizedNormal;

fn quantized(asine: u64, z: u64, sz: bool) -> QuantizedNormal {
    QuantizedNormal { asine, z, sx: false, sy: false, sz }
}

#[test]
fn equal_encodings_are_merged() {
    let a = quantized(1, 2, false);
    let b = quantized(1, 2, true);
    let c = quantized(9, 9, false);
    let normals = [(0.1f32, 0.0f32), (0.2, 0.0), (0.3, 0.0), (0.4, 0.0), (0.5, 0.0)];
    let encoded = [a, b, a, c, b];
    let faces = [0, 1, 2, 3, 4, 2, 4, 0];
    let (kept, new_faces) = merge_identical_normals(&normals, &encoded, &faces);
    // The first of each group stays, with its own unquantized value.
    assert_eq!(kept, vec![(0.1, 0.0), (0.2, 0.0), (0.4, 0.0)]);
    assert_eq!(new_faces, vec![0, 1, 0, 2, 1, 0, 1, 0]);
}

#[test]
fn merged_indices_are_in_range_and_shared() {
    let encoded: Vec<QuantizedNormal> = (0..200u64).map(|i| quantized(i % 7, i % 3, i % 2 == 0)).collect();
    let faces: Vec<u32> = (0..600u32).map(|i| (i * 37) % 200).collect();
    let (kept, new_faces) = merge_identical_normals(&encoded, &encoded, &faces);
    assert_eq!(kept.len(), 42);
    assert_eq!(new_faces.len(), faces.len());
    for (old, new) in faces.iter().zip(new_faces.iter()) {
        assert!((*new as usize) < kept.len());
        assert_eq!(kept[*new as usize], encoded[*old as usize]);
    }
    for a in 0..faces.len() {
        for b in 0..a {
            let same = encoded[faces[a] as usize] == encoded[faces[b] as usize];
            assert_eq!(same, new_faces[a] == new_faces[b]);
        }
    }
}

#[test]
fn merging_twice_changes_nothing() {
    let encoded: Vec<QuantizedNormal> = (0..50u64).map(|i| quantized(i % 5, i % 4, false)).collect();
    let faces: Vec<u32> = (0..50).collect();
    let (kept, new_faces) = merge_identical_normals(&encoded, &encoded, &faces);
    assert_eq!(kept.len(), 20);
    let (again, same_faces) = merge_identical_normals(&kept, &kept, &new_faces);
    assert_eq!(again, kept);
    assert_eq!(same_faces, new_faces);
}

#[test]
fn merging_nothing() {
    let normals: [u8; 0] = [];
    let (kept, faces) = merge_identical_normals(&normals, &[], &[]);
    assert!(kept.is_empty());
    assert!(faces.is_empty());
    let (kept, faces) = merge_identical_normals(&[5u8], &[quantized(0, 0, false)], &[]);
    assert_eq!(kept, vec![5]);
    assert!(faces.is_empty());
}
