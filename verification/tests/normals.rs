use rand::Rng;
use tmf::normals::{
    normal_array_len, read_normal, read_normal_array, save_normal, save_normal_array,
    NormalPrecisionMode, NormalReadError, QuantizedNormal,
};
use tmf::unaligned_rw::{UnalignedReader, UnalignedWriter};

type FloatType = f32;
type Vector3 = (FloatType, FloatType, FloatType);
const PI: FloatType = std::f32::consts::PI;
const NORM_PREC_HIGH: NormalPrecisionMode = NormalPrecisionMode(13);

fn dot(a: Vector3, b: Vector3) -> FloatType {
    a.0 * b.0 + a.1 * b.1 + a.2 * b.2
}

fn normalize(i: Vector3) -> Vector3 {
    let mag = (i.0 * i.0 + i.1 * i.1 + i.2 * i.2).sqrt();
    (i.0 / mag, i.1 / mag, i.2 / mag)
}

fn normal_to_encoding(normal: Vector3, precision: NormalPrecisionMode) -> QuantizedNormal {
    let multiplier = precision.max_bucket() as FloatType;
    let xy = (normal.0.abs(), normal.1.abs());
    let xy_mag = (xy.0 * xy.0 + xy.1 * xy.1).sqrt();
    let xy = (xy.0 / xy_mag, xy.1 / xy_mag);
    let asine = xy.0.asin() / (PI / 2.0);
    QuantizedNormal {
        asine: (asine * multiplier) as u64,
        z: (normal.2.abs() * multiplier) as u64,
        sx: normal.0 < 0.0,
        sy: normal.1 < 0.0,
        sz: normal.2 < 0.0,
    }
}

fn normal_from_encoding(normal: QuantizedNormal, precision: NormalPrecisionMode) -> Vector3 {
    let divisor = precision.max_bucket() as FloatType;
    let asine = (normal.asine as FloatType) / divisor * (PI / 2.0);
    let z = (normal.z as FloatType) / divisor;
    let (x, y) = asine.sin_cos();
    let xy_mag = (1.0 - z * z).sqrt();
    let x = x * xy_mag;
    let y = y * xy_mag;
    (
        if normal.sx { -x } else { x },
        if normal.sy { -y } else { y },
        if normal.sz { -z } else { z },
    )
}

fn test_save(normal: Vector3) {
    let precision = NormalPrecisionMode(14);
    let mut writer = UnalignedWriter::new();
    save_normal(normal_to_encoding(normal, precision), precision, &mut writer);
    let res = writer.flush();
    let mut reader = UnalignedReader::new(&res);
    let read = read_normal(precision, &mut reader).unwrap();
    let r_normal = normal_from_encoding(read, precision);
    let n_dot = (1.0 - dot(r_normal, normal)) * 180.0;
    assert!(
        n_dot < 0.01,
        "expected:{normal:?} != read:{r_normal:?} angle:{n_dot}"
    );
}

fn random_normal(rng: &mut rand::rngs::ThreadRng) -> Vector3 {
    normalize((
        rng.gen::<FloatType>() * 2.0 - 1.0,
        rng.gen::<FloatType>() * 2.0 - 1.0,
        rng.gen::<FloatType>() * 2.0 - 1.0,
    ))
}

#[test]
fn x_axis_rw() {
    test_save((1.0, 0.0, 0.0));
    test_save((-1.0, 0.0, 0.0));
}

#[test]
fn y_axis_rw() {
    test_save((0.0, 1.0, 0.0));
    test_save((0.0, -1.0, 0.0));
}

#[test]
fn z_axis_rw() {
    test_save((0.0, 0.0, 1.0));
    test_save((0.0, 0.0, -1.0));
}

#[test]
fn random_axis_rw() {
    let mut rng = rand::thread_rng();
    for _ in 0..100000 {
        let norm = random_normal(&mut rng);
        test_save(norm);
    }
}

#[test]
fn rw_normal_array() {
    let mut rng = rand::thread_rng();
    let count = ((rng.gen::<u32>() % 0x800) + 0x800) as usize;
    let mut res = Vec::with_capacity(count);
    let mut normals = Vec::with_capacity(count);
    for _ in 0..count {
        normals.push(random_normal(&mut rng));
    }
    let encoded: Vec<QuantizedNormal> = normals
        .iter()
        .map(|normal| normal_to_encoding(*normal, NORM_PREC_HIGH))
        .collect();
    save_normal_array(&encoded, &mut res, NORM_PREC_HIGH);
    let read = read_normal_array(&res).unwrap();
    assert_eq!(read.normals.len(), count);
    assert_eq!(read.precision.0, 13);
    for i in 0..count {
        let r_normal = normal_from_encoding(read.normals[i], read.precision);
        let normal = normals[i];
        let n_dot = (1.0 - dot(r_normal, normal)) * 180.0;
        assert!(
            n_dot < 0.1,
            "expected:{normal:?} != read:{r_normal:?} angle:{n_dot}"
        );
    }
}

#[test]
fn deviation_stays_under_target() {
    let mut rng = rand::thread_rng();
    let precision = NormalPrecisionMode::from_deg_dev(1, 100);
    assert_eq!(precision.0, 14);
    for _ in 0..20000 {
        let normal = random_normal(&mut rng);
        let read = normal_from_encoding(normal_to_encoding(normal, precision), precision);
        let n_dot = (1.0 - dot(read, normal)) * 180.0;
        assert!(n_dot < 0.01, "{normal:?} read as {read:?}");
    }
}

#[test]
fn precision_from_deviation() {
    assert_eq!(NormalPrecisionMode::from_deg_dev(1, 100).0, 14);
    assert_eq!(NormalPrecisionMode::from_deg_dev(1, 10).0, 10);
    assert_eq!(NormalPrecisionMode::from_deg_dev(1, 1).0, 7);
    assert_eq!(NormalPrecisionMode::from_deg_dev(45, 1).0, 1);
    assert_eq!(NormalPrecisionMode::from_deg_dev(45, 2).0, 2);
    assert_eq!(NormalPrecisionMode::from_deg_dev(90, 1).0, 0);
    assert_eq!(NormalPrecisionMode::from_deg_dev(91, 1).0, 0);
    assert_eq!(NormalPrecisionMode::from_deg_dev(89, 1).0, 1);
    assert_eq!(NormalPrecisionMode::from_deg_dev(1000, 1).0, 0);
}

#[test]
fn precision_from_deviation_edges() {
    assert_eq!(NormalPrecisionMode::from_deg_dev(0, 1).0, 255);
    assert_eq!(NormalPrecisionMode::from_deg_dev(0, 0).0, 0);
    assert_eq!(NormalPrecisionMode::from_deg_dev(5, 0).0, 0);
    assert_eq!(NormalPrecisionMode::from_deg_dev(1, u64::MAX).0, 71);
    assert_eq!(NormalPrecisionMode::from_deg_dev(u64::MAX, u64::MAX).0, 7);
}

#[test]
fn precision_from_deviation_is_the_formula() {
    for (num, den) in [(1u64, 100u64), (1, 3), (7, 2), (3, 1000), (12, 5), (1, 1024), (90, 4096)] {
        let deg = num as f64 / den as f64;
        let by_formula = (90.0 / deg).log2().ceil() as u8;
        assert_eq!(NormalPrecisionMode::from_deg_dev(num, den).0, by_formula, "{num}/{den}");
    }
}

#[test]
fn max_bucket_values() {
    assert_eq!(NormalPrecisionMode(0).max_bucket(), 0);
    assert_eq!(NormalPrecisionMode(1).max_bucket(), 1);
    assert_eq!(NormalPrecisionMode(14).max_bucket(), 16383);
    assert_eq!(NormalPrecisionMode(63).max_bucket(), u64::MAX / 2);
    assert_eq!(NormalPrecisionMode(64).max_bucket(), u64::MAX);
    assert_eq!(NormalPrecisionMode(200).max_bucket(), u64::MAX);
}

#[test]
fn record_bits_values() {
    assert_eq!(NormalPrecisionMode(0).record_bits(), 3);
    assert_eq!(NormalPrecisionMode(14).record_bits(), 31);
    assert_eq!(NormalPrecisionMode(255).record_bits(), 513);
}

#[test]
fn record_layout_is_signs_then_buckets() {
    let normal = QuantizedNormal { asine: 0b110, z: 0b001, sx: true, sy: false, sz: true };
    let mut writer = UnalignedWriter::new();
    save_normal(normal, NormalPrecisionMode(3), &mut writer);
    assert_eq!(writer.len_bits(), 9);
    // 1 0 1 | 110 | 001, then seven zero bits.
    assert_eq!(writer.flush(), vec![0b1011_1000, 0b1000_0000]);
}

#[test]
fn normal_array_exact_bytes() {
    let normals = [
        QuantizedNormal { asine: 3, z: 1, sx: true, sy: false, sz: true },
        QuantizedNormal { asine: 0, z: 2, sx: false, sy: true, sz: false },
    ];
    let mut out = vec![0xAA];
    save_normal_array(&normals, &mut out, NormalPrecisionMode(2));
    // 101 11 01 | 010 00 10, then two zero bits.
    assert_eq!(out, vec![0xAA, 2, 0, 0, 0, 0, 0, 0, 0, 2, 0b1011_1010, 0b1000_1000]);
    assert_eq!(normal_array_len(2, NormalPrecisionMode(2)), 11);
}

#[test]
fn empty_normal_array() {
    let mut out = Vec::new();
    save_normal_array(&[], &mut out, NormalPrecisionMode(9));
    assert_eq!(out, vec![0, 0, 0, 0, 0, 0, 0, 0, 9]);
    let read = read_normal_array(&out).unwrap();
    assert_eq!(read.precision.0, 9);
    assert!(read.normals.is_empty());
    assert_eq!(normal_array_len(0, NormalPrecisionMode(9)), 9);
}

#[test]
fn normal_array_round_trip_is_exact() {
    let normals = [
        QuantizedNormal { asine: 16383, z: 0, sx: false, sy: false, sz: false },
        QuantizedNormal { asine: 0, z: 16383, sx: true, sy: true, sz: true },
        QuantizedNormal { asine: 1234, z: 4321, sx: false, sy: true, sz: false },
    ];
    let mut out = Vec::new();
    save_normal_array(&normals, &mut out, NormalPrecisionMode(14));
    assert_eq!(out.len() as u128, normal_array_len(3, NormalPrecisionMode(14)));
    out.extend_from_slice(&[0xFF, 0x01]);
    let read = read_normal_array(&out).unwrap();
    assert_eq!(read.precision.0, 14);
    assert_eq!(read.normals, normals.to_vec());
}

#[test]
fn buckets_lose_the_bits_that_do_not_fit() {
    let normals = [QuantizedNormal { asine: 0b1_0110, z: 0xFFFF, sx: false, sy: false, sz: true }];
    let mut out = Vec::new();
    save_normal_array(&normals, &mut out, NormalPrecisionMode(4));
    let read = read_normal_array(&out).unwrap();
    assert_eq!(
        read.normals,
        vec![QuantizedNormal { asine: 0b0110, z: 0xF, sx: false, sy: false, sz: true }]
    );
}

#[test]
fn wide_buckets_round_trip() {
    for bits in [63u8, 64, 65, 100, 255] {
        let normals = [
            QuantizedNormal { asine: u64::MAX / 2, z: 1, sx: true, sy: false, sz: false },
            QuantizedNormal { asine: 0x0123_4567_89AB_CDEF >> 1, z: 77, sx: false, sy: false, sz: true },
        ];
        let mut out = Vec::new();
        save_normal_array(&normals, &mut out, NormalPrecisionMode(bits));
        assert_eq!(out.len() as u128, normal_array_len(2, NormalPrecisionMode(bits)));
        let read = read_normal_array(&out).unwrap();
        assert_eq!(read.precision.0, bits);
        assert_eq!(read.normals, normals.to_vec());
    }
    let whole = [QuantizedNormal { asine: u64::MAX, z: u64::MAX - 1, sx: false, sy: true, sz: false }];
    let mut out = Vec::new();
    save_normal_array(&whole, &mut out, NormalPrecisionMode(64));
    assert_eq!(read_normal_array(&out).unwrap().normals, whole.to_vec());
}

#[test]
fn truncated_header_is_an_error() {
    for len in 0..9 {
        let bytes = vec![0u8; len];
        assert!(matches!(read_normal_array(&bytes), Err(NormalReadError::HeaderTruncated)));
    }
}

#[test]
fn truncated_records_are_an_error() {
    let normals = [
        QuantizedNormal { asine: 5, z: 6, sx: true, sy: false, sz: true },
        QuantizedNormal { asine: 7, z: 1, sx: false, sy: false, sz: true },
    ];
    let mut out = Vec::new();
    save_normal_array(&normals, &mut out, NormalPrecisionMode(10));
    // 2 * 23 bits take six bytes.
    assert_eq!(out.len(), 15);
    out.pop();
    assert!(matches!(read_normal_array(&out), Err(NormalReadError::RecordsTruncated)));
    let huge = [0xFF, 0xFF, 0xFF, 0xFF, 0xFF, 0xFF, 0xFF, 0xFF, 255, 1, 2, 3];
    assert!(matches!(read_normal_array(&huge), Err(NormalReadError::RecordsTruncated)));
}

#[test]
fn any_bits_read_as_some_normals() {
    let bytes = [3, 0, 0, 0, 0, 0, 0, 0, 0, 0b1010_0111, 0xFF];
    let read = read_normal_array(&bytes).unwrap();
    assert_eq!(read.precision.0, 0);
    assert_eq!(
        read.normals,
        vec![
            QuantizedNormal { asine: 0, z: 0, sx: true, sy: false, sz: true },
            QuantizedNormal { asine: 0, z: 0, sx: false, sy: false, sz: true },
            QuantizedNormal { asine: 0, z: 0, sx: true, sy: true, sz: true },
        ]
    );
}

#[test]
fn read_normal_needs_a_whole_record() {
    let bytes = [0xFF, 0xFF];
    let mut reader = UnalignedReader::new(&bytes);
    assert!(read_normal(NormalPrecisionMode(7), &mut reader).is_none());
    assert_eq!(reader.remaining_bits(), 16);
    let read = read_normal(NormalPrecisionMode(6), &mut reader).unwrap();
    assert_eq!(read, QuantizedNormal { asine: 63, z: 63, sx: true, sy: true, sz: true });
    assert_eq!(reader.remaining_bits(), 1);
}
