use swc_render::header::{V3DPBD, HEAD_LEN};
use swc_render::render::{assemble, band_layout, split_millis, worker_count, Band};

fn header(endian: u8, sizes: [u32; 4]) -> Vec<u8> {
    let mut b = b"v3d_volume_pkbitdf_encod".to_vec();
    b.push(endian);
    b.extend_from_slice(&[0, 1]);
    for s in sizes {
        if endian == b'L' {
            b.extend_from_slice(&s.to_le_bytes());
        } else {
            b.extend_from_slice(&s.to_be_bytes());
        }
    }
    b
}

#[test]
fn header_little_and_big_endian() {
    let sizes = [512, 256, 0x0102_0304, 1];
    let b = header(b'L', sizes);
    assert_eq!(b.len(), HEAD_LEN);
    assert_eq!(V3DPBD::from_header(&b).unwrap().mysz(), sizes);
    let b = header(b'B', sizes);
    assert_eq!(V3DPBD::from_header(&b).unwrap().mysz(), sizes);
}

#[test]
fn header_rejects_bad_input() {
    let mut b = header(b'L', [1, 2, 3, 4]);
    b[0] = b'w';
    assert!(V3DPBD::from_header(&b).is_err());
    let b = header(b'X', [1, 2, 3, 4]);
    assert!(V3DPBD::from_header(&b).is_err());
    let b = header(b'L', [1, 2, 3, 4]);
    assert!(V3DPBD::from_header(&b[..HEAD_LEN - 1]).is_err());
    assert!(V3DPBD::from_header(&[]).is_err());
}

#[test]
fn bands_tile_the_image() {
    let bands = band_layout(10, 1);
    assert_eq!(
        bands,
        vec![
            Band { index: 0, first_row: 0, rows: 3 },
            Band { index: 1, first_row: 3, rows: 3 },
            Band { index: 2, first_row: 6, rows: 3 },
            Band { index: 3, first_row: 9, rows: 1 },
        ]
    );
    let bands = band_layout(100, 3);
    assert_eq!(bands.len(), 12);
    assert!(bands.iter().all(|b| b.rows <= 9));
    assert_eq!(bands.last().unwrap().first_row + bands.last().unwrap().rows, 100);
    assert_eq!(band_layout(3, 8).len(), 3);
    assert_eq!(band_layout(0, 4), vec![]);
}

#[test]
fn assembly_ignores_arrival_order() {
    let in_order = vec![(0, vec![1, 2]), (1, vec![3]), (2, vec![4, 5, 6])];
    let shuffled = vec![(2, vec![4, 5, 6]), (0, vec![1, 2]), (1, vec![3])];
    assert_eq!(assemble(in_order, 3), vec![1, 2, 3, 4, 5, 6]);
    assert_eq!(assemble(shuffled, 3), vec![1, 2, 3, 4, 5, 6]);
    assert_eq!(assemble(vec![], 0), Vec::<u8>::new());
}

#[test]
fn worker_count_defaults_to_cores() {
    assert_eq!(worker_count(Some(3)), 3);
    assert!(worker_count(None) >= 1);
}

#[test]
fn durations_split_into_units() {
    assert_eq!(split_millis(0), (0, 0, 0, 0));
    assert_eq!(split_millis(999), (0, 0, 0, 999));
    assert_eq!(split_millis(3_723_004), (1, 2, 3, 4));
    assert_eq!(split_millis(90_000_000), (25, 0, 0, 0));
}

fn render_rows(height: usize, workers: usize) -> Vec<u8> {
    let bands = band_layout(height, workers);
    let mut parts: Vec<(usize, Vec<u8>)> = bands
        .iter()
        .map(|b| (b.index, (b.first_row..b.first_row + b.rows).flat_map(|g| [g as u8, (g * 7) as u8]).collect()))
        .collect();
    parts.reverse();
    assemble(parts, bands.len())
}

#[test]
fn worker_count_does_not_change_the_slice() {
    let one = render_rows(37, 1);
    assert_eq!(one.len(), 74);
    for workers in [2, 3, 5, 8, 16, 64] {
        assert_eq!(render_rows(37, workers), one);
    }
}
