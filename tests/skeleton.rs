use swc_render::neuron::{Piece, RootNotFoundError, SWC};
use swc_render::swc::{parse_i32, parse_swc, split_bytes, MalformedLine};

fn tree(text: &str) -> SWC {
    let recs = parse_swc(text.as_bytes()).unwrap();
    SWC::from_records(&recs).unwrap()
}

#[test]
fn parse_i32_reads_integers() {
    assert_eq!(parse_i32(b"0"), Some(0));
    assert_eq!(parse_i32(b"-1"), Some(-1));
    assert_eq!(parse_i32(b"+42"), Some(42));
    assert_eq!(parse_i32(b"007"), Some(7));
    assert_eq!(parse_i32(b"2147483647"), Some(i32::MAX));
    assert_eq!(parse_i32(b"-2147483648"), Some(i32::MIN));
    assert_eq!(parse_i32(b"2147483648"), None);
    assert_eq!(parse_i32(b"99999999999999999999"), None);
    assert_eq!(parse_i32(b""), None);
    assert_eq!(parse_i32(b"-"), None);
    assert_eq!(parse_i32(b"1.5"), None);
    assert_eq!(parse_i32(b" 1"), None);
}

#[test]
fn split_bytes_keeps_empty_pieces() {
    let parts = split_bytes(b"a  bc ", b' ');
    assert_eq!(parts, vec![b"a".to_vec(), vec![], b"bc".to_vec(), vec![]]);
    assert_eq!(split_bytes(b"", b' '), vec![Vec::<u8>::new()]);
}

#[test]
fn parse_swc_skips_comments_and_blank_lines() {
    let text = "# header\n\n1 1 0 0 0 2 -1\r\n2 3 0.5 1 2 1 1 extra\n";
    let recs = parse_swc(text.as_bytes()).unwrap();
    assert_eq!(recs.len(), 2);
    assert_eq!((recs[0].line, recs[1].line), (3, 4));
    assert_eq!((recs[0].id, recs[0].structure, recs[0].pid), (1, 1, -1));
    assert_eq!(recs[0].radius, b"2".to_vec());
    assert_eq!((recs[1].id, recs[1].structure, recs[1].pid), (2, 3, 1));
    assert_eq!(recs[1].x, b"0.5".to_vec());
    assert_eq!(recs[1].y, b"1".to_vec());
    assert_eq!(recs[1].z, b"2".to_vec());
}

#[test]
fn parse_swc_rejects_short_lines() {
    let text = "1 1 0 0 0 2 -1\n3 3 1 1\n";
    assert_eq!(parse_swc(text.as_bytes()).err(), Some(MalformedLine { line: 2 }));
    assert_eq!(parse_swc(b"x y").err(), Some(MalformedLine { line: 1 }));
    assert_eq!(parse_swc(b"1 1 0 0 0 2 -1\n ").err(), Some(MalformedLine { line: 2 }));
}

#[test]
fn parse_swc_reports_malformed_line() {
    let text = "1 1 0 0 0 2 -1\n# c\nx 1 0 0 0 1 1\n";
    assert_eq!(parse_swc(text.as_bytes()).err(), Some(MalformedLine { line: 3 }));
    let text = "1 1 0 0 0 2 -1\n2 1 0 0 0 1 one\n";
    assert_eq!(parse_swc(text.as_bytes()).err(), Some(MalformedLine { line: 2 }));
}

#[test]
fn missing_root_is_an_error() {
    let recs = parse_swc(b"1 1 0 0 0 1 5\n2 1 0 0 0 1 1\n").unwrap();
    assert_eq!(SWC::from_records(&recs).err(), Some(RootNotFoundError));
    assert_eq!(RootNotFoundError.message(), "Root not found");
}

#[test]
fn tree_links_children_to_parents() {
    let t = tree("1 1 0 0 0 1 -1\n2 1 0 0 1 1 1\n3 1 0 0 2 1 1\n4 1 0 0 3 1 2\n");
    assert_eq!(t.count(), 4);
    assert_eq!(t.root(), 0);
    assert_eq!(t.get(0).children, vec![1, 2]);
    assert_eq!(t.get(1).children, vec![3]);
    assert_eq!(t.get(3).parent(), Some(1));
    assert!(t.get(0).is_bifurcation());
    assert!(t.get(1).is_elongation());
    assert!(t.get(2).is_termination());
}

#[test]
fn flat_pieces_one_per_edge() {
    let t = tree("1 1 0 0 0 1 -1\n2 1 0 0 1 1 1\n3 1 0 0 2 1 1\n4 1 0 0 3 1 2\n5 1 0 0 4 1 4\n");
    let pieces = t.flat_pieces();
    assert_eq!(pieces.len(), t.count() - 1);
    assert_eq!(
        pieces,
        vec![Piece::Link(0, 1), Piece::Link(1, 3), Piece::Link(3, 4), Piece::Link(0, 2)]
    );
}

#[test]
fn flat_pieces_of_a_lone_root() {
    let t = tree("1 1 0 0 0 3 -1\n");
    assert_eq!(t.flat_pieces(), vec![Piece::Joint(0)]);
}

#[test]
fn two_node_skeleton_gives_one_link() {
    let t = tree("1 1 0 0 0 2 -1\n2 1 0 0 10 1 1\n");
    assert_eq!(t.flat_pieces(), vec![Piece::Link(0, 1)]);
}

#[test]
fn orphan_is_counted_but_not_linked() {
    let t = tree("1 1 0 0 0 2 -1\n2 1 5 5 5 1 99\n3 1 0 0 10 1 1\n");
    assert_eq!(t.count(), 3);
    assert_eq!(t.get(1).parent(), None);
    let pieces = t.flat_pieces();
    assert_eq!(pieces, vec![Piece::Link(0, 2)]);
    for (from, to) in t.path_decay_walk(0) {
        assert!(from != 1 && to != 1);
    }
}

#[test]
fn node_lookup_by_id() {
    let t = tree("1 1 0 0 0 1 -1\n7 1 0 0 1 1 1\n9 1 0 0 2 1 7\n4 1 0 0 3 1 55\n");
    assert_eq!(t.node(1), Some(0));
    assert_eq!(t.node(9), Some(2));
    assert_eq!(t.node(4), None);
    assert_eq!(t.node(123), None);
}

#[test]
fn path_decay_walk_reaches_each_node_once() {
    let t = tree("1 1 0 0 0 1 -1\n2 1 0 0 1 1 1\n3 1 0 0 2 1 2\n4 1 0 0 3 1 2\n5 1 0 0 4 1 1\n");
    let steps = t.path_decay_walk(2);
    assert_eq!(steps, vec![(2, 1), (1, 0), (0, 4), (1, 3)]);
    let mut seen: Vec<usize> = steps.iter().map(|s| s.1).collect();
    seen.sort();
    assert_eq!(seen, vec![0, 1, 3, 4]);
    let from_root = t.path_decay_walk(0);
    assert_eq!(from_root, vec![(0, 1), (1, 2), (1, 3), (0, 4)]);
}

#[test]
fn path_decay_walk_from_a_leaf_of_one_edge() {
    let t = tree("1 1 0 0 0 1 -1\n2 1 0 0 1 1 1\n");
    assert_eq!(t.path_decay_walk(1), vec![(1, 0)]);
    let lone = tree("1 1 0 0 0 1 -1\n");
    assert_eq!(lone.path_decay_walk(0), vec![]);
}

#[test]
fn parent_pointers_cannot_form_a_cycle() {
    // 2 names 3 as its parent before 3 is read, and 3 names 2: the first
    // reference cannot be resolved, so 2 is an orphan and 3 hangs below it.
    let t = tree("1 1 0 0 0 1 -1\n2 1 0 0 1 1 3\n3 1 0 0 2 1 2\n4 1 0 0 3 1 1\n");
    assert_eq!(t.get(1).parent(), None);
    assert_eq!(t.get(2).parent(), Some(1));
    assert_eq!(t.flat_pieces(), vec![Piece::Link(0, 3)]);
    assert_eq!(t.path_decay_walk(2), vec![(2, 1)]);
    assert_eq!(t.path_decay_walk(0), vec![(0, 3)]);
}

#[test]
fn repeated_id_links_to_the_latest_record() {
    let t = tree("1 1 0 0 0 1 -1\n2 1 0 0 1 1 1\n2 1 0 0 2 1 1\n3 1 0 0 3 1 2\n");
    assert_eq!(t.get(3).parent(), Some(2));
    assert_eq!(t.get(0).children, vec![1, 2]);
    assert_eq!(t.node(2), Some(1));
    assert_eq!(t.flat_pieces(), vec![Piece::Link(0, 1), Piece::Link(0, 2), Piece::Link(2, 3)]);
}

#[test]
fn first_parentless_record_is_the_root() {
    let t = tree("5 1 0 0 0 1 7\n6 1 0 0 0 1 -1\n7 1 0 0 0 1 -1\n8 1 0 0 0 1 7\n");
    assert_eq!(t.root(), 1);
    assert_eq!(t.flat_pieces(), vec![Piece::Joint(1)]);
    assert_eq!(t.get(3).parent(), Some(2));
}
