//! Commit identifiers, their hex text, and quadruple construction.

use three_way_merge_finder::CoreError;
use three_way_merge_finder::history::CommitInfo;
use three_way_merge_finder::ids::CommitId;
use three_way_merge_finder::merge::ThreeWayMerge;
use three_way_merge_finder::merge::assemble_merges;

fn id_of_byte(b: u8) -> CommitId {
    CommitId { bytes: vec![b; 20] }
}

fn hex_of(id: &CommitId) -> String {
    String::from_utf8(id.to_hex_bytes()).unwrap()
}

#[test]
fn hex_parse_and_format_round_trip() {
    let text = "0123456789abcdef0123456789abcdef01234567";
    let id = CommitId::from_hex(text).unwrap();
    assert_eq!(id.bytes.len(), 20);
    assert_eq!(hex_of(&id), text);
}

#[test]
fn hex_parse_accepts_upper_case() {
    let id = CommitId::from_hex("0123456789ABCDEF0123456789ABCDEF01234567").unwrap();
    assert_eq!(hex_of(&id), "0123456789abcdef0123456789abcdef01234567");
}

#[test]
fn hex_parse_exact_bytes() {
    let id = CommitId::from_hex("ff00a10000000000000000000000000000000000").unwrap();
    assert_eq!(id.bytes[0], 0xff);
    assert_eq!(id.bytes[1], 0x00);
    assert_eq!(id.bytes[2], 0xa1);
}

#[test]
fn hex_parse_rejects_wrong_length() {
    assert_eq!(
        CommitId::from_hex("0123456789abcdef0123456789abcdef012345678").unwrap_err(),
        CoreError::Malformed
    );
    assert_eq!(CommitId::from_hex("").unwrap_err(), CoreError::Malformed);
}

#[test]
fn hex_parse_accepts_short_prefixes() {
    // Shorter hex text names a hash prefix, zero-filled at the end, as the
    // underlying object-id parser reads it.
    let id = CommitId::from_hex("abc").unwrap();
    assert_eq!(id.bytes[0], 0xab);
    assert_eq!(id.bytes[1], 0xc0);
    for b in &id.bytes[2..] {
        assert_eq!(*b, 0);
    }
    assert_eq!(hex_of(&id), "abc0000000000000000000000000000000000000");
    let single = CommitId::from_hex("f").unwrap();
    assert_eq!(single.bytes[0], 0xf0);
}

#[test]
fn hex_parse_rejects_non_hex_digits() {
    assert_eq!(
        CommitId::from_hex("0123456789abcdef0123456789abcdef0123456g").unwrap_err(),
        CoreError::Malformed
    );
    assert_eq!(
        CommitId::from_hex("z123456789abcdef0123456789abcdef01234567").unwrap_err(),
        CoreError::Malformed
    );
}

#[test]
fn commit_id_equality_is_by_bytes() {
    let a = CommitId { bytes: vec![1, 2, 3] };
    let b = CommitId { bytes: vec![1, 2, 3] };
    let c = CommitId { bytes: vec![1, 2, 4] };
    assert_eq!(a, b);
    assert_ne!(a, c);
}

#[test]
fn quad_from_hex_texts() {
    let o = "aaaaaaaaaaaaaaaaaaaaaaaaaaaaaaaaaaaaaaaa";
    let a = "bbbbbbbbbbbbbbbbbbbbbbbbbbbbbbbbbbbbbbbb";
    let b = "cccccccccccccccccccccccccccccccccccccccc";
    let m = "dddddddddddddddddddddddddddddddddddddddd";
    let q = ThreeWayMerge::from_oid_str(o, a, b, m).unwrap();
    assert_eq!(hex_of(&q.o), o);
    assert_eq!(hex_of(&q.a), a);
    assert_eq!(hex_of(&q.b), b);
    assert_eq!(hex_of(&q.m), m);
}

#[test]
fn quad_from_hex_rejects_bad_field() {
    let ok = "aaaaaaaaaaaaaaaaaaaaaaaaaaaaaaaaaaaaaaaa";
    let r = ThreeWayMerge::from_oid_str(ok, "nope", ok, ok);
    assert_eq!(r.unwrap_err(), CoreError::Malformed);
}

#[test]
fn csv_line_lists_o_a_b_m() {
    let q = ThreeWayMerge {
        o: id_of_byte(0xaa),
        a: id_of_byte(0xbb),
        b: id_of_byte(0xcc),
        m: id_of_byte(0xdd),
    };
    let line = q.to_csv_line();
    let expected = format!(
        "{},{},{},{}",
        "aa".repeat(20),
        "bb".repeat(20),
        "cc".repeat(20),
        "dd".repeat(20)
    );
    assert_eq!(line, expected);
}

#[test]
fn distinct_o_detects_fast_forwards() {
    let q = ThreeWayMerge {
        o: id_of_byte(1),
        a: id_of_byte(2),
        b: id_of_byte(3),
        m: id_of_byte(4),
    };
    assert!(q.has_distinct_o());
    let ff = ThreeWayMerge {
        o: id_of_byte(2),
        a: id_of_byte(2),
        b: id_of_byte(3),
        m: id_of_byte(4),
    };
    assert!(!ff.has_distinct_o());
    let ff2 = ThreeWayMerge {
        o: id_of_byte(3),
        a: id_of_byte(2),
        b: id_of_byte(3),
        m: id_of_byte(4),
    };
    assert!(!ff2.has_distinct_o());
}

#[test]
fn assemble_uses_the_given_ancestor() {
    let commit = CommitInfo {
        id: id_of_byte(4),
        parents: vec![id_of_byte(2), id_of_byte(3)],
        summary: b"merge work".to_vec(),
        timestamp: 100,
    };
    let q = ThreeWayMerge::assemble(&commit, Some(id_of_byte(1))).unwrap();
    assert_eq!(q.o, id_of_byte(1));
    assert_eq!(q.a, id_of_byte(2));
    assert_eq!(q.b, id_of_byte(3));
    assert_eq!(q.m, id_of_byte(4));
}

#[test]
fn assemble_without_ancestor_drops_the_merge() {
    let commit = CommitInfo {
        id: id_of_byte(4),
        parents: vec![id_of_byte(2), id_of_byte(3)],
        summary: b"merge work".to_vec(),
        timestamp: 100,
    };
    assert!(ThreeWayMerge::assemble(&commit, None).is_none());
}

#[test]
fn assembly_yields_one_quadruple_per_resolved_merge() {
    // One quadruple per two-parent commit whose ancestor query succeeded,
    // in scan order; a failed query drops only its own commit and the rest
    // of the scan is unaffected.
    let commits = vec![
        CommitInfo {
            id: id_of_byte(1),
            parents: vec![],
            summary: b"root".to_vec(),
            timestamp: 10,
        },
        CommitInfo {
            id: id_of_byte(2),
            parents: vec![id_of_byte(1), id_of_byte(9)],
            summary: b"first merge".to_vec(),
            timestamp: 20,
        },
        CommitInfo {
            id: id_of_byte(3),
            parents: vec![id_of_byte(1), id_of_byte(8)],
            summary: b"orphan merge".to_vec(),
            timestamp: 30,
        },
        CommitInfo {
            id: id_of_byte(4),
            parents: vec![id_of_byte(2), id_of_byte(3)],
            summary: b"second merge".to_vec(),
            timestamp: 40,
        },
    ];
    let lcas = vec![None, Some(id_of_byte(11)), None, Some(id_of_byte(12))];
    let quads = assemble_merges(&commits, &lcas, None);
    assert_eq!(quads.len(), 2);
    assert_eq!(quads[0].m, id_of_byte(2));
    assert_eq!(quads[0].o, id_of_byte(11));
    assert_eq!(quads[1].m, id_of_byte(4));
    assert_eq!(quads[1].o, id_of_byte(12));

    // The time bound keeps only merges strictly before it.
    let lcas = vec![None, Some(id_of_byte(11)), None, Some(id_of_byte(12))];
    let early = assemble_merges(&commits, &lcas, Some(40));
    assert_eq!(early.len(), 1);
    assert_eq!(early[0].m, id_of_byte(2));
}
