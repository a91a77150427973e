use icecat::snapshot::{
    admit_section, check_counts, check_manifest_size, check_section, check_section_name, checksum_matches,
    hex_encode, section_checksum, Manifest,
};
use icecat::{from_edges, Edge, Error};

fn files(names: &[&str]) -> Vec<(String, String)> {
    names.iter().map(|n| (n.to_string(), String::new())).collect()
}

fn manifest(version: u32, directed: bool, names: &[&str]) -> Manifest {
    Manifest { version, directed, nodes: 2, edges: 1, loops: 0, files: files(names) }
}

#[test]
fn rejects_missing_manifest_and_unknown_version() {
    assert!(check_manifest_size(65536).is_ok());
    assert!(matches!(check_manifest_size(65537), Err(Error::InvalidGraph(_))));
    let out = ["out_arcs.arrow", "out_offsets.arrow"];
    assert_eq!(manifest(1, true, &out).check().unwrap(), false);
    assert!(matches!(manifest(99, true, &out).check(), Err(Error::InvalidGraph(_))));
    assert!(manifest(1, true, &["out_arcs.arrow"]).check().is_err());
    assert_eq!(
        manifest(1, true, &["in_arcs.arrow", "in_offsets.arrow", "out_arcs.arrow", "out_offsets.arrow"]).check().unwrap(),
        true
    );
    assert!(manifest(1, true, &["in_offsets.arrow", "out_arcs.arrow", "out_offsets.arrow"]).check().is_err());
    assert!(manifest(1, false, &["in_arcs.arrow", "in_offsets.arrow", "out_arcs.arrow", "out_offsets.arrow"]).check().is_err());
}

#[test]
fn roundtrip_counts_weights_and_prepared_index() {
    let graph = from_edges(2, true, true, &[Edge { source: 0, target: 1 }]).unwrap();
    let recorded = vec![
        ("out_arcs.arrow".to_string(), section_checksum(b"arcs")),
        ("out_offsets.arrow".to_string(), section_checksum(b"offsets")),
    ];
    let m = Manifest::describe(&graph, recorded);
    assert_eq!((m.version, m.directed, m.nodes, m.edges, m.loops), (1, true, 2, 1, 0));
    assert_eq!(m.check().unwrap(), false);
    assert!(check_counts(&graph, &m).is_ok());
    let mut other = Manifest::describe(&graph, files(&[]));
    other.edges = 2;
    assert!(check_counts(&graph, &other).is_err());
    for (name, checksum) in &m.files {
        assert!(check_section_name(name).is_ok());
        let data: &[u8] = if name == "out_arcs.arrow" { b"arcs" } else { b"offsets" };
        assert!(check_section(data, checksum).is_ok());
        assert!(matches!(check_section(b"corrupt", checksum), Err(Error::InvalidGraph(_))));
    }
    let mut total = 0u64;
    total = admit_section(total, 20, 40).unwrap();
    total = admit_section(total, 20, 40).unwrap();
    assert_eq!(total, 40);
    assert!(matches!(admit_section(total, 1, 40), Err(Error::InvalidGraph(_))));
    assert!(matches!(admit_section(u64::MAX, 1, u64::MAX), Err(Error::Overflow)));
    assert!(check_section_name(&"graph".to_string()).is_err());
}

#[test]
fn section_checksum_is_lowercase_sha256_hex() {
    assert_eq!(
        section_checksum(b"abc"),
        "ba7816bf8f01cfea414140de5dae2223b00361a396177a9cb410ff61f20015ad"
    );
    assert_eq!(
        section_checksum(b""),
        "e3b0c44298fc1c149afbf4c8996fb92427ae41e4649b934ca495991b7852b855"
    );
    assert!(checksum_matches(b"abc", &section_checksum(b"abc")));
    assert!(!checksum_matches(b"abd", &section_checksum(b"abc")));
}

#[test]
fn hex_encoding_writes_two_lowercase_digits_per_byte() {
    assert_eq!(hex_encode(&[0x00, 0xab, 0xff, 0x10]), "00abff10");
    assert_eq!(hex_encode(&[]), "");
}
