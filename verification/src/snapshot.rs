//! Versioned snapshot manifests: which sections a snapshot may hold, the encoded-size
//! budget, section checksums, and the counts that must agree with the topology.
use crate::error::Error;
use crate::graph::Graph;
use crate::text::{same_text, text_from_chars};
use vstd::prelude::*;

verus! {

/// The SHA-256 digest of `data`.
pub uninterp spec fn sha256_of(data: Seq<u8>) -> Seq<u8>;

/// SHA-256 of `data` (`sha2::Sha256::digest` through the `Digest` trait). The result is the
/// digest of exactly these bytes, and it is 32 bytes long.
#[verifier::external_body]
fn sha256(data: &[u8]) -> (r: Vec<u8>)
    ensures
        r@ == sha256_of(data@),
        r@.len() == 32,
{
    <sha2::Sha256 as sha2::Digest>::digest(data).to_vec()
}


/// The lower-case hexadecimal digit for `d`.
pub open spec fn hex_digit(d: int) -> char {
    if d == 0 {
        '0'
    } else if d == 1 {
        '1'
    } else if d == 2 {
        '2'
    } else if d == 3 {
        '3'
    } else if d == 4 {
        '4'
    } else if d == 5 {
        '5'
    } else if d == 6 {
        '6'
    } else if d == 7 {
        '7'
    } else if d == 8 {
        '8'
    } else if d == 9 {
        '9'
    } else if d == 10 {
        'a'
    } else if d == 11 {
        'b'
    } else if d == 12 {
        'c'
    } else if d == 13 {
        'd'
    } else if d == 14 {
        'e'
    } else {
        'f'
    }
}

/// Two lower-case hexadecimal digits per byte, high nibble first.
pub open spec fn hex_text(bytes: Seq<u8>) -> Seq<char>
    decreases bytes.len(),
{
    if bytes.len() == 0 {
        Seq::empty()
    } else {
        hex_text(bytes.drop_last()) + seq![hex_digit((bytes.last() / 16) as int), hex_digit((bytes.last() % 16) as int)]
    }
}

fn hex_char(d: u8) -> (c: char)
    requires
        d < 16,
    ensures
        c == hex_digit(d as int),
{
    match d {
        0 => '0',
        1 => '1',
        2 => '2',
        3 => '3',
        4 => '4',
        5 => '5',
        6 => '6',
        7 => '7',
        8 => '8',
        9 => '9',
        10 => 'a',
        11 => 'b',
        12 => 'c',
        13 => 'd',
        14 => 'e',
        _ => 'f',
    }
}

/// `bytes` in lower-case hexadecimal, two digits per byte, high digit first.
pub fn hex_encode(bytes: &[u8]) -> (r: String)
    ensures
        r@ == hex_text(bytes@),
{
    let mut chars: Vec<char> = Vec::new();
    let mut i: usize = 0;
    while i < bytes.len()
        invariant
            i <= bytes@.len(),
            chars@ == hex_text(bytes@.subrange(0, i as int)),
        decreases bytes@.len() - i,
    {
        let b = bytes[i];
        proof {
            assert(bytes@.subrange(0, i + 1).drop_last() == bytes@.subrange(0, i as int));
            assert(bytes@.subrange(0, i + 1).last() == b);
        }
        chars.push(hex_char(b / 16));
        chars.push(hex_char(b % 16));
        i = i + 1;
    }
    proof {
        assert(bytes@.subrange(0, bytes@.len() as int) == bytes@);
    }
    text_from_chars(chars)
}

/// The checksum a manifest records for a section: SHA-256 in lower-case hexadecimal.
pub fn section_checksum(data: &[u8]) -> (r: String)
    ensures
        r@ == hex_text(sha256_of(data@)),
{
    let digest = sha256(data);
    hex_encode(digest.as_slice())
}

/// Whether `recorded` is the checksum of `data`.
pub fn checksum_matches(data: &[u8], recorded: &String) -> (r: bool)
    ensures
        r == (recorded@ == hex_text(sha256_of(data@))),
{
    let actual = section_checksum(data);
    actual == *recorded
}

/// The largest manifest a reader accepts, in bytes.
pub const MANIFEST_LIMIT: u64 = 65536;

/// The sections a snapshot may hold.
pub open spec fn known_section(name: Seq<char>) -> bool {
    ||| name == "out_offsets.arrow"@
    ||| name == "out_arcs.arrow"@
    ||| name == "in_offsets.arrow"@
    ||| name == "in_arcs.arrow"@
    ||| name == "nodes.arrow"@
    ||| name == "edges.arrow"@
    ||| name == "slot_edges.arrow"@
}

/// The manifest that publishes a snapshot directory.
#[derive(Debug)]
pub struct Manifest {
    pub version: u32,
    pub directed: bool,
    pub nodes: usize,
    pub edges: usize,
    pub loops: usize,
    /// Section names with their checksums, in the order they were recorded.
    pub files: Vec<(String, String)>,
}

/// Whether `files` records a section called `name`.
pub open spec fn lists(files: Seq<(String, String)>, name: Seq<char>) -> bool {
    exists|i: int| 0 <= i < files.len() && #[trigger] files[i].0@ == name
}

fn listed(files: &Vec<(String, String)>, name: &str) -> (r: bool)
    ensures
        r == lists(files@, name@),
{
    let mut i: usize = 0;
    while i < files.len()
        invariant
            i <= files@.len(),
            forall|k: int| 0 <= k < i ==> #[trigger] files@[k].0@ != name@,
        decreases files@.len() - i,
    {
        if same_text(files[i].0.as_str(), name) {
            return true;
        }
        i = i + 1;
    }
    false
}

/// Refuse a manifest file longer than the limit.
pub fn check_manifest_size(len: u64) -> (r: Result<(), Error>)
    ensures
        r is Ok <==> len <= MANIFEST_LIMIT,
        r is Err ==> r matches Err(Error::InvalidGraph(_)),
{
    if len > MANIFEST_LIMIT {
        Err(Error::InvalidGraph("manifest too large".to_string()))
    } else {
        Ok(())
    }
}

impl Manifest {
    /// Check the version and the section set; returns whether incoming sections are present.
    pub fn check(&self) -> (r: Result<bool, Error>)
        ensures
            r is Ok <==> self.version == 1 && lists(self.files@, "out_offsets.arrow"@) && lists(
                self.files@,
                "out_arcs.arrow"@,
            ) && lists(self.files@, "in_offsets.arrow"@) == lists(self.files@, "in_arcs.arrow"@) && (
            self.directed || !lists(self.files@, "in_offsets.arrow"@)),
            r matches Ok(has_in) ==> has_in == lists(self.files@, "in_offsets.arrow"@),
            r is Err ==> r matches Err(Error::InvalidGraph(_)),
    {
        if self.version != 1 {
            return Err(Error::InvalidGraph("unsupported snapshot version".to_string()));
        }
        if !listed(&self.files, "out_offsets.arrow") || !listed(&self.files, "out_arcs.arrow") {
            return Err(Error::InvalidGraph("outgoing sections missing".to_string()));
        }
        let has_in = listed(&self.files, "in_offsets.arrow");
        if has_in != listed(&self.files, "in_arcs.arrow") || (!self.directed && has_in) {
            return Err(Error::InvalidGraph("invalid incoming sections".to_string()));
        }
        Ok(has_in)
    }

    /// The manifest that describes `graph` with the recorded section checksums.
    pub fn describe(graph: &Graph, files: Vec<(String, String)>) -> (r: Manifest)
        ensures
            r.version == 1,
            r.directed == graph.spec_directed(),
            r.nodes == graph.spec_n(),
            r.edges == graph.spec_edge_count(),
            r.loops == graph.spec_loop_count(),
            r.files@ == files@,
    {
        Manifest {
            version: 1,
            directed: graph.is_directed(),
            nodes: graph.node_count(),
            edges: graph.edge_count(),
            loops: graph.self_loop_count(),
            files,
        }
    }
}

/// Refuse a section name outside the known set.
pub fn check_section_name(name: &String) -> (r: Result<(), Error>)
    ensures
        r is Ok <==> known_section(name@),
        r is Err ==> r matches Err(Error::InvalidGraph(_)),
        r is Ok <==> (name@ == "out_offsets.arrow"@ || name@ == "out_arcs.arrow"@ || name@ == "in_offsets.arrow"@
            || name@ == "in_arcs.arrow"@ || name@ == "nodes.arrow"@ || name@ == "edges.arrow"@ || name@
            == "slot_edges.arrow"@),
{
    let text = name.as_str();
    if same_text(text, "out_offsets.arrow") || same_text(text, "out_arcs.arrow") || same_text(text, "in_offsets.arrow")
        || same_text(text, "in_arcs.arrow") || same_text(text, "nodes.arrow") || same_text(text, "edges.arrow")
        || same_text(text, "slot_edges.arrow") {
        Ok(())
    } else {
        Err(Error::InvalidGraph("unknown snapshot section".to_string()))
    }
}

/// Add a section's encoded length to the running total, refusing a total past `limit`.
pub fn admit_section(total: u64, len: u64, limit: u64) -> (r: Result<u64, Error>)
    ensures
        total + len > u64::MAX ==> r matches Err(Error::Overflow),
        total + len <= u64::MAX && total + len > limit ==> r matches Err(Error::InvalidGraph(_)),
        total + len <= limit ==> r == Ok::<u64, Error>((total + len) as u64),
{
    let bytes = match total.checked_add(len) {
        Some(b) => b,
        None => return Err(Error::Overflow),
    };
    if bytes > limit {
        return Err(Error::InvalidGraph("snapshot exceeds encoded size limit".to_string()));
    }
    Ok(bytes)
}

/// Refuse a section whose checksum differs from the recorded one.
pub fn check_section(data: &[u8], recorded: &String) -> (r: Result<(), Error>)
    ensures
        r is Ok <==> recorded@ == hex_text(sha256_of(data@)),
        r is Err ==> r matches Err(Error::InvalidGraph(_)),
{
    if checksum_matches(data, recorded) {
        Ok(())
    } else {
        Err(Error::InvalidGraph("checksum mismatch".to_string()))
    }
}

/// Refuse a manifest whose edge or self-loop count differs from the topology read.
pub fn check_counts(graph: &Graph, manifest: &Manifest) -> (r: Result<(), Error>)
    ensures
        r is Ok <==> graph.spec_edge_count() == manifest.edges && graph.spec_loop_count() == manifest.loops,
        r is Err ==> r matches Err(Error::InvalidGraph(_)),
{
    if graph.edge_count() != manifest.edges || graph.self_loop_count() != manifest.loops {
        Err(Error::InvalidGraph("manifest counts differ from topology".to_string()))
    } else {
        Ok(())
    }
}

} // verus!
