//! Long targets for timing the parser.

use vstd::prelude::*;

verus! {

/// The length that a timed target reaches at least.
pub const TARGET_LEN: usize = 1000;

/// A target to time.
#[derive(Debug)]
pub struct Case {
    pub name: &'static str,
    pub input: Vec<u8>,
    pub merge: bool,
}

/// How much a target of length `len` falls short.
pub open spec fn missing(len: nat) -> nat {
    if len < TARGET_LEN {
        (TARGET_LEN - len) as nat
    } else {
        0
    }
}

/// `prefix` with `unit` behind it as often as it takes to reach the length.
pub open spec fn grown(prefix: Seq<u8>, unit: Seq<u8>) -> Seq<u8>
    decreases missing(prefix.len()),
{
    if prefix.len() >= TARGET_LEN || unit.len() == 0 {
        prefix
    } else {
        grown(prefix + unit, unit)
    }
}

/// Appends `unit` to `prefix` until it has the length of a timed target. It
/// ends on a whole unit.
fn grow(prefix: &[u8], unit: &[u8]) -> (v: Vec<u8>)
    requires
        unit@.len() > 0,
    ensures
        v@ == grown(prefix@, unit@),
{
    let mut v: Vec<u8> = Vec::new();
    v.extend_from_slice(prefix);
    assert(v@ =~= prefix@);
    while v.len() < TARGET_LEN
        invariant
            unit@.len() > 0,
            grown(v@, unit@) == grown(prefix@, unit@),
        decreases missing(v@.len()),
    {
        let ghost before = v@;
        v.extend_from_slice(unit);
        assert(v@ =~= before + unit@);
    }
    v
}

/// The targets to time, each of which exercises another way to treat a path.
pub fn cases() -> (v: Vec<Case>)
    ensures
        v@.len() == 4,
        v@[0].name@ == "simple (no normalization)"@,
        v@[0].input@ == grown(
            Seq::empty(),
            seq![0x2f, 0x61, 0x62, 0x63, 0x64, 0x65, 0x66, 0x67, 0x68, 0x69, 0x6a],
        ),
        v@[1].name@ == "percent-decode"@,
        v@[1].input@ == grown(
            Seq::empty(),
            seq![
                0x2f,
                0x25,
                0x34,
                0x31,
                0x25,
                0x34,
                0x32,
                0x25,
                0x34,
                0x33,
                0x25,
                0x34,
                0x34,
            ],
        ),
        v@[2].name@ == "dot-dot resolution"@,
        v@[2].input@ == grown(
            seq![0x2f, 0x62, 0x61, 0x73, 0x65],
            seq![0x2f, 0x78, 0x2f, 0x2e, 0x2e],
        ),
        v@[3].name@ == "slash merge"@,
        v@[3].input@ == grown(
            Seq::empty(),
            seq![0x2f, 0x61, 0x2f, 0x2f, 0x62, 0x2f, 0x2f, 0x2f],
        ),
        forall|k: int| 0 <= k < 4 ==> (#[trigger] v@[k]).merge,
{
    // "/abcdefghij"
    let segment: [u8; 11] = [
        0x2f,
        0x61,
        0x62,
        0x63,
        0x64,
        0x65,
        0x66,
        0x67,
        0x68,
        0x69,
        0x6a,
    ];
    // "/%41%42%43%44"
    let escapes: [u8; 13] = [
        0x2f,
        0x25,
        0x34,
        0x31,
        0x25,
        0x34,
        0x32,
        0x25,
        0x34,
        0x33,
        0x25,
        0x34,
        0x34,
    ];
    // "/base"
    let base: [u8; 5] = [0x2f, 0x62, 0x61, 0x73, 0x65];
    // "/x/.."
    let up: [u8; 5] = [0x2f, 0x78, 0x2f, 0x2e, 0x2e];
    // "/a//b///"
    let slashes: [u8; 8] = [0x2f, 0x61, 0x2f, 0x2f, 0x62, 0x2f, 0x2f, 0x2f];
    let nothing: [u8; 0] = [];
    let mut v: Vec<Case> = Vec::new();
    v.push(
        Case {
            name: "simple (no normalization)",
            input: grow(nothing.as_slice(), segment.as_slice()),
            merge: true,
        },
    );
    v.push(
        Case {
            name: "percent-decode",
            input: grow(nothing.as_slice(), escapes.as_slice()),
            merge: true,
        },
    );
    v.push(
        Case {
            name: "dot-dot resolution",
            input: grow(base.as_slice(), up.as_slice()),
            merge: true,
        },
    );
    v.push(
        Case {
            name: "slash merge",
            input: grow(nothing.as_slice(), slashes.as_slice()),
            merge: true,
        },
    );
    v
}

} // verus!
