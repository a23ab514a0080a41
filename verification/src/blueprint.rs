//! Blueprint placement records and the text envelope that carries them.
//!
//! A serialized blueprint is an ASCII envelope: optional surrounding
//! whitespace, a fixed prefix, a base64 payload and a `$` terminator.  The
//! payload is a gzip stream whose contents are a JSON document; parsing that
//! document into records is left to the surrounding application, which hands
//! the records back as `BlueprintEntry` values.

use vstd::prelude::*;

verus! {

/// One placed building: a grid position, a layer (the vertical axis), a
/// rotation in quarter turns, and the building-type name used to look up its
/// meshes.
pub struct BlueprintEntry {
    pub x: i32,
    pub y: i32,
    pub layer: i32,
    pub rotation: i32,
    pub internal_name: String,
    pub attached_data: String,
}

impl BlueprintEntry {
    pub fn new(
        x: i32,
        y: i32,
        layer: i32,
        rotation: i32,
        internal_name: String,
        attached_data: String,
    ) -> (r: BlueprintEntry)
        ensures
            r.x == x,
            r.y == y,
            r.layer == layer,
            r.rotation == rotation,
            r.internal_name@ == internal_name@,
            r.attached_data@ == attached_data@,
    {
        BlueprintEntry { x, y, layer, rotation, internal_name, attached_data }
    }

    /// The grid position with the layer mapped to the vertical (middle) axis.
    pub fn position(&self) -> (r: (i32, i32, i32))
        ensures
            r == (self.x, self.layer, self.y),
    {
        (self.x, self.layer, self.y)
    }

    /// The rotation of this entry in quarter turns about the vertical axis.
    pub fn rotation_quarter_turns(&self) -> (r: i32)
        ensures
            r == self.rotation,
    {
        self.rotation
    }

    pub fn internal_name(&self) -> (r: &str)
        ensures
            r@ == self.internal_name@,
    {
        self.internal_name.as_str()
    }
}

/// The ordered list of placement records of one blueprint.
pub struct BlueprintEntries {
    pub entries: Vec<BlueprintEntry>,
}

/// A decoded blueprint: format version and placement records.
pub struct Blueprint {
    pub v: i32,
    pub bp: BlueprintEntries,
}

impl Blueprint {
    pub fn new(v: i32, entries: Vec<BlueprintEntry>) -> (r: Blueprint)
        ensures
            r.v == v,
            r.bp.entries == entries,
    {
        Blueprint { v, bp: BlueprintEntries { entries } }
    }

    /// The placement records, in blueprint order.
    pub fn entries(&self) -> (r: &Vec<BlueprintEntry>)
        ensures
            r == &self.bp.entries,
    {
        &self.bp.entries
    }
}

/// Why a serialized blueprint was rejected.
#[derive(Clone, Copy, Debug, PartialEq, Eq, Structural)]
pub enum BlueprintError {
    /// The text does not start with the blueprint prefix.
    MissingPrefix,
    /// The text does not end with the `$` terminator.
    MissingSuffix,
    /// The payload is not valid base64 or not a valid gzip stream.
    Corrupt,
}

/// ASCII whitespace, as the envelope trim removes at either end.
pub open spec fn is_ascii_space(b: u8) -> bool {
    b == 32 || (9 <= b <= 13)
}

/// The input with leading whitespace removed.
pub open spec fn spec_trim_start(s: Seq<u8>) -> Seq<u8>
    decreases s.len(),
{
    if s.len() > 0 && is_ascii_space(s[0]) {
        spec_trim_start(s.drop_first())
    } else {
        s
    }
}

/// The input with trailing whitespace removed.
pub open spec fn spec_trim_end(s: Seq<u8>) -> Seq<u8>
    decreases s.len(),
{
    if s.len() > 0 && is_ascii_space(s[s.len() - 1]) {
        spec_trim_end(s.drop_last())
    } else {
        s
    }
}

/// The input with whitespace removed at both ends.
pub open spec fn spec_trim(s: Seq<u8>) -> Seq<u8> {
    spec_trim_end(spec_trim_start(s))
}

/// The fixed envelope prefix, `SHAPEZ2-1-` as bytes.
pub open spec fn spec_prefix() -> Seq<u8> {
    seq![0x53u8, 0x48u8, 0x41u8, 0x50u8, 0x45u8, 0x5au8, 0x32u8, 0x2du8, 0x31u8, 0x2du8]
}

/// The `$` terminator.
pub open spec fn spec_suffix_byte() -> u8 {
    0x24u8
}

/// Whether the trimmed text carries the envelope prefix.
pub open spec fn spec_has_prefix(t: Seq<u8>) -> bool {
    t.len() >= spec_prefix().len() && t.take(spec_prefix().len() as int) == spec_prefix()
}

/// Whether the text after the prefix ends with the `$` terminator.
pub open spec fn spec_has_suffix(t: Seq<u8>) -> bool {
    t.len() > spec_prefix().len() && t[t.len() - 1] == spec_suffix_byte()
}

/// The base64 payload between prefix and terminator.
pub open spec fn spec_payload(t: Seq<u8>) -> Seq<u8> {
    t.subrange(spec_prefix().len() as int, t.len() - 1)
}

/// What the standard base64 alphabet decodes the input to, or nothing where
/// the input is not valid base64.
pub uninterp spec fn base64_decode_of(s: Seq<u8>) -> Option<Seq<u8>>;

/// What decompressing the input as a gzip stream yields, or nothing where the
/// input is not a valid gzip stream.
pub uninterp spec fn gunzip_of(s: Seq<u8>) -> Option<Seq<u8>>;

/// Relies on base64's `Engine::decode` with the standard engine
/// (`BASE64_STANDARD`): the result is a function of the input bytes alone,
/// `Ok` exactly on valid standard-alphabet base64.
#[verifier::external_body]
fn base64_decode(data: &Vec<u8>) -> (r: Option<Vec<u8>>)
    ensures
        match r {
            Some(v) => base64_decode_of(data@) == Some(v@),
            None => base64_decode_of(data@) is None,
        },
{
    base64::Engine::decode(&base64::prelude::BASE64_STANDARD, data.as_slice()).ok()
}

/// Relies on flate2's `GzDecoder` together with `std::io::Read::read_to_end`:
/// decompression of an in-memory gzip stream is a function of the input bytes
/// alone, `Ok` exactly on well-formed streams.
#[verifier::external_body]
fn gunzip(data: &Vec<u8>) -> (r: Option<Vec<u8>>)
    ensures
        match r {
            Some(v) => gunzip_of(data@) == Some(v@),
            None => gunzip_of(data@) is None,
        },
{
    let mut out = Vec::new();
    let mut decoder = flate2::read::GzDecoder::new(data.as_slice());
    match std::io::Read::read_to_end(&mut decoder, &mut out) {
        Ok(_) => Some(out),
        Err(_) => None,
    }
}

/// What `decode_envelope` is obliged to return for a given input.
pub open spec fn spec_decode_envelope(data: Seq<u8>) -> Result<Seq<u8>, BlueprintError> {
    let t = spec_trim(data);
    if !spec_has_prefix(t) {
        Err(BlueprintError::MissingPrefix)
    } else if !spec_has_suffix(t) {
        Err(BlueprintError::MissingSuffix)
    } else {
        match base64_decode_of(spec_payload(t)) {
            None => Err(BlueprintError::Corrupt),
            Some(compressed) => match gunzip_of(compressed) {
                None => Err(BlueprintError::Corrupt),
                Some(json) => Ok(json),
            },
        }
    }
}

/// Find the bounds of the trimmed text: everything strictly before the first
/// index and from the second index on is whitespace.
fn trim_bounds(data: &Vec<u8>) -> (r: (usize, usize))
    ensures
        r.0 <= r.1 <= data@.len(),
        spec_trim(data@) == data@.subrange(r.0 as int, r.1 as int),
{
    let ghost s = data@;
    proof {
        assert(s.skip(0) =~= s);
    }
    let mut start: usize = 0;
    while start < data.len() && is_space(data[start])
        invariant
            start <= s.len(),
            s == data@,
            spec_trim_start(s) == spec_trim_start(s.skip(start as int)),
        decreases s.len() - start,
    {
        proof {
            assert(s.skip(start as int).drop_first() =~= s.skip(start as int + 1));
        }
        start = start + 1;
    }
    proof {
        if start < s.len() {
            assert(spec_trim_start(s.skip(start as int)) == s.skip(start as int));
        } else {
            assert(s.skip(start as int) =~= Seq::<u8>::empty());
        }
        assert(spec_trim_start(s) == s.skip(start as int));
    }

    let mut end: usize = data.len();
    while end > start && is_space(data[end - 1])
        invariant
            start <= end <= s.len(),
            s == data@,
            spec_trim_start(s) == s.skip(start as int),
            spec_trim_end(s.skip(start as int)) == spec_trim_end(
                s.subrange(start as int, end as int),
            ),
        decreases end,
    {
        proof {
            let cur = s.subrange(start as int, end as int);
            assert(cur[cur.len() - 1] == s[end - 1]);
            assert(cur.drop_last() =~= s.subrange(start as int, end as int - 1));
        }
        end = end - 1;
    }
    proof {
        let cur = s.subrange(start as int, end as int);
        if end > start {
            assert(cur[cur.len() - 1] == s[end - 1]);
            assert(spec_trim_end(cur) == cur);
        } else {
            assert(cur =~= Seq::<u8>::empty());
        }
        assert(s.skip(start as int) =~= s.subrange(start as int, s.len() as int));
    }
    (start, end)
}

/// Executable mirror of `is_ascii_space`.
fn is_space(b: u8) -> (r: bool)
    ensures
        r == is_ascii_space(b),
{
    b == 32 || (9 <= b && b <= 13)
}

/// Copy `data[lo..hi]` out into a fresh vector.
fn copy_range(data: &Vec<u8>, lo: usize, hi: usize) -> (r: Vec<u8>)
    requires
        lo <= hi <= data@.len(),
    ensures
        r@ == data@.subrange(lo as int, hi as int),
{
    let mut out: Vec<u8> = Vec::new();
    let mut i = lo;
    while i < hi
        invariant
            lo <= i <= hi <= data@.len(),
            out@ =~= data@.subrange(lo as int, i as int),
        decreases hi - i,
    {
        out.push(data[i]);
        proof {
            assert(out@ =~= data@.subrange(lo as int, i as int + 1));
        }
        i = i + 1;
    }
    proof {
        assert(out@ =~= data@.subrange(lo as int, hi as int));
    }
    out
}

/// Unwrap the text envelope of a serialized blueprint: trim surrounding
/// whitespace, demand the `SHAPEZ2-1-` prefix and the `$` terminator, decode
/// the base64 payload and decompress the gzip stream inside it.  The result
/// is the raw JSON document describing the placement records.
pub fn decode_envelope(data: &Vec<u8>) -> (r: Result<Vec<u8>, BlueprintError>)
    ensures
        match r {
            Ok(json) => spec_decode_envelope(data@) == Ok::<Seq<u8>, BlueprintError>(json@),
            Err(e) => spec_decode_envelope(data@) == Err::<Seq<u8>, BlueprintError>(e),
        },
{
    let (start, end) = trim_bounds(data);
    let ghost t = spec_trim(data@);

    // Prefix check: the ten bytes of `SHAPEZ2-1-`.
    let prefix = envelope_prefix();
    if end - start < prefix.len() {
        return Err(BlueprintError::MissingPrefix);
    }
    let mut i: usize = 0;
    while i < prefix.len()
        invariant
            start + 10 <= end <= data@.len(),
            prefix@ == spec_prefix(),
            prefix@.len() == 10,
            t == spec_trim(data@),
            t == data@.subrange(start as int, end as int),
            i <= 10,
            forall|k: int| 0 <= k < i ==> t[k] == spec_prefix()[k],
        decreases 10 - i,
    {
        if data[start + i] != prefix[i] {
            proof {
                assert(t[i as int] == data@[start + i]);
                assert(t[i as int] != spec_prefix()[i as int]);
                assert(t.take(10) != spec_prefix()) by {
                    assert(t.take(10)[i as int] != spec_prefix()[i as int]);
                }
                assert(spec_prefix().len() == 10);
                assert(!spec_has_prefix(t));
            }
            return Err(BlueprintError::MissingPrefix);
        }
        i = i + 1;
    }
    proof {
        assert(spec_prefix().len() == 10);
        assert(t.take(10) =~= spec_prefix());
        assert(spec_has_prefix(t));
    }

    // Terminator check: a final `$` strictly after the prefix.
    if end - start == prefix.len() || data[end - 1] != 0x24u8 {
        proof {
            if end - start > prefix.len() {
                assert(t[t.len() - 1] == data@[end - 1]);
            }
        }
        return Err(BlueprintError::MissingSuffix);
    }
    proof {
        assert(t[t.len() - 1] == data@[end - 1]);
        assert(spec_has_suffix(t));
    }

    let payload = copy_range(data, start + prefix.len(), end - 1);
    proof {
        assert(payload@ =~= spec_payload(t));
    }

    let compressed = match base64_decode(&payload) {
        Some(v) => v,
        None => {
            return Err(BlueprintError::Corrupt);
        },
    };
    match gunzip(&compressed) {
        Some(json) => Ok(json),
        None => Err(BlueprintError::Corrupt),
    }
}

/// The envelope prefix `SHAPEZ2-1-` as a byte vector.
fn envelope_prefix() -> (r: Vec<u8>)
    ensures
        r@ == spec_prefix(),
        r@.len() == 10,
{
    let mut p: Vec<u8> = Vec::new();
    p.push(0x53u8);
    p.push(0x48u8);
    p.push(0x41u8);
    p.push(0x50u8);
    p.push(0x45u8);
    p.push(0x5au8);
    p.push(0x32u8);
    p.push(0x2du8);
    p.push(0x31u8);
    p.push(0x2du8);
    proof {
        assert(p@ =~= spec_prefix());
    }
    p
}

} // verus!
