//! Resolution of building names to mesh parts.
//!
//! A building's internal name resolves through a static alias table to one or
//! more (file, offset) parts, or falls back to loading a file named after the
//! building itself, stripping the synthetic suffixes `InternalVariant` and
//! `Default` until a load succeeds.  Loaded files and whole resolutions are
//! cached, so repeated placements of one building share one mesh.  File I/O
//! itself is left to the caller: resolution is a small state machine that
//! names the file to try next and consumes the outcome.

use vstd::prelude::*;
use vstd::string::StrSliceExecFns;

verus! {

/// String equality over the character views.
fn str_eq(a: &str, b: &str) -> (r: bool)
    ensures
        r == (a@ == b@),
{
    let a_len = a.unicode_len();
    let b_len = b.unicode_len();
    if a_len != b_len {
        return false;
    }
    let mut i: usize = 0;
    while i < a_len
        invariant
            a_len == a@.len(),
            b_len == b@.len(),
            a_len == b_len,
            i <= a_len,
            forall|k: int| 0 <= k < i ==> a@[k] == b@[k],
        decreases a_len - i,
    {
        if a.get_char(i) != b.get_char(i) {
            return false;
        }
        i = i + 1;
    }
    proof {
        assert(a@ =~= b@);
    }
    true
}

/// The name with the given suffix removed, where it carries that suffix.
pub open spec fn spec_strip_suffix(name: Seq<char>, suffix: Seq<char>) -> Option<Seq<char>> {
    if name.len() >= suffix.len() && name.skip(name.len() - suffix.len()) == suffix {
        Some(name.take(name.len() - suffix.len()))
    } else {
        None
    }
}

/// Remove `suffix` from the end of `name` where present.
fn strip_suffix_str<'a>(name: &'a str, suffix: &str) -> (r: Option<&'a str>)
    ensures
        match r {
            Some(rest) => spec_strip_suffix(name@, suffix@) == Some(rest@),
            None => spec_strip_suffix(name@, suffix@) is None,
        },
{
    let n = name.unicode_len();
    let m = suffix.unicode_len();
    if n < m {
        return None;
    }
    let mut j: usize = 0;
    while j < m
        invariant
            n == name@.len(),
            m == suffix@.len(),
            m <= n,
            j <= m,
            forall|k: int| 0 <= k < j ==> name@[n - m + k] == suffix@[k],
        decreases m - j,
    {
        if name.get_char(n - m + j) != suffix.get_char(j) {
            proof {
                assert(name@.skip(n - m)[j as int] == name@[n - m + j]);
                assert(name@.skip(n - m) != suffix@);
            }
            return None;
        }
        j = j + 1;
    }
    proof {
        assert(name@.skip(n - m) =~= suffix@);
    }
    Some(name.substring_char(0, n - m))
}

/// The synthetic suffix `InternalVariant`.
pub open spec fn suffix_internal_variant() -> Seq<char> {
    seq![
        'I',
        'n',
        't',
        'e',
        'r',
        'n',
        'a',
        'l',
        'V',
        'a',
        'r',
        'i',
        'a',
        'n',
        't',
    ]
}

/// The synthetic suffix `Default`.
pub open spec fn suffix_default() -> Seq<char> {
    seq!['D', 'e', 'f', 'a', 'u', 'l', 't']
}

/// The next shorter name the fallback search tries: the name with
/// `InternalVariant` stripped, else with `Default` stripped, else nothing.
pub open spec fn spec_next_candidate(name: Seq<char>) -> Option<Seq<char>> {
    match spec_strip_suffix(name, suffix_internal_variant()) {
        Some(rest) => Some(rest),
        None => spec_strip_suffix(name, suffix_default()),
    }
}

/// The ordered list of file names the fallback search tries for a name:
/// the name itself, then each successive suffix-stripped shortening.
pub open spec fn spec_candidates(name: Seq<char>) -> Seq<Seq<char>>
    decreases name.len(),
{
    match spec_next_candidate(name) {
        Some(rest) => seq![name] + spec_candidates(rest),
        None => seq![name],
    }
}

/// Executable mirror of `spec_next_candidate`.
fn next_candidate(name: &str) -> (r: Option<String>)
    ensures
        match r {
            Some(rest) => spec_next_candidate(name@) == Some(rest@) && rest@.len() < name@.len(),
            None => spec_next_candidate(name@) is None,
        },
{
    proof {
        reveal_strlit("InternalVariant");
        assert("InternalVariant"@ =~= suffix_internal_variant());
        reveal_strlit("Default");
        assert("Default"@ =~= suffix_default());
    }
    match strip_suffix_str(name, "InternalVariant") {
        Some(rest) => Some(rest.to_owned()),
        None => match strip_suffix_str(name, "Default") {
            Some(rest) => Some(rest.to_owned()),
            None => None,
        },
    }
}

/// The views of a vector of strings.
pub open spec fn string_views(s: Seq<String>) -> Seq<Seq<char>> {
    s.map_values(|x: String| x@)
}

/// The ordered list of file names that resolving `name` may try, first to
/// last: the name itself, then each suffix-stripped shortening.  The search
/// stops at the first name whose file loads.
pub fn resolution_candidates(name: &str) -> (r: Vec<String>)
    ensures
        string_views(r@) == spec_candidates(name@),
        r@.len() >= 1,
{
    let mut out: Vec<String> = Vec::new();
    let mut cur: String = name.to_owned();
    loop
        invariant_except_break
            spec_candidates(name@) =~= string_views(out@) + spec_candidates(cur@),
        ensures
            string_views(out@) == spec_candidates(name@),
            out@.len() >= 1,
        decreases cur@.len(),
    {
        let next = next_candidate(cur.as_str());
        let ghost prev_views = string_views(out@);
        let ghost cur_view = cur@;
        out.push(cur);
        proof {
            assert(string_views(out@) =~= prev_views + seq![cur_view]);
        }
        match next {
            Some(n) => {
                proof {
                    assert(spec_candidates(cur_view) == seq![cur_view] + spec_candidates(n@));
                    assert(string_views(out@) + spec_candidates(n@) =~= prev_views + (seq![
                        cur_view,
                    ] + spec_candidates(n@)));
                }
                cur = n;
            },
            None => {
                proof {
                    assert(spec_candidates(cur_view) =~= seq![cur_view]);
                    assert(string_views(out@) =~= prev_views + seq![cur_view]);
                    assert(string_views(out@) =~= spec_candidates(name@));
                }
                break;
            },
        }
    }
    out
}

/// One alias-table part: a mesh file (before fallback) and a local offset in
/// hundredths of a world unit.
pub struct Mapping {
    pub file: String,
    pub offset_hundredths: (i32, i32, i32),
}

impl View for Mapping {
    type V = (Seq<char>, (int, int, int));

    open spec fn view(&self) -> (Seq<char>, (int, int, int)) {
        (
            self.file@,
            (
                self.offset_hundredths.0 as int,
                self.offset_hundredths.1 as int,
                self.offset_hundredths.2 as int,
            ),
        )
    }
}

impl Mapping {
    /// A part with a local offset, given in hundredths of a world unit.
    pub fn new(file: &str, dx: i32, dy: i32, dz: i32) -> (r: Mapping)
        ensures
            r@ == (file@, (dx as int, dy as int, dz as int)),
    {
        Mapping { file: file.to_owned(), offset_hundredths: (dx, dy, dz) }
    }

    /// A part that simply renames the mesh file, with no offset.
    pub fn redirect(file: &str) -> (r: Mapping)
        ensures
            r@ == (file@, (0int, 0int, 0int)),
    {
        Mapping { file: file.to_owned(), offset_hundredths: (0, 0, 0) }
    }
}

/// The views of a vector of mappings.
pub open spec fn mapping_views(s: Seq<Mapping>) -> Seq<(Seq<char>, (int, int, int))> {
    s.map_values(|m: Mapping| m@)
}

fn vec_of1(m0: Mapping) -> (r: Vec<Mapping>)
    ensures
        mapping_views(r@) =~= seq![m0@],
{
    let mut v: Vec<Mapping> = Vec::new();
    v.push(m0);
    v
}

fn vec_of2(m0: Mapping, m1: Mapping) -> (r: Vec<Mapping>)
    ensures
        mapping_views(r@) =~= seq![m0@, m1@],
{
    let mut v: Vec<Mapping> = Vec::new();
    v.push(m0);
    v.push(m1);
    v
}

fn vec_of4(m0: Mapping, m1: Mapping, m2: Mapping, m3: Mapping) -> (r: Vec<Mapping>)
    ensures
        mapping_views(r@) =~= seq![m0@, m1@, m2@, m3@],
{
    let mut v: Vec<Mapping> = Vec::new();
    v.push(m0);
    v.push(m1);
    v.push(m2);
    v.push(m3);
    v
}

/// The static alias table: which internal names stand for which mesh parts.
pub open spec fn spec_alias_table(name: Seq<char>) -> Option<
    Seq<(Seq<char>, (int, int, int))>,
> {
    if name == "BeltDefaultForwardInternalVariant"@ {
        Some(seq![("Belt_Straight"@, (0int, 0int, 0int))])
    } else if name == "BeltDefaultRightInternalVariant"@ {
        Some(seq![("Belt_90_R"@, (0int, 0int, 0int))])
    } else if name == "BeltDefaultLeftInternalVariant"@ {
        Some(seq![("Belt_90_L"@, (0int, 0int, 0int))])
    } else if name == "Lift1UpBackwardInternalVariant"@ {
        Some(seq![("Lift1UpBackwards"@, (0int, 0int, 0int))])
    } else if name == "SplitterTShapeInternalVariant"@ {
        Some(seq![("Splitter2to1T"@, (0int, 0int, 0int))])
    } else if name == "MergerTShapeInternalVariant"@ {
        Some(seq![("Merger2to1T"@, (0int, 0int, 0int))])
    } else if name == "BeltPortSenderInternalVariant"@ {
        Some(seq![("BeltPortSender"@, (0int, 0int, 0int))])
    } else if name == "BeltPortReceiverInternalVariant"@ {
        Some(seq![("BeltPortReceiver"@, (0int, 0int, 0int))])
    } else if name == "RotatorOneQuadInternalVariant"@ {
        Some(seq![("Rotator1Quad"@, (0int, 0int, 0int)), ("Rotator1QuadPlatform90CC"@, (0int, 5int, 0int))])
    } else if name == "RotatorOneQuadCCWInternalVariant"@ {
        Some(seq![("Rotator1Quad"@, (0int, 0int, 0int)), ("Rotator1QuadPlatform90CW"@, (0int, 5int, 0int))])
    } else if name == "RotatorHalfInternalVariant"@ {
        Some(seq![("Rotator1Quad"@, (0int, 0int, 0int)), ("Rotator1QuadPlatform180"@, (0int, 5int, 0int))])
    } else if name == "CutterDefaultInternalVariant"@ {
        Some(seq![("CutterStatic_Fixed"@, (0int, 0int, 0int))])
    } else if name == "StackerDefaultInternalVariant"@ {
        Some(seq![("StackerSolid"@, (0int, 0int, 0int))])
    } else if name == "PainterDefaultInternalVariant"@ {
        Some(seq![("PainterBasin"@, (0int, 0int, 0int))])
    } else if name == "MixerDefaultInternalVariant"@ {
        Some(seq![("MixerFoundation"@, (0int, 0int, 0int))])
    } else if name == "CutterHalfInternalVariant"@ {
        Some(seq![("HalfCutter"@, (0int, 0int, 0int))])
    } else if name == "PinPusherDefaultInternalVariant"@ {
        Some(seq![("PinPusher"@, (0int, 0int, 0int)), ("PinPusherRotator1"@, (0int, 0int, 0int)), ("PinPusherClampR"@, (0int, 16int, 0int)), ("PinPusherClampL"@, (0int, 15int, 0int))])
    } else if name == "PipeLeftInternalVariant"@ {
        Some(seq![("PipeLeftGlas"@, (0int, 0int, 0int))])
    } else if name == "PipeRightInternalVariant"@ {
        Some(seq![("PipeRightGlas"@, (0int, 0int, 0int))])
    } else if name == "PipeCrossInternalVariant"@ {
        Some(seq![("PipeCrossJunctionGlas"@, (0int, 0int, 0int))])
    } else if name == "PipeJunctionInternalVariant"@ {
        Some(seq![("PipeJunctionGlas"@, (0int, 0int, 0int))])
    } else if name == "PipeUpForwardInternalVariant"@ {
        Some(seq![("Pipe1UpForwardGlas"@, (0int, 0int, 0int))])
    } else if name == "PipeUpBackwardInternalVariant"@ {
        Some(seq![("Pipe1UpBackwardGlas"@, (0int, 0int, 0int))])
    } else if name == "PipeUpLeftInternalVariant"@ {
        Some(seq![("Pipe1UpLeftBlueprint"@, (0int, 0int, 0int))])
    } else if name == "PipeUpRightInternalVariant"@ {
        Some(seq![("Pipe1UpRightBlueprint"@, (0int, 0int, 0int))])
    } else if name == "PipeDownForwardInternalVariant"@ {
        Some(seq![("Pipe1DownGlas"@, (0int, 0int, 0int))])
    } else if name == "PipeDownBackwardInternalVariant"@ {
        Some(seq![("Pipe1DownBackwardGlas"@, (0int, 0int, 0int))])
    } else if name == "PipeDownRightInternalVariant"@ {
        Some(seq![("Pipe1DownRightGlas"@, (0int, 0int, 0int))])
    } else if name == "PipeDownLeftInternalVariant"@ {
        Some(seq![("Pipe1DownLeftGlas"@, (0int, 0int, 0int))])
    } else if name == "LabelDefaultInternalVariant"@ {
        Some(seq![("LabelSupport"@, (0int, 0int, 0int))])
    } else if name == "FluidStorageDefaultInternalVariant"@ {
        Some(seq![("PaintTankFoundation"@, (0int, 0int, 0int))])
    } else if name == "StorageDefaultInternalVariant"@ {
        Some(seq![("StorageSolid"@, (0int, 0int, 0int))])
    } else if name == "SandboxFluidProducerDefaultInternalVariant"@ {
        Some(seq![("SandboxIFluidProducer"@, (0int, 0int, 0int))])
    } else {
        None
    }
}

/// Look an internal name up in the static alias table.  A `Some` result is
/// the full ordered part list for a composite building; `None` sends the
/// name to the suffix-stripping fallback.
pub fn internal_name_mapping_adjustments(internal_name: &str) -> (r: Option<Vec<Mapping>>)
    ensures
        match r {
            Some(v) => spec_alias_table(internal_name@) == Some(mapping_views(v@)),
            None => spec_alias_table(internal_name@) is None,
        },
{
    if str_eq(internal_name, "BeltDefaultForwardInternalVariant") {
        return Some(vec_of1(Mapping::redirect("Belt_Straight")));
    }
    if str_eq(internal_name, "BeltDefaultRightInternalVariant") {
        return Some(vec_of1(Mapping::redirect("Belt_90_R")));
    }
    if str_eq(internal_name, "BeltDefaultLeftInternalVariant") {
        return Some(vec_of1(Mapping::redirect("Belt_90_L")));
    }
    if str_eq(internal_name, "Lift1UpBackwardInternalVariant") {
        return Some(vec_of1(Mapping::redirect("Lift1UpBackwards")));
    }
    if str_eq(internal_name, "SplitterTShapeInternalVariant") {
        return Some(vec_of1(Mapping::redirect("Splitter2to1T")));
    }
    if str_eq(internal_name, "MergerTShapeInternalVariant") {
        return Some(vec_of1(Mapping::redirect("Merger2to1T")));
    }
    if str_eq(internal_name, "BeltPortSenderInternalVariant") {
        return Some(vec_of1(Mapping::redirect("BeltPortSender")));
    }
    if str_eq(internal_name, "BeltPortReceiverInternalVariant") {
        return Some(vec_of1(Mapping::redirect("BeltPortReceiver")));
    }
    if str_eq(internal_name, "RotatorOneQuadInternalVariant") {
        return Some(vec_of2(Mapping::redirect("Rotator1Quad"), Mapping::new("Rotator1QuadPlatform90CC", 0, 5, 0)));
    }
    if str_eq(internal_name, "RotatorOneQuadCCWInternalVariant") {
        return Some(vec_of2(Mapping::redirect("Rotator1Quad"), Mapping::new("Rotator1QuadPlatform90CW", 0, 5, 0)));
    }
    if str_eq(internal_name, "RotatorHalfInternalVariant") {
        return Some(vec_of2(Mapping::redirect("Rotator1Quad"), Mapping::new("Rotator1QuadPlatform180", 0, 5, 0)));
    }
    if str_eq(internal_name, "CutterDefaultInternalVariant") {
        return Some(vec_of1(Mapping::redirect("CutterStatic_Fixed")));
    }
    if str_eq(internal_name, "StackerDefaultInternalVariant") {
        return Some(vec_of1(Mapping::redirect("StackerSolid")));
    }
    if str_eq(internal_name, "PainterDefaultInternalVariant") {
        return Some(vec_of1(Mapping::redirect("PainterBasin")));
    }
    if str_eq(internal_name, "MixerDefaultInternalVariant") {
        return Some(vec_of1(Mapping::redirect("MixerFoundation")));
    }
    if str_eq(internal_name, "CutterHalfInternalVariant") {
        return Some(vec_of1(Mapping::redirect("HalfCutter")));
    }
    if str_eq(internal_name, "PinPusherDefaultInternalVariant") {
        return Some(vec_of4(Mapping::redirect("PinPusher"), Mapping::redirect("PinPusherRotator1"), Mapping::new("PinPusherClampR", 0, 16, 0), Mapping::new("PinPusherClampL", 0, 15, 0)));
    }
    if str_eq(internal_name, "PipeLeftInternalVariant") {
        return Some(vec_of1(Mapping::redirect("PipeLeftGlas")));
    }
    if str_eq(internal_name, "PipeRightInternalVariant") {
        return Some(vec_of1(Mapping::redirect("PipeRightGlas")));
    }
    if str_eq(internal_name, "PipeCrossInternalVariant") {
        return Some(vec_of1(Mapping::redirect("PipeCrossJunctionGlas")));
    }
    if str_eq(internal_name, "PipeJunctionInternalVariant") {
        return Some(vec_of1(Mapping::redirect("PipeJunctionGlas")));
    }
    if str_eq(internal_name, "PipeUpForwardInternalVariant") {
        return Some(vec_of1(Mapping::redirect("Pipe1UpForwardGlas")));
    }
    if str_eq(internal_name, "PipeUpBackwardInternalVariant") {
        return Some(vec_of1(Mapping::redirect("Pipe1UpBackwardGlas")));
    }
    if str_eq(internal_name, "PipeUpLeftInternalVariant") {
        return Some(vec_of1(Mapping::redirect("Pipe1UpLeftBlueprint")));
    }
    if str_eq(internal_name, "PipeUpRightInternalVariant") {
        return Some(vec_of1(Mapping::redirect("Pipe1UpRightBlueprint")));
    }
    if str_eq(internal_name, "PipeDownForwardInternalVariant") {
        return Some(vec_of1(Mapping::redirect("Pipe1DownGlas")));
    }
    if str_eq(internal_name, "PipeDownBackwardInternalVariant") {
        return Some(vec_of1(Mapping::redirect("Pipe1DownBackwardGlas")));
    }
    if str_eq(internal_name, "PipeDownRightInternalVariant") {
        return Some(vec_of1(Mapping::redirect("Pipe1DownRightGlas")));
    }
    if str_eq(internal_name, "PipeDownLeftInternalVariant") {
        return Some(vec_of1(Mapping::redirect("Pipe1DownLeftGlas")));
    }
    if str_eq(internal_name, "LabelDefaultInternalVariant") {
        return Some(vec_of1(Mapping::redirect("LabelSupport")));
    }
    if str_eq(internal_name, "FluidStorageDefaultInternalVariant") {
        return Some(vec_of1(Mapping::redirect("PaintTankFoundation")));
    }
    if str_eq(internal_name, "StorageDefaultInternalVariant") {
        return Some(vec_of1(Mapping::redirect("StorageSolid")));
    }
    if str_eq(internal_name, "SandboxFluidProducerDefaultInternalVariant") {
        return Some(vec_of1(Mapping::redirect("SandboxIFluidProducer")));
    }
    None
}

/// The identity of a loaded mesh: an index into the caller's arena of loaded
/// meshes.  Two equal handles refer to one physical mesh.
#[derive(Clone, Copy, Debug, PartialEq, Eq, Structural)]
pub struct MeshHandle {
    pub id: usize,
}

impl View for MeshHandle {
    type V = int;

    open spec fn view(&self) -> int {
        self.id as int
    }
}

/// One resolved part of a building: the mesh to draw and its local offset in
/// hundredths of a world unit.
#[derive(Clone, Copy, Debug, PartialEq, Eq)]
pub struct Model {
    pub mesh: MeshHandle,
    pub offset_hundredths: (i32, i32, i32),
}

impl View for Model {
    type V = (int, (int, int, int));

    open spec fn view(&self) -> (int, (int, int, int)) {
        (
            self.mesh@,
            (
                self.offset_hundredths.0 as int,
                self.offset_hundredths.1 as int,
                self.offset_hundredths.2 as int,
            ),
        )
    }
}

/// The views of a vector of resolved parts.
pub open spec fn model_views(s: Seq<Model>) -> Seq<(int, (int, int, int))> {
    s.map_values(|m: Model| m@)
}

/// First handle recorded for `key` in the mesh-object cache, if any.
pub open spec fn spec_file_lookup(files: Seq<(Seq<char>, int)>, key: Seq<char>) -> Option<int>
    decreases files.len(),
{
    if files.len() == 0 {
        None
    } else if files[0].0 == key {
        Some(files[0].1)
    } else {
        spec_file_lookup(files.drop_first(), key)
    }
}

/// First part list recorded for `key` in the resolved-model cache, if any.
pub open spec fn spec_sets_lookup(
    sets: Seq<(Seq<char>, Seq<(int, (int, int, int))>)>,
    key: Seq<char>,
) -> Option<Seq<(int, (int, int, int))>>
    decreases sets.len(),
{
    if sets.len() == 0 {
        None
    } else if sets[0].0 == key {
        Some(sets[0].1)
    } else {
        spec_sets_lookup(sets.drop_first(), key)
    }
}

/// Appending a pair changes a lookup only where the key was absent.
proof fn lemma_file_lookup_push(files: Seq<(Seq<char>, int)>, pair: (Seq<char>, int), key: Seq<char>)
    ensures
        spec_file_lookup(files.push(pair), key) == (match spec_file_lookup(files, key) {
            Some(h) => Some(h),
            None => if pair.0 == key {
                Some(pair.1)
            } else {
                None
            },
        }),
    decreases files.len(),
{
    if files.len() == 0 {
        assert(files.push(pair) =~= seq![pair]);
        assert(files.push(pair).drop_first() =~= Seq::<(Seq<char>, int)>::empty());
    } else {
        assert(files.push(pair).drop_first() =~= files.drop_first().push(pair));
        lemma_file_lookup_push(files.drop_first(), pair, key);
    }
}

/// Appending a pair changes a set lookup only where the key was absent.
proof fn lemma_sets_lookup_push(
    sets: Seq<(Seq<char>, Seq<(int, (int, int, int))>)>,
    pair: (Seq<char>, Seq<(int, (int, int, int))>),
    key: Seq<char>,
)
    ensures
        spec_sets_lookup(sets.push(pair), key) == (match spec_sets_lookup(sets, key) {
            Some(v) => Some(v),
            None => if pair.0 == key {
                Some(pair.1)
            } else {
                None
            },
        }),
    decreases sets.len(),
{
    if sets.len() == 0 {
        assert(sets.push(pair) =~= seq![pair]);
        assert(sets.push(pair).drop_first() =~= Seq::<
            (Seq<char>, Seq<(int, (int, int, int))>),
        >::empty());
    } else {
        assert(sets.push(pair).drop_first() =~= sets.drop_first().push(pair));
        lemma_sets_lookup_push(sets.drop_first(), pair, key);
    }
}

/// A successful lookup hands back a handle recorded in the cache.
proof fn lemma_file_lookup_in_range(files: Seq<(Seq<char>, int)>, key: Seq<char>)
    ensures
        match spec_file_lookup(files, key) {
            Some(h) => exists|i: int| 0 <= i < files.len() && files[i].1 == h,
            None => true,
        },
    decreases files.len(),
{
    if files.len() > 0 && files[0].0 != key {
        lemma_file_lookup_in_range(files.drop_first(), key);
        match spec_file_lookup(files, key) {
            Some(h) => {
                let i = choose|i: int|
                    0 <= i < files.drop_first().len() && files.drop_first()[i].1 == h;
                assert(files[i + 1].1 == h);
            },
            None => {},
        }
    }
}

/// Resolves building names to parts, caching loaded mesh files by canonical
/// name and whole resolutions by the original internal name.  Mesh file I/O
/// stays with the caller, driven through `begin_resolve` / `resolve_step`.
pub struct ModelLoader {
    resolved_objects: Vec<(String, MeshHandle)>,
    model_sets: Vec<(String, Vec<Model>)>,
    mesh_count: usize,
}

impl ModelLoader {
    /// The mesh-object cache: canonical file name to mesh handle.
    pub closed spec fn files_view(self) -> Seq<(Seq<char>, int)> {
        self.resolved_objects@.map_values(|p: (String, MeshHandle)| (p.0@, p.1@))
    }

    /// The resolved-model cache: internal name to part list.
    pub closed spec fn sets_view(self) -> Seq<(Seq<char>, Seq<(int, (int, int, int))>)> {
        self.model_sets@.map_values(|p: (String, Vec<Model>)| (p.0@, model_views(p.1@)))
    }

    /// How many meshes have been assigned handles; handles are `0..count`.
    pub closed spec fn count_view(self) -> int {
        self.mesh_count as int
    }

    /// Every cached handle was actually assigned.
    pub open spec fn wf(self) -> bool {
        &&& (forall|i: int|
            0 <= i < self.files_view().len() ==> 0 <= #[trigger] self.files_view()[i].1
                < self.count_view())
        &&& (forall|i: int, j: int|
            0 <= i < self.sets_view().len() && 0 <= j < self.sets_view()[i].1.len() ==> 0 <= (
            #[trigger] self.sets_view()[i].1[j]).0 < self.count_view())
        &&& self.count_view() <= usize::MAX
    }

    pub fn new() -> (r: ModelLoader)
        ensures
            r.files_view() =~= Seq::<(Seq<char>, int)>::empty(),
            r.sets_view() =~= Seq::<(Seq<char>, Seq<(int, (int, int, int))>)>::empty(),
            r.count_view() == 0,
            r.wf(),
    {
        let r = ModelLoader { resolved_objects: Vec::new(), model_sets: Vec::new(), mesh_count: 0 };
        proof {
            assert(r.files_view() =~= Seq::<(Seq<char>, int)>::empty());
            assert(r.sets_view() =~= Seq::<(Seq<char>, Seq<(int, (int, int, int))>)>::empty());
        }
        r
    }

    /// Look a canonical file name up in the mesh-object cache.
    fn lookup_file(&self, key: &str) -> (r: Option<MeshHandle>)
        ensures
            match r {
                Some(h) => spec_file_lookup(self.files_view(), key@) == Some(h@),
                None => spec_file_lookup(self.files_view(), key@) is None,
            },
    {
        let ghost fv = self.files_view();
        proof {
            assert(fv.skip(0) =~= fv);
        }
        let mut i: usize = 0;
        while i < self.resolved_objects.len()
            invariant
                fv == self.files_view(),
                fv.len() == self.resolved_objects@.len(),
                i <= fv.len(),
                forall|k: int| 0 <= k < fv.len() ==> #[trigger] fv[k] == (
                    self.resolved_objects@[k].0@,
                    self.resolved_objects@[k].1@,
                ),
                spec_file_lookup(fv, key@) == spec_file_lookup(fv.skip(i as int), key@),
            decreases fv.len() - i,
        {
            if str_eq(self.resolved_objects[i].0.as_str(), key) {
                proof {
                    assert(fv.skip(i as int)[0] == fv[i as int]);
                }
                return Some(self.resolved_objects[i].1);
            }
            proof {
                assert(fv.skip(i as int)[0] == fv[i as int]);
                assert(fv.skip(i as int).drop_first() =~= fv.skip(i as int + 1));
            }
            i = i + 1;
        }
        proof {
            assert(fv.skip(i as int) =~= Seq::<(Seq<char>, int)>::empty());
        }
        None
    }

    /// Look an internal name up in the resolved-model cache.  A `Some`
    /// result is the exact part list resolution recorded for that name; a
    /// second resolution of a cached name always returns it unchanged, so
    /// the handles a caller sees are stable.
    pub fn load_model_cached(&self, name: &str) -> (r: Option<Vec<Model>>)
        ensures
            match r {
                Some(v) => spec_sets_lookup(self.sets_view(), name@) == Some(model_views(v@)),
                None => spec_sets_lookup(self.sets_view(), name@) is None,
            },
    {
        let ghost sv = self.sets_view();
        proof {
            assert(sv.skip(0) =~= sv);
        }
        let mut i: usize = 0;
        while i < self.model_sets.len()
            invariant
                sv == self.sets_view(),
                sv.len() == self.model_sets@.len(),
                i <= sv.len(),
                forall|k: int| 0 <= k < sv.len() ==> #[trigger] sv[k] == (
                    self.model_sets@[k].0@,
                    model_views(self.model_sets@[k].1@),
                ),
                spec_sets_lookup(sv, name@) == spec_sets_lookup(sv.skip(i as int), name@),
            decreases sv.len() - i,
        {
            if str_eq(self.model_sets[i].0.as_str(), name) {
                proof {
                    assert(sv.skip(i as int)[0] == sv[i as int]);
                }
                return Some(clone_models(&self.model_sets[i].1));
            }
            proof {
                assert(sv.skip(i as int)[0] == sv[i as int]);
                assert(sv.skip(i as int).drop_first() =~= sv.skip(i as int + 1));
            }
            i = i + 1;
        }
        proof {
            assert(sv.skip(i as int) =~= Seq::<(Seq<char>, Seq<(int, (int, int, int))>)>::empty());
        }
        None
    }

    /// How many cached resolutions found at least one part, and how many
    /// names were resolved in all.
    pub fn load_counts(&self) -> (r: (usize, usize))
        ensures
            r.1 == self.sets_view().len(),
            r.0 == spec_count_resolved(self.sets_view()),
            r.0 <= r.1,
    {
        let ghost sv = self.sets_view();
        let mut resolved: usize = 0;
        let mut i: usize = 0;
        while i < self.model_sets.len()
            invariant
                sv == self.sets_view(),
                sv.len() == self.model_sets@.len(),
                i <= sv.len(),
                forall|k: int| 0 <= k < sv.len() ==> #[trigger] sv[k] == (
                    self.model_sets@[k].0@,
                    model_views(self.model_sets@[k].1@),
                ),
                resolved == spec_count_resolved(sv.take(i as int)),
                resolved <= i,
            decreases sv.len() - i,
        {
            proof {
                assert(sv.take(i as int + 1).drop_last() =~= sv.take(i as int));
                assert(sv.take(i as int + 1).last() == sv[i as int]);
            }
            if self.model_sets[i].1.len() > 0 {
                resolved = resolved + 1;
            }
            i = i + 1;
        }
        proof {
            assert(sv.take(i as int) =~= sv);
        }
        (resolved, self.model_sets.len())
    }
}

/// How many cached resolutions are non-empty.
pub open spec fn spec_count_resolved(sets: Seq<(Seq<char>, Seq<(int, (int, int, int))>)>) -> int
    decreases sets.len(),
{
    if sets.len() == 0 {
        0
    } else {
        spec_count_resolved(sets.drop_last()) + (if sets.last().1.len() > 0 {
            1int
        } else {
            0int
        })
    }
}

/// Copy a part list.
fn clone_models(v: &Vec<Model>) -> (r: Vec<Model>)
    ensures
        r@ == v@,
{
    let mut out: Vec<Model> = Vec::new();
    let mut i: usize = 0;
    while i < v.len()
        invariant
            i <= v@.len(),
            out@ =~= v@.take(i as int),
        decreases v@.len() - i,
    {
        out.push(v[i]);
        proof {
            assert(out@ =~= v@.take(i as int + 1));
        }
        i = i + 1;
    }
    proof {
        assert(out@ =~= v@);
    }
    out
}

/// The full part list a name resolves to before any file I/O: its alias-table
/// entry, or the name itself as a single part with no offset.
pub open spec fn spec_parts_for(name: Seq<char>) -> Seq<(Seq<char>, (int, int, int))> {
    match spec_alias_table(name) {
        Some(l) => l,
        None => seq![(name, (0int, 0int, 0int))],
    }
}

/// The ghost image of an in-flight resolution: which part is being worked
/// on, which fallback candidate of that part is awaited, what has been
/// resolved so far, and whether any part has been dropped.
pub struct TaskV {
    pub name: Seq<char>,
    pub acc: Seq<(int, (int, int, int))>,
    pub parts: Seq<(Seq<char>, (int, int, int))>,
    pub part_idx: int,
    pub chain: Seq<Seq<char>>,
    pub chain_idx: int,
    pub dropped: bool,
}

/// Where a resolution stands after running as far as the caches allow.
pub enum AdvOut {
    /// Waiting for the caller to attempt a file load.
    Wait(TaskV),
    /// Every part handled; `dropped` records whether any part was lost.
    Fin { acc: Seq<(int, (int, int, int))>, dropped: bool },
}

/// `m` resolves `part`: the offsets agree and the handle is the one cached
/// for some fallback candidate of the part's file.
pub open spec fn part_resolved(
    files: Seq<(Seq<char>, int)>,
    part: (Seq<char>, (int, int, int)),
    m: (int, (int, int, int)),
) -> bool {
    &&& m.1 == part.1
    &&& exists|c: Seq<char>|
        spec_candidates(part.0).contains(c) && spec_file_lookup(files, c) == Some(m.0)
}

/// `acc` resolves every part of `parts`, in order, with nothing dropped.
pub open spec fn is_full_resolution(
    files: Seq<(Seq<char>, int)>,
    parts: Seq<(Seq<char>, (int, int, int))>,
    acc: Seq<(int, (int, int, int))>,
) -> bool {
    &&& acc.len() == parts.len()
    &&& forall|i: int| 0 <= i < parts.len() ==> part_resolved(files, parts[i], #[trigger] acc[i])
}

/// Every accumulated part either was there at the start or carries a handle
/// recorded in the mesh-object cache.
pub open spec fn acc_within(
    files: Seq<(Seq<char>, int)>,
    base: Seq<(int, (int, int, int))>,
    acc: Seq<(int, (int, int, int))>,
) -> bool {
    forall|i: int|
        0 <= i < acc.len() ==> base.contains(#[trigger] acc[i]) || (exists|j: int|
            0 <= j < files.len() && #[trigger] files[j].1 == acc[i].0)
}

/// A resolution state the machine can be in between file loads.
pub open spec fn task_live(files: Seq<(Seq<char>, int)>, t: TaskV) -> bool {
    &&& 0 <= t.part_idx <= t.parts.len()
    &&& t.parts == spec_parts_for(t.name)
    &&& (t.part_idx < t.parts.len() ==> t.chain == spec_candidates(t.parts[t.part_idx].0) && 0
        <= t.chain_idx <= t.chain.len())
    &&& (!t.dropped ==> t.acc.len() == t.part_idx && is_full_resolution(
        files,
        t.parts.take(t.part_idx),
        t.acc,
    ))
}

/// Run a resolution forward until it must wait for a file load or finishes:
/// a cached candidate resolves the current part at once; an uncached one
/// asks the caller to load it; an exhausted fallback chain drops the part.
pub open spec fn spec_advance(files: Seq<(Seq<char>, int)>, t: TaskV) -> AdvOut
    decreases t.parts.len() - t.part_idx, 0int,
{
    if t.part_idx < 0 || t.part_idx >= t.parts.len() {
        AdvOut::Fin { acc: t.acc, dropped: t.dropped }
    } else if 0 <= t.chain_idx < t.chain.len() {
        match spec_file_lookup(files, t.chain[t.chain_idx]) {
            Some(h) => spec_enter_next(
                files,
                TaskV {
                    acc: t.acc.push((h, t.parts[t.part_idx].1)),
                    part_idx: t.part_idx + 1,
                    ..t
                },
            ),
            None => AdvOut::Wait(t),
        }
    } else {
        spec_enter_next(files, TaskV { part_idx: t.part_idx + 1, dropped: true, ..t })
    }
}

/// Move to the next part, seeding its fallback chain.
pub open spec fn spec_enter_next(files: Seq<(Seq<char>, int)>, t: TaskV) -> AdvOut
    decreases t.parts.len() - t.part_idx, 1int,
{
    if t.part_idx < 0 || t.part_idx >= t.parts.len() {
        AdvOut::Fin { acc: t.acc, dropped: t.dropped }
    } else {
        spec_advance(
            files,
            TaskV { chain: spec_candidates(t.parts[t.part_idx].0), chain_idx: 0, ..t },
        )
    }
}

/// What a whole resolution of `name` does, before any file load: start at the
/// first part with an empty accumulator.
pub open spec fn spec_begin(files: Seq<(Seq<char>, int)>, name: Seq<char>) -> AdvOut {
    spec_enter_next(
        files,
        TaskV {
            name: name,
            acc: Seq::empty(),
            parts: spec_parts_for(name),
            part_idx: 0,
            chain: Seq::empty(),
            chain_idx: 0,
            dropped: false,
        },
    )
}

/// Running the machine from a live state keeps it live; a wait state points
/// at an uncached candidate of the current part; a finished run with nothing
/// dropped is a full resolution of the part list.
proof fn lemma_advance_props(files: Seq<(Seq<char>, int)>, t: TaskV)
    requires
        task_live(files, t),
    ensures
        match spec_advance(files, t) {
            AdvOut::Wait(t2) => task_live(files, t2) && t2.name == t.name && t2.parts == t.parts
                && t2.part_idx < t2.parts.len() && 0 <= t2.chain_idx < t2.chain.len()
                && spec_file_lookup(files, t2.chain[t2.chain_idx]) is None && acc_within(
                files,
                t.acc,
                t2.acc,
            ),
            AdvOut::Fin { acc, dropped } => (!dropped ==> is_full_resolution(
                files,
                t.parts,
                acc,
            )) && acc_within(files, t.acc, acc),
        },
    decreases t.parts.len() - t.part_idx, 0int,
{
    if t.part_idx < 0 || t.part_idx >= t.parts.len() {
        if !t.dropped {
            assert(t.parts.take(t.part_idx) =~= t.parts);
        }
    } else if 0 <= t.chain_idx < t.chain.len() {
        match spec_file_lookup(files, t.chain[t.chain_idx]) {
            Some(h) => {
                let m = (h, t.parts[t.part_idx].1);
                let t2 = TaskV { acc: t.acc.push(m), part_idx: t.part_idx + 1, ..t };
                assert(spec_candidates(t.parts[t.part_idx].0).contains(t.chain[t.chain_idx])) by {
                    let c = t.chain[t.chain_idx];
                    assert(spec_candidates(t.parts[t.part_idx].0)[t.chain_idx] == c);
                }
                assert(part_resolved(files, t.parts[t.part_idx], m));
                if !t.dropped {
                    assert(t.parts.take(t.part_idx + 1).drop_last() =~= t.parts.take(t.part_idx));
                    assert(forall|i: int|
                        0 <= i < t.part_idx + 1 ==> part_resolved(
                            files,
                            t.parts.take(t.part_idx + 1)[i],
                            #[trigger] t2.acc[i],
                        ));
                    assert(is_full_resolution(files, t.parts.take(t.part_idx + 1), t2.acc));
                }
                lemma_enter_props(files, t2);
                // Anything within the extended accumulator is within the
                // original one or cached.
                lemma_file_lookup_in_range(files, t.chain[t.chain_idx]);
                assert forall|e: (int, (int, int, int))| t2.acc.contains(e) implies t.acc.contains(
                    e,
                ) || (exists|j: int| 0 <= j < files.len() && #[trigger] files[j].1 == e.0) by {
                    let i = choose|i: int| 0 <= i < t2.acc.len() && t2.acc[i] == e;
                    if i < t.acc.len() {
                        assert(t.acc[i] == e);
                    } else {
                        assert(e == m);
                    }
                }
            },
            None => {},
        }
    } else {
        let t2 = TaskV { part_idx: t.part_idx + 1, dropped: true, ..t };
        lemma_enter_props(files, t2);
    }
}

/// Companion of `lemma_advance_props` for the state between two parts.
proof fn lemma_enter_props(files: Seq<(Seq<char>, int)>, t: TaskV)
    requires
        0 <= t.part_idx <= t.parts.len(),
        t.parts == spec_parts_for(t.name),
        !t.dropped ==> t.acc.len() == t.part_idx && is_full_resolution(
            files,
            t.parts.take(t.part_idx),
            t.acc,
        ),
    ensures
        match spec_enter_next(files, t) {
            AdvOut::Wait(t2) => task_live(files, t2) && t2.name == t.name && t2.parts == t.parts
                && t2.part_idx < t2.parts.len() && 0 <= t2.chain_idx < t2.chain.len()
                && spec_file_lookup(files, t2.chain[t2.chain_idx]) is None && acc_within(
                files,
                t.acc,
                t2.acc,
            ),
            AdvOut::Fin { acc, dropped } => (!dropped ==> is_full_resolution(
                files,
                t.parts,
                acc,
            )) && acc_within(files, t.acc, acc),
        },
    decreases t.parts.len() - t.part_idx, 1int,
{
    if t.part_idx < 0 || t.part_idx >= t.parts.len() {
        if !t.dropped {
            assert(t.parts.take(t.part_idx) =~= t.parts);
        }
    } else {
        let t2 = TaskV { chain: spec_candidates(t.parts[t.part_idx].0), chain_idx: 0, ..t };
        lemma_advance_props(files, t2);
    }
}

/// An in-flight resolution, handed back and forth between the loader and the
/// caller that performs the file loads.
pub struct ResolveTask {
    name: String,
    acc: Vec<Model>,
    parts: Vec<Mapping>,
    part_idx: usize,
    chain: Vec<String>,
    chain_idx: usize,
    dropped: bool,
}

impl View for ResolveTask {
    type V = TaskV;

    closed spec fn view(&self) -> TaskV {
        TaskV {
            name: self.name@,
            acc: model_views(self.acc@),
            parts: mapping_views(self.parts@),
            part_idx: self.part_idx as int,
            chain: string_views(self.chain@),
            chain_idx: self.chain_idx as int,
            dropped: self.dropped,
        }
    }
}

impl ResolveTask {
    /// The mesh file whose load the loader is waiting on; the caller should
    /// attempt to load `<name>.obj` and report the outcome to
    /// `resolve_step`.
    pub fn pending_file(&self) -> (r: &str)
        requires
            0 <= self@.chain_idx < self@.chain.len(),
        ensures
            r@ == self@.chain[self@.chain_idx],
    {
        self.chain[self.chain_idx].as_str()
    }
}

/// What the loader asks of its caller next.
pub enum ResolveStep {
    /// Attempt the load named by the task, then call `resolve_step`.
    Load(ResolveTask),
    /// The resolution is complete and cached; these are its parts.
    Done(Vec<Model>),
}

enum AdvanceOut {
    Wait(ResolveTask),
    Fin(String, Vec<Model>, bool),
}

/// A task the loader may be driven forward with: live against the caches,
/// pointing at an uncached candidate, for a name not yet resolved.
pub open spec fn resolve_pending(loader: ModelLoader, t: TaskV) -> bool {
    &&& task_live(loader.files_view(), t)
    &&& 0 <= t.part_idx < t.parts.len()
    &&& 0 <= t.chain_idx < t.chain.len()
    &&& spec_file_lookup(loader.files_view(), t.chain[t.chain_idx]) is None
    &&& spec_sets_lookup(loader.sets_view(), t.name) is None
    &&& forall|i: int| 0 <= i < t.acc.len() ==> 0 <= (#[trigger] t.acc[i]).0 < loader.count_view()
}

impl ModelLoader {
    /// Record a finished resolution in the resolved-model cache and hand a
    /// copy of the parts back.
    fn finalize_set(&mut self, name: String, models: Vec<Model>) -> (r: Vec<Model>)
        requires
            old(self).wf(),
            forall|i: int|
                0 <= i < model_views(models@).len() ==> 0 <= (#[trigger] model_views(models@)[
                i]).0 < old(self).count_view(),
        ensures
            final(self).wf(),
            final(self).files_view() == old(self).files_view(),
            final(self).count_view() == old(self).count_view(),
            final(self).sets_view() == old(self).sets_view().push((name@, model_views(models@))),
            r@ == models@,
    {
        let out = clone_models(&models);
        let ghost entry = (name@, model_views(models@));
        self.model_sets.push((name, models));
        proof {
            assert(self.sets_view() =~= old(self).sets_view().push(entry));
            assert(self.files_view() == old(self).files_view());
            assert(self.count_view() == old(self).count_view());
            assert forall|i: int|
                0 <= i < self.files_view().len() implies 0 <= (#[trigger] self.files_view()[i].1)
                < self.count_view() by {
                assert(0 <= old(self).files_view()[i].1 < old(self).count_view());
            }
            assert forall|i: int, j: int|
                0 <= i < self.sets_view().len() && 0 <= j
                    < self.sets_view()[i].1.len() implies 0 <= (#[trigger] self.sets_view()[
            i].1[j]).0 < self.count_view() by {
                if i < old(self).sets_view().len() {
                    assert(self.sets_view()[i] == old(self).sets_view()[i]);
                } else {
                    assert(self.sets_view()[i] == entry);
                }
            }
        }
        out
    }

    /// Run a resolution forward until a load is needed or it finishes,
    /// resolving parts from the mesh-object cache where possible.
    #[verifier::loop_isolation(false)]
    fn advance(
        &self,
        name: String,
        acc: Vec<Model>,
        parts: Vec<Mapping>,
        part_idx: usize,
        chain: Vec<String>,
        chain_idx: usize,
        dropped: bool,
    ) -> (r: AdvanceOut)
        requires
            part_idx <= parts@.len(),
        ensures
            ({
                let start = TaskV {
                    name: name@,
                    acc: model_views(acc@),
                    parts: mapping_views(parts@),
                    part_idx: part_idx as int,
                    chain: string_views(chain@),
                    chain_idx: chain_idx as int,
                    dropped: dropped,
                };
                match r {
                    AdvanceOut::Wait(t) => AdvOut::Wait(t@) == spec_advance(
                        self.files_view(),
                        start,
                    ),
                    AdvanceOut::Fin(n2, v, d) => n2@ == name@ && spec_advance(self.files_view(), start)
                        == (AdvOut::Fin { acc: model_views(v@), dropped: d }),
                }
            }),
    {
        let ghost start = TaskV {
            name: name@,
            acc: model_views(acc@),
            parts: mapping_views(parts@),
            part_idx: part_idx as int,
            chain: string_views(chain@),
            chain_idx: chain_idx as int,
            dropped: dropped,
        };
        let ghost goal = spec_advance(self.files_view(), start);
        let mut acc = acc;
        let mut part_idx = part_idx;
        let mut chain = chain;
        let mut chain_idx = chain_idx;
        let mut dropped = dropped;
        loop
            invariant
                part_idx <= parts@.len(),
                goal == spec_advance(
                    self.files_view(),
                    TaskV {
                        name: name@,
                        acc: model_views(acc@),
                        parts: mapping_views(parts@),
                        part_idx: part_idx as int,
                        chain: string_views(chain@),
                        chain_idx: chain_idx as int,
                        dropped: dropped,
                    },
                ),
                goal == spec_advance(self.files_view(), start),
            decreases parts@.len() - part_idx,
        {
            let ghost cur = TaskV {
                name: name@,
                acc: model_views(acc@),
                parts: mapping_views(parts@),
                part_idx: part_idx as int,
                chain: string_views(chain@),
                chain_idx: chain_idx as int,
                dropped: dropped,
            };
            if part_idx >= parts.len() {
                proof {
                    assert(mapping_views(parts@).len() == parts@.len());
                    assert(spec_advance(self.files_view(), cur) == (AdvOut::Fin {
                        acc: model_views(acc@),
                        dropped: dropped,
                    }));
                }
                return AdvanceOut::Fin(name, acc, dropped);
            }
            if chain_idx < chain.len() {
                match self.lookup_file(chain[chain_idx].as_str()) {
                    Some(h) => {
                        let off = parts[part_idx].offset_hundredths;
                        acc.push(Model { mesh: h, offset_hundredths: off });
                        part_idx = part_idx + 1;
                        proof {
                            let mid = TaskV {
                                acc: cur.acc.push((h@, cur.parts[cur.part_idx].1)),
                                part_idx: cur.part_idx + 1,
                                ..cur
                            };
                            assert(model_views(acc@) =~= mid.acc);
                            assert(spec_advance(self.files_view(), cur) == spec_enter_next(
                                self.files_view(),
                                mid,
                            ));
                        }
                        if part_idx < parts.len() {
                            chain = resolution_candidates(parts[part_idx].file.as_str());
                            chain_idx = 0;
                        }
                    },
                    None => {
                        proof {
                            assert(string_views(chain@).len() == chain@.len());
                            assert(mapping_views(parts@).len() == parts@.len());
                            assert(spec_advance(self.files_view(), cur) == AdvOut::Wait(cur));
                        }
                        return AdvanceOut::Wait(
                            ResolveTask { name, acc, parts, part_idx, chain, chain_idx, dropped },
                        );
                    },
                }
            } else {
                dropped = true;
                part_idx = part_idx + 1;
                proof {
                    let mid = TaskV { part_idx: cur.part_idx + 1, dropped: true, ..cur };
                    assert(spec_advance(self.files_view(), cur) == spec_enter_next(
                        self.files_view(),
                        mid,
                    ));
                }
                if part_idx < parts.len() {
                    chain = resolution_candidates(parts[part_idx].file.as_str());
                    chain_idx = 0;
                }
            }
        }
    }

    /// Start resolving an internal name.  A name already in the
    /// resolved-model cache is answered at once, with the exact parts cached
    /// for it and no state change; otherwise the resolution runs until it
    /// needs a file load (`Load`) or completes from the caches alone
    /// (`Done`).
    pub fn begin_resolve(&mut self, name: &str) -> (r: ResolveStep)
        requires
            old(self).wf(),
        ensures
            final(self).wf(),
            final(self).files_view() == old(self).files_view(),
            final(self).count_view() == old(self).count_view(),
            match spec_sets_lookup(old(self).sets_view(), name@) {
                Some(parts) => (match r {
                    ResolveStep::Done(v) => model_views(v@) == parts,
                    ResolveStep::Load(_) => false,
                }) && final(self).sets_view() == old(self).sets_view(),
                None => match r {
                    ResolveStep::Load(t) => AdvOut::Wait(t@) == spec_begin(
                        old(self).files_view(),
                        name@,
                    ) && final(self).sets_view() == old(self).sets_view() && resolve_pending(
                        *final(self),
                        t@,
                    ) && t@.name == name@,
                    ResolveStep::Done(v) => {
                        &&& (spec_begin(old(self).files_view(), name@) matches AdvOut::Fin {
                            acc,
                            dropped,
                        } && acc == model_views(v@) && (!dropped ==> is_full_resolution(
                            old(self).files_view(),
                            spec_parts_for(name@),
                            model_views(v@),
                        )))
                        &&& final(self).sets_view() == old(self).sets_view().push(
                            (name@, model_views(v@)),
                        )
                    },
                },
            },
    {
        match self.load_model_cached(name) {
            Some(v) => {
                return ResolveStep::Done(v);
            },
            None => {},
        }
        let parts: Vec<Mapping> = match internal_name_mapping_adjustments(name) {
            Some(v) => v,
            None => vec_of1(Mapping::redirect(name)),
        };
        proof {
            assert(mapping_views(parts@) == spec_parts_for(name@));
        }
        let chain: Vec<String> = if parts.len() > 0 {
            resolution_candidates(parts[0].file.as_str())
        } else {
            Vec::new()
        };
        let acc: Vec<Model> = Vec::new();
        let ghost start = TaskV {
            name: name@,
            acc: model_views(acc@),
            parts: mapping_views(parts@),
            part_idx: 0,
            chain: string_views(chain@),
            chain_idx: 0,
            dropped: false,
        };
        let ghost begin_state = TaskV {
            name: name@,
            acc: Seq::empty(),
            parts: spec_parts_for(name@),
            part_idx: 0,
            chain: Seq::empty(),
            chain_idx: 0,
            dropped: false,
        };
        proof {
            assert(model_views(acc@) =~= Seq::<(int, (int, int, int))>::empty());
            if parts@.len() > 0 {
                assert(spec_begin(self.files_view(), name@) == spec_advance(
                    self.files_view(),
                    start,
                ));
            } else {
                assert(string_views(chain@) =~= Seq::<Seq<char>>::empty());
                assert(spec_begin(self.files_view(), name@) == spec_advance(
                    self.files_view(),
                    start,
                ));
            }
            assert(begin_state.parts.take(0) =~= Seq::<(Seq<char>, (int, int, int))>::empty());
            lemma_enter_props(self.files_view(), begin_state);
        }
        match self.advance(name.to_owned(), acc, parts, 0, chain, 0, false) {
            AdvanceOut::Wait(t) => {
                proof {
                    self.lemma_pending_from_props(t@, Seq::empty());
                }
                ResolveStep::Load(t)
            },
            AdvanceOut::Fin(name2, models, dropped) => {
                proof {
                    self.lemma_acc_bounded(Seq::empty(), model_views(models@));
                }
                let out = self.finalize_set(name2, models);
                ResolveStep::Done(out)
            },
        }
    }

    /// Everything `acc_within` a bounded base and this loader's cache has a
    /// handle the loader assigned.
    proof fn lemma_acc_bounded(
        self,
        base: Seq<(int, (int, int, int))>,
        acc: Seq<(int, (int, int, int))>,
    )
        requires
            self.wf(),
            acc_within(self.files_view(), base, acc),
            forall|i: int| 0 <= i < base.len() ==> 0 <= (#[trigger] base[i]).0 < self.count_view(),
        ensures
            forall|i: int| 0 <= i < acc.len() ==> 0 <= (#[trigger] acc[i]).0 < self.count_view(),
    {
        assert forall|i: int| 0 <= i < acc.len() implies 0 <= (#[trigger] acc[i]).0
            < self.count_view() by {
            if base.contains(acc[i]) {
                let k = choose|k: int| 0 <= k < base.len() && base[k] == acc[i];
                assert(0 <= base[k].0 < self.count_view());
            } else {
                let j = choose|j: int|
                    0 <= j < self.files_view().len() && #[trigger] self.files_view()[j].1 == acc[
                        i].0;
            }
        }
    }

    /// Package the wait-state facts of `lemma_advance_props` as
    /// `resolve_pending`.
    proof fn lemma_pending_from_props(self, t: TaskV, base: Seq<(int, (int, int, int))>)
        requires
            self.wf(),
            task_live(self.files_view(), t),
            0 <= t.part_idx < t.parts.len(),
            0 <= t.chain_idx < t.chain.len(),
            spec_file_lookup(self.files_view(), t.chain[t.chain_idx]) is None,
            spec_sets_lookup(self.sets_view(), t.name) is None,
            acc_within(self.files_view(), base, t.acc),
            forall|i: int| 0 <= i < base.len() ==> 0 <= (#[trigger] base[i]).0 < self.count_view(),
        ensures
            resolve_pending(self, t),
    {
        self.lemma_acc_bounded(base, t.acc);
    }

    /// Consume the outcome of the file load a task asked for.  On a
    /// successful load the loader assigns the next fresh handle, records it
    /// in the mesh-object cache under the attempted file name and resolves
    /// the current part with it; on a failure the task moves to the part's
    /// next fallback candidate, dropping the part when none is left.
    /// Resolution then runs on until the next load or completion.
    pub fn resolve_step(&mut self, task: ResolveTask, loaded: bool) -> (r: ResolveStep)
        requires
            old(self).wf(),
            resolve_pending(*old(self), task@),
            old(self).count_view() < usize::MAX,
        ensures
            final(self).wf(),
            ({
                let t = task@;
                let files2 = if loaded {
                    old(self).files_view().push((t.chain[t.chain_idx], old(self).count_view()))
                } else {
                    old(self).files_view()
                };
                let next = if loaded {
                    spec_enter_next(
                        files2,
                        TaskV {
                            acc: t.acc.push((old(self).count_view(), t.parts[t.part_idx].1)),
                            part_idx: t.part_idx + 1,
                            ..t
                        },
                    )
                } else {
                    spec_advance(files2, TaskV { chain_idx: t.chain_idx + 1, ..t })
                };
                &&& final(self).files_view() == files2
                &&& final(self).count_view() == old(self).count_view() + (if loaded {
                    1int
                } else {
                    0int
                })
                &&& match r {
                    ResolveStep::Load(t2) => AdvOut::Wait(t2@) == next && final(self).sets_view()
                        == old(self).sets_view() && resolve_pending(*final(self), t2@) && t2@.name
                        == t.name,
                    ResolveStep::Done(v) => {
                        &&& (next matches AdvOut::Fin { acc, dropped } && acc == model_views(v@)
                            && (!dropped ==> is_full_resolution(
                            files2,
                            spec_parts_for(t.name),
                            model_views(v@),
                        )))
                        &&& final(self).sets_view() == old(self).sets_view().push(
                            (t.name, model_views(v@)),
                        )
                    },
                }
            }),
    {
        let mut task = task;
        let ghost t0 = task@;
        let ghost files0 = self.files_view();
        let ghost count0 = self.count_view();
        if loaded {
            let h = MeshHandle { id: self.mesh_count };
            let file = task.chain[task.chain_idx].clone();
            let ghost pending = t0.chain[t0.chain_idx];
            self.resolved_objects.push((file, h));
            self.mesh_count = self.mesh_count + 1;
            let ghost files2 = self.files_view();
            proof {
                assert(files2 =~= files0.push((pending, count0)));
                assert forall|i: int| 0 <= i < files2.len() implies 0 <= (#[trigger] files2[i].1)
                    < self.count_view() by {
                    if i < files0.len() {
                        assert(0 <= files0[i].1 < count0);
                    }
                }
                assert(self.wf());
            }
            let off = task.parts[task.part_idx].offset_hundredths;
            task.acc.push(Model { mesh: h, offset_hundredths: off });
            task.part_idx = task.part_idx + 1;
            let ghost m = (count0, t0.parts[t0.part_idx].1);
            let ghost mid = TaskV { acc: t0.acc.push(m), part_idx: t0.part_idx + 1, ..t0 };
            proof {
                assert(model_views(task.acc@) =~= mid.acc);
                // The freshly cached file resolves the current part.
                lemma_file_lookup_push(files0, (pending, count0), pending);
                assert(spec_file_lookup(files2, pending) == Some(count0));
                assert(spec_candidates(t0.parts[t0.part_idx].0).contains(pending)) by {
                    assert(spec_candidates(t0.parts[t0.part_idx].0)[t0.chain_idx] == pending);
                }
                assert(part_resolved(files2, t0.parts[t0.part_idx], m));
                if !t0.dropped {
                    lemma_full_resolution_push(
                        files0,
                        (pending, count0),
                        t0.parts.take(t0.part_idx),
                        t0.acc,
                    );
                    assert(t0.parts.take(t0.part_idx + 1).drop_last() =~= t0.parts.take(
                        t0.part_idx,
                    ));
                    assert forall|i: int| 0 <= i < t0.part_idx + 1 implies part_resolved(
                        files2,
                        t0.parts.take(t0.part_idx + 1)[i],
                        #[trigger] mid.acc[i],
                    ) by {
                        if i < t0.part_idx {
                            assert(part_resolved(files2, t0.parts.take(t0.part_idx)[i], t0.acc[i]));
                        }
                    }
                    assert(is_full_resolution(files2, t0.parts.take(t0.part_idx + 1), mid.acc));
                }
                lemma_enter_props(files2, mid);
            }
            if task.part_idx < task.parts.len() {
                task.chain = resolution_candidates(task.parts[task.part_idx].file.as_str());
                task.chain_idx = 0;
            }
            proof {
                assert(spec_enter_next(files2, mid) == spec_advance(files2, task@));
            }
            let ghost base = mid.acc;
            let ResolveTask { name, acc, parts, part_idx, chain, chain_idx, dropped } = task;
            match self.advance(name, acc, parts, part_idx, chain, chain_idx, dropped) {
                AdvanceOut::Wait(t2) => {
                    proof {
                        self.lemma_pending_from_props(t2@, base);
                    }
                    ResolveStep::Load(t2)
                },
                AdvanceOut::Fin(name2, models, dropped2) => {
                    proof {
                        self.lemma_acc_bounded(base, model_views(models@));
                    }
                    let out = self.finalize_set(name2, models);
                    ResolveStep::Done(out)
                },
            }
        } else {
            let chain_len = task.chain.len();
            proof {
                assert(string_views(task.chain@).len() == task.chain@.len());
                assert(task.chain_idx < chain_len);
            }
            task.chain_idx = task.chain_idx + 1;
            let ghost bumped = TaskV { chain_idx: t0.chain_idx + 1, ..t0 };
            proof {
                assert(task@ == bumped);
                lemma_advance_props(files0, bumped);
            }
            let ghost base = t0.acc;
            let ResolveTask { name, acc, parts, part_idx, chain, chain_idx, dropped } = task;
            match self.advance(name, acc, parts, part_idx, chain, chain_idx, dropped) {
                AdvanceOut::Wait(t2) => {
                    proof {
                        self.lemma_pending_from_props(t2@, base);
                    }
                    ResolveStep::Load(t2)
                },
                AdvanceOut::Fin(name2, models, dropped2) => {
                    proof {
                        self.lemma_acc_bounded(base, model_views(models@));
                    }
                    let out = self.finalize_set(name2, models);
                    ResolveStep::Done(out)
                },
            }
        }
    }
}

/// A full resolution stays full when the mesh-object cache grows.
proof fn lemma_full_resolution_push(
    files: Seq<(Seq<char>, int)>,
    pair: (Seq<char>, int),
    parts: Seq<(Seq<char>, (int, int, int))>,
    acc: Seq<(int, (int, int, int))>,
)
    requires
        is_full_resolution(files, parts, acc),
    ensures
        is_full_resolution(files.push(pair), parts, acc),
{
    assert forall|i: int| 0 <= i < parts.len() implies part_resolved(
        files.push(pair),
        parts[i],
        #[trigger] acc[i],
    ) by {
        assert(part_resolved(files, parts[i], acc[i]));
        let c = choose|c: Seq<char>|
            spec_candidates(parts[i].0).contains(c) && spec_file_lookup(files, c) == Some(
                acc[i].0,
            );
        lemma_file_lookup_push(files, pair, c);
        assert(spec_file_lookup(files.push(pair), c) == Some(acc[i].0));
    }
}

/// Fallback order: the search for a name tries the name itself first, and
/// what follows is exactly the search for the next suffix-stripped
/// shortening — `InternalVariant` stripped first, else `Default`, nothing
/// else.
pub proof fn lemma_candidates_order(name: Seq<char>)
    ensures
        spec_candidates(name).len() >= 1,
        spec_candidates(name)[0] == name,
        match spec_next_candidate(name) {
            Some(rest) => spec_candidates(name) == seq![name] + spec_candidates(rest),
            None => spec_candidates(name) == seq![name],
        },
{
    match spec_next_candidate(name) {
        Some(rest) => {
            assert(spec_candidates(name) == seq![name] + spec_candidates(rest));
            assert(spec_candidates(name)[0] == name);
        },
        None => {
            assert(spec_candidates(name) == seq![name]);
        },
    }
}

/// Alias resolution: a finished resolution of an alias-table name that
/// dropped nothing has exactly the table's parts — one resolved model per
/// table entry, in order, with the table's offset, and a handle the
/// mesh-object cache records for a fallback candidate of the table's file.
pub proof fn lemma_alias_resolution_exact(
    files: Seq<(Seq<char>, int)>,
    name: Seq<char>,
    table: Seq<(Seq<char>, (int, int, int))>,
    acc: Seq<(int, (int, int, int))>,
)
    requires
        spec_alias_table(name) == Some(table),
        is_full_resolution(files, spec_parts_for(name), acc),
    ensures
        acc.len() == table.len(),
        forall|i: int|
            0 <= i < table.len() ==> (#[trigger] acc[i]).1 == table[i].1 && exists|c: Seq<char>|
                spec_candidates(table[i].0).contains(c) && spec_file_lookup(files, c) == Some(
                    acc[i].0,
                ),
{
    assert(spec_parts_for(name) == table);
}

/// Fallback resolution: a finished resolution of a name outside the alias
/// table that dropped nothing has exactly one part, with no offset, whose
/// handle the mesh-object cache records for one of the name's fallback
/// candidates.
pub proof fn lemma_fallback_resolution_exact(
    files: Seq<(Seq<char>, int)>,
    name: Seq<char>,
    acc: Seq<(int, (int, int, int))>,
)
    requires
        spec_alias_table(name) is None,
        is_full_resolution(files, spec_parts_for(name), acc),
    ensures
        acc.len() == 1,
        acc[0].1 == (0int, 0int, 0int),
        exists|c: Seq<char>|
            spec_candidates(name).contains(c) && spec_file_lookup(files, c) == Some(acc[0].0),
{
    assert(spec_parts_for(name) == seq![(name, (0int, 0int, 0int))]);
    assert(part_resolved(files, spec_parts_for(name)[0], acc[0]));
}

/// Cache idempotence: recording a resolution for a name the cache does not
/// yet hold makes every later lookup of that name return exactly those
/// parts — the same mesh handles, so repeated placements share meshes.  A
/// lookup of a cached name never re-runs the alias or suffix search:
/// `begin_resolve` answers it from the cache with the loader unchanged.
pub proof fn lemma_resolution_cached(
    sets: Seq<(Seq<char>, Seq<(int, (int, int, int))>)>,
    name: Seq<char>,
    acc: Seq<(int, (int, int, int))>,
)
    requires
        spec_sets_lookup(sets, name) is None,
    ensures
        spec_sets_lookup(sets.push((name, acc)), name) == Some(acc),
{
    lemma_sets_lookup_push(sets, (name, acc), name);
}

} // verus!
