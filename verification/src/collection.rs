//! Asset collections: shared script libraries, generators, generated
//! outputs and embedded editable projects, and the rules a collection must
//! keep to be saved, loaded or exported.

use vstd::prelude::*;
use crate::export::ExportOptions;
use crate::paths::{is_safe_relative, png_path_of, safe_relative};
use crate::names::{append_chars, is_first_free, lemma_suffixes_bounded, suffixed, with_suffix};
use crate::paths::ascii_lower;
use crate::text::{
    chars_of, decimal, is_char, is_white_space, lowercase, string_of, to_lowercase, trim, trim_char_ends, trim_chars,
    trim_end_by, trim_start_by,
};

verus! {

/// The newest archive format; version 1 had no embedded projects.
pub const FORMAT_VERSION: u32 = 2;

/// Helper source prepended to scripts that name it.
#[derive(Debug)]
pub struct ScriptLibrary {
    pub id: String,
    pub source: String,
}

/// How a generator describes its output.
#[derive(Clone, Copy, Debug, PartialEq, Eq, Structural)]
pub enum GeneratorKind {
    Script,
    Graph,
}

/// A generator as the collection rules see it: its id, whether it is a
/// script or a node graph, the libraries it includes, in order, and the
/// source of its script (empty for a graph).
#[derive(Debug)]
pub struct GeneratorResource {
    pub id: String,
    pub kind: GeneratorKind,
    pub libraries: Vec<String>,
    pub script: String,
}

/// Extra facts about an output for the tools that use it.
#[derive(Debug)]
pub struct AssetMetadata {
    /// Left, top, right and bottom margins of a nine-slice.
    pub slice9: Option<[u32; 4]>,
    pub tags: Vec<String>,
}

impl AssetMetadata {
    /// No slicing and no tags.
    pub fn new() -> (m: AssetMetadata)
        ensures
            m.slice9 is None,
            m.tags@.len() == 0,
    {
        AssetMetadata { slice9: None, tags: Vec::new() }
    }
}

/// A generated output: which generator makes it, how large, where it is
/// written, and the ids of the knob values it sets.
#[derive(Debug)]
pub struct AssetOutput {
    pub id: String,
    pub generator: String,
    pub width: u32,
    pub height: u32,
    pub output: String,
    pub value_ids: Vec<String>,
    pub export: ExportOptions,
    pub metadata: AssetMetadata,
}

/// An editable project stored in the archive.
#[derive(Debug)]
pub struct CollectionProject {
    pub id: String,
    pub name: String,
    /// Archive entry holding the project.
    pub entry: String,
    pub output: String,
    pub export: ExportOptions,
    pub metadata: AssetMetadata,
    pub data: Vec<u8>,
    /// Whether `data` reads back as a project.
    pub readable: bool,
}

/// A collection of outputs and projects with the resources they share.
#[derive(Debug)]
pub struct AssetCollection {
    pub format_version: u32,
    pub name: String,
    pub script_libraries: Vec<ScriptLibrary>,
    pub generators: Vec<GeneratorResource>,
    pub assets: Vec<AssetOutput>,
    pub projects: Vec<CollectionProject>,
}

/// The files an export wrote.
#[derive(Debug)]
pub struct ExportReport {
    pub paths: Vec<String>,
}

/// The kinds of resource that carry ids.
#[derive(Clone, Copy, Debug, PartialEq, Eq, Structural)]
pub enum IdKind {
    ScriptLibrary,
    Generator,
    Asset,
    Project,
}

/// Why a collection breaks the rules, with the positions of what breaks
/// them.
#[derive(Clone, Copy, Debug, PartialEq, Eq, Structural)]
pub enum Invalid {
    /// The format version is not one this build reads.
    UnsupportedVersion,
    /// The collection's name is blank.
    EmptyName,
    /// A resource of the kind has a blank id.
    EmptyId(IdKind),
    /// The resource of the kind at this position repeats an earlier id.
    DuplicateId(IdKind, usize),
    /// The project at this position has the id of an output.
    SharedId(usize),
    /// A version 1 collection holds projects.
    ProjectsInFirstVersion,
    /// The graph generator at this position includes libraries.
    GraphWithLibraries(usize),
    /// The generator includes, at the second position, a library that does
    /// not exist.
    MissingLibrary(usize, usize),
    /// The generator includes, at the second position, a library twice.
    RepeatedLibrary(usize, usize),
    /// The output at this position has a zero dimension.
    ZeroDimension(usize),
    /// The output at this position names a generator that does not exist.
    MissingGenerator(usize),
    /// The output path of the output at this position is not safe.
    UnsafeAssetOutput(usize),
    /// The output at this position writes where an earlier one does.
    DuplicateAssetOutput(usize),
    /// The output at this position has a blank or repeated knob value id.
    BadValueId(usize),
    /// The nine-slice margins of the output at this position exceed it.
    Slice9TooLarge(usize),
    /// The project at this position has a blank name.
    EmptyProjectName(usize),
    /// The archive entry of the project at this position is not safe.
    UnsafeProjectEntry(usize),
    /// The archive entry of the project at this position is outside
    /// `projects`, or an earlier project's entry.
    BadEntry(usize),
    /// The project at this position has no data.
    NoProjectData(usize),
    /// The data of the project at this position does not read as a
    /// project.
    Undecodable(usize),
    /// The output path of the project at this position is not safe.
    UnsafeProjectOutput(usize),
    /// The project at this position writes where an output or an earlier
    /// project does.
    DuplicateProjectOutput(usize),
}

/// The first problem, if any.
pub open spec fn first_problem(a: Option<Invalid>, b: Option<Invalid>) -> Option<Invalid> {
    if a is Some {
        a
    } else {
        b
    }
}

/// The first blank or repeated id from position `i` on.
pub open spec fn id_problem(ids: Seq<Seq<char>>, kind: IdKind, i: int) -> Option<Invalid>
    decreases ids.len() - i,
{
    if i < 0 || i >= ids.len() {
        None
    } else if trim(ids[i]).len() == 0 {
        Some(Invalid::EmptyId(kind))
    } else if ids.subrange(0, i).contains(ids[i]) {
        Some(Invalid::DuplicateId(kind, i as usize))
    } else {
        id_problem(ids, kind, i + 1)
    }
}

pub open spec fn texts(v: Seq<String>) -> Seq<Seq<char>> {
    v.map_values(|s: String| s@)
}

pub open spec fn library_ids(c: AssetCollection) -> Seq<Seq<char>> {
    c.script_libraries@.map_values(|l: ScriptLibrary| l.id@)
}

pub open spec fn generator_ids(c: AssetCollection) -> Seq<Seq<char>> {
    c.generators@.map_values(|g: GeneratorResource| g.id@)
}

pub open spec fn asset_ids(c: AssetCollection) -> Seq<Seq<char>> {
    c.assets@.map_values(|a: AssetOutput| a.id@)
}

pub open spec fn project_ids(c: AssetCollection) -> Seq<Seq<char>> {
    c.projects@.map_values(|p: CollectionProject| p.id@)
}

fn contains_text(v: &Vec<Vec<char>>, s: &Vec<char>, end: usize) -> (b: bool)
    requires
        end <= v@.len(),
    ensures
        b == v@.subrange(0, end as int).map_values(|t: Vec<char>| t@).contains(s@),
{
    let ghost view = v@.subrange(0, end as int).map_values(|t: Vec<char>| t@);
    let mut i: usize = 0;
    while i < end
        invariant
            0 <= i <= end <= v@.len(),
            view == v@.subrange(0, end as int).map_values(|t: Vec<char>| t@),
            forall|j: int| 0 <= j < i ==> view[j] != s@,
        decreases end - i,
    {
        if same_chars(&v[i], s) {
            assert(view[i as int] == s@);
            return true;
        }
        i = i + 1;
    }
    false
}

fn same_chars(a: &Vec<char>, b: &Vec<char>) -> (r: bool)
    ensures
        r == (a@ == b@),
{
    if a.len() != b.len() {
        return false;
    }
    let mut i: usize = 0;
    while i < a.len()
        invariant
            a@.len() == b@.len(),
            0 <= i <= a@.len(),
            forall|j: int| 0 <= j < i ==> a@[j] == b@[j],
        decreases a@.len() - i,
    {
        if a[i] != b[i] {
            return false;
        }
        i = i + 1;
    }
    assert(a@ =~= b@);
    true
}

pub open spec fn chars_view(v: Seq<Vec<char>>) -> Seq<Seq<char>> {
    v.map_values(|t: Vec<char>| t@)
}

/// Checks that ids are not blank and not repeated.
pub fn unique_ids(ids: &Vec<Vec<char>>, kind: IdKind) -> (r: Result<(), Invalid>)
    ensures
        r is Ok <==> id_problem(chars_view(ids@), kind, 0) is None,
        r is Err ==> id_problem(chars_view(ids@), kind, 0) == Some(r->Err_0),
{
    let ghost all = chars_view(ids@);
    let mut i: usize = 0;
    while i < ids.len()
        invariant
            all == chars_view(ids@),
            0 <= i <= ids@.len(),
            id_problem(all, kind, 0) == id_problem(all, kind, i as int),
        decreases ids@.len() - i,
    {
        let t = trim_chars(&ids[i]);
        if t.len() == 0 {
            return Err(Invalid::EmptyId(kind));
        }
        let seen = contains_text(ids, &ids[i], i);
        proof {
            assert(ids@.subrange(0, i as int).map_values(|t: Vec<char>| t@) =~= all.subrange(
                0,
                i as int,
            ));
        }
        if seen {
            return Err(Invalid::DuplicateId(kind, i));
        }
        i = i + 1;
    }
    Ok(())
}

/// The first project from position `i` on whose id an output has too.
pub open spec fn shared_id(c: AssetCollection, i: int) -> Option<Invalid>
    decreases c.projects@.len() - i,
{
    if i < 0 || i >= c.projects@.len() {
        None
    } else if asset_ids(c).contains(c.projects@[i].id@) {
        Some(Invalid::SharedId(i as usize))
    } else {
        shared_id(c, i + 1)
    }
}

/// The first library from position `k` on that generator `g` includes
/// but that does not exist or that it included before.
pub open spec fn library_problem(c: AssetCollection, g: int, libs: Seq<Seq<char>>, k: int) -> Option<
    Invalid,
>
    decreases libs.len() - k,
{
    if k < 0 || k >= libs.len() {
        None
    } else if !library_ids(c).contains(libs[k]) {
        Some(Invalid::MissingLibrary(g as usize, k as usize))
    } else if libs.subrange(0, k).contains(libs[k]) {
        Some(Invalid::RepeatedLibrary(g as usize, k as usize))
    } else {
        library_problem(c, g, libs, k + 1)
    }
}

/// The first problem with the generators from position `g` on.
pub open spec fn generator_problem(c: AssetCollection, g: int) -> Option<Invalid>
    decreases c.generators@.len() - g,
{
    if g < 0 || g >= c.generators@.len() {
        None
    } else if c.generators@[g].kind == GeneratorKind::Graph && c.generators@[g].libraries@.len()
        > 0 {
        Some(Invalid::GraphWithLibraries(g as usize))
    } else {
        first_problem(
            library_problem(c, g, texts(c.generators@[g].libraries@), 0),
            generator_problem(c, g + 1),
        )
    }
}

/// What an output path is compared by: backslashes read as slashes, and
/// lowercase.
pub open spec fn output_key(p: Seq<char>) -> Seq<char> {
    lowercase(
        p.map_values(
            |ch: char|
                if ch == '\\' {
                    '/'
                } else {
                    ch
                },
        ),
    )
}

/// Whether some knob value id is blank or repeats an earlier one.
pub open spec fn bad_value_ids(ids: Seq<Seq<char>>) -> bool {
    exists|k: int|
        0 <= k < ids.len() && (trim(#[trigger] ids[k]).len() == 0 || ids.subrange(0, k).contains(
            ids[k],
        ))
}

/// The sums of opposite nine-slice margins of an output.
pub open spec fn slice_sums(a: AssetOutput) -> (int, int) {
    match a.metadata.slice9 {
        Some(s) => (s[0] + s[2], s[1] + s[3]),
        None => (0, 0),
    }
}

/// Whether the nine-slice margins of an output exceed its size.
pub open spec fn slice_too_large(a: AssetOutput) -> bool {
    a.metadata.slice9 is Some && (slice_sums(a).0 > a.width || slice_sums(a).1 > a.height)
}

/// The output keys of the first `n` outputs.
pub open spec fn asset_keys(c: AssetCollection, n: int) -> Seq<Seq<char>> {
    c.assets@.subrange(0, n).map_values(|a: AssetOutput| output_key(a.output@))
}

/// The checks of output `i` that come before its nine-slice.
pub open spec fn asset_early_problem(c: AssetCollection, i: int) -> Option<Invalid> {
    let a = c.assets@[i];
    if a.width == 0 || a.height == 0 {
        Some(Invalid::ZeroDimension(i as usize))
    } else if !generator_ids(c).contains(a.generator@) {
        Some(Invalid::MissingGenerator(i as usize))
    } else if !is_safe_relative(a.output@) {
        Some(Invalid::UnsafeAssetOutput(i as usize))
    } else if asset_keys(c, i).contains(output_key(a.output@)) {
        Some(Invalid::DuplicateAssetOutput(i as usize))
    } else if bad_value_ids(texts(a.value_ids@)) {
        Some(Invalid::BadValueId(i as usize))
    } else {
        None
    }
}

/// The first problem with the outputs from position `i` on.
pub open spec fn asset_problem(c: AssetCollection, i: int) -> Option<Invalid>
    decreases c.assets@.len() - i,
{
    if i < 0 || i >= c.assets@.len() {
        None
    } else if asset_early_problem(c, i) is Some {
        asset_early_problem(c, i)
    } else if slice_too_large(c.assets@[i]) {
        Some(Invalid::Slice9TooLarge(i as usize))
    } else {
        asset_problem(c, i + 1)
    }
}

/// Whether the nine-slice sums that checking the outputs from position
/// `i` on adds up fit in a `u32`.
pub open spec fn slice_sums_fit(c: AssetCollection, i: int) -> bool
    decreases c.assets@.len() - i,
{
    if i < 0 || i >= c.assets@.len() {
        true
    } else if asset_early_problem(c, i) is Some {
        true
    } else {
        &&& slice_sums(c.assets@[i]).0 <= u32::MAX
        &&& slice_sums(c.assets@[i]).1 <= u32::MAX
        &&& (slice_too_large(c.assets@[i]) || slice_sums_fit(c, i + 1))
    }
}

/// Whether an archive entry lies in the `projects` directory.
pub open spec fn in_projects_dir(e: Seq<char>) -> bool {
    &&& e.len() >= 8
    &&& e.subrange(0, 8) == seq!['p', 'r', 'o', 'j', 'e', 'c', 't', 's']
    &&& e.len() == 8 || e[8] == '/'
}

/// The lowercase entries of the first `n` projects.
pub open spec fn entry_keys(c: AssetCollection, n: int) -> Seq<Seq<char>> {
    c.projects@.subrange(0, n).map_values(|p: CollectionProject| lowercase(p.entry@))
}

/// The output keys of every output and of the first `n` projects.
pub open spec fn taken_output_keys(c: AssetCollection, n: int) -> Seq<Seq<char>> {
    asset_keys(c, c.assets@.len() as int) + c.projects@.subrange(0, n).map_values(
        |p: CollectionProject| output_key(p.output@),
    )
}

/// The first problem with the projects from position `i` on.
pub open spec fn project_problem(c: AssetCollection, i: int) -> Option<Invalid>
    decreases c.projects@.len() - i,
{
    if i < 0 || i >= c.projects@.len() {
        None
    } else {
        let p = c.projects@[i];
        if trim(p.name@).len() == 0 {
            Some(Invalid::EmptyProjectName(i as usize))
        } else if !is_safe_relative(p.entry@) {
            Some(Invalid::UnsafeProjectEntry(i as usize))
        } else if !in_projects_dir(p.entry@) || entry_keys(c, i).contains(lowercase(p.entry@)) {
            Some(Invalid::BadEntry(i as usize))
        } else if p.data@.len() == 0 {
            Some(Invalid::NoProjectData(i as usize))
        } else if !p.readable {
            Some(Invalid::Undecodable(i as usize))
        } else if !is_safe_relative(p.output@) {
            Some(Invalid::UnsafeProjectOutput(i as usize))
        } else if taken_output_keys(c, i).contains(output_key(p.output@)) {
            Some(Invalid::DuplicateProjectOutput(i as usize))
        } else {
            project_problem(c, i + 1)
        }
    }
}

/// The checks that come before the outputs'.
pub open spec fn problem_before_assets(c: AssetCollection) -> Option<Invalid> {
    if !(1 <= c.format_version <= FORMAT_VERSION) {
        Some(Invalid::UnsupportedVersion)
    } else if trim(c.name@).len() == 0 {
        Some(Invalid::EmptyName)
    } else {
        first_problem(
            id_problem(library_ids(c), IdKind::ScriptLibrary, 0),
            first_problem(
                id_problem(generator_ids(c), IdKind::Generator, 0),
                first_problem(
                    id_problem(asset_ids(c), IdKind::Asset, 0),
                    first_problem(
                        id_problem(project_ids(c), IdKind::Project, 0),
                        first_problem(
                            shared_id(c, 0),
                            first_problem(
                                if c.format_version < 2 && c.projects@.len() > 0 {
                                    Some(Invalid::ProjectsInFirstVersion)
                                } else {
                                    None
                                },
                                generator_problem(c, 0),
                            ),
                        ),
                    ),
                ),
            ),
        )
    }
}

/// The first rule the collection breaks, in the order they are checked;
/// none for a valid collection.
pub open spec fn validation(c: AssetCollection) -> Option<Invalid> {
    first_problem(problem_before_assets(c), first_problem(asset_problem(c, 0), project_problem(c, 0)))
}

proof fn lemma_assets_pass(c: AssetCollection, i0: int, i: int)
    requires
        0 <= i0 <= i < c.assets@.len(),
        asset_problem(c, i0) is None,
    ensures
        asset_early_problem(c, i) is None,
    decreases i - i0,
{
    if i0 < i {
        lemma_assets_pass(c, i0 + 1, i);
    }
}

proof fn lemma_projects_pass(c: AssetCollection, i0: int, i: int)
    requires
        0 <= i0 <= i < c.projects@.len(),
        project_problem(c, i0) is None,
    ensures
        !taken_output_keys(c, i).contains(output_key(c.projects@[i].output@)),
    decreases i - i0,
{
    if i0 < i {
        lemma_projects_pass(c, i0 + 1, i);
    }
}

/// In a valid collection no two files an export writes share an output
/// key (the path with backslashes read as slashes, lowercased): not two
/// outputs, not two projects, and not an output and a project.
pub proof fn lemma_valid_outputs_are_distinct(c: AssetCollection)
    requires
        validation(c) is None,
    ensures
        forall|i: int, j: int|
            0 <= i < j < c.assets@.len() ==> output_key(#[trigger] c.assets@[i].output@) != output_key(
                #[trigger] c.assets@[j].output@,
            ),
        forall|i: int, j: int|
            0 <= i < j < c.projects@.len() ==> output_key(#[trigger] c.projects@[i].output@) != output_key(
                #[trigger] c.projects@[j].output@,
            ),
        forall|i: int, j: int|
            0 <= i < c.assets@.len() && 0 <= j < c.projects@.len() ==> output_key(
                #[trigger] c.assets@[i].output@,
            ) != output_key(#[trigger] c.projects@[j].output@),
{
    assert(asset_problem(c, 0) is None);
    assert(project_problem(c, 0) is None);
    let na = c.assets@.len() as int;
    assert forall|i: int, j: int|
        0 <= i < j < c.assets@.len() implies output_key(#[trigger] c.assets@[i].output@) != output_key(
            #[trigger] c.assets@[j].output@,
        ) by {
        lemma_assets_pass(c, 0, j);
        assert(asset_keys(c, j)[i] == output_key(c.assets@[i].output@));
    }
    assert forall|i: int, j: int|
        0 <= i < j < c.projects@.len() implies output_key(#[trigger] c.projects@[i].output@) != output_key(
            #[trigger] c.projects@[j].output@,
        ) by {
        lemma_projects_pass(c, 0, j);
        assert(taken_output_keys(c, j)[na + i] == output_key(c.projects@[i].output@));
    }
    assert forall|i: int, j: int|
        0 <= i < c.assets@.len() && 0 <= j < c.projects@.len() implies output_key(
            #[trigger] c.assets@[i].output@,
        ) != output_key(#[trigger] c.projects@[j].output@) by {
        lemma_projects_pass(c, 0, j);
        assert(taken_output_keys(c, j)[i] == output_key(c.assets@[i].output@));
    }
}

/// Whether checking the collection stays within the arithmetic of `u32`.
pub open spec fn checkable(c: AssetCollection) -> bool {
    problem_before_assets(c) is None ==> slice_sums_fit(c, 0)
}

fn library_id_list(c: &AssetCollection) -> (v: Vec<Vec<char>>)
    ensures
        chars_view(v@) == library_ids(*c),
{
    let mut v: Vec<Vec<char>> = Vec::new();
    let mut i: usize = 0;
    while i < c.script_libraries.len()
        invariant
            0 <= i <= c.script_libraries@.len(),
            chars_view(v@) == library_ids(*c).subrange(0, i as int),
        decreases c.script_libraries@.len() - i,
    {
        let ghost before = v@;
        v.push(chars_of(c.script_libraries[i].id.as_str()));
        proof {
            assert(chars_view(v@) =~= chars_view(before).push(c.script_libraries@[i as int].id@));
            assert(library_ids(*c).subrange(0, i + 1) =~= library_ids(*c).subrange(0, i as int).push(
                c.script_libraries@[i as int].id@,
            ));
        }
        i = i + 1;
    }
    proof {
        assert(library_ids(*c).subrange(0, i as int) =~= library_ids(*c));
    }
    v
}

fn generator_id_list(c: &AssetCollection) -> (v: Vec<Vec<char>>)
    ensures
        chars_view(v@) == generator_ids(*c),
{
    let mut v: Vec<Vec<char>> = Vec::new();
    let mut i: usize = 0;
    while i < c.generators.len()
        invariant
            0 <= i <= c.generators@.len(),
            chars_view(v@) == generator_ids(*c).subrange(0, i as int),
        decreases c.generators@.len() - i,
    {
        let ghost before = v@;
        v.push(chars_of(c.generators[i].id.as_str()));
        proof {
            assert(chars_view(v@) =~= chars_view(before).push(c.generators@[i as int].id@));
            assert(generator_ids(*c).subrange(0, i + 1) =~= generator_ids(*c).subrange(0, i as int).push(
                c.generators@[i as int].id@,
            ));
        }
        i = i + 1;
    }
    proof {
        assert(generator_ids(*c).subrange(0, i as int) =~= generator_ids(*c));
    }
    v
}

fn asset_id_list(c: &AssetCollection) -> (v: Vec<Vec<char>>)
    ensures
        chars_view(v@) == asset_ids(*c),
{
    let mut v: Vec<Vec<char>> = Vec::new();
    let mut i: usize = 0;
    while i < c.assets.len()
        invariant
            0 <= i <= c.assets@.len(),
            chars_view(v@) == asset_ids(*c).subrange(0, i as int),
        decreases c.assets@.len() - i,
    {
        let ghost before = v@;
        v.push(chars_of(c.assets[i].id.as_str()));
        proof {
            assert(chars_view(v@) =~= chars_view(before).push(c.assets@[i as int].id@));
            assert(asset_ids(*c).subrange(0, i + 1) =~= asset_ids(*c).subrange(0, i as int).push(
                c.assets@[i as int].id@,
            ));
        }
        i = i + 1;
    }
    proof {
        assert(asset_ids(*c).subrange(0, i as int) =~= asset_ids(*c));
    }
    v
}

fn project_id_list(c: &AssetCollection) -> (v: Vec<Vec<char>>)
    ensures
        chars_view(v@) == project_ids(*c),
{
    let mut v: Vec<Vec<char>> = Vec::new();
    let mut i: usize = 0;
    while i < c.projects.len()
        invariant
            0 <= i <= c.projects@.len(),
            chars_view(v@) == project_ids(*c).subrange(0, i as int),
        decreases c.projects@.len() - i,
    {
        let ghost before = v@;
        v.push(chars_of(c.projects[i].id.as_str()));
        proof {
            assert(chars_view(v@) =~= chars_view(before).push(c.projects@[i as int].id@));
            assert(project_ids(*c).subrange(0, i + 1) =~= project_ids(*c).subrange(0, i as int).push(
                c.projects@[i as int].id@,
            ));
        }
        i = i + 1;
    }
    proof {
        assert(project_ids(*c).subrange(0, i as int) =~= project_ids(*c));
    }
    v
}

fn string_chars(v: &Vec<String>) -> (r: Vec<Vec<char>>)
    ensures
        chars_view(r@) == texts(v@),
{
    let mut r: Vec<Vec<char>> = Vec::new();
    let mut i: usize = 0;
    while i < v.len()
        invariant
            0 <= i <= v@.len(),
            chars_view(r@) == texts(v@).subrange(0, i as int),
        decreases v@.len() - i,
    {
        let ghost before = r@;
        r.push(chars_of(v[i].as_str()));
        proof {
            assert(chars_view(r@) =~= chars_view(before).push(v@[i as int]@));
            assert(texts(v@).subrange(0, i + 1) =~= texts(v@).subrange(0, i as int).push(v@[i as int]@));
        }
        i = i + 1;
    }
    proof {
        assert(texts(v@).subrange(0, i as int) =~= texts(v@));
    }
    r
}

/// The key an output path is compared by.
fn output_key_of(p: &String) -> (k: Vec<char>)
    ensures
        k@ == output_key(p@),
{
    let chars = chars_of(p.as_str());
    let mut mapped: Vec<char> = Vec::new();
    let mut i: usize = 0;
    while i < chars.len()
        invariant
            0 <= i <= chars@.len(),
            mapped@ == chars@.subrange(0, i as int).map_values(
                |ch: char|
                    if ch == '\\' {
                        '/'
                    } else {
                        ch
                    },
            ),
        decreases chars@.len() - i,
    {
        let ch = chars[i];
        mapped.push(if ch == '\\' { '/' } else { ch });
        proof {
            assert(mapped@ =~= chars@.subrange(0, i + 1).map_values(
                |ch: char|
                    if ch == '\\' {
                        '/'
                    } else {
                        ch
                    },
            ));
        }
        i = i + 1;
    }
    proof {
        assert(chars@.subrange(0, i as int) =~= chars@);
    }
    let s = string_of(mapped.as_slice());
    let lower = to_lowercase(s.as_str());
    chars_of(lower.as_str())
}

fn lowercase_chars(p: &String) -> (k: Vec<char>)
    ensures
        k@ == lowercase(p@),
{
    let lower = to_lowercase(p.as_str());
    chars_of(lower.as_str())
}

fn check_shared(c: &AssetCollection, assets: &Vec<Vec<char>>, projects: &Vec<Vec<char>>) -> (r:
    Result<(), Invalid>)
    requires
        chars_view(assets@) == asset_ids(*c),
        chars_view(projects@) == project_ids(*c),
    ensures
        r is Ok <==> shared_id(*c, 0) is None,
        r is Err ==> shared_id(*c, 0) == Some(r->Err_0),
{
    let mut i: usize = 0;
    proof {
        assert(assets@.subrange(0, assets@.len() as int) =~= assets@);
        assert(chars_view(projects@).len() == projects@.len());
        assert(project_ids(*c).len() == c.projects@.len());
        assert(projects@.len() == c.projects@.len());
    }
    while i < projects.len()
        invariant
            chars_view(assets@) == asset_ids(*c),
            chars_view(projects@) == project_ids(*c),
            assets@.subrange(0, assets@.len() as int) == assets@,
            projects@.len() == c.projects@.len(),
            0 <= i <= projects@.len(),
            shared_id(*c, 0) == shared_id(*c, i as int),
        decreases projects@.len() - i,
    {
        proof {
            assert(project_ids(*c)[i as int] == c.projects@[i as int].id@);
            assert(chars_view(projects@)[i as int] == projects@[i as int]@);
        }
        if contains_text(assets, &projects[i], assets.len()) {
            return Err(Invalid::SharedId(i));
        }
        i = i + 1;
    }
    Ok(())
}

fn check_generators(c: &AssetCollection, libraries: &Vec<Vec<char>>) -> (r: Result<(), Invalid>)
    requires
        chars_view(libraries@) == library_ids(*c),
    ensures
        r is Ok <==> generator_problem(*c, 0) is None,
        r is Err ==> generator_problem(*c, 0) == Some(r->Err_0),
{
    proof {
        assert(libraries@.subrange(0, libraries@.len() as int) =~= libraries@);
    }
    let mut g: usize = 0;
    while g < c.generators.len()
        invariant
            chars_view(libraries@) == library_ids(*c),
            libraries@.subrange(0, libraries@.len() as int) == libraries@,
            0 <= g <= c.generators@.len(),
            generator_problem(*c, 0) == generator_problem(*c, g as int),
        decreases c.generators@.len() - g,
    {
        let generator = &c.generators[g];
        if generator.kind == GeneratorKind::Graph && generator.libraries.len() > 0 {
            return Err(Invalid::GraphWithLibraries(g));
        }
        let libs = string_chars(&generator.libraries);
        let ghost ls = texts(generator.libraries@);
        let mut k: usize = 0;
        while k < libs.len()
            invariant
                chars_view(libraries@) == library_ids(*c),
                libraries@.subrange(0, libraries@.len() as int) == libraries@,
                0 <= g < c.generators@.len(),
                generator_problem(*c, 0) == generator_problem(*c, g as int),
                !(c.generators@[g as int].kind == GeneratorKind::Graph
                    && c.generators@[g as int].libraries@.len() > 0),
                ls == texts(c.generators@[g as int].libraries@),
                chars_view(libs@) == ls,
                0 <= k <= libs@.len(),
                library_problem(*c, g as int, ls, 0) == library_problem(*c, g as int, ls, k as int),
            decreases libs@.len() - k,
        {
            proof {
                assert(chars_view(libs@)[k as int] == libs@[k as int]@);
            }
            if !contains_text(libraries, &libs[k], libraries.len()) {
                return Err(Invalid::MissingLibrary(g, k));
            }
            let repeated = contains_text(&libs, &libs[k], k);
            proof {
                assert(libs@.subrange(0, k as int).map_values(|t: Vec<char>| t@) =~= ls.subrange(
                    0,
                    k as int,
                ));
            }
            if repeated {
                return Err(Invalid::RepeatedLibrary(g, k));
            }
            k = k + 1;
        }
        proof {
            assert(library_problem(*c, g as int, ls, k as int) is None);
        }
        g = g + 1;
    }
    Ok(())
}

fn check_value_ids(ids: &Vec<String>) -> (bad: bool)
    ensures
        bad == bad_value_ids(texts(ids@)),
{
    let v = string_chars(ids);
    let ghost t = texts(ids@);
    let mut k: usize = 0;
    while k < v.len()
        invariant
            chars_view(v@) == t,
            t == texts(ids@),
            0 <= k <= v@.len(),
            forall|j: int|
                0 <= j < k ==> !(trim(#[trigger] t[j]).len() == 0 || t.subrange(0, j).contains(
                    t[j],
                )),
        decreases v@.len() - k,
    {
        let trimmed = trim_chars(&v[k]);
        let seen = contains_text(&v, &v[k], k);
        proof {
            assert(v@.subrange(0, k as int).map_values(|x: Vec<char>| x@) =~= t.subrange(
                0,
                k as int,
            ));
            assert(t[k as int] == v@[k as int]@);
        }
        if trimmed.len() == 0 || seen {
            proof {
                assert(chars_view(v@).len() == v@.len());
                assert(0 <= k < t.len());
                assert(trim(t[k as int]).len() == 0 || t.subrange(0, k as int).contains(t[k as int]));
                assert(bad_value_ids(t));
            }
            return true;
        }
        k = k + 1;
    }
    false
}

fn check_assets(c: &AssetCollection, generators: &Vec<Vec<char>>) -> (r: (
    Result<(), Invalid>,
    Vec<Vec<char>>,
))
    requires
        chars_view(generators@) == generator_ids(*c),
        slice_sums_fit(*c, 0),
    ensures
        r.0 is Ok <==> asset_problem(*c, 0) is None,
        r.0 is Err ==> asset_problem(*c, 0) == Some(r.0->Err_0),
        r.0 is Ok ==> chars_view(r.1@) == asset_keys(*c, c.assets@.len() as int),
{
    proof {
        assert(generators@.subrange(0, generators@.len() as int) =~= generators@);
    }
    let mut keys: Vec<Vec<char>> = Vec::new();
    let mut i: usize = 0;
    while i < c.assets.len()
        invariant
            chars_view(generators@) == generator_ids(*c),
            generators@.subrange(0, generators@.len() as int) == generators@,
            0 <= i <= c.assets@.len(),
            asset_problem(*c, 0) == asset_problem(*c, i as int),
            slice_sums_fit(*c, i as int),
            chars_view(keys@) == asset_keys(*c, i as int),
            keys@.len() == i,
        decreases c.assets@.len() - i,
    {
        let a = &c.assets[i];
        if a.width == 0 || a.height == 0 {
            return (Err(Invalid::ZeroDimension(i)), keys);
        }
        let gen = chars_of(a.generator.as_str());
        if !contains_text(generators, &gen, generators.len()) {
            return (Err(Invalid::MissingGenerator(i)), keys);
        }
        if !safe_relative(a.output.as_str()) {
            return (Err(Invalid::UnsafeAssetOutput(i)), keys);
        }
        let key = output_key_of(&a.output);
        let taken = contains_text(&keys, &key, keys.len());
        proof {
            assert(keys@.subrange(0, keys@.len() as int) =~= keys@);
        }
        if taken {
            return (Err(Invalid::DuplicateAssetOutput(i)), keys);
        }
        if check_value_ids(&a.value_ids) {
            return (Err(Invalid::BadValueId(i)), keys);
        }
        match a.metadata.slice9 {
            Some(s) => {
                if s[0] + s[2] > a.width || s[1] + s[3] > a.height {
                    return (Err(Invalid::Slice9TooLarge(i)), keys);
                }
            },
            None => {},
        }
        let ghost before = keys@;
        let ghost kv = key@;
        keys.push(key);
        proof {
            assert(chars_view(keys@) =~= chars_view(before).push(kv));
            assert(asset_keys(*c, i + 1) =~= asset_keys(*c, i as int).push(
                output_key(c.assets@[i as int].output@),
            ));
        }
        i = i + 1;
    }
    (Ok(()), keys)
}

/// Whether an archive entry lies in the `projects` directory.
fn projects_dir_entry(e: &Vec<char>) -> (b: bool)
    ensures
        b == in_projects_dir(e@),
{
    if e.len() < 8 {
        return false;
    }
    let b = e[0] == 'p' && e[1] == 'r' && e[2] == 'o' && e[3] == 'j' && e[4] == 'e' && e[5] == 'c'
        && e[6] == 't' && e[7] == 's' && (e.len() == 8 || e[8] == '/');
    proof {
        if b {
            assert(e@.subrange(0, 8) =~= seq!['p', 'r', 'o', 'j', 'e', 'c', 't', 's']);
        } else if e@.subrange(0, 8) == seq!['p', 'r', 'o', 'j', 'e', 'c', 't', 's'] {
            assert(e@[0] == e@.subrange(0, 8)[0]);
            assert(e@[1] == e@.subrange(0, 8)[1]);
            assert(e@[2] == e@.subrange(0, 8)[2]);
            assert(e@[3] == e@.subrange(0, 8)[3]);
            assert(e@[4] == e@.subrange(0, 8)[4]);
            assert(e@[5] == e@.subrange(0, 8)[5]);
            assert(e@[6] == e@.subrange(0, 8)[6]);
            assert(e@[7] == e@.subrange(0, 8)[7]);
        }
    }
    b
}

fn check_projects(c: &AssetCollection, asset_keys_v: Vec<Vec<char>>) -> (r: Result<(), Invalid>)
    requires
        chars_view(asset_keys_v@) == asset_keys(*c, c.assets@.len() as int),
    ensures
        r is Ok <==> project_problem(*c, 0) is None,
        r is Err ==> project_problem(*c, 0) == Some(r->Err_0),
{
    let mut outputs = asset_keys_v;
    let mut entries: Vec<Vec<char>> = Vec::new();
    let mut i: usize = 0;
    proof {
        assert(chars_view(outputs@) =~= taken_output_keys(*c, 0));
        assert(chars_view(entries@) =~= entry_keys(*c, 0));
    }
    while i < c.projects.len()
        invariant
            0 <= i <= c.projects@.len(),
            project_problem(*c, 0) == project_problem(*c, i as int),
            chars_view(outputs@) == taken_output_keys(*c, i as int),
            chars_view(entries@) == entry_keys(*c, i as int),
        decreases c.projects@.len() - i,
    {
        let p = &c.projects[i];
        let name = trim_chars(&chars_of(p.name.as_str()));
        if name.len() == 0 {
            return Err(Invalid::EmptyProjectName(i));
        }
        if !safe_relative(p.entry.as_str()) {
            return Err(Invalid::UnsafeProjectEntry(i));
        }
        let entry = chars_of(p.entry.as_str());
        let entry_key = lowercase_chars(&p.entry);
        proof {
            assert(entries@.subrange(0, entries@.len() as int) =~= entries@);
        }
        if !projects_dir_entry(&entry) || contains_text(&entries, &entry_key, entries.len()) {
            return Err(Invalid::BadEntry(i));
        }
        if p.data.len() == 0 {
            return Err(Invalid::NoProjectData(i));
        }
        if !p.readable {
            return Err(Invalid::Undecodable(i));
        }
        if !safe_relative(p.output.as_str()) {
            return Err(Invalid::UnsafeProjectOutput(i));
        }
        let key = output_key_of(&p.output);
        proof {
            assert(outputs@.subrange(0, outputs@.len() as int) =~= outputs@);
        }
        if contains_text(&outputs, &key, outputs.len()) {
            return Err(Invalid::DuplicateProjectOutput(i));
        }
        let ghost (e0, o0, ek, ok) = (entries@, outputs@, entry_key@, key@);
        entries.push(entry_key);
        outputs.push(key);
        proof {
            assert(chars_view(entries@) =~= chars_view(e0).push(ek));
            assert(chars_view(outputs@) =~= chars_view(o0).push(ok));
            assert(entry_keys(*c, i + 1) =~= entry_keys(*c, i as int).push(
                lowercase(c.projects@[i as int].entry@),
            ));
            assert(taken_output_keys(*c, i + 1) =~= taken_output_keys(*c, i as int).push(
                output_key(c.projects@[i as int].output@),
            ));
        }
        i = i + 1;
    }
    Ok(())
}

impl AssetCollection {
    /// An empty collection of the newest format.
    pub fn new(name: String) -> (c: AssetCollection)
        ensures
            c.format_version == FORMAT_VERSION,
            c.name == name,
            c.script_libraries@.len() == 0,
            c.generators@.len() == 0,
            c.assets@.len() == 0,
            c.projects@.len() == 0,
    {
        AssetCollection {
            format_version: FORMAT_VERSION,
            name,
            script_libraries: Vec::new(),
            generators: Vec::new(),
            assets: Vec::new(),
            projects: Vec::new(),
        }
    }

    /// Checks the rules a collection must keep, in order, and reports the
    /// first one broken: a format version this build reads, a name, ids
    /// that are not blank and not repeated within their kind, no project
    /// sharing an output's id, no projects in a version 1 collection,
    /// generators that include existing libraries once each (and graphs
    /// none), outputs with a size, an existing generator, a safe path no
    /// other output writes, distinct knob value ids and nine-slice margins
    /// within the size, and projects with a name, a distinct archive entry
    /// under `projects`, readable data and a safe output path nothing else
    /// writes.
    pub fn validate(&self) -> (r: Result<(), Invalid>)
        requires
            checkable(*self),
        ensures
            r is Ok <==> validation(*self) is None,
            r is Err ==> validation(*self) == Some(r->Err_0),
    {
        if !(1 <= self.format_version && self.format_version <= FORMAT_VERSION) {
            return Err(Invalid::UnsupportedVersion);
        }
        let name = trim_chars(&chars_of(self.name.as_str()));
        if name.len() == 0 {
            return Err(Invalid::EmptyName);
        }
        let libraries = library_id_list(self);
        unique_ids(&libraries, IdKind::ScriptLibrary)?;
        let generators = generator_id_list(self);
        unique_ids(&generators, IdKind::Generator)?;
        let assets = asset_id_list(self);
        unique_ids(&assets, IdKind::Asset)?;
        let projects = project_id_list(self);
        unique_ids(&projects, IdKind::Project)?;
        check_shared(self, &assets, &projects)?;
        if self.format_version < 2 && self.projects.len() > 0 {
            return Err(Invalid::ProjectsInFirstVersion);
        }
        check_generators(self, &libraries)?;
        let (checked, keys) = check_assets(self, &generators);
        checked?;
        check_projects(self, keys)
    }
}

pub open spec fn is_ascii_alphanumeric(c: char) -> bool {
    ('0' <= c <= '9') || ('a' <= c <= 'z') || ('A' <= c <= 'Z')
}

/// A character as it stands in an id: ASCII letters (made small), digits,
/// `-` and `_` stay, and anything else becomes `-`.
pub open spec fn slug_char(c: char) -> char {
    if is_ascii_alphanumeric(c) || c == '-' || c == '_' {
        ascii_lower(c)
    } else {
        '-'
    }
}

/// The id a name gives: trimmed, its characters made safe, without `-` at
/// either end, and `project` where nothing is left.
pub open spec fn slug_of(name: Seq<char>) -> Seq<char> {
    let v = trim_end_by(
        trim_start_by(trim(name).map_values(|c: char| slug_char(c)), is_char('-')),
        is_char('-'),
    );
    if v.len() == 0 {
        seq!['p', 'r', 'o', 'j', 'e', 'c', 't']
    } else {
        v
    }
}

/// A name that is already an id, small ASCII letters and digits only, is
/// its own slug: letters and digits are kept as they are.
pub proof fn lemma_slug_keeps_an_id(name: Seq<char>)
    requires
        name.len() > 0,
        forall|i: int| 0 <= i < name.len() ==> ('0' <= #[trigger] name[i] <= '9') || ('a' <= name[i] <= 'z'),
    ensures
        slug_of(name) == name,
{
    assert(!is_white_space(name[0]));
    assert(trim_start_by(name, |c: char| is_white_space(c)) == name);
    assert(!is_white_space(name.last()));
    assert(trim(name) == name);
    let m = name.map_values(|c: char| slug_char(c));
    assert(m =~= name);
    assert(trim_start_by(m, is_char('-')) == m);
    assert(trim_end_by(m, is_char('-')) == m);
}

/// A name of one ASCII letter or digit has that character, made small, as
/// its slug.
pub proof fn lemma_slug_of_one_character(c: char)
    requires
        ('0' <= c <= '9') || ('a' <= c <= 'z') || ('A' <= c <= 'Z'),
    ensures
        slug_of(seq![c]) == seq![if 'A' <= c <= 'Z' { ((c as u32) + 32) as char } else { c }],
{
    let name = seq![c];
    assert(!is_white_space(c));
    assert(trim_start_by(name, |c: char| is_white_space(c)) == name);
    assert(trim(name) == name);
    let d = if 'A' <= c <= 'Z' { ((c as u32) + 32) as char } else { c };
    let m = name.map_values(|c: char| slug_char(c));
    assert(m =~= seq![d]);
    assert(d != '-');
    assert(trim_start_by(m, is_char('-')) == m);
    assert(trim_end_by(m, is_char('-')) == m);
}

fn slug_character(c: char) -> (d: char)
    ensures
        d == slug_char(c),
{
    if ('0' <= c && c <= '9') || ('a' <= c && c <= 'z') || c == '-' || c == '_' {
        c
    } else if 'A' <= c && c <= 'Z' {
        ((c as u8) + 32) as char
    } else {
        '-'
    }
}

/// The id a name gives: lowercase ASCII letters, digits, `-` and `_`.
pub fn slug(name: &str) -> (s: String)
    ensures
        s@ == slug_of(name@),
{
    let t = trim_chars(&chars_of(name));
    let mut mapped: Vec<char> = Vec::new();
    let mut i: usize = 0;
    while i < t.len()
        invariant
            0 <= i <= t@.len(),
            mapped@ == t@.subrange(0, i as int).map_values(|c: char| slug_char(c)),
        decreases t@.len() - i,
    {
        mapped.push(slug_character(t[i]));
        proof {
            assert(mapped@ =~= t@.subrange(0, i + 1).map_values(|c: char| slug_char(c)));
        }
        i = i + 1;
    }
    proof {
        assert(t@.subrange(0, i as int) =~= t@);
    }
    let v = trim_char_ends(&mapped, '-');
    if v.len() == 0 {
        let p = vec!['p', 'r', 'o', 'j', 'e', 'c', 't'];
        proof {
            assert(p@ =~= seq!['p', 'r', 'o', 'j', 'e', 'c', 't']);
        }
        string_of(p.as_slice())
    } else {
        string_of(v.as_slice())
    }
}

/// The ids of every output and every project.
pub open spec fn taken_ids(c: AssetCollection) -> Seq<Seq<char>> {
    asset_ids(c) + project_ids(c)
}

/// The id a new project named `name` gets: its slug, or the slug with the
/// first `-2`, `-3`, ... that no output or project has.
pub open spec fn is_new_id(c: AssetCollection, name: Seq<char>, id: Seq<char>) -> bool {
    let base = slug_of(name);
    ||| !taken_ids(c).contains(base) && id == base
    ||| taken_ids(c).contains(base) && exists|k: nat|
        #[trigger] is_first_free(taken_ids(c), base, '-', k) && id == suffixed(base, '-', k)
}

/// Whether `p` is the project added as `id`: named `name`, stored under
/// `projects/<id>.spriterize`, written to `<id>.png`, at default export
/// options, with no metadata.
pub open spec fn is_added_project(
    p: CollectionProject,
    id: Seq<char>,
    name: Seq<char>,
    data: Seq<u8>,
    readable: bool,
) -> bool {
    &&& p.id@ == id
    &&& p.name@ == name
    &&& p.entry@ == seq!['p', 'r', 'o', 'j', 'e', 'c', 't', 's', '/'] + id + seq![
        '.',
        's',
        'p',
        'r',
        'i',
        't',
        'e',
        'r',
        'i',
        'z',
        'e',
    ]
    &&& p.output@ == id + seq!['.', 'p', 'n', 'g']
    &&& p.export == ExportOptions {
        crop: false,
        padding: 0,
        scale: crate::export::Scale { up: 1, down: 1 },
        power_of_two: false,
    }
    &&& p.metadata.slice9 is None
    &&& p.metadata.tags@.len() == 0
    &&& p.data@ == data
    &&& p.readable == readable
}

/// Whether `c2` is `c` at the newest format with project `p` added at the
/// end.
pub open spec fn with_project(c: AssetCollection, c2: AssetCollection, p: CollectionProject) -> bool {
    &&& c2.format_version == FORMAT_VERSION
    &&& c2.name == c.name
    &&& c2.script_libraries == c.script_libraries
    &&& c2.generators == c.generators
    &&& c2.assets == c.assets
    &&& c2.projects@ == c.projects@.push(p)
}

proof fn lemma_slices_same(c1: AssetCollection, c2: AssetCollection, i: int)
    requires
        c1.generators == c2.generators,
        c1.assets == c2.assets,
    ensures
        slice_sums_fit(c1, i) == slice_sums_fit(c2, i),
    decreases c1.assets@.len() - i,
{
    if 0 <= i < c1.assets@.len() {
        assert(generator_ids(c1) == generator_ids(c2));
        assert(asset_keys(c1, i) == asset_keys(c2, i));
        lemma_slices_same(c1, c2, i + 1);
    }
}

fn id_list(c: &AssetCollection) -> (v: Vec<Vec<char>>)
    ensures
        chars_view(v@) == taken_ids(*c),
{
    let mut v = asset_id_list(c);
    let p = project_id_list(c);
    let ghost start = chars_view(v@);
    let mut i: usize = 0;
    while i < p.len()
        invariant
            0 <= i <= p@.len(),
            chars_view(v@) == start + chars_view(p@).subrange(0, i as int),
        decreases p@.len() - i,
    {
        let ghost before = v@;
        v.push(p[i].clone());
        proof {
            assert(chars_view(v@) =~= chars_view(before).push(p@[i as int]@));
            assert(chars_view(p@).subrange(0, i + 1) =~= chars_view(p@).subrange(0, i as int).push(
                p@[i as int]@,
            ));
        }
        i = i + 1;
    }
    proof {
        assert(chars_view(p@).subrange(0, i as int) =~= chars_view(p@));
    }
    v
}

impl AssetCollection {
    /// Adds an editable project and returns the id it gets, from its
    /// name: the slug of the name, made unique with `-2`, `-3` and so on.
    /// The collection moves to the newest format. Where the result breaks
    /// the rules, the collection is left as it was and the broken rule is
    /// reported.
    pub fn add_project(&mut self, name: String, data: Vec<u8>, readable: bool) -> (r: Result<
        String,
        Invalid,
    >)
        requires
            slice_sums_fit(*old(self), 0),
            old(self).assets@.len() + old(self).projects@.len() + 3 < usize::MAX,
        ensures
            r is Ok ==> {
                &&& is_new_id(*old(self), name@, r->Ok_0@)
                &&& with_project(*old(self), *final(self), final(self).projects@.last())
                &&& is_added_project(final(self).projects@.last(), r->Ok_0@, name@, data@, readable)
                &&& validation(*final(self)) is None
            },
            r is Err ==> {
                &&& final(self).format_version == old(self).format_version
                &&& final(self).name == old(self).name
                &&& final(self).script_libraries == old(self).script_libraries
                &&& final(self).generators == old(self).generators
                &&& final(self).assets == old(self).assets
                &&& final(self).projects@ == old(self).projects@
                &&& exists|c2: AssetCollection, id: Seq<char>|
                    is_new_id(*old(self), name@, id) && with_project(*old(self), c2, c2.projects@.last())
                        && is_added_project(c2.projects@.last(), id, name@, data@, readable)
                        && validation(c2) == Some(r->Err_0)
            },
    {
        let base = slug(name.as_str());
        let base_chars = chars_of(base.as_str());
        let taken = id_list(self);
        let ghost keys = taken_ids(*self);
        proof {
            assert(taken@.subrange(0, taken@.len() as int) =~= taken@);
        }
        let id: String = if !contains_text(&taken, &base_chars, taken.len()) {
            base
        } else {
            let mut k: usize = 2;
            loop
                invariant
                    chars_view(taken@) == keys,
                    taken@.subrange(0, taken@.len() as int) == taken@,
                    keys.len() + 3 < usize::MAX,
                    keys.contains(base_chars@),
                    2 <= k <= keys.len() + 2,
                    forall|j: nat| 2 <= j < k ==> keys.contains(#[trigger] suffixed(base_chars@, '-', j)),
                ensures
                    2 <= k,
                    is_first_free(keys, base_chars@, '-', k as nat),
                decreases keys.len() + 2 - k,
            {
                let candidate = with_suffix(&base_chars, '-', k);
                let cand = chars_of(candidate.as_str());
                if !contains_text(&taken, &cand, taken.len()) {
                    break;
                }
                proof {
                    lemma_suffixes_bounded(keys, base_chars@, '-', k as nat);
                }
                k = k + 1;
            }
            with_suffix(&base_chars, '-', k)
        };
        assert(is_new_id(*self, name@, id@));
        let id_chars = chars_of(id.as_str());
        let mut entry: Vec<char> = vec!['p', 'r', 'o', 'j', 'e', 'c', 't', 's', '/'];
        let ghost e0 = entry@;
        append_chars(&mut entry, &id_chars);
        let ext = vec!['.', 's', 'p', 'r', 'i', 't', 'e', 'r', 'i', 'z', 'e'];
        append_chars(&mut entry, &ext);
        let mut output: Vec<char> = Vec::new();
        append_chars(&mut output, &id_chars);
        let png = vec!['.', 'p', 'n', 'g'];
        append_chars(&mut output, &png);
        proof {
            assert(e0 =~= seq!['p', 'r', 'o', 'j', 'e', 'c', 't', 's', '/']);
            assert(ext@ =~= seq!['.', 's', 'p', 'r', 'i', 't', 'e', 'r', 'i', 'z', 'e']);
            assert(png@ =~= seq!['.', 'p', 'n', 'g']);
            assert(output@ =~= id@ + seq!['.', 'p', 'n', 'g']);
        }
        let ghost snapshot = *self;
        let previous_version = self.format_version;
        self.format_version = FORMAT_VERSION;
        let project = CollectionProject {
            id: string_of(id_chars.as_slice()),
            name,
            entry: string_of(entry.as_slice()),
            output: string_of(output.as_slice()),
            export: ExportOptions::default(),
            metadata: AssetMetadata::new(),
            data,
            readable,
        };
        let ghost added = project;
        self.projects.push(project);
        proof {
            assert(with_project(snapshot, *self, added));
            assert(self.projects@.last() == added);
            lemma_slices_same(snapshot, *self, 0);
        }
        match self.validate() {
            Ok(()) => Ok(id),
            Err(e) => {
                proof {
                    assert(is_new_id(snapshot, name@, id@));
                    assert(is_added_project(added, id@, name@, data@, readable));
                }
                let ghost c2 = *self;
                proof {
                    assert(validation(c2) == Some(e));
                    assert(with_project(snapshot, c2, c2.projects@.last()));
                    assert(is_added_project(c2.projects@.last(), id@, name@, data@, readable));
                }
                self.projects.pop();
                self.format_version = previous_version;
                proof {
                    assert(self.projects@ =~= snapshot.projects@);
                }
                Err(e)
            },
        }
    }
}

/// The path, where it is a safe relative one: not blank, with no root, no
/// leading `"."` and no `".."`.
pub fn safe_relative_path(value: &str) -> (r: Option<String>)
    ensures
        r is Some <==> is_safe_relative(value@),
        r is Some ==> r->0@ == value@,
{
    if safe_relative(value) {
        Some(value.to_owned())
    } else {
        None
    }
}

/// A new project's id is one no output or project had.
pub proof fn lemma_new_id_is_fresh(c: AssetCollection, name: Seq<char>, id: Seq<char>)
    requires
        is_new_id(c, name, id),
    ensures
        !taken_ids(c).contains(id),
{
    if taken_ids(c).contains(slug_of(name)) {
        let k = choose|k: nat|
            #[trigger] is_first_free(taken_ids(c), slug_of(name), '-', k) && id == suffixed(
                slug_of(name),
                '-',
                k,
            );
    }
}


/// Where the image of an exported file comes from: an output or a project,
/// by position.
#[derive(Clone, Copy, Debug, PartialEq, Eq, Structural)]
pub enum ExportSource {
    Asset(usize),
    Project(usize),
}

/// One file of an export: where its image comes from, and the relative
/// path of the PNG it is written to.
#[derive(Debug)]
pub struct ExportJob {
    pub source: ExportSource,
    pub path: String,
}

/// Why an export cannot go ahead.
#[derive(Debug)]
pub enum ExportError {
    /// The collection breaks a rule.
    Invalid(Invalid),
    /// A selected id names neither an output nor a project.
    UnknownSelection(String),
}

/// Whether an id is exported: every one is when nothing is selected.
pub open spec fn chosen(sel: Seq<Seq<char>>, id: Seq<char>) -> bool {
    sel.len() == 0 || sel.contains(id)
}

/// The files for the chosen outputs among the first `n`, in order.
pub open spec fn asset_jobs(c: AssetCollection, sel: Seq<Seq<char>>, n: int) -> Seq<(ExportSource, Seq<char>)>
    decreases n,
{
    if n <= 0 {
        seq![]
    } else {
        let rest = asset_jobs(c, sel, n - 1);
        let a = c.assets@[n - 1];
        if chosen(sel, a.id@) {
            rest.push((ExportSource::Asset((n - 1) as usize), png_path_of(a.output@)))
        } else {
            rest
        }
    }
}

/// The files for the chosen projects among the first `n`, in order.
pub open spec fn project_jobs(c: AssetCollection, sel: Seq<Seq<char>>, n: int) -> Seq<(ExportSource, Seq<char>)>
    decreases n,
{
    if n <= 0 {
        seq![]
    } else {
        let rest = project_jobs(c, sel, n - 1);
        let p = c.projects@[n - 1];
        if chosen(sel, p.id@) {
            rest.push((ExportSource::Project((n - 1) as usize), png_path_of(p.output@)))
        } else {
            rest
        }
    }
}

/// The files an export of the selection writes: the chosen outputs, then
/// the chosen projects.
pub open spec fn export_jobs(c: AssetCollection, sel: Seq<Seq<char>>) -> Seq<(ExportSource, Seq<char>)> {
    asset_jobs(c, sel, c.assets@.len() as int) + project_jobs(c, sel, c.projects@.len() as int)
}

/// Whether the `k`th job of `jobs` writes a selected output or project:
/// with nothing selected everything counts as selected.
pub open spec fn job_is_selected(
    c: AssetCollection,
    sel: Seq<Seq<char>>,
    job: (ExportSource, Seq<char>),
) -> bool {
    match job.0 {
        ExportSource::Asset(i) => i < c.assets@.len() && (sel.len() == 0 || sel.contains(
            c.assets@[i as int].id@,
        )) && job.1 == png_path_of(c.assets@[i as int].output@),
        ExportSource::Project(i) => i < c.projects@.len() && (sel.len() == 0 || sel.contains(
            c.projects@[i as int].id@,
        )) && job.1 == png_path_of(c.projects@[i as int].output@),
    }
}

proof fn lemma_asset_jobs(c: AssetCollection, sel: Seq<Seq<char>>, n: int)
    requires
        0 <= n <= c.assets@.len(),
    ensures
        forall|k: int|
            0 <= k < asset_jobs(c, sel, n).len() ==> #[trigger] asset_jobs(c, sel, n)[k].0 is Asset
                && job_is_selected(c, sel, asset_jobs(c, sel, n)[k]) && asset_jobs(c, sel, n)[k].0->Asset_0 < n,
    decreases n,
{
    assert(c.assets@.len() == c.assets.len());
    if n > 0 {
        lemma_asset_jobs(c, sel, n - 1);
        let rest = asset_jobs(c, sel, n - 1);
        let last = c.assets@[n - 1];
        let whole = asset_jobs(c, sel, n);
        if chosen(sel, last.id@) {
            assert(whole == rest.push((ExportSource::Asset((n - 1) as usize), png_path_of(last.output@))));
        } else {
            assert(whole == rest);
        }
        assert forall|k: int| 0 <= k < whole.len() implies #[trigger] whole[k].0 is Asset
            && job_is_selected(c, sel, whole[k]) && whole[k].0->Asset_0 < n by {
            if k < rest.len() {
                assert(whole[k] == rest[k]);
            }
        }
    }
}

proof fn lemma_asset_jobs_present(c: AssetCollection, sel: Seq<Seq<char>>, n: int, i: int)
    requires
        0 <= i < n <= c.assets@.len(),
        sel.len() == 0 || sel.contains(c.assets@[i].id@),
    ensures
        exists|k: int|
            0 <= k < asset_jobs(c, sel, n).len() && #[trigger] asset_jobs(c, sel, n)[k].0 == ExportSource::Asset(
                i as usize,
            ),
    decreases n,
{
    assert(c.assets@.len() == c.assets.len());
    let rest = asset_jobs(c, sel, n - 1);
    let last = c.assets@[n - 1];
    let whole = asset_jobs(c, sel, n);
    if chosen(sel, last.id@) {
        assert(whole == rest.push((ExportSource::Asset((n - 1) as usize), png_path_of(last.output@))));
    } else {
        assert(whole == rest);
    }
    if i < n - 1 {
        lemma_asset_jobs_present(c, sel, n - 1, i);
        let k = choose|k: int| 0 <= k < rest.len() && #[trigger] rest[k].0 == ExportSource::Asset(i as usize);
        assert(whole[k] == rest[k]);
    } else {
        assert(whole[rest.len() as int].0 == ExportSource::Asset(i as usize));
    }
}

proof fn lemma_project_jobs(c: AssetCollection, sel: Seq<Seq<char>>, n: int)
    requires
        0 <= n <= c.projects@.len(),
    ensures
        forall|k: int|
            0 <= k < project_jobs(c, sel, n).len() ==> #[trigger] project_jobs(c, sel, n)[k].0 is Project
                && job_is_selected(c, sel, project_jobs(c, sel, n)[k]) && project_jobs(c, sel, n)[k].0->Project_0 < n,
    decreases n,
{
    assert(c.projects@.len() == c.projects.len());
    if n > 0 {
        lemma_project_jobs(c, sel, n - 1);
        let rest = project_jobs(c, sel, n - 1);
        let last = c.projects@[n - 1];
        let whole = project_jobs(c, sel, n);
        if chosen(sel, last.id@) {
            assert(whole == rest.push((ExportSource::Project((n - 1) as usize), png_path_of(last.output@))));
        } else {
            assert(whole == rest);
        }
        assert forall|k: int| 0 <= k < whole.len() implies #[trigger] whole[k].0 is Project
            && job_is_selected(c, sel, whole[k]) && whole[k].0->Project_0 < n by {
            if k < rest.len() {
                assert(whole[k] == rest[k]);
            }
        }
    }
}

proof fn lemma_project_jobs_present(c: AssetCollection, sel: Seq<Seq<char>>, n: int, i: int)
    requires
        0 <= i < n <= c.projects@.len(),
        sel.len() == 0 || sel.contains(c.projects@[i].id@),
    ensures
        exists|k: int|
            0 <= k < project_jobs(c, sel, n).len() && #[trigger] project_jobs(c, sel, n)[k].0 == ExportSource::Project(
                i as usize,
            ),
    decreases n,
{
    assert(c.projects@.len() == c.projects.len());
    let rest = project_jobs(c, sel, n - 1);
    let last = c.projects@[n - 1];
    let whole = project_jobs(c, sel, n);
    if chosen(sel, last.id@) {
        assert(whole == rest.push((ExportSource::Project((n - 1) as usize), png_path_of(last.output@))));
    } else {
        assert(whole == rest);
    }
    if i < n - 1 {
        lemma_project_jobs_present(c, sel, n - 1, i);
        let k = choose|k: int| 0 <= k < rest.len() && #[trigger] rest[k].0 == ExportSource::Project(i as usize);
        assert(whole[k] == rest[k]);
    } else {
        assert(whole[rest.len() as int].0 == ExportSource::Project(i as usize));
    }
}

/// Whether an export of the selection plans a file from `src`.
pub open spec fn plans_file_from(c: AssetCollection, sel: Seq<Seq<char>>, src: ExportSource) -> bool {
    exists|k: int| 0 <= k < export_jobs(c, sel).len() && #[trigger] export_jobs(c, sel)[k].0 == src
}

/// An export writes exactly what was selected: every file it plans comes
/// from a selected output or project (everything, when nothing is
/// selected) and goes to that one's PNG path, and every selected output
/// and project gets a file.
pub proof fn lemma_export_writes_the_selection(c: AssetCollection, sel: Seq<Seq<char>>)
    ensures
        forall|k: int| 0 <= k < export_jobs(c, sel).len() ==> job_is_selected(c, sel, #[trigger] export_jobs(c, sel)[k]),
        forall|i: int|
            #![trigger c.assets@[i]]
            0 <= i < c.assets@.len() && (sel.len() == 0 || sel.contains(c.assets@[i].id@))
                ==> plans_file_from(c, sel, ExportSource::Asset(i as usize)),
        forall|i: int|
            #![trigger c.projects@[i]]
            0 <= i < c.projects@.len() && (sel.len() == 0 || sel.contains(c.projects@[i].id@))
                ==> plans_file_from(c, sel, ExportSource::Project(i as usize)),
{
    let na = c.assets@.len() as int;
    let np = c.projects@.len() as int;
    lemma_asset_jobs(c, sel, na);
    lemma_project_jobs(c, sel, np);
    let a = asset_jobs(c, sel, na);
    let p = project_jobs(c, sel, np);
    assert(c.assets@.len() == c.assets.len());
    assert(c.projects@.len() == c.projects.len());
    assert(export_jobs(c, sel) == a + p);
    assert forall|k: int| 0 <= k < export_jobs(c, sel).len() implies job_is_selected(c, sel, #[trigger] export_jobs(c, sel)[k]) by {
        if k < a.len() {
            assert(export_jobs(c, sel)[k] == a[k]);
        } else {
            assert(export_jobs(c, sel)[k] == p[k - a.len()]);
        }
    }
    assert forall|i: int|
        #![trigger c.assets@[i]]
        0 <= i < c.assets@.len() && (sel.len() == 0 || sel.contains(c.assets@[i].id@))
            implies plans_file_from(c, sel, ExportSource::Asset(i as usize)) by {
        lemma_asset_jobs_present(c, sel, na, i);
        let k = choose|k: int| 0 <= k < a.len() && #[trigger] a[k].0 == ExportSource::Asset(i as usize);
        assert((a + p)[k] == a[k]);
        assert(export_jobs(c, sel)[k].0 == ExportSource::Asset(i as usize));
    }
    assert forall|i: int|
        #![trigger c.projects@[i]]
        0 <= i < c.projects@.len() && (sel.len() == 0 || sel.contains(c.projects@[i].id@))
            implies plans_file_from(c, sel, ExportSource::Project(i as usize)) by {
        lemma_project_jobs_present(c, sel, np, i);
        let k = choose|k: int| 0 <= k < p.len() && #[trigger] p[k].0 == ExportSource::Project(i as usize);
        assert((a + p)[a.len() + k] == p[k]);
        assert(export_jobs(c, sel)[a.len() + k].0 == ExportSource::Project(i as usize));
    }
}

/// The sources and paths of export files.
pub open spec fn job_views(jobs: Seq<ExportJob>) -> Seq<(ExportSource, Seq<char>)> {
    jobs.map_values(|j: ExportJob| (j.source, j.path@))
}

/// The texts of a sequence of strings.
pub open spec fn string_views(v: Seq<String>) -> Seq<Seq<char>> {
    v.map_values(|s: String| s@)
}

impl AssetCollection {
    /// Plans an export of the selected outputs and projects, or of all of
    /// them where nothing is selected: the collection is validated, every
    /// selected id must name an output or a project, and each chosen one
    /// gets a PNG path from its output path. Everything is worked out
    /// before anything is written, so a bad selection writes nothing.
    pub fn export_selected(&self, selected: &Vec<String>) -> (r: Result<Vec<ExportJob>, ExportError>)
        requires
            checkable(*self),
            forall|k: int| 0 <= k < self.assets@.len() ==> (#[trigger] self.assets@[k]).output@.len() < i64::MAX,
            forall|k: int| 0 <= k < self.projects@.len() ==> (#[trigger] self.projects@[k]).output@.len() < i64::MAX,
        ensures
            validation(*self) matches Some(e) ==> (r matches Err(ExportError::Invalid(x)) && x == e),
            validation(*self) is None ==> match r {
                Ok(jobs) => (forall|k: int|
                    0 <= k < selected@.len() ==> taken_ids(*self).contains(#[trigger] selected@[k]@))
                    && job_views(jobs@) == export_jobs(*self, string_views(selected@)),
                Err(ExportError::UnknownSelection(u)) => string_views(selected@).contains(u@)
                    && !taken_ids(*self).contains(u@),
                Err(ExportError::Invalid(_)) => false,
            },
    {
        match self.validate() {
            Ok(()) => {},
            Err(e) => return Err(ExportError::Invalid(e)),
        }
        let ghost sel = string_views(selected@);
        let assets = asset_id_list(self);
        let projects = project_id_list(self);
        let mut k: usize = 0;
        while k < selected.len()
            invariant
                0 <= k <= selected@.len(),
                validation(*self) is None,
                sel == string_views(selected@),
                chars_view(assets@) == asset_ids(*self),
                chars_view(projects@) == project_ids(*self),
                forall|j: int| 0 <= j < k ==> taken_ids(*self).contains(#[trigger] selected@[j]@),
            decreases selected@.len() - k,
        {
            let id = chars_of(selected[k].as_str());
            proof {
                assert(assets@.subrange(0, assets@.len() as int) =~= assets@);
                assert(projects@.subrange(0, projects@.len() as int) =~= projects@);
            }
            let known = contains_text(&assets, &id, assets.len()) || contains_text(
                &projects,
                &id,
                projects.len(),
            );
            if !known {
                proof {
                    assert(sel[k as int] == id@);
                    if taken_ids(*self).contains(id@) {
                        let j = choose|j: int|
                            0 <= j < taken_ids(*self).len() && taken_ids(*self)[j] == id@;
                        if j < asset_ids(*self).len() {
                            assert(asset_ids(*self)[j] == id@);
                        } else {
                            assert(project_ids(*self)[j - asset_ids(*self).len()] == id@);
                        }
                    }
                }
                return Err(ExportError::UnknownSelection(selected[k].clone()));
            }
            proof {
                if asset_ids(*self).contains(id@) {
                    let j = choose|j: int| 0 <= j < asset_ids(*self).len() && asset_ids(*self)[j] == id@;
                    assert(taken_ids(*self)[j] == id@);
                } else {
                    let j = choose|j: int|
                        0 <= j < project_ids(*self).len() && project_ids(*self)[j] == id@;
                    assert(taken_ids(*self)[asset_ids(*self).len() + j] == id@);
                }
            }
            k = k + 1;
        }
        let sel_chars = selected_chars(selected);
        let mut jobs: Vec<ExportJob> = Vec::new();
        let mut i: usize = 0;
        while i < self.assets.len()
            invariant
                0 <= i <= self.assets@.len(),
                validation(*self) is None,
                forall|j: int| 0 <= j < selected@.len() ==> taken_ids(*self).contains(#[trigger] selected@[j]@),
                sel == string_views(selected@),
                chars_view(sel_chars@) == sel,
                forall|k: int| 0 <= k < self.assets@.len() ==> (#[trigger] self.assets@[k]).output@.len() < i64::MAX,
                job_views(jobs@) == asset_jobs(*self, sel, i as int),
            decreases self.assets@.len() - i,
        {
            let a = &self.assets[i];
            let id = chars_of(a.id.as_str());
            let ghost before = jobs@;
            if sel_chars.len() == 0 || contains_text(&sel_chars, &id, sel_chars.len()) {
                let path = crate::paths::png_path(a.output.as_str());
                let job = ExportJob { source: ExportSource::Asset(i), path };
                jobs.push(job);
                proof {
                    assert(sel_chars@.subrange(0, sel_chars@.len() as int) =~= sel_chars@);
                    assert(job_views(jobs@) =~= job_views(before).push(
                        (job.source, job.path@),
                    ));
                }
            } else {
                proof {
                    assert(sel_chars@.subrange(0, sel_chars@.len() as int) =~= sel_chars@);
                }
            }
            i = i + 1;
        }
        let ghost asset_part = jobs@;
        let mut i: usize = 0;
        while i < self.projects.len()
            invariant
                0 <= i <= self.projects@.len(),
                validation(*self) is None,
                forall|j: int| 0 <= j < selected@.len() ==> taken_ids(*self).contains(#[trigger] selected@[j]@),
                sel == string_views(selected@),
                chars_view(sel_chars@) == sel,
                forall|k: int| 0 <= k < self.projects@.len() ==> (#[trigger] self.projects@[k]).output@.len() < i64::MAX,
                job_views(asset_part) == asset_jobs(*self, sel, self.assets@.len() as int),
                jobs@.len() >= asset_part.len(),
                jobs@.subrange(0, asset_part.len() as int) == asset_part,
                job_views(jobs@) == job_views(asset_part) + project_jobs(*self, sel, i as int),
            decreases self.projects@.len() - i,
        {
            let p = &self.projects[i];
            let id = chars_of(p.id.as_str());
            let ghost before = jobs@;
            if sel_chars.len() == 0 || contains_text(&sel_chars, &id, sel_chars.len()) {
                let path = crate::paths::png_path(p.output.as_str());
                let job = ExportJob { source: ExportSource::Project(i), path };
                jobs.push(job);
                proof {
                    assert(sel_chars@.subrange(0, sel_chars@.len() as int) =~= sel_chars@);
                    assert(job_views(jobs@) =~= job_views(before).push(
                        (job.source, job.path@),
                    ));
                    assert(jobs@.subrange(0, asset_part.len() as int) =~= before.subrange(
                        0,
                        asset_part.len() as int,
                    ));
                }
            } else {
                proof {
                    assert(sel_chars@.subrange(0, sel_chars@.len() as int) =~= sel_chars@);
                }
            }
            i = i + 1;
        }
        Ok(jobs)
    }
}

/// The characters of each selected id.
fn selected_chars(selected: &Vec<String>) -> (v: Vec<Vec<char>>)
    ensures
        chars_view(v@) == string_views(selected@),
{
    let mut v: Vec<Vec<char>> = Vec::new();
    let mut i: usize = 0;
    while i < selected.len()
        invariant
            0 <= i <= selected@.len(),
            chars_view(v@) == string_views(selected@).subrange(0, i as int),
        decreases selected@.len() - i,
    {
        let ghost before = v@;
        let c = chars_of(selected[i].as_str());
        v.push(c);
        proof {
            assert(chars_view(v@) =~= chars_view(before).push(c@));
            assert(string_views(selected@).subrange(0, i + 1) =~= string_views(selected@).subrange(
                0,
                i as int,
            ).push(selected@[i as int]@));
        }
        i = i + 1;
    }
    proof {
        assert(string_views(selected@).subrange(0, selected@.len() as int) =~= string_views(
            selected@,
        ));
    }
    v
}


/// Where the first generator with id `id` stands.
pub open spec fn first_generator(gens: Seq<GeneratorResource>, id: Seq<char>, from: int) -> Option<int>
    decreases gens.len() - from,
{
    if from < 0 || from >= gens.len() {
        None
    } else if gens[from].id@ == id {
        Some(from)
    } else {
        first_generator(gens, id, from + 1)
    }
}

/// Where the last of the first `n` libraries with id `id` stands, if any:
/// a later library of the same id takes the place of an earlier one.
pub open spec fn last_library(libs: Seq<ScriptLibrary>, id: Seq<char>, n: int) -> Option<int>
    decreases n,
{
    if n <= 0 {
        None
    } else if libs[n - 1].id@ == id {
        Some(n - 1)
    } else {
        last_library(libs, id, n - 1)
    }
}

proof fn lemma_last_library_bounds(libs: Seq<ScriptLibrary>, id: Seq<char>, n: int)
    ensures
        last_library(libs, id, n) matches Some(k) ==> 0 <= k < n,
    decreases n,
{
    if n > 0 {
        lemma_last_library_bounds(libs, id, n - 1);
    }
}

/// The sources of the libraries named by `ids`, in order, each followed by
/// a line break.
pub open spec fn joined_sources(libs: Seq<ScriptLibrary>, ids: Seq<String>) -> Seq<char>
    decreases ids.len(),
{
    if ids.len() == 0 {
        seq![]
    } else {
        joined_sources(libs, ids.drop_last()) + libs[last_library(
            libs,
            ids.last()@,
            libs.len() as int,
        )->0].source@ + seq!['\n']
    }
}

/// Whether every library a generator includes is in the collection.
pub open spec fn libraries_present(libs: Seq<ScriptLibrary>, ids: Seq<String>) -> bool {
    forall|k: int| 0 <= k < ids.len() ==> #[trigger] last_library(libs, ids[k]@, libs.len() as int) is Some
}

/// The library with id `id` that counts, as [`last_library`] picks it.
fn find_library(libs: &Vec<ScriptLibrary>, id: &Vec<char>) -> (r: Option<usize>)
    ensures
        r matches Some(k) ==> last_library(libs@, id@, libs@.len() as int) == Some(k as int),
        r is None ==> last_library(libs@, id@, libs@.len() as int) is None,
{
    let mut n = libs.len();
    while n > 0
        invariant
            n <= libs@.len(),
            last_library(libs@, id@, libs@.len() as int) == last_library(libs@, id@, n as int),
        decreases n,
    {
        let here = chars_of(libs[n - 1].id.as_str());
        if same_chars(&here, id) {
            return Some(n - 1);
        }
        n = n - 1;
    }
    None
}

impl AssetCollection {
    /// The source a script generator runs: the sources of the libraries it
    /// includes, in order and each followed by a line break, then its own
    /// script. `None` where no generator has the id, or where the first one
    /// that has it is a node graph. Each library it includes must be in the
    /// collection, as a valid collection has them.
    pub fn generator_script(&self, generator: &str) -> (r: Option<String>)
        requires
            first_generator(self.generators@, generator@, 0) matches Some(k) ==> libraries_present(
                self.script_libraries@,
                self.generators@[k].libraries@,
            ),
        ensures
            match first_generator(self.generators@, generator@, 0) {
                Some(k) => if self.generators@[k].kind is Script {
                    r matches Some(s) && s@ == joined_sources(
                        self.script_libraries@,
                        self.generators@[k].libraries@,
                    ) + self.generators@[k].script@
                } else {
                    r is None
                },
                None => r is None,
            },
    {
        let want = chars_of(generator);
        let ghost gens = self.generators@;
        let ghost libs = self.script_libraries@;
        let mut i: usize = 0;
        while i < self.generators.len()
            invariant
                0 <= i <= gens.len(),
                gens == self.generators@,
                libs == self.script_libraries@,
                want@ == generator@,
                first_generator(gens, generator@, 0) == first_generator(gens, generator@, i as int),
                first_generator(gens, generator@, 0) matches Some(k) ==> libraries_present(
                    libs,
                    gens[k].libraries@,
                ),
            decreases gens.len() - i,
        {
            let here = chars_of(self.generators[i].id.as_str());
            if same_chars(&here, &want) {
                let g = &self.generators[i];
                proof {
                    assert(first_generator(gens, generator@, i as int) == Some(i as int));
                }
                match g.kind {
                    GeneratorKind::Graph => {
                        return None;
                    },
                    GeneratorKind::Script => {},
                }
                let mut acc: Vec<char> = Vec::new();
                let mut j: usize = 0;
                proof {
                    assert(g.libraries@.subrange(0, 0) =~= Seq::<String>::empty());
                }
                while j < g.libraries.len()
                    invariant
                        0 <= j <= g.libraries@.len(),
                        libs == self.script_libraries@,
                        libraries_present(libs, g.libraries@),
                        acc@ == joined_sources(libs, g.libraries@.subrange(0, j as int)),
                    decreases g.libraries@.len() - j,
                {
                    let id = chars_of(g.libraries[j].as_str());
                    proof {
                        assert(last_library(libs, g.libraries@[j as int]@, libs.len() as int) is Some);
                        assert(g.libraries@.subrange(0, j + 1).drop_last() =~= g.libraries@.subrange(
                            0,
                            j as int,
                        ));
                        assert(g.libraries@.subrange(0, j + 1).last() == g.libraries@[j as int]);
                    }
                    match find_library(&self.script_libraries, &id) {
                        Some(k) => {
                            proof {
                                lemma_last_library_bounds(libs, id@, libs.len() as int);
                            }
                            let source = chars_of(self.script_libraries[k].source.as_str());
                            append_chars(&mut acc, &source);
                            acc.push('\n');
                        },
                        None => {
                            return None;
                        },
                    }
                    j = j + 1;
                }
                proof {
                    assert(g.libraries@.subrange(0, g.libraries@.len() as int) =~= g.libraries@);
                }
                let script = chars_of(g.script.as_str());
                append_chars(&mut acc, &script);
                return Some(string_of(acc.as_slice()));
            }
            proof {
                assert(first_generator(gens, generator@, i as int) == first_generator(
                    gens,
                    generator@,
                    i + 1,
                ));
            }
            i = i + 1;
        }
        None
    }
}

} // verus!
