//! Kinds of documents told apart by their paths, the file dialogs the
//! editor opens, and the list of recently used paths.

use vstd::prelude::*;
use crate::paths::{eq_ignore_ascii_case, has_extension, path_extension};
use crate::text::{chars_of, is_white_space, slice_chars, string_of, trim, trim_chars};

verus! {

/// Extension of a saved project, as opposed to an imported or exported
/// image.
pub const PROJECT_EXTENSION: &'static str = "spriterize";

/// Extension of an asset collection archive.
pub const COLLECTION_EXTENSION: &'static str = "spriterize-collection";

/// How many recently used paths are remembered.
pub const MAX_RECENT: usize = 10;

pub open spec fn project_extension() -> Seq<char> {
    seq!['s', 'p', 'r', 'i', 't', 'e', 'r', 'i', 'z', 'e']
}

pub open spec fn collection_extension() -> Seq<char> {
    project_extension() + seq!['-', 'c', 'o', 'l', 'l', 'e', 'c', 't', 'i', 'o', 'n']
}

/// Whether a path names a project, rather than an image.
pub fn is_project(path: &str) -> (r: bool)
    requires
        path@.len() < i64::MAX,
    ensures
        r == (path_extension(path@) is Some && eq_ignore_ascii_case(
            path_extension(path@)->0,
            project_extension(),
        )),
{
    let wanted = chars_of(PROJECT_EXTENSION);
    proof {
        reveal_strlit("spriterize");
        assert(wanted@ =~= project_extension());
    }
    has_extension(path, &wanted)
}

/// Whether a path names an asset collection.
pub fn is_collection(path: &str) -> (r: bool)
    requires
        path@.len() < i64::MAX,
    ensures
        r == (path_extension(path@) is Some && eq_ignore_ascii_case(
            path_extension(path@)->0,
            collection_extension(),
        )),
{
    let wanted = chars_of(COLLECTION_EXTENSION);
    proof {
        reveal_strlit("spriterize-collection");
        assert(wanted@ =~= collection_extension());
    }
    has_extension(path, &wanted)
}

/// What a file dialog asks the user for.
#[derive(Clone, Copy, Debug, PartialEq, Eq, Structural)]
pub enum DialogKind {
    /// An existing file.
    PickFile,
    /// A file to write, which may not exist yet.
    SaveFile,
    /// A directory.
    PickFolder,
}

/// A named group of extensions a dialog can restrict its listing to.
#[derive(Debug)]
pub struct FileFilter {
    pub name: String,
    pub extensions: Vec<String>,
}

/// A file dialog as the editor wants it shown: opened in the directory of
/// the file `near` where there is one, listing files by `filters` in order,
/// and proposing `file_name` to save under.
#[derive(Debug)]
pub struct FileDialog {
    pub kind: DialogKind,
    pub near: Option<String>,
    pub filters: Vec<FileFilter>,
    pub file_name: Option<String>,
}

/// A filter as texts: its name and its extensions.
pub open spec fn filter_view(f: FileFilter) -> (Seq<char>, Seq<Seq<char>>) {
    (f.name@, f.extensions@.map_values(|e: String| e@))
}

pub open spec fn filters_view(fs: Seq<FileFilter>) -> Seq<(Seq<char>, Seq<Seq<char>>)> {
    fs.map_values(|f: FileFilter| filter_view(f))
}

/// Whether `d` is a dialog of the given kind opened near `near`.
pub open spec fn opens(d: FileDialog, kind: DialogKind, near: Option<&str>) -> bool {
    &&& d.kind == kind
    &&& d.near is Some == near is Some
    &&& d.near is Some ==> d.near->0@ == near->0@
}

fn owned(s: &str) -> (r: String)
    ensures
        r@ == s@,
{
    s.to_owned()
}

fn filter(name: &str, extensions: &[&str]) -> (f: FileFilter)
    ensures
        f.name@ == name@,
        f.extensions@.map_values(|e: String| e@) == extensions@.map_values(|e: &str| e@),
{
    let mut v: Vec<String> = Vec::new();
    let mut i: usize = 0;
    while i < extensions.len()
        invariant
            0 <= i <= extensions@.len(),
            v@.map_values(|e: String| e@) == extensions@.subrange(0, i as int).map_values(
                |e: &str| e@,
            ),
        decreases extensions@.len() - i,
    {
        let ghost before = v@;
        let e = owned(extensions[i]);
        v.push(e);
        proof {
            assert(v@.map_values(|e: String| e@) =~= before.map_values(|e: String| e@).push(
                extensions@[i as int]@,
            ));
            assert(extensions@.subrange(0, i + 1).map_values(|e: &str| e@) =~= extensions@.subrange(
                0,
                i as int,
            ).map_values(|e: &str| e@).push(extensions@[i as int]@));
        }
        i = i + 1;
    }
    proof {
        assert(extensions@.subrange(0, extensions@.len() as int) =~= extensions@);
    }
    FileFilter { name: owned(name), extensions: v }
}

fn dialog(kind: DialogKind, near: Option<&str>) -> (d: FileDialog)
    ensures
        opens(d, kind, near),
        d.filters@.len() == 0,
        d.file_name is None,
{
    let near = match near {
        Some(p) => Some(owned(p)),
        None => None,
    };
    FileDialog { kind, near, filters: Vec::new(), file_name: None }
}

/// The filter every dialog ends with.
pub open spec fn all_files() -> (Seq<char>, Seq<Seq<char>>) {
    ("All files"@, seq!["*"@])
}

fn add_filter(d: &mut FileDialog, name: &str, extensions: &[&str])
    ensures
        final(d).kind == old(d).kind,
        final(d).near == old(d).near,
        final(d).file_name == old(d).file_name,
        filters_view(final(d).filters@) == filters_view(old(d).filters@).push(
            (name@, extensions@.map_values(|e: &str| e@)),
        ),
{
    let f = filter(name, extensions);
    let ghost before = d.filters@;
    d.filters.push(f);
    proof {
        assert(filters_view(d.filters@) =~= filters_view(before).push(filter_view(f)));
    }
}

/// The texts of `a` and `b` one after the other.
fn joined(a: &str, b: &str) -> (s: String)
    ensures
        s@ == a@ + b@,
{
    let mut v = chars_of(a);
    let w = chars_of(b);
    let ghost start = v@;
    let mut i: usize = 0;
    while i < w.len()
        invariant
            0 <= i <= w@.len(),
            v@ == start + w@.subrange(0, i as int),
        decreases w@.len() - i,
    {
        v.push(w[i]);
        i = i + 1;
        proof {
            assert(v@ =~= start + w@.subrange(0, i as int));
        }
    }
    proof {
        assert(w@.subrange(0, w@.len() as int) =~= w@);
    }
    string_of(v.as_slice())
}

pub open spec fn projects_filter() -> (Seq<char>, Seq<Seq<char>>) {
    ("Spriterize projects"@, seq![PROJECT_EXTENSION@])
}

pub open spec fn collections_filter() -> (Seq<char>, Seq<Seq<char>>) {
    ("Spriterize asset collections"@, seq![COLLECTION_EXTENSION@])
}

pub open spec fn images_filter() -> (Seq<char>, Seq<Seq<char>>) {
    ("Images"@, seq!["png"@, "jpg"@, "jpeg"@])
}

/// Asks for a project to open.
pub fn open_project(near: Option<&str>) -> (d: FileDialog)
    ensures
        opens(d, DialogKind::PickFile, near),
        filters_view(d.filters@) == seq![projects_filter(), all_files()],
        d.file_name is None,
{
    let mut d = dialog(DialogKind::PickFile, near);
    let exts = [PROJECT_EXTENSION];
    assert(exts@.map_values(|e: &str| e@) =~= seq![PROJECT_EXTENSION@]);
    add_filter(&mut d, "Spriterize projects", &exts);
    let all = ["*"];
    assert(all@.map_values(|e: &str| e@) =~= seq!["*"@]);
    add_filter(&mut d, "All files", &all);
    proof {
        assert(filters_view(d.filters@) =~= seq![projects_filter(), all_files()]);
    }
    d
}

/// Asks for any document the editor understands: used by the start
/// screen, where choosing a document should not require knowing its kind.
pub fn open_document(near: Option<&str>) -> (d: FileDialog)
    ensures
        opens(d, DialogKind::PickFile, near),
        filters_view(d.filters@) == seq![
            (
                "Spriterize documents"@,
                seq![PROJECT_EXTENSION@, COLLECTION_EXTENSION@, "png"@, "jpg"@, "jpeg"@],
            ),
            projects_filter(),
            collections_filter(),
            images_filter(),
            all_files(),
        ],
        d.file_name is None,
{
    let mut d = dialog(DialogKind::PickFile, near);
    let docs = [PROJECT_EXTENSION, COLLECTION_EXTENSION, "png", "jpg", "jpeg"];
    assert(docs@.map_values(|e: &str| e@) =~= seq![
        PROJECT_EXTENSION@,
        COLLECTION_EXTENSION@,
        "png"@,
        "jpg"@,
        "jpeg"@,
    ]);
    add_filter(&mut d, "Spriterize documents", &docs);
    let exts = [PROJECT_EXTENSION];
    assert(exts@.map_values(|e: &str| e@) =~= seq![PROJECT_EXTENSION@]);
    add_filter(&mut d, "Spriterize projects", &exts);
    let exts = [COLLECTION_EXTENSION];
    assert(exts@.map_values(|e: &str| e@) =~= seq![COLLECTION_EXTENSION@]);
    add_filter(&mut d, "Spriterize asset collections", &exts);
    let images = ["png", "jpg", "jpeg"];
    assert(images@.map_values(|e: &str| e@) =~= seq!["png"@, "jpg"@, "jpeg"@]);
    add_filter(&mut d, "Images", &images);
    let all = ["*"];
    assert(all@.map_values(|e: &str| e@) =~= seq!["*"@]);
    add_filter(&mut d, "All files", &all);
    proof {
        assert(filters_view(d.filters@) =~= seq![
            (
                "Spriterize documents"@,
                seq![PROJECT_EXTENSION@, COLLECTION_EXTENSION@, "png"@, "jpg"@, "jpeg"@],
            ),
            projects_filter(),
            collections_filter(),
            images_filter(),
            all_files(),
        ]);
    }
    d
}

/// Asks where to save a project, proposing `project.spriterize`.
pub fn save_project(near: Option<&str>) -> (d: FileDialog)
    ensures
        opens(d, DialogKind::SaveFile, near),
        filters_view(d.filters@) == seq![projects_filter(), all_files()],
        d.file_name is Some,
        d.file_name->0@ == "project."@ + PROJECT_EXTENSION@,
{
    let mut d = dialog(DialogKind::SaveFile, near);
    let exts = [PROJECT_EXTENSION];
    assert(exts@.map_values(|e: &str| e@) =~= seq![PROJECT_EXTENSION@]);
    add_filter(&mut d, "Spriterize projects", &exts);
    let all = ["*"];
    assert(all@.map_values(|e: &str| e@) =~= seq!["*"@]);
    add_filter(&mut d, "All files", &all);
    d.file_name = Some(joined("project.", PROJECT_EXTENSION));
    proof {
        assert(filters_view(d.filters@) =~= seq![projects_filter(), all_files()]);
    }
    d
}

/// Asks for an asset collection to open.
pub fn open_collection(near: Option<&str>) -> (d: FileDialog)
    ensures
        opens(d, DialogKind::PickFile, near),
        filters_view(d.filters@) == seq![collections_filter(), all_files()],
        d.file_name is None,
{
    let mut d = dialog(DialogKind::PickFile, near);
    let exts = [COLLECTION_EXTENSION];
    assert(exts@.map_values(|e: &str| e@) =~= seq![COLLECTION_EXTENSION@]);
    add_filter(&mut d, "Spriterize asset collections", &exts);
    let all = ["*"];
    assert(all@.map_values(|e: &str| e@) =~= seq!["*"@]);
    add_filter(&mut d, "All files", &all);
    proof {
        assert(filters_view(d.filters@) =~= seq![collections_filter(), all_files()]);
    }
    d
}

/// Asks where to save an asset collection, proposing
/// `assets.spriterize-collection`.
pub fn save_collection(near: Option<&str>) -> (d: FileDialog)
    ensures
        opens(d, DialogKind::SaveFile, near),
        filters_view(d.filters@) == seq![collections_filter(), all_files()],
        d.file_name is Some,
        d.file_name->0@ == "assets."@ + COLLECTION_EXTENSION@,
{
    let mut d = dialog(DialogKind::SaveFile, near);
    let exts = [COLLECTION_EXTENSION];
    assert(exts@.map_values(|e: &str| e@) =~= seq![COLLECTION_EXTENSION@]);
    add_filter(&mut d, "Spriterize asset collections", &exts);
    let all = ["*"];
    assert(all@.map_values(|e: &str| e@) =~= seq!["*"@]);
    add_filter(&mut d, "All files", &all);
    d.file_name = Some(joined("assets.", COLLECTION_EXTENSION));
    proof {
        assert(filters_view(d.filters@) =~= seq![collections_filter(), all_files()]);
    }
    d
}

/// Asks for the directory to export a collection's outputs into.
pub fn export_collection_dir(near: Option<&str>) -> (d: FileDialog)
    ensures
        opens(d, DialogKind::PickFolder, near),
        d.filters@.len() == 0,
        d.file_name is None,
{
    dialog(DialogKind::PickFolder, near)
}

/// Asks where to export the image.
pub fn export_image(near: Option<&str>) -> (d: FileDialog)
    ensures
        opens(d, DialogKind::SaveFile, near),
        filters_view(d.filters@) == seq![
            ("PNG files"@, seq!["png"@]),
            ("JPEG files"@, seq!["jpg"@, "jpeg"@]),
            all_files(),
        ],
        d.file_name is None,
{
    let mut d = dialog(DialogKind::SaveFile, near);
    let png = ["png"];
    assert(png@.map_values(|e: &str| e@) =~= seq!["png"@]);
    add_filter(&mut d, "PNG files", &png);
    let jpeg = ["jpg", "jpeg"];
    assert(jpeg@.map_values(|e: &str| e@) =~= seq!["jpg"@, "jpeg"@]);
    add_filter(&mut d, "JPEG files", &jpeg);
    let all = ["*"];
    assert(all@.map_values(|e: &str| e@) =~= seq!["*"@]);
    add_filter(&mut d, "All files", &all);
    proof {
        assert(filters_view(d.filters@) =~= seq![
            ("PNG files"@, seq!["png"@]),
            ("JPEG files"@, seq!["jpg"@, "jpeg"@]),
            all_files(),
        ]);
    }
    d
}

/// Asks for the directory to write one image per layer into. Layers are
/// named individually, so there is no file name to choose.
pub fn export_layers_dir(near: Option<&str>) -> (d: FileDialog)
    ensures
        opens(d, DialogKind::PickFolder, near),
        d.filters@.len() == 0,
        d.file_name is None,
{
    dialog(DialogKind::PickFolder, near)
}

/// Asks for an image to import.
pub fn import_image(near: Option<&str>) -> (d: FileDialog)
    ensures
        opens(d, DialogKind::PickFile, near),
        filters_view(d.filters@) == seq![images_filter(), all_files()],
        d.file_name is None,
{
    let mut d = dialog(DialogKind::PickFile, near);
    let images = ["png", "jpg", "jpeg"];
    assert(images@.map_values(|e: &str| e@) =~= seq!["png"@, "jpg"@, "jpeg"@]);
    add_filter(&mut d, "Images", &images);
    let all = ["*"];
    assert(all@.map_values(|e: &str| e@) =~= seq!["*"@]);
    add_filter(&mut d, "All files", &all);
    proof {
        assert(filters_view(d.filters@) =~= seq![images_filter(), all_files()]);
    }
    d
}

/// The first `n` entries of `s`, or all of them where it has fewer.
pub open spec fn truncated<A>(s: Seq<A>, n: nat) -> Seq<A> {
    if s.len() <= n {
        s
    } else {
        s.subrange(0, n as int)
    }
}

/// The recent paths once `p` has been used: `p` first, then the others in
/// their order, as many as are remembered.
pub open spec fn remembered(paths: Seq<Seq<char>>, p: Seq<char>) -> Seq<Seq<char>> {
    truncated(seq![p] + paths.filter(other_than(p)), MAX_RECENT as nat)
}

/// Whether a path is another one than `p`, paths being compared by their
/// components.
pub open spec fn other_than(p: Seq<char>) -> spec_fn(Seq<char>) -> bool {
    |q: Seq<char>| !same_path(q, p)
}

/// A part between separators as a component: none where it is empty or
/// `.`.
pub open spec fn kept_part(part: Seq<char>) -> Seq<Seq<char>> {
    if part.len() == 0 || part == seq!['.'] {
        seq![]
    } else {
        seq![part]
    }
}

/// The components among the parts of `s` between `/` separators, `cur`
/// being the part begun before `s`.
pub open spec fn parts_from(s: Seq<char>, cur: Seq<char>) -> Seq<Seq<char>>
    decreases s.len(),
{
    if s.len() == 0 {
        kept_part(cur)
    } else if s[0] == '/' {
        kept_part(cur) + parts_from(s.drop_first(), seq![])
    } else {
        parts_from(s.drop_first(), cur.push(s[0]))
    }
}

/// What a path begins with as components: the root where it starts with
/// `/`, and the current directory where its first part is `.`.
pub open spec fn path_lead(p: Seq<char>) -> Seq<Seq<char>> {
    if p.len() > 0 && p[0] == '/' {
        seq![seq!['/']]
    } else if p.len() > 0 && p[0] == '.' && (p.len() == 1 || p[1] == '/') {
        seq![seq!['.']]
    } else {
        seq![]
    }
}

/// The components of a path, as paths are compared: the root or a leading
/// `.`, then the parts between separators, with empty parts (repeated or
/// trailing separators) and other `.` parts left out.
pub open spec fn path_components(p: Seq<char>) -> Seq<Seq<char>> {
    path_lead(p) + parts_from(p, seq![])
}

/// Whether two paths name the same path: they have the same components.
pub open spec fn same_path(p: Seq<char>, q: Seq<char>) -> bool {
    path_components(p) == path_components(q)
}

/// The values of a list of character lists.
pub open spec fn chars_views(v: Seq<Vec<char>>) -> Seq<Seq<char>> {
    v.map_values(|c: Vec<char>| c@)
}

/// Whether two character lists are equal.
fn same_chars(a: &Vec<char>, b: &Vec<char>) -> (r: bool)
    ensures
        r == (a@ == b@),
{
    if a.len() != b.len() {
        return false;
    }
    let mut i: usize = 0;
    while i < a.len()
        invariant
            a@.len() == b@.len(),
            0 <= i <= a@.len(),
            forall|k: int| 0 <= k < i ==> a@[k] == b@[k],
        decreases a@.len() - i,
    {
        if a[i] != b[i] {
            return false;
        }
        i = i + 1;
    }
    proof {
        assert(a@ =~= b@);
    }
    true
}

/// Whether two lists of components are equal.
fn same_parts(a: &Vec<Vec<char>>, b: &Vec<Vec<char>>) -> (r: bool)
    ensures
        r == (chars_views(a@) == chars_views(b@)),
{
    if a.len() != b.len() {
        return false;
    }
    let mut i: usize = 0;
    while i < a.len()
        invariant
            a@.len() == b@.len(),
            0 <= i <= a@.len(),
            forall|k: int| 0 <= k < i ==> a@[k]@ == b@[k]@,
        decreases a@.len() - i,
    {
        if !same_chars(&a[i], &b[i]) {
            proof {
                assert(chars_views(a@)[i as int] != chars_views(b@)[i as int]);
            }
            return false;
        }
        i = i + 1;
    }
    proof {
        assert(chars_views(a@) =~= chars_views(b@));
    }
    true
}

/// Whether two paths name the same path.
pub fn is_same_path(p: &String, q: &String) -> (r: bool)
    ensures
        r == same_path(p@, q@),
{
    let a = path_parts(p);
    let b = path_parts(q);
    same_parts(&a, &b)
}

/// The components of a path.
fn path_parts(p: &String) -> (r: Vec<Vec<char>>)
    ensures
        chars_views(r@) == path_components(p@),
{
    let chars = chars_of(p.as_str());
    let n = chars.len();
    let mut acc: Vec<Vec<char>> = Vec::new();
    if n > 0 && chars[0] == '/' {
        let root = vec!['/'];
        proof {
            assert(root@ =~= seq!['/']);
        }
        acc.push(root);
    } else if n > 0 && chars[0] == '.' && (n == 1 || chars[1] == '/') {
        let here = vec!['.'];
        proof {
            assert(here@ =~= seq!['.']);
        }
        acc.push(here);
    }
    proof {
        assert(chars_views(acc@) =~= path_lead(p@));
        assert(chars@.subrange(0, n as int) =~= chars@);
    }
    let mut cur: Vec<char> = Vec::new();
    let mut i: usize = 0;
    while i < n
        invariant
            n == chars@.len(),
            chars@ == p@,
            0 <= i <= n,
            path_components(p@) == chars_views(acc@) + parts_from(
                chars@.subrange(i as int, n as int),
                cur@,
            ),
        decreases n - i,
    {
        let ghost rest = chars@.subrange(i as int, n as int);
        proof {
            assert(rest[0] == chars@[i as int]);
            assert(rest.drop_first() =~= chars@.subrange(i + 1, n as int));
        }
        if chars[i] == '/' {
            let ghost before = chars_views(acc@);
            let ghost old_cur = cur@;
            let keep = !(cur.len() == 0 || (cur.len() == 1 && cur[0] == '.'));
            proof {
                if cur@.len() == 1 && cur@[0] == '.' {
                    assert(cur@ =~= seq!['.']);
                }
            }
            if keep {
                acc.push(cur);
            }
            cur = Vec::new();
            proof {
                assert(chars_views(acc@) =~= before + kept_part(old_cur));
                assert(parts_from(rest, old_cur) == kept_part(old_cur) + parts_from(
                    rest.drop_first(),
                    seq![],
                ));
                assert(cur@ =~= Seq::<char>::empty());
                assert(before + (kept_part(old_cur) + parts_from(rest.drop_first(), seq![]))
                    =~= chars_views(acc@) + parts_from(rest.drop_first(), seq![]));
            }
        } else {
            cur.push(chars[i]);
        }
        i = i + 1;
    }
    let ghost before = chars_views(acc@);
    let ghost last = cur@;
    let keep = !(cur.len() == 0 || (cur.len() == 1 && cur[0] == '.'));
    proof {
        if cur@.len() == 1 && cur@[0] == '.' {
            assert(cur@ =~= seq!['.']);
        }
    }
    if keep {
        acc.push(cur);
    }
    proof {
        assert(chars_views(acc@) =~= before + kept_part(last));
    }
    acc
}

/// Where the first `c` in `s` stands, or -1 where there is none.
pub open spec fn first_index(s: Seq<char>, c: char) -> int
    decreases s.len(),
{
    if s.len() == 0 {
        -1
    } else if s[0] == c {
        0
    } else if first_index(s.drop_first(), c) < 0 {
        -1
    } else {
        first_index(s.drop_first(), c) + 1
    }
}

pub proof fn lemma_first_index(s: Seq<char>, c: char, m: int)
    requires
        0 <= m <= s.len(),
        forall|k: int| 0 <= k < m ==> s[k] != c,
        m < s.len() ==> s[m] == c,
    ensures
        first_index(s, c) == if m < s.len() {
            m
        } else {
            -1
        },
    decreases m,
{
    if m > 0 {
        assert forall|k: int| 0 <= k < m - 1 implies s.drop_first()[k] != c by {
            assert(s.drop_first()[k] == s[k + 1]);
        }
        lemma_first_index(s.drop_first(), c, m - 1);
    }
}

pub proof fn lemma_first_index_bounds(s: Seq<char>, c: char)
    ensures
        -1 <= first_index(s, c) < s.len(),
    decreases s.len(),
{
    if s.len() > 0 {
        lemma_first_index_bounds(s.drop_first(), c);
    }
}

/// A line as it is kept: trimmed, and only where something is left.
pub open spec fn kept_line(line: Seq<char>) -> Seq<Seq<char>> {
    if trim(line).len() > 0 {
        seq![trim(line)]
    } else {
        seq![]
    }
}

/// The trimmed, non-blank lines of a text, in order.
pub open spec fn recent_lines(s: Seq<char>) -> Seq<Seq<char>>
    decreases s.len(),
{
    let i = first_index(s, '\n');
    if i < 0 {
        kept_line(s)
    } else {
        proof {
            lemma_first_index_bounds(s, '\n');
        }
        kept_line(s.subrange(0, i)) + recent_lines(s.subrange(i + 1, s.len() as int))
    }
}

/// The paths one to a line, each line ended by `'\n'`.
pub open spec fn lines_text(paths: Seq<Seq<char>>) -> Seq<char>
    decreases paths.len(),
{
    if paths.len() == 0 {
        seq![]
    } else {
        paths[0] + seq!['\n'] + lines_text(paths.drop_first())
    }
}

/// Paths the user has opened or saved, most recent first. The list is
/// read from and written to a text file, one path to a line.
#[derive(Debug)]
pub struct RecentFiles {
    paths: Vec<String>,
}

impl View for RecentFiles {
    type V = Seq<Seq<char>>;

    closed spec fn view(&self) -> Seq<Seq<char>> {
        self.paths@.map_values(|p: String| p@)
    }
}

impl RecentFiles {
    /// No more paths are held than are remembered.
    #[verifier::type_invariant]
    closed spec fn inv(self) -> bool {
        self.paths@.len() <= MAX_RECENT
    }

    /// The list as it stands, most recent first.
    pub fn paths(&self) -> (r: &[String])
        ensures
            r@.map_values(|p: String| p@) == self@,
            r@.len() <= MAX_RECENT,
    {
        proof {
            use_type_invariant(self);
        }
        self.paths.as_slice()
    }

    /// The list read back from its text: each line trimmed, blank lines
    /// skipped, and no more lines than are remembered.
    pub fn from_text(text: &str) -> (r: RecentFiles)
        ensures
            r@ == truncated(recent_lines(text@), MAX_RECENT as nat),
    {
        let chars = chars_of(text);
        let n = chars.len();
        let mut acc: Vec<String> = Vec::new();
        let mut start: usize = 0;
        let mut j: usize = 0;
        proof {
            assert(chars@.subrange(0, n as int) =~= chars@);
            assert(acc@.map_values(|p: String| p@) + recent_lines(text@) =~= recent_lines(text@));
        }
        while j < n
            invariant
                n == chars@.len(),
                chars@ == text@,
                start <= j <= n,
                forall|k: int| start <= k < j ==> chars@[k] != '\n',
                recent_lines(text@) == acc@.map_values(|p: String| p@) + recent_lines(
                    chars@.subrange(start as int, n as int),
                ),
            decreases n - j,
        {
            if chars[j] == '\n' {
                let ghost rest = chars@.subrange(start as int, n as int);
                proof {
                    lemma_first_index(rest, '\n', j - start);
                    assert(rest.subrange(0, j - start) =~= chars@.subrange(start as int, j as int));
                    assert(rest.subrange(j - start + 1, rest.len() as int) =~= chars@.subrange(
                        j + 1,
                        n as int,
                    ));
                }
                let line = slice_chars(&chars, start, j);
                let t = trim_chars(&line);
                let ghost before = acc@.map_values(|p: String| p@);
                if t.len() > 0 {
                    acc.push(string_of(t.as_slice()));
                }
                proof {
                    assert(acc@.map_values(|p: String| p@) =~= before + kept_line(line@));
                    assert(before + kept_line(line@) + recent_lines(
                        chars@.subrange(j + 1, n as int),
                    ) =~= before + (kept_line(line@) + recent_lines(
                        chars@.subrange(j + 1, n as int),
                    )));
                }
                start = j + 1;
            }
            j = j + 1;
        }
        let ghost rest = chars@.subrange(start as int, n as int);
        proof {
            lemma_first_index(rest, '\n', rest.len() as int);
        }
        let line = slice_chars(&chars, start, n);
        let t = trim_chars(&line);
        let ghost before = acc@.map_values(|p: String| p@);
        if t.len() > 0 {
            acc.push(string_of(t.as_slice()));
        }
        proof {
            assert(acc@.map_values(|p: String| p@) =~= before + kept_line(line@));
        }
        let ghost all = acc@;
        acc.truncate(MAX_RECENT);
        proof {
            assert(acc@.map_values(|p: String| p@) =~= truncated(
                all.map_values(|p: String| p@),
                MAX_RECENT as nat,
            ));
        }
        RecentFiles { paths: acc }
    }

    /// The text the list is saved as: one path to a line.
    pub fn to_text(&self) -> (s: String)
        ensures
            s@ == lines_text(self@),
    {
        let mut v: Vec<char> = Vec::new();
        let mut i: usize = self.paths.len();
        let ghost all = self@;
        assert(all.len() == self.paths@.len());
        while i > 0
            invariant
                i <= all.len(),
                all == self@,
                all.len() == self.paths@.len(),
                all == self.paths@.map_values(|p: String| p@),
                v@ == lines_text(all.subrange(i as int, all.len() as int)),
            decreases i,
        {
            i = i - 1;
            let mut line = chars_of(self.paths[i].as_str());
            line.push('\n');
            let ghost tail = v@;
            let mut k: usize = 0;
            while k < v.len()
                invariant
                    0 <= k <= tail.len(),
                    v@ == tail,
                    line@ == all[i as int] + seq!['\n'] + tail.subrange(0, k as int),
                decreases tail.len() - k,
            {
                line.push(v[k]);
                k = k + 1;
                proof {
                    assert(line@ =~= all[i as int] + seq!['\n'] + tail.subrange(0, k as int));
                }
            }
            proof {
                assert(tail.subrange(0, tail.len() as int) =~= tail);
                assert(all.subrange(i as int, all.len() as int).drop_first() =~= all.subrange(
                    i + 1,
                    all.len() as int,
                ));
            }
            v = line;
        }
        proof {
            assert(all.subrange(0, all.len() as int) =~= all);
        }
        string_of(v.as_slice())
    }

    /// Records a path as the most recently used one, moving it to the front
    /// where it was in the list already.
    pub fn remember(&mut self, path: String)
        ensures
            final(self)@ == remembered(old(self)@, path@),
    {
        proof {
            use_type_invariant(&*self);
        }
        let ghost old_paths = self@;
        let ghost keep = other_than(path@);
        let mut next: Vec<String> = Vec::new();
        proof {
            reveal(Seq::filter);
            assert(next@.map_values(|p: String| p@) =~= old_paths.subrange(0, 0).filter(keep));
        }
        let mut i: usize = 0;
        let n = self.paths.len();
        while i < n
            invariant
                n == self.paths@.len(),
                old_paths == self.paths@.map_values(|p: String| p@),
                keep == other_than(path@),
                0 <= i <= n,
                next@.map_values(|p: String| p@) == old_paths.subrange(0, i as int).filter(keep),
            decreases n - i,
        {
            let ghost before = next@.map_values(|p: String| p@);
            if !is_same_path(&self.paths[i], &path) {
                next.push(self.paths[i].clone());
            }
            proof {
                reveal(Seq::filter);
                assert(old_paths.subrange(0, i + 1).drop_last() =~= old_paths.subrange(0, i as int));
                assert(old_paths.subrange(0, i + 1).last() == self.paths@[i as int]@);
                assert(next@.map_values(|p: String| p@) =~= old_paths.subrange(0, i + 1).filter(
                    keep,
                ));
            }
            i = i + 1;
        }
        proof {
            assert(old_paths.subrange(0, n as int) =~= old_paths);
        }
        let ghost p = path@;
        next.insert(0, path);
        let ghost all = next@;
        proof {
            assert(all.map_values(|q: String| q@) =~= seq![p] + old_paths.filter(keep));
        }
        next.truncate(MAX_RECENT);
        proof {
            assert(next@.map_values(|q: String| q@) =~= truncated(
                all.map_values(|q: String| q@),
                MAX_RECENT as nat,
            ));
        }
        *self = RecentFiles { paths: next };
    }

    /// Records a path as the most recently used one, and gives the text
    /// to persist the list as.
    pub fn push(&mut self, path: String) -> (s: String)
        ensures
            final(self)@ == remembered(old(self)@, path@),
            s@ == lines_text(final(self)@),
    {
        self.remember(path);
        self.to_text()
    }

    /// Forgets every path, and gives the text to persist the list as.
    pub fn clear(&mut self) -> (s: String)
        ensures
            final(self)@ == Seq::<Seq<char>>::empty(),
            s@ == Seq::<char>::empty(),
    {
        *self = RecentFiles { paths: Vec::new() };
        proof {
            assert(self@ =~= Seq::<Seq<char>>::empty());
        }
        self.to_text()
    }
}

impl Default for RecentFiles {
    fn default() -> (r: RecentFiles)
        ensures
            r@ == Seq::<Seq<char>>::empty(),
    {
        let r = RecentFiles { paths: Vec::new() };
        proof {
            assert(r@ =~= Seq::<Seq<char>>::empty());
        }
        r
    }
}

proof fn lemma_filter_sub(s: Seq<Seq<char>>, pred: spec_fn(Seq<char>) -> bool)
    ensures
        forall|x: Seq<char>| #[trigger] s.filter(pred).contains(x) ==> s.contains(x) && pred(x),
        s.no_duplicates() ==> s.filter(pred).no_duplicates(),
    decreases s.len(),
{
    reveal(Seq::filter);
    if s.len() > 0 {
        let d = s.drop_last();
        lemma_filter_sub(d, pred);
        assert forall|x: Seq<char>| #[trigger] s.filter(pred).contains(x) implies s.contains(x)
            && pred(x) by {
            let i = choose|i: int| 0 <= i < s.filter(pred).len() && s.filter(pred)[i] == x;
            if i < d.filter(pred).len() {
                assert(d.filter(pred).contains(x));
                let j = choose|j: int| 0 <= j < d.len() && d[j] == x;
                assert(s[j] == x);
            } else {
                assert(x == s.last());
                assert(s[s.len() - 1] == x);
            }
        }
        if s.no_duplicates() {
            assert(d.no_duplicates());
            if pred(s.last()) {
                assert(!d.contains(s.last())) by {
                    if d.contains(s.last()) {
                        let j = choose|j: int| 0 <= j < d.len() && d[j] == s.last();
                        assert(s[j] == s[s.len() - 1]);
                    }
                }
                assert(!d.filter(pred).contains(s.last()));
                let f = s.filter(pred);
                assert forall|i: int, j: int| 0 <= i < f.len() && 0 <= j < f.len() && i != j implies f[i]
                    != f[j] by {
                    if i < f.len() - 1 && j < f.len() - 1 {
                        assert(f[i] == d.filter(pred)[i] && f[j] == d.filter(pred)[j]);
                    } else if i < f.len() - 1 {
                        assert(d.filter(pred).contains(f[i]));
                    } else {
                        assert(d.filter(pred).contains(f[j]));
                    }
                }
            }
        }
    }
}

/// Using a path puts it first, keeps it and every other spelling of the
/// same path out of the rest of the list, keeps the list within
/// `MAX_RECENT`, and never makes a path appear twice.
pub proof fn lemma_remembered(paths: Seq<Seq<char>>, p: Seq<char>)
    ensures
        remembered(paths, p).len() >= 1,
        remembered(paths, p)[0] == p,
        remembered(paths, p).len() <= MAX_RECENT,
        forall|i: int|
            1 <= i < remembered(paths, p).len() ==> !same_path(#[trigger] remembered(paths, p)[i], p),
        paths.no_duplicates() ==> remembered(paths, p).no_duplicates(),
{
    let keep = other_than(p);
    lemma_filter_sub(paths, keep);
    let f = paths.filter(keep);
    let all = seq![p] + f;
    let r = remembered(paths, p);
    assert forall|i: int| 1 <= i < r.len() implies !same_path(#[trigger] r[i], p) by {
        assert(r[i] == all[i]);
        assert(all[i] == f[i - 1]);
        assert(f.contains(f[i - 1]));
    }
    if paths.no_duplicates() {
        assert forall|i: int, j: int| 0 <= i < r.len() && 0 <= j < r.len() && i != j implies r[i]
            != r[j] by {
            if i > 0 && j > 0 {
                assert(r[i] == f[i - 1] && r[j] == f[j - 1]);
            } else if i == 0 {
                assert(r[j] == f[j - 1]);
                assert(f.contains(f[j - 1]));
            } else {
                assert(r[i] == f[i - 1]);
                assert(f.contains(f[i - 1]));
            }
        }
    }
}

/// Whether a path can be saved one to a line and read back as it is: it
/// is not blank, has no whitespace at either end and no line break.
pub open spec fn is_clean_line(p: Seq<char>) -> bool {
    &&& p.len() > 0
    &&& trim(p) == p
    &&& forall|i: int| 0 <= i < p.len() ==> #[trigger] p[i] != '\n'
}

/// The text a list of clean paths is saved as reads back as that list.
pub proof fn lemma_saved_text_reads_back(paths: Seq<Seq<char>>)
    requires
        forall|i: int| 0 <= i < paths.len() ==> is_clean_line(#[trigger] paths[i]),
    ensures
        recent_lines(lines_text(paths)) == paths,
    decreases paths.len(),
{
    if paths.len() == 0 {
        crate::text::lemma_trim_empty(Seq::<char>::empty());
        lemma_first_index(Seq::<char>::empty(), '\n', 0);
        assert(recent_lines(lines_text(paths)) =~= paths);
    } else {
        let p0 = paths[0];
        let rest = paths.drop_first();
        assert forall|i: int| 0 <= i < rest.len() implies is_clean_line(#[trigger] rest[i]) by {
            assert(rest[i] == paths[i + 1]);
        }
        lemma_saved_text_reads_back(rest);
        let t = lines_text(paths);
        assert(t == p0 + seq!['\n'] + lines_text(rest));
        assert(is_clean_line(paths[0]));
        lemma_first_index(t, '\n', p0.len() as int);
        assert(t.subrange(0, p0.len() as int) =~= p0);
        assert(t.subrange(p0.len() as int + 1, t.len() as int) =~= lines_text(rest));
        assert(kept_line(p0) =~= seq![p0]);
        assert(recent_lines(t) =~= paths);
    }
}

/// A list of clean paths, saved as text and read back, is the same list.
pub proof fn lemma_recent_files_round_trip(paths: Seq<Seq<char>>)
    requires
        paths.len() <= MAX_RECENT,
        forall|i: int| 0 <= i < paths.len() ==> is_clean_line(#[trigger] paths[i]),
    ensures
        truncated(recent_lines(lines_text(paths)), MAX_RECENT as nat) == paths,
{
    lemma_saved_text_reads_back(paths);
}

} // verus!
