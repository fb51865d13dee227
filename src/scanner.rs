//! Classification of the entries found under the music root, and the
//! construction of the sorted index of playable files from them.
//!
//! The walk over the directory tree itself is I/O and happens elsewhere: it
//! hands over every entry it met, in the order it met them, each with its
//! path relative to the root (a sequence of name components, as raw bytes)
//! and its kind.

use crate::text::text_eq;
use crate::order::{
    insert_sorted, lemma_path_order_total, lemma_sorted_permutations_equal, path_order,
};
use vstd::prelude::*;
use vstd::relations::*;
use vstd::utf8::*;

verus! {

/// What an entry of the tree is, as its directory listing reports it
/// (symbolic links are not followed).
#[derive(Clone, Copy, Debug, PartialEq, Eq, Structural)]
pub enum EntryKind {
    Directory,
    File,
    /// A symbolic link, socket, device or other special file.
    Other,
}

/// One entry met by the walk.
#[derive(Debug)]
pub struct WalkEntry {
    /// Path relative to the music root, one element per component.
    pub path: Vec<Vec<u8>>,
    pub kind: EntryKind,
}

impl View for WalkEntry {
    type V = (Seq<Seq<u8>>, EntryKind);

    open spec fn view(&self) -> (Seq<Seq<u8>>, EntryKind) {
        (self.path.deep_view(), self.kind)
    }
}

impl DeepView for WalkEntry {
    type V = (Seq<Seq<u8>>, EntryKind);

    open spec fn deep_view(&self) -> (Seq<Seq<u8>>, EntryKind) {
        self@
    }
}

/// Why an entry that is neither music nor ignorable is reported.
#[derive(Clone, Copy, Debug, PartialEq, Eq, Structural)]
pub enum Oddity {
    /// Its extension is in neither list.
    UnknownExtension,
    /// Its extension is not valid UTF-8 text.
    UndecodableExtension,
    /// It has no extension.
    NoExtension,
}

/// What the scan does with one entry.
#[derive(Clone, Copy, Debug, PartialEq, Eq, Structural)]
pub enum Finding {
    /// Descended into.
    Directory,
    /// A playable file: goes into the index.
    Music,
    /// A known companion file (cover art, cue sheet, ...): passed over silently.
    Ignored,
    /// Reported for the operator to look at.
    Unexpected(Oddity),
}

/// A reported entry.
#[derive(Debug)]
pub struct UnexpectedFile {
    pub path: Vec<Vec<u8>>,
    pub oddity: Oddity,
}

impl View for UnexpectedFile {
    type V = (Seq<Seq<u8>>, Oddity);

    open spec fn view(&self) -> (Seq<Seq<u8>>, Oddity) {
        (self.path.deep_view(), self.oddity)
    }
}

impl DeepView for UnexpectedFile {
    type V = (Seq<Seq<u8>>, Oddity);

    open spec fn deep_view(&self) -> (Seq<Seq<u8>>, Oddity) {
        self@
    }
}

/// The outcome of one scan.
#[derive(Debug)]
pub struct ScanResult {
    /// Relative paths of the playable files, in ascending path order.
    pub files: Vec<Vec<Vec<u8>>>,
    /// The reported entries, in the order the walk met them.
    pub unexpected: Vec<UnexpectedFile>,
}

/// The last component of a path, or nothing for the empty path.
pub open spec fn file_name(path: Seq<Seq<u8>>) -> Seq<u8> {
    if path.len() == 0 {
        seq![]
    } else {
        path.last()
    }
}

/// Index of the last `.` in `name`, or -1 if there is none.
pub open spec fn last_dot(name: Seq<u8>) -> int
    decreases name.len(),
{
    if name.len() == 0 {
        -1
    } else if name.last() == 46u8 {
        name.len() - 1
    } else {
        last_dot(name.drop_last())
    }
}

/// The extension of a file name: what follows its last `.`. A name without
/// a `.`, a name whose only `.` is its first byte, and `..` have none.
pub open spec fn extension_of(name: Seq<u8>) -> Option<Seq<u8>> {
    if name == seq![46u8, 46u8] || last_dot(name) <= 0 {
        None
    } else {
        Some(name.subrange(last_dot(name) + 1, name.len() as int))
    }
}

/// `mp3`, `flac` or `ogg`, matched case-sensitively.
pub open spec fn is_music_extension(ext: Seq<u8>) -> bool {
    ||| ext == seq![109u8, 112u8, 51u8]
    ||| ext == seq![102u8, 108u8, 97u8, 99u8]
    ||| ext == seq![111u8, 103u8, 103u8]
}

/// The lower-case extensions of files that are expected beside the music
/// and not worth reporting.
pub open spec fn ignorable_extensions() -> Seq<Seq<char>> {
    seq![
        "cue"@,
        "gif"@,
        "jpeg"@,
        "jpg"@,
        "m3u"@,
        "m4a"@,
        "md5"@,
        "ffp"@,
        "png"@,
        "webp"@,
    ]
}

/// The lower-case form of a text, as the standard library computes it.
pub uninterp spec fn lower_of(s: Seq<char>) -> Seq<char>;

/// What the scan does with an entry of the given kind and file name.
pub open spec fn finding_of(kind: EntryKind, name: Seq<u8>) -> Finding {
    if kind == EntryKind::Directory {
        Finding::Directory
    } else {
        match extension_of(name) {
            None => Finding::Unexpected(Oddity::NoExtension),
            Some(ext) => {
                if kind == EntryKind::File && is_music_extension(ext) {
                    Finding::Music
                } else if !valid_utf8(ext) {
                    Finding::Unexpected(Oddity::UndecodableExtension)
                } else if ignorable_extensions().contains(lower_of(decode_utf8(ext))) {
                    Finding::Ignored
                } else {
                    Finding::Unexpected(Oddity::UnknownExtension)
                }
            },
        }
    }
}

/// What the scan does with an entry, given as path and kind.
pub open spec fn entry_finding(e: (Seq<Seq<u8>>, EntryKind)) -> Finding {
    finding_of(e.1, file_name(e.0))
}

/// Paths of the playable files among `es`, in walk order.
pub open spec fn music_paths(es: Seq<(Seq<Seq<u8>>, EntryKind)>) -> Seq<Seq<Seq<u8>>>
    decreases es.len(),
{
    if es.len() == 0 {
        seq![]
    } else if entry_finding(es.last()) == Finding::Music {
        music_paths(es.drop_last()).push(es.last().0)
    } else {
        music_paths(es.drop_last())
    }
}

/// The index built from the entries `es`: the playable files' paths, sorted.
pub open spec fn music_index(es: Seq<(Seq<Seq<u8>>, EntryKind)>) -> Seq<Seq<Seq<u8>>> {
    music_paths(es).sort_by(path_order())
}

/// The reports made for the entries `es`, in walk order.
pub open spec fn unexpected_of(es: Seq<(Seq<Seq<u8>>, EntryKind)>) -> Seq<(Seq<Seq<u8>>, Oddity)>
    decreases es.len(),
{
    if es.len() == 0 {
        seq![]
    } else {
        match entry_finding(es.last()) {
            Finding::Unexpected(o) => unexpected_of(es.drop_last()).push((es.last().0, o)),
            _ => unexpected_of(es.drop_last()),
        }
    }
}

/// Relies on `String::from_utf8`: it succeeds exactly on valid UTF-8, and
/// the string then holds the characters those bytes encode.
#[verifier::external_body]
fn decode_text(bytes: Vec<u8>) -> (r: Option<String>)
    ensures
        r is Some <==> valid_utf8(bytes@),
        r matches Some(s) ==> s@ == decode_utf8(bytes@),
{
    String::from_utf8(bytes).ok()
}

/// Relies on `str::to_lowercase`: the result depends on the characters alone.
#[verifier::external_body]
fn lowercase(s: &str) -> (r: String)
    ensures
        r@ == lower_of(s@),
{
    s.to_lowercase()
}

/// Whether an extension, already in lower case, is one of the ignorable ones.
pub fn is_ignorable_extension(lowered: &str) -> (r: bool)
    ensures
        r == ignorable_extensions().contains(lowered@),
{
    let known: [&str; 10] = ["cue", "gif", "jpeg", "jpg", "m3u", "m4a", "md5", "ffp", "png", "webp"];
    let ghost names = ignorable_extensions();
    assert(known@.map_values(|k: &str| k@) =~= names);
    let mut i: usize = 0;
    while i < 10
        invariant
            i <= 10,
            known@.len() == 10,
            known@.map_values(|k: &str| k@) == names,
            names == ignorable_extensions(),
            forall|j: int| 0 <= j < i ==> names[j] != lowered@,
        decreases 10 - i,
    {
        assert(names[i as int] == known@[i as int]@);
        if text_eq(known[i], lowered) {
            assert(names[i as int] == lowered@);
            assert(names.contains(lowered@));
            return true;
        }
        i = i + 1;
    }
    false
}

/// Whether an extension is one of the playable ones.
pub fn is_music_extension_bytes(ext: &Vec<u8>) -> (r: bool)
    ensures
        r == is_music_extension(ext@),
{
    let n = ext.len();
    let r = if n == 3 {
        (ext[0] == 109u8 && ext[1] == 112u8 && ext[2] == 51u8) || (ext[0] == 111u8 && ext[1]
            == 103u8 && ext[2] == 103u8)
    } else if n == 4 {
        ext[0] == 102u8 && ext[1] == 108u8 && ext[2] == 97u8 && ext[3] == 99u8
    } else {
        false
    };
    proof {
        if r {
            if n == 4 {
                assert(ext@ =~= seq![102u8, 108u8, 97u8, 99u8]);
            } else if ext[0] == 109u8 {
                assert(ext@ =~= seq![109u8, 112u8, 51u8]);
            } else {
                assert(ext@ =~= seq![111u8, 103u8, 103u8]);
            }
        }
    }
    r
}

/// The extension of a file name, as `extension_of` defines it.
pub fn extension(name: &Vec<u8>) -> (r: Option<Vec<u8>>)
    ensures
        match r {
            Some(e) => extension_of(name@) == Some(e@),
            None => extension_of(name@) is None,
        },
{
    let n = name.len();
    let mut i: usize = n;
    assert(name@.subrange(0, n as int) =~= name@);
    while i > 0 && name[i - 1] != 46u8
        invariant
            i <= n,
            n == name@.len(),
            last_dot(name@) == last_dot(name@.subrange(0, i as int)),
        decreases i,
    {
        assert(name@.subrange(0, i as int).drop_last() =~= name@.subrange(0, i - 1));
        i = i - 1;
    }
    proof {
        if i > 0 {
            assert(name@.subrange(0, i as int).last() == name@[i - 1]);
        }
    }
    if i <= 1 {
        return None;
    }
    if n == 2 && name[0] == 46u8 && name[1] == 46u8 {
        assert(name@ =~= seq![46u8, 46u8]);
        return None;
    }
    assert(name@ != seq![46u8, 46u8]) by {
        if name@ =~= seq![46u8, 46u8] {
            assert(name@[0] == 46u8 && name@[1] == 46u8);
        }
    }
    let mut ext: Vec<u8> = Vec::new();
    let mut j: usize = i;
    while j < n
        invariant
            i <= j <= n,
            n == name@.len(),
            ext@ == name@.subrange(i as int, j as int),
        decreases n - j,
    {
        ext.push(name[j]);
        assert(ext@ =~= name@.subrange(i as int, j + 1));
        j = j + 1;
    }
    Some(ext)
}

/// Decides what the scan does with one entry.
pub fn classify(entry: &WalkEntry) -> (r: Finding)
    ensures
        r == entry_finding(entry@),
{
    if entry.kind == EntryKind::Directory {
        return Finding::Directory;
    }
    let ghost path = entry.path.deep_view();
    let n = entry.path.len();
    let ext = if n == 0 {
        assert(extension_of(file_name(path)) is None) by {
            assert(file_name(path) =~= Seq::<u8>::empty());
        }
        None
    } else {
        assert(file_name(path) == entry.path[n - 1]@);
        extension(&entry.path[n - 1])
    };
    match ext {
        None => Finding::Unexpected(Oddity::NoExtension),
        Some(e) => {
            if entry.kind == EntryKind::File && is_music_extension_bytes(&e) {
                Finding::Music
            } else {
                match decode_text(e) {
                    None => Finding::Unexpected(Oddity::UndecodableExtension),
                    Some(text) => {
                        let lowered = lowercase(text.as_str());
                        if is_ignorable_extension(lowered.as_str()) {
                            Finding::Ignored
                        } else {
                            Finding::Unexpected(Oddity::UnknownExtension)
                        }
                    },
                }
            }
        },
    }
}

fn copy_bytes(b: &Vec<u8>) -> (r: Vec<u8>)
    ensures
        r@ == b@,
{
    let mut r: Vec<u8> = Vec::new();
    let mut i: usize = 0;
    while i < b.len()
        invariant
            i <= b.len(),
            r@ == b@.subrange(0, i as int),
        decreases b.len() - i,
    {
        r.push(b[i]);
        assert(r@ =~= b@.subrange(0, i + 1));
        i = i + 1;
    }
    assert(r@ =~= b@);
    r
}

pub(crate) fn copy_path(p: &Vec<Vec<u8>>) -> (r: Vec<Vec<u8>>)
    ensures
        r.deep_view() == p.deep_view(),
{
    let mut r: Vec<Vec<u8>> = Vec::new();
    let mut i: usize = 0;
    while i < p.len()
        invariant
            i <= p.len(),
            r.deep_view() == p.deep_view().subrange(0, i as int),
        decreases p.len() - i,
    {
        let c = copy_bytes(&p[i]);
        assert(c.deep_view() =~= p[i as int].deep_view());
        let ghost before = r.deep_view();
        r.push(c);
        assert(r.deep_view() =~= before.push(p[i as int].deep_view()));
        assert(r.deep_view() =~= p.deep_view().subrange(0, i + 1));
        i = i + 1;
    }
    assert(r.deep_view() =~= p.deep_view());
    r
}

/// Builds the index and the list of reports from the entries of one walk.
pub fn scan(entries: &Vec<WalkEntry>) -> (r: ScanResult)
    ensures
        r.files.deep_view() == music_index(entries.deep_view()),
        r.unexpected.deep_view() == unexpected_of(entries.deep_view()),
{
    let ghost es = entries.deep_view();
    let mut files: Vec<Vec<Vec<u8>>> = Vec::new();
    let mut unexpected: Vec<UnexpectedFile> = Vec::new();
    let mut i: usize = 0;
    proof {
        lemma_path_order_total();
        assert(es.subrange(0, 0) =~= Seq::<(Seq<Seq<u8>>, EntryKind)>::empty());
        assert(files.deep_view().to_multiset() =~= music_paths(es.subrange(0, 0)).to_multiset())
            by {
            broadcast use vstd::seq_lib::group_to_multiset_ensures;

            assert(files.deep_view() =~= Seq::<Seq<Seq<u8>>>::empty());
        }
        assert(unexpected.deep_view() =~= unexpected_of(es.subrange(0, 0)));
    }
    while i < entries.len()
        invariant
            i <= entries.len(),
            es == entries.deep_view(),
            total_ordering(path_order()),
            sorted_by(files.deep_view(), path_order()),
            files.deep_view().to_multiset() == music_paths(es.subrange(0, i as int)).to_multiset(),
            unexpected.deep_view() == unexpected_of(es.subrange(0, i as int)),
        decreases entries.len() - i,
    {
        let entry = &entries[i];
        let found = classify(entry);
        let ghost prefix = es.subrange(0, i + 1);
        proof {
            assert(prefix.drop_last() =~= es.subrange(0, i as int));
            assert(prefix.last() == entry@);
        }
        match found {
            Finding::Music => {
                let ghost before = files.deep_view();
                let path = copy_path(&entry.path);
                insert_sorted(&mut files, path);
                proof {
                    broadcast use vstd::seq_lib::group_to_multiset_ensures;

                    assert(music_paths(prefix) == music_paths(es.subrange(0, i as int)).push(
                        entry@.0,
                    ));
                }
            },
            Finding::Unexpected(oddity) => {
                let path = copy_path(&entry.path);
                unexpected.push(UnexpectedFile { path, oddity });
                assert(unexpected.deep_view() =~= unexpected_of(prefix));
            },
            _ => {
                assert(unexpected.deep_view() =~= unexpected_of(prefix));
            },
        }
        i = i + 1;
    }
    proof {
        assert(es.subrange(0, i as int) =~= es);
        let m = music_paths(es);
        m.lemma_sort_by_ensures(path_order());
        lemma_sorted_permutations_equal(files.deep_view(), m.sort_by(path_order()));
    }
    ScanResult { files, unexpected }
}

proof fn lemma_unexpected_concat(
    a: Seq<(Seq<Seq<u8>>, EntryKind)>,
    b: Seq<(Seq<Seq<u8>>, EntryKind)>,
)
    ensures
        unexpected_of(a + b) == unexpected_of(a) + unexpected_of(b),
    decreases b.len(),
{
    if b.len() == 0 {
        assert(a + b =~= a);
        assert(unexpected_of(a) + unexpected_of(b) =~= unexpected_of(a));
    } else {
        lemma_unexpected_concat(a, b.drop_last());
        assert((a + b).drop_last() =~= a + b.drop_last());
        assert((a + b).last() == b.last());
        match entry_finding(b.last()) {
            Finding::Unexpected(o) => {
                assert(unexpected_of(a + b) =~= unexpected_of(a) + unexpected_of(b));
            },
            _ => {},
        }
    }
}

/// An entry whose extension, in lower case, is one of the ignorable ones is
/// never reported, wherever the walk meets it: the reports are those of the
/// other entries.
pub proof fn lemma_ignorable_never_reported(
    before: Seq<(Seq<Seq<u8>>, EntryKind)>,
    entry: (Seq<Seq<u8>>, EntryKind),
    after: Seq<(Seq<Seq<u8>>, EntryKind)>,
    ext: Seq<u8>,
)
    requires
        extension_of(file_name(entry.0)) == Some(ext),
        valid_utf8(ext),
        ignorable_extensions().contains(lower_of(decode_utf8(ext))),
    ensures
        unexpected_of(before + seq![entry] + after) == unexpected_of(before + after),
{
    lemma_unexpected_concat(before + seq![entry], after);
    lemma_unexpected_concat(before, seq![entry]);
    lemma_unexpected_concat(before, after);
    assert(seq![entry].drop_last() =~= Seq::<(Seq<Seq<u8>>, EntryKind)>::empty());
    assert(seq![entry].last() == entry);
    reveal_with_fuel(unexpected_of, 2);
    assert(!(entry_finding(entry) is Unexpected));
    assert(unexpected_of(seq![entry]) =~= Seq::<(Seq<Seq<u8>>, Oddity)>::empty());
    assert(unexpected_of(before) + unexpected_of(seq![entry]) =~= unexpected_of(before));
}

/// A file or special file whose extension is in neither list is reported
/// exactly once, as having an unknown extension, at the place where the walk
/// met it.
pub proof fn lemma_unknown_reported_once(
    before: Seq<(Seq<Seq<u8>>, EntryKind)>,
    entry: (Seq<Seq<u8>>, EntryKind),
    after: Seq<(Seq<Seq<u8>>, EntryKind)>,
    ext: Seq<u8>,
)
    requires
        entry.1 != EntryKind::Directory,
        extension_of(file_name(entry.0)) == Some(ext),
        !(entry.1 == EntryKind::File && is_music_extension(ext)),
        valid_utf8(ext),
        !ignorable_extensions().contains(lower_of(decode_utf8(ext))),
    ensures
        unexpected_of(before + seq![entry] + after) == unexpected_of(before) + seq![
            (entry.0, Oddity::UnknownExtension),
        ] + unexpected_of(after),
{
    lemma_unexpected_concat(before + seq![entry], after);
    lemma_unexpected_concat(before, seq![entry]);
    assert(seq![entry].drop_last() =~= Seq::<(Seq<Seq<u8>>, EntryKind)>::empty());
    assert(seq![entry].last() == entry);
    reveal_with_fuel(unexpected_of, 2);
    assert(entry_finding(entry) == Finding::Unexpected(Oddity::UnknownExtension));
    assert(unexpected_of(seq![entry]) =~= seq![(entry.0, Oddity::UnknownExtension)]);
}

proof fn lemma_music_paths_contains(es: Seq<(Seq<Seq<u8>>, EntryKind)>, p: Seq<Seq<u8>>)
    ensures
        music_paths(es).contains(p) <==> exists|i: int|
            0 <= i < es.len() && #[trigger] es[i].0 == p && entry_finding(es[i]) == Finding::Music,
    decreases es.len(),
{
    if es.len() > 0 {
        let rest = es.drop_last();
        let k = es.len() - 1;
        let m = music_paths(es);
        let rm = music_paths(rest);
        lemma_music_paths_contains(rest, p);
        assert(es.last() == es[k]);
        if entry_finding(es[k]) == Finding::Music {
            assert(m == rm.push(es[k].0));
        } else {
            assert(m == rm);
        }
        if exists|i: int|
            0 <= i < es.len() && #[trigger] es[i].0 == p && entry_finding(es[i]) == Finding::Music {
            let i = choose|i: int|
                0 <= i < es.len() && #[trigger] es[i].0 == p && entry_finding(es[i])
                    == Finding::Music;
            if i < k {
                assert(rest[i] == es[i]);
                assert(rest[i].0 == p);
                assert(rm.contains(p));
                let j = choose|j: int| 0 <= j < rm.len() && rm[j] == p;
                assert(m[j] == p);
            } else {
                assert(m[m.len() - 1] == p);
            }
        }
        if m.contains(p) {
            if rm.contains(p) {
                let i = choose|i: int|
                    0 <= i < rest.len() && #[trigger] rest[i].0 == p && entry_finding(rest[i])
                        == Finding::Music;
                assert(es[i] == rest[i]);
                assert(es[i].0 == p);
            } else {
                let j = choose|j: int| 0 <= j < m.len() && m[j] == p;
                if j < m.len() - 1 {
                    assert(rm[j] == p);
                }
                assert(es[k].0 == p);
            }
        }
    }
}

/// The index is sorted in ascending path order and holds exactly the paths
/// of the regular files whose extension is `mp3`, `flac` or `ogg`.
pub proof fn lemma_index_sorted_and_exact(es: Seq<(Seq<Seq<u8>>, EntryKind)>)
    ensures
        sorted_by(music_index(es), path_order()),
        forall|p: Seq<Seq<u8>>|
            #[trigger] music_index(es).contains(p) <==> exists|i: int|
                0 <= i < es.len() && #[trigger] es[i].0 == p && es[i].1 == EntryKind::File
                    && extension_of(file_name(p)) is Some && is_music_extension(
                    extension_of(file_name(p))->0,
                ),
{
    broadcast use vstd::seq_lib::group_to_multiset_ensures;

    lemma_path_order_total();
    let m = music_paths(es);
    m.lemma_sort_by_ensures(path_order());
    assert forall|p: Seq<Seq<u8>>| #[trigger] music_index(es).contains(p) <==> exists|i: int|
        0 <= i < es.len() && #[trigger] es[i].0 == p && es[i].1 == EntryKind::File
            && extension_of(file_name(p)) is Some && is_music_extension(
            extension_of(file_name(p))->0,
        ) by {
        lemma_music_paths_contains(es, p);
        assert(music_index(es).contains(p) <==> music_index(es).to_multiset().count(p) > 0);
        assert(m.contains(p) <==> m.to_multiset().count(p) > 0);
    }
}

proof fn lemma_music_paths_remove(es: Seq<(Seq<Seq<u8>>, EntryKind)>, k: int)
    requires
        0 <= k < es.len(),
    ensures
        music_paths(es).to_multiset() == if entry_finding(es[k]) == Finding::Music {
            music_paths(es.remove(k)).to_multiset().insert(es[k].0)
        } else {
            music_paths(es.remove(k)).to_multiset()
        },
    decreases es.len(),
{
    broadcast use vstd::seq_lib::group_to_multiset_ensures;

    let rest = es.drop_last();
    if k == es.len() - 1 {
        assert(es.remove(k) =~= rest);
    } else {
        lemma_music_paths_remove(rest, k);
        assert(es.remove(k).drop_last() =~= rest.remove(k));
        assert(es.remove(k).last() == es.last());
        assert(rest[k] == es[k]);
        if entry_finding(es.last()) == Finding::Music {
            assert(music_paths(es.remove(k)) == music_paths(rest.remove(k)).push(es.last().0));
        } else {
            assert(music_paths(es.remove(k)) == music_paths(rest.remove(k)));
        }
    }
}

proof fn lemma_music_paths_permutation(
    a: Seq<(Seq<Seq<u8>>, EntryKind)>,
    b: Seq<(Seq<Seq<u8>>, EntryKind)>,
)
    requires
        a.to_multiset() == b.to_multiset(),
    ensures
        music_paths(a).to_multiset() == music_paths(b).to_multiset(),
    decreases a.len(),
{
    broadcast use vstd::seq_lib::group_to_multiset_ensures;

    if a.len() == 0 {
        assert(b.to_multiset().len() == 0);
        assert(b =~= a);
    } else {
        let x = a.last();
        assert(a.contains(x));
        assert(a.to_multiset().count(x) > 0);
        assert(b.contains(x));
        let k = choose|k: int| 0 <= k < b.len() && b[k] == x;
        let rest = a.drop_last();
        assert(rest.push(x) =~= a);
        assert(rest.to_multiset() =~= b.remove(k).to_multiset());
        lemma_music_paths_permutation(rest, b.remove(k));
        lemma_music_paths_remove(b, k);
    }
}

/// Scanning the same tree again, however the walk orders its entries this
/// time, publishes the very same index.
pub proof fn lemma_rescan_identical(
    first: Seq<(Seq<Seq<u8>>, EntryKind)>,
    second: Seq<(Seq<Seq<u8>>, EntryKind)>,
)
    requires
        first.to_multiset() == second.to_multiset(),
    ensures
        music_index(first) == music_index(second),
{
    lemma_path_order_total();
    lemma_music_paths_permutation(first, second);
    music_paths(first).lemma_sort_by_ensures(path_order());
    music_paths(second).lemma_sort_by_ensures(path_order());
    lemma_sorted_permutations_equal(music_index(first), music_index(second));
}

proof fn lemma_music_paths_distinct(es: Seq<(Seq<Seq<u8>>, EntryKind)>)
    requires
        forall|i: int, j: int| 0 <= i < j < es.len() ==> es[i].0 != es[j].0,
    ensures
        music_paths(es).no_duplicates(),
    decreases es.len(),
{
    if es.len() > 0 {
        let rest = es.drop_last();
        assert forall|i: int, j: int| 0 <= i < j < rest.len() implies rest[i].0 != rest[j].0 by {
            assert(rest[i] == es[i] && rest[j] == es[j]);
        }
        lemma_music_paths_distinct(rest);
        if entry_finding(es.last()) == Finding::Music {
            let p = es.last().0;
            lemma_music_paths_contains(rest, p);
            if music_paths(rest).contains(p) {
                let i = choose|i: int|
                    0 <= i < rest.len() && #[trigger] rest[i].0 == p && entry_finding(rest[i])
                        == Finding::Music;
                assert(es[i] == rest[i]);
                assert(es[i].0 != es[es.len() - 1].0);
            }
            let m = music_paths(rest).push(p);
            assert forall|i: int, j: int| 0 <= i < m.len() && 0 <= j < m.len() && i != j implies m[i]
                != m[j] by {
                if i < m.len() - 1 && j < m.len() - 1 {
                } else if i == m.len() - 1 {
                    assert(music_paths(rest)[j] == m[j]);
                } else {
                    assert(music_paths(rest)[i] == m[i]);
                }
            }
        }
    }
}

/// When the walk meets each path once, the index is strictly ascending: no
/// path appears twice in it.
pub proof fn lemma_index_strictly_ascending(es: Seq<(Seq<Seq<u8>>, EntryKind)>)
    requires
        forall|i: int, j: int| 0 <= i < j < es.len() ==> es[i].0 != es[j].0,
    ensures
        sorted_by(music_index(es), path_order()),
        forall|i: int, j: int|
            0 <= i < j < music_index(es).len() ==> music_index(es)[i] != music_index(es)[j],
{
    lemma_path_order_total();
    let m = music_paths(es);
    m.lemma_sort_by_ensures(path_order());
    lemma_music_paths_distinct(es);
    m.lemma_multiset_has_no_duplicates();
    music_index(es).lemma_multiset_has_no_duplicates_conv();
}

} // verus!
