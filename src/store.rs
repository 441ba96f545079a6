//! The asset store: a map from canonical key to the file's path and its
//! compressed contents, built once from a walk of a directory and read-only
//! afterwards.

use vstd::prelude::*;

use crate::codec::{compress, decompress, zstd_contents, zstd_frame};
use crate::key::{
    components, components_of, is_key, is_rooted, join_components, joined, lemma_normalized_is_key,
    normalize_chars, normalized, views, AssetKey,
};
use crate::text::chars_of;

verus! {

/// Why a store could not be built, or an asset could not be read from it.
#[derive(Debug)]
pub enum EmbeddedAssetsError {
    /// A file could not be opened or read.
    AssetRead { path: String, cause: String },
    /// A file could not be compressed.
    AssetWrite { path: String, cause: String },
    /// A file does not lie under the directory that was walked.
    PrefixInvalid { prefix: String, path: String },
    /// The walk of the directory failed.
    Walkdir { path: String, cause: String },
    /// Two files of the walk have the same key; `path` is the later one.
    DuplicateKey { key: String, path: String },
    /// A stored payload is not a valid compressed frame.
    AssetDecode { key: String, cause: String },
}

/// One item of a directory walk, in the order the walk met it.
#[derive(Debug)]
pub enum WalkEntry {
    /// A directory; it is not an asset.
    Directory { path: String },
    /// A file and everything that was read from it.
    File { path: String, contents: Vec<u8> },
    /// A file that could not be read.
    Unreadable { path: String, cause: String },
    /// The walk itself failed here.
    Failed { cause: String },
}

/// One stored asset: its key, the path it was read from, and its
/// compressed contents.
struct Asset {
    key: AssetKey,
    path: String,
    bytes: Vec<u8>,
}

/// The map that a sequence of rows stands for; a later row with the same key
/// replaces an earlier one.
spec fn rows_map(s: Seq<Asset>) -> Map<Seq<char>, (Seq<char>, Seq<u8>)>
    decreases s.len(),
{
    if s.len() == 0 {
        Map::empty()
    } else {
        rows_map(s.drop_last()).insert(s.last().key@, (s.last().path@, s.last().bytes@))
    }
}

spec fn keys_shaped(s: Seq<Asset>) -> bool {
    forall|i: int| 0 <= i < s.len() ==> is_key(#[trigger] s[i].key@)
}

spec fn keys_unique(s: Seq<Asset>) -> bool {
    forall|i: int, j: int| 0 <= i < j < s.len() ==> #[trigger] s[i].key@ != #[trigger] s[j].key@
}

/// A map from canonical key to (diagnostic path, compressed bytes).
pub struct EmbeddedAssets {
    assets: Vec<Asset>,
}

impl View for EmbeddedAssets {
    type V = Map<Seq<char>, (Seq<char>, Seq<u8>)>;

    closed spec fn view(&self) -> Self::V {
        rows_map(self.assets@)
    }
}

/// What a lookup of `key` finds in `m`: `None` where no asset has its key,
/// else what the stored payload decompresses to (`None` where it does not).
pub open spec fn lookup(m: Map<Seq<char>, (Seq<char>, Seq<u8>)>, key: Seq<char>) -> Option<
    Option<Seq<u8>>,
> {
    let k = normalized(key);
    if m.contains_key(k) {
        Some(zstd_contents(m[k].1))
    } else {
        None
    }
}


/// The key of the file at `path` within the tree rooted at `root`: where
/// both begin at the root or neither does, and the components of `root`
/// begin those of `path`, the key of the remaining components; else `None`,
/// the file does not lie under `root`.
pub open spec fn relative_key(root: Seq<char>, path: Seq<char>) -> Option<Seq<char>> {
    let rc = components(root);
    let pc = components(path);
    if is_rooted(root) == is_rooted(path) && rc.len() <= pc.len() && pc.subrange(0, rc.len() as int)
        == rc {
        Some(normalized(joined(pc.subrange(rc.len() as int, pc.len() as int))))
    } else {
        None
    }
}

/// Whether the walk item `e` gives no error.
pub open spec fn entry_ok(root: Seq<char>, e: WalkEntry, level: i32) -> bool {
    match e {
        WalkEntry::Directory { .. } => true,
        WalkEntry::File { path, contents } => zstd_frame(contents@, level) is Some && relative_key(
            root,
            path@,
        ) is Some,
        _ => false,
    }
}

/// Whether `err` is the error that the walk item `e` gives. A file is
/// compressed before its key is taken.
pub open spec fn entry_error(root: Seq<char>, e: WalkEntry, level: i32, err: EmbeddedAssetsError) -> bool {
    match e {
        WalkEntry::Directory { .. } => false,
        WalkEntry::File { path, contents } => if zstd_frame(contents@, level) is None {
            err matches EmbeddedAssetsError::AssetWrite { path: p, .. } && p@ == path@
        } else {
            relative_key(root, path@) is None && (err matches EmbeddedAssetsError::PrefixInvalid {
                prefix: q,
                path: p,
            } && q@ == root && p@ == path@)
        },
        WalkEntry::Unreadable { path, cause } => err matches EmbeddedAssetsError::AssetRead {
            path: p,
            cause: c,
        } && p@ == path@ && c@ == cause@,
        WalkEntry::Failed { cause } => err matches EmbeddedAssetsError::Walkdir { path: p, cause: c }
            && p@ == root && c@ == cause@,
    }
}

/// The map built from the walk items `s`: each file under its relative key,
/// with its path and its compressed contents; a later file with the same key
/// replaces an earlier one.
pub open spec fn built(root: Seq<char>, s: Seq<WalkEntry>, level: i32) -> Map<
    Seq<char>,
    (Seq<char>, Seq<u8>),
>
    decreases s.len(),
{
    if s.len() == 0 {
        Map::empty()
    } else {
        let m = built(root, s.drop_last(), level);
        match s.last() {
            WalkEntry::File { path, contents } => m.insert(
                relative_key(root, path@)->0,
                (path@, zstd_frame(contents@, level)->0),
            ),
            _ => m,
        }
    }
}

/// Each file of `s` compresses to a frame that decompresses to its contents.
pub open spec fn frames_round_trip(s: Seq<WalkEntry>, level: i32) -> bool {
    forall|i: int|
        0 <= i < s.len() && #[trigger] s[i] is File ==> zstd_frame(s[i]->File_contents@, level) is Some
            && zstd_contents(zstd_frame(s[i]->File_contents@, level)->0) == Some(
            s[i]->File_contents@,
        )
}

/// Whether no file before the one at `i` in `s` has its key.
pub open spec fn key_fresh(root: Seq<char>, s: Seq<WalkEntry>, i: int) -> bool {
    s[i] is File ==> forall|j: int|
        0 <= j < i && #[trigger] s[j] is File ==> relative_key(root, s[j]->File_path@) != relative_key(
            root,
            s[i]->File_path@,
        )
}

/// Whether the walk item at `i` in `s` gives no error: it fails on its own,
/// nor is it a file whose key an earlier file already has.
pub open spec fn item_ok(root: Seq<char>, s: Seq<WalkEntry>, i: int, level: i32) -> bool {
    entry_ok(root, s[i], level) && key_fresh(root, s, i)
}

/// Whether `err` is the error of the walk item at `i` in `s`.
pub open spec fn item_error(root: Seq<char>, s: Seq<WalkEntry>, i: int, level: i32, err: EmbeddedAssetsError) -> bool {
    if entry_ok(root, s[i], level) {
        err matches EmbeddedAssetsError::DuplicateKey { key: k, path: p } && k@ == relative_key(
            root,
            s[i]->File_path@,
        )->0 && p@ == s[i]->File_path@
    } else {
        entry_error(root, s[i], level, err)
    }
}

/// The keys of the built map are those of the files of the walk.
proof fn lemma_built_keys(root: Seq<char>, s: Seq<WalkEntry>, level: i32, k: Seq<char>)
    ensures
        built(root, s, level).contains_key(k) <==> exists|j: int|
            0 <= j < s.len() && #[trigger] s[j] is File && relative_key(root, s[j]->File_path@)->0 == k,
    decreases s.len(),
{
    if s.len() > 0 {
        let t = s.drop_last();
        lemma_built_keys(root, t, level, k);
        let n = s.len() - 1;
        assert(s.last() == s[n]);
        if built(root, s, level).contains_key(k) {
            if built(root, t, level).contains_key(k) {
                let j = choose|j: int|
                    0 <= j < t.len() && #[trigger] t[j] is File && relative_key(root, t[j]->File_path@)->0 == k;
                assert(s[j] == t[j]);
            } else {
                assert(s[n] is File && relative_key(root, s[n]->File_path@)->0 == k);
            }
        }
        if exists|j: int|
            0 <= j < s.len() && #[trigger] s[j] is File && relative_key(root, s[j]->File_path@)->0 == k {
            let j = choose|j: int|
                0 <= j < s.len() && #[trigger] s[j] is File && relative_key(root, s[j]->File_path@)->0 == k;
            if j < n {
                assert(t[j] == s[j]);
            }
        }
    }
}

/// The map that plain rows of (key, path, compressed bytes) stand for: each
/// key normalized, a later row with the same key replacing an earlier one.
pub open spec fn entries_map(s: Seq<(String, String, Vec<u8>)>) -> Map<
    Seq<char>,
    (Seq<char>, Seq<u8>),
>
    decreases s.len(),
{
    if s.len() == 0 {
        Map::empty()
    } else {
        entries_map(s.drop_last()).insert(
            normalized(s.last().0@),
            (s.last().1@, s.last().2@),
        )
    }
}

/// The row at `i`, when no later row shares its key, decides the map of
/// plain rows at that key.
proof fn lemma_entries_last(s: Seq<(String, String, Vec<u8>)>, i: int)
    requires
        0 <= i < s.len(),
        forall|j: int| i < j < s.len() ==> normalized(#[trigger] s[j].0@) != normalized(s[i].0@),
    ensures
        entries_map(s).contains_key(normalized(s[i].0@)),
        entries_map(s)[normalized(s[i].0@)] == (s[i].1@, s[i].2@),
    decreases s.len(),
{
    if i < s.len() - 1 {
        let t = s.drop_last();
        assert forall|j: int| i < j < t.len() implies normalized(#[trigger] t[j].0@) != normalized(t[i].0@) by {
            assert(t[j] == s[j]);
        }
        lemma_entries_last(t, i);
        assert(normalized(s[s.len() - 1].0@) != normalized(s[i].0@));
    }
}

/// A key that no plain row normalizes to is not in their map.
proof fn lemma_entries_absent(s: Seq<(String, String, Vec<u8>)>, k: Seq<char>)
    requires
        forall|j: int| 0 <= j < s.len() ==> normalized(#[trigger] s[j].0@) != k,
    ensures
        !entries_map(s).contains_key(k),
    decreases s.len(),
{
    if s.len() > 0 {
        let t = s.drop_last();
        assert forall|j: int| 0 <= j < t.len() implies normalized(#[trigger] t[j].0@) != k by {
            assert(t[j] == s[j]);
        }
        lemma_entries_absent(t, k);
        assert(normalized(s[s.len() - 1].0@) != k);
    }
}

/// Rows handed out for a map, each a key with its entry, each key once and
/// every key of the map among them, make that same map again: a store taken
/// apart with `into_entries` and put back with `from_entries` is unchanged.
pub proof fn lemma_entries_round_trip(
    m: Map<Seq<char>, (Seq<char>, Seq<u8>)>,
    rows: Seq<(String, String, Vec<u8>)>,
)
    requires
        forall|i: int|
            0 <= i < rows.len() ==> #[trigger] m.contains_key(rows[i].0@) && m[rows[i].0@] == (
                rows[i].1@,
                rows[i].2@,
            ) && is_key(rows[i].0@),
        forall|i: int, j: int| 0 <= i < j < rows.len() ==> #[trigger] rows[i].0@ != #[trigger] rows[j].0@,
        forall|k: Seq<char>| #[trigger]
            m.contains_key(k) ==> exists|i: int| 0 <= i < rows.len() && #[trigger] rows[i].0@ == k,
    ensures
        entries_map(rows) == m,
{
    assert forall|i: int| 0 <= i < rows.len() implies normalized(#[trigger] rows[i].0@) == rows[i].0@ by {
        assert(m.contains_key(rows[i].0@));
        crate::key::lemma_key_is_fixed(rows[i].0@);
    }
    let e = entries_map(rows);
    assert forall|k: Seq<char>| #[trigger] e.contains_key(k) implies m.contains_key(k) by {
        if forall|j: int| 0 <= j < rows.len() ==> normalized(#[trigger] rows[j].0@) != k {
            lemma_entries_absent(rows, k);
        } else {
            let j = choose|j: int| 0 <= j < rows.len() && normalized(#[trigger] rows[j].0@) == k;
            assert(m.contains_key(rows[j].0@));
        }
    }
    assert forall|k: Seq<char>| #[trigger] m.contains_key(k) implies e.contains_key(k) && e[k] == m[k] by {
        let i = choose|i: int| 0 <= i < rows.len() && #[trigger] rows[i].0@ == k;
        assert forall|j: int| i < j < rows.len() implies normalized(#[trigger] rows[j].0@) != normalized(rows[i].0@) by {
            assert(rows[i].0@ != rows[j].0@);
        }
        lemma_entries_last(rows, i);
    }
    assert(e =~= m);
}

/// A relative key has the shape of a key.
proof fn lemma_relative_key_is_key(root: Seq<char>, path: Seq<char>)
    requires
        relative_key(root, path) is Some,
    ensures
        is_key(relative_key(root, path)->0),
{
    let rc = components(root);
    let pc = components(path);
    lemma_normalized_is_key(joined(pc.subrange(rc.len() as int, pc.len() as int)));
}

/// The file at `i`, when no later file has its key, decides the built map at
/// that key.
proof fn lemma_built_last(root: Seq<char>, s: Seq<WalkEntry>, level: i32, i: int)
    requires
        0 <= i < s.len(),
        s[i] is File,
        forall|j: int|
            i < j < s.len() && #[trigger] s[j] is File ==> relative_key(root, s[j]->File_path@)->0
                != relative_key(root, s[i]->File_path@)->0,
    ensures
        built(root, s, level).contains_key(relative_key(root, s[i]->File_path@)->0),
        built(root, s, level)[relative_key(root, s[i]->File_path@)->0] == (
            s[i]->File_path@,
            zstd_frame(s[i]->File_contents@, level)->0,
        ),
    decreases s.len(),
{
    if i < s.len() - 1 {
        let t = s.drop_last();
        assert forall|j: int|
            i < j < t.len() && #[trigger] t[j] is File implies relative_key(root, t[j]->File_path@)->0
                != relative_key(root, t[i]->File_path@)->0 by {
            assert(t[j] == s[j]);
        }
        assert(t[i] == s[i]);
        lemma_built_last(root, t, level, i);
        assert(s.last() == s[s.len() - 1]);
    }
}

/// Building a store from a walk and then looking up any file's key gives
/// back exactly that file's contents.
pub proof fn lemma_build_then_get(
    root: Seq<char>,
    entries: Seq<WalkEntry>,
    level: i32,
    m: Map<Seq<char>, (Seq<char>, Seq<u8>)>,
    i: int,
)
    requires
        forall|j: int| 0 <= j < entries.len() ==> #[trigger] item_ok(root, entries, j, level),
        m == built(root, entries, level),
        frames_round_trip(entries, level),
        0 <= i < entries.len(),
        entries[i] is File,
    ensures
        lookup(m, relative_key(root, entries[i]->File_path@)->0) == Some(
            Some(entries[i]->File_contents@),
        ),
{
    assert(item_ok(root, entries, i, level));
    assert forall|j: int|
        i < j < entries.len() && #[trigger] entries[j] is File implies relative_key(
        root,
        entries[j]->File_path@,
    )->0 != relative_key(root, entries[i]->File_path@)->0 by {
        assert(item_ok(root, entries, j, level));
        assert(relative_key(root, entries[j]->File_path@) != relative_key(root, entries[i]->File_path@));
    }
    lemma_built_last(root, entries, level, i);
    lemma_relative_key_is_key(root, entries[i]->File_path@);
    crate::key::lemma_key_is_fixed(relative_key(root, entries[i]->File_path@)->0);
}

/// The row at `i` decides the map at its key when no later row shares it.
proof fn lemma_rows_last(s: Seq<Asset>, i: int)
    requires
        0 <= i < s.len(),
        forall|j: int| i < j < s.len() ==> #[trigger] s[j].key@ != s[i].key@,
    ensures
        rows_map(s).contains_key(s[i].key@),
        rows_map(s)[s[i].key@] == (s[i].path@, s[i].bytes@),
    decreases s.len(),
{
    if i < s.len() - 1 {
        let t = s.drop_last();
        assert forall|j: int| i < j < t.len() implies #[trigger] t[j].key@ != t[i].key@ by {
            assert(t[j] == s[j]);
        }
        lemma_rows_last(t, i);
        assert(s[s.len() - 1].key@ != s[i].key@);
    }
}

/// A key that no row has is not in the map.
proof fn lemma_rows_absent(s: Seq<Asset>, k: Seq<char>)
    requires
        forall|j: int| 0 <= j < s.len() ==> #[trigger] s[j].key@ != k,
    ensures
        !rows_map(s).contains_key(k),
    decreases s.len(),
{
    if s.len() > 0 {
        let t = s.drop_last();
        assert forall|j: int| 0 <= j < t.len() implies #[trigger] t[j].key@ != k by {
            assert(t[j] == s[j]);
        }
        lemma_rows_absent(t, k);
        assert(s[s.len() - 1].key@ != k);
    }
}


/// Replacing the row at `i` by one with the same key, where no later row has
/// that key, replaces the key's entry in the map.
proof fn lemma_rows_update(s: Seq<Asset>, i: int, a: Asset)
    requires
        0 <= i < s.len(),
        s[i].key@ == a.key@,
        forall|j: int| i < j < s.len() ==> #[trigger] s[j].key@ != a.key@,
    ensures
        rows_map(s.update(i, a)) == rows_map(s).insert(a.key@, (a.path@, a.bytes@)),
    decreases s.len(),
{
    let u = s.update(i, a);
    if i == s.len() - 1 {
        assert(u.drop_last() =~= s.drop_last());
        assert(rows_map(u) =~= rows_map(s).insert(a.key@, (a.path@, a.bytes@)));
    } else {
        let t = s.drop_last();
        assert(u.drop_last() =~= t.update(i, a));
        assert forall|j: int| i < j < t.len() implies #[trigger] t[j].key@ != a.key@ by {
            assert(t[j] == s[j]);
        }
        lemma_rows_update(t, i, a);
        assert(s[s.len() - 1].key@ != a.key@);
        assert(u.last() == s.last());
        assert(rows_map(u) =~= rows_map(s).insert(a.key@, (a.path@, a.bytes@)));
    }
}


/// Whether `a` and `b` hold the same characters.
fn same_chars(a: &Vec<char>, b: &Vec<char>) -> (r: bool)
    ensures
        r == (a@ == b@),
{
    if a.len() != b.len() {
        return false;
    }
    let mut i: usize = 0;
    while i < a.len()
        invariant
            a@.len() == b@.len(),
            0 <= i <= a@.len(),
            forall|j: int| 0 <= j < i ==> a@[j] == b@[j],
        decreases a@.len() - i,
    {
        if a[i] != b[i] {
            return false;
        }
        i += 1;
    }
    proof {
        assert(a@ =~= b@);
    }
    true
}

/// Whether the path whose characters are `s` begins at the root.
fn rooted(s: &Vec<char>) -> (r: bool)
    ensures
        r == is_rooted(s@),
{
    s.len() > 0 && (s[0] == '/' || s[0] == '\\')
}

/// The key of `path` relative to `root`, or `None` where `path` does not lie
/// under `root`.
fn relative_key_of(root: &str, path: &str) -> (r: Option<AssetKey>)
    ensures
        match r {
            Some(k) => relative_key(root@, path@) == Some(k@),
            None => relative_key(root@, path@) is None,
        },
{
    let rs = chars_of(root);
    let ps = chars_of(path);
    let rc = components_of(&rs);
    let pc = components_of(&ps);
    if rooted(&rs) != rooted(&ps) || rc.len() > pc.len() {
        return None;
    }
    let mut i: usize = 0;
    while i < rc.len()
        invariant
            views(rc@) == components(root@),
            views(pc@) == components(path@),
            is_rooted(root@) == is_rooted(path@),
            rc@.len() <= pc@.len(),
            0 <= i <= rc@.len(),
            forall|j: int| 0 <= j < i ==> views(pc@)[j] == views(rc@)[j],
        decreases rc@.len() - i,
    {
        if !same_chars(&pc[i], &rc[i]) {
            proof {
                assert(views(pc@).subrange(0, rc@.len() as int)[i as int] != views(rc@)[i as int]);
                assert(views(pc@).subrange(0, rc@.len() as int) != views(rc@));
            }
            return None;
        }
        i += 1;
    }
    proof {
        assert(views(pc@).subrange(0, rc@.len() as int) =~= views(rc@));
    }
    let rel = join_components(&pc, rc.len());
    Some(AssetKey::from_key_chars(&normalize_chars(&rel)))
}

/// Compresses the file read from `path` and keys it relative to `prefix`.
fn compress_file(prefix: &str, path: &String, contents: &Vec<u8>, level: i32) -> (r: Result<
    Asset,
    EmbeddedAssetsError,
>)
    ensures
        match r {
            Ok(a) => {
                &&& zstd_frame(contents@, level) == Some(a.bytes@)
                &&& zstd_contents(a.bytes@) == Some(contents@)
                &&& relative_key(prefix@, path@) == Some(a.key@)
                &&& a.path@ == path@
            },
            Err(e) => entry_error(
                prefix@,
                WalkEntry::File { path: *path, contents: *contents },
                level,
                e,
            ),
        },
{
    let bytes = match compress(contents.as_slice(), level) {
        Ok(b) => b,
        Err(cause) => {
            return Err(EmbeddedAssetsError::AssetWrite { path: path.clone(), cause });
        },
    };
    match relative_key_of(prefix, path.as_str()) {
        Some(key) => Ok(Asset { key, path: path.clone(), bytes }),
        None => Err(
            EmbeddedAssetsError::PrefixInvalid { prefix: prefix.to_owned(), path: path.clone() },
        ),
    }
}

impl EmbeddedAssets {
    /// The rows hold each key once, and every key has the shape of a key.
    pub closed spec fn wf(&self) -> bool {
        keys_unique(self.assets@) && keys_shaped(self.assets@)
    }

    /// An empty store.
    fn empty() -> (r: EmbeddedAssets)
        ensures
            r.wf(),
            r@ == Map::<Seq<char>, (Seq<char>, Seq<u8>)>::empty(),
    {
        EmbeddedAssets { assets: Vec::new() }
    }

    /// Builds a store from the items of a walk of the directory `root`, in
    /// the order the walk met them, compressing every file at `level`. The
    /// first item that fails decides the error, and then no store is made; a
    /// file whose key an earlier file already has fails too, so each file is
    /// found under its own key.
    pub fn new(root: &str, entries: Vec<WalkEntry>, level: i32) -> (r: Result<
        EmbeddedAssets,
        EmbeddedAssetsError,
    >)
        ensures
            match r {
                Ok(store) => {
                    &&& store.wf()
                    &&& forall|i: int|
                        0 <= i < entries@.len() ==> #[trigger] item_ok(root@, entries@, i, level)
                    &&& store@ == built(root@, entries@, level)
                    &&& frames_round_trip(entries@, level)
                },
                Err(e) => exists|i: int|
                    #![trigger entries@[i]]
                    {
                        &&& 0 <= i < entries@.len()
                        &&& forall|j: int| 0 <= j < i ==> #[trigger] item_ok(root@, entries@, j, level)
                        &&& !item_ok(root@, entries@, i, level)
                        &&& item_error(root@, entries@, i, level, e)
                    },
            },
    {
        let mut store = EmbeddedAssets::empty();
        let mut i: usize = 0;
        proof {
            assert(entries@.subrange(0, 0) =~= Seq::<WalkEntry>::empty());
        }
        while i < entries.len()
            invariant
                store.wf(),
                0 <= i <= entries@.len(),
                forall|j: int| 0 <= j < i ==> #[trigger] item_ok(root@, entries@, j, level),
                store@ == built(root@, entries@.subrange(0, i as int), level),
                frames_round_trip(entries@.subrange(0, i as int), level),
            decreases entries@.len() - i,
        {
            let ghost before = entries@.subrange(0, i as int);
            let ghost after = entries@.subrange(0, i + 1);
            proof {
                assert(after.drop_last() =~= before);
                assert(after.last() == entries@[i as int]);
            }
            match &entries[i] {
                WalkEntry::Directory { .. } => {},
                WalkEntry::File { path, contents } => {
                    match compress_file(root, path, contents, level) {
                        Ok(a) => {
                            proof {
                                lemma_relative_key_is_key(root@, path@);
                                lemma_built_keys(root@, before, level, a.key@);
                                assert(entry_ok(root@, entries@[i as int], level));
                            }
                            match store.find(&a.key) {
                                Some(at) => {
                                    proof {
                                        lemma_rows_last(store.assets@, at as int);
                                        let j = choose|j: int|
                                            0 <= j < before.len() && #[trigger] before[j] is File
                                                && relative_key(root@, before[j]->File_path@)->0 == a.key@;
                                        assert(before[j] == entries@[j]);
                                        assert(item_ok(root@, entries@, j, level));
                                        assert(entries@[j] is File);
                                        assert(!key_fresh(root@, entries@, i as int));
                                    }
                                    return Err(
                                        EmbeddedAssetsError::DuplicateKey {
                                            key: String::from(a.key),
                                            path: path.clone(),
                                        },
                                    );
                                },
                                None => {
                                    proof {
                                        lemma_rows_absent(store.assets@, a.key@);
                                        assert forall|j: int|
                                            0 <= j < i && #[trigger] entries@[j] is File implies relative_key(
                                            root@,
                                            entries@[j]->File_path@,
                                        ) != relative_key(root@, entries@[i as int]->File_path@) by {
                                            assert(before[j] == entries@[j]);
                                            assert(item_ok(root@, entries@, j, level));
                                        }
                                        assert(item_ok(root@, entries@, i as int, level));
                                    }
                                    store.insert(a);
                                },
                            }
                        },
                        Err(e) => {
                            proof {
                                assert(!entry_ok(root@, entries@[i as int], level));
                            }
                            return Err(e);
                        },
                    }
                },
                WalkEntry::Unreadable { path, cause } => {
                    return Err(
                        EmbeddedAssetsError::AssetRead { path: path.clone(), cause: cause.clone() },
                    );
                },
                WalkEntry::Failed { cause } => {
                    return Err(
                        EmbeddedAssetsError::Walkdir { path: root.to_owned(), cause: cause.clone() },
                    );
                },
            }
            proof {
                assert forall|k: int|
                    0 <= k < after.len() && #[trigger] after[k] is File implies zstd_frame(
                    after[k]->File_contents@,
                    level,
                ) is Some && zstd_contents(zstd_frame(after[k]->File_contents@, level)->0) == Some(
                    after[k]->File_contents@,
                ) by {
                    if k < i {
                        assert(after[k] == before[k]);
                    }
                }
            }
            i += 1;
        }
        proof {
            assert(entries@.subrange(0, entries@.len() as int) =~= entries@);
        }
        Ok(store)
    }

    /// Makes a store from plain rows of (key, path, compressed bytes), as
    /// [`Self::into_entries`] hands them out.
    pub fn from_entries(rows: Vec<(String, String, Vec<u8>)>) -> (r: EmbeddedAssets)
        ensures
            r.wf(),
            r@ == entries_map(rows@),
    {
        let ghost all = rows@;
        let mut rows = rows;
        let mut store = EmbeddedAssets::empty();
        proof {
            assert(all.subrange(0, 0) =~= Seq::<(String, String, Vec<u8>)>::empty());
            assert(all.subrange(0, all.len() as int) =~= all);
        }
        while rows.len() > 0
            invariant
                store.wf(),
                rows@.len() <= all.len(),
                rows@ == all.subrange(all.len() - rows@.len(), all.len() as int),
                store@ == entries_map(all.subrange(0, all.len() - rows@.len())),
            decreases rows@.len(),
        {
            let ghost done = all.len() - rows@.len();
            let (k, path, bytes) = rows.remove(0);
            proof {
                assert(all.subrange(0, done + 1).drop_last() =~= all.subrange(0, done));
                assert(all[done] == (k, path, bytes));
                assert(rows@ =~= all.subrange(all.len() - rows@.len(), all.len() as int));
            }
            let key = AssetKey::from(k.as_str());
            proof {
                lemma_normalized_is_key(k@);
            }
            store.insert(Asset { key, path, bytes });
        }
        store
    }

    /// Hands out the store's rows as plain (key, path, compressed bytes), each
    /// key once.
    pub fn into_entries(self) -> (r: Vec<(String, String, Vec<u8>)>)
        requires
            self.wf(),
        ensures
            forall|i: int|
                0 <= i < r@.len() ==> #[trigger] self@.contains_key(r@[i].0@) && self@[r@[i].0@] == (
                    r@[i].1@,
                    r@[i].2@,
                ) && is_key(r@[i].0@),
            forall|i: int, j: int| 0 <= i < j < r@.len() ==> #[trigger] r@[i].0@ != #[trigger] r@[j].0@,
            forall|k: Seq<char>| #[trigger]
                self@.contains_key(k) ==> exists|i: int| 0 <= i < r@.len() && #[trigger] r@[i].0@ == k,
    {
        let ghost all = self.assets@;
        let ghost m = self@;
        let mut rows = self.assets;
        let mut out: Vec<(String, String, Vec<u8>)> = Vec::new();
        while rows.len() > 0
            invariant
                keys_unique(all),
                keys_shaped(all),
                m == rows_map(all),
                rows@ == all.subrange(0, rows@.len() as int),
                rows@.len() + out@.len() == all.len(),
                forall|i: int|
                    0 <= i < out@.len() ==> #[trigger] out@[i].0@ == all[all.len() - 1 - i].key@
                        && out@[i].1@ == all[all.len() - 1 - i].path@ && out@[i].2@ == all[all.len() - 1
                        - i].bytes@,
            decreases rows@.len(),
        {
            let ghost before = out@;
            let a = rows.pop().unwrap();
            proof {
                assert(a == all[rows@.len() as int]);
                assert(rows@ =~= all.subrange(0, rows@.len() as int));
            }
            let key = String::from(a.key);
            out.push((key, a.path, a.bytes));
            proof {
                assert forall|i: int| 0 <= i < out@.len() implies #[trigger] out@[i].0@ == all[all.len() - 1
                    - i].key@ && out@[i].1@ == all[all.len() - 1 - i].path@ && out@[i].2@ == all[all.len()
                    - 1 - i].bytes@ by {
                    if i < before.len() {
                        assert(out@[i] == before[i]);
                    } else {
                        assert(all.len() - 1 - i == rows@.len());
                    }
                }
            }
        }
        proof {
            let n = all.len() as int;
            assert forall|i: int| 0 <= i < out@.len() implies #[trigger] m.contains_key(out@[i].0@) && m[out@[i].0@]
                == (out@[i].1@, out@[i].2@) && is_key(out@[i].0@) by {
                let x = n - 1 - i;
                assert(is_key(all[x].key@));
                assert forall|j: int| x < j < n implies #[trigger] all[j].key@ != all[x].key@ by {
                    assert(all[x].key@ != all[j].key@);
                }
                lemma_rows_last(all, x);
            }
            assert forall|i: int, j: int| 0 <= i < j < out@.len() implies #[trigger] out@[i].0@
                != #[trigger] out@[j].0@ by {
                assert(all[n - 1 - j].key@ != all[n - 1 - i].key@);
            }
            assert forall|k: Seq<char>| #[trigger] m.contains_key(k) implies exists|i: int|
                0 <= i < out@.len() && #[trigger] out@[i].0@ == k by {
                if forall|j: int| 0 <= j < n ==> #[trigger] all[j].key@ != k {
                    lemma_rows_absent(all, k);
                } else {
                    let j = choose|j: int| 0 <= j < n && #[trigger] all[j].key@ == k;
                    assert(out@[n - 1 - j].0@ == k);
                }
            }
        }
        out
    }

    /// The index of the row whose key is `k`, searching from the last row.
    fn find(&self, k: &AssetKey) -> (r: Option<usize>)
        ensures
            match r {
                Some(i) => {
                    &&& i < self.assets@.len()
                    &&& self.assets@[i as int].key@ == k@
                    &&& forall|j: int| i < j < self.assets@.len() ==> #[trigger] self.assets@[j].key@ != k@
                },
                None => forall|j: int| 0 <= j < self.assets@.len() ==> #[trigger] self.assets@[j].key@ != k@,
            },
    {
        let mut i: usize = self.assets.len();
        while i > 0
            invariant
                i <= self.assets@.len(),
                forall|j: int| i <= j < self.assets@.len() ==> #[trigger] self.assets@[j].key@ != k@,
            decreases i,
        {
            i -= 1;
            if crate::text::same_text(self.assets[i].key.as_str(), k.as_str()) {
                return Some(i);
            }
        }
        None
    }

    /// Adds `a`, replacing the asset with the same key if there is one.
    fn insert(&mut self, a: Asset)
        requires
            old(self).wf(),
            is_key(a.key@),
        ensures
            final(self).wf(),
            final(self)@ == old(self)@.insert(a.key@, (a.path@, a.bytes@)),
    {
        match self.find(&a.key) {
            Some(i) => {
                proof {
                    lemma_rows_update(self.assets@, i as int, a);
                }
                self.assets.set(i, a);
                proof {
                    assert(self.assets@ == old(self).assets@.update(i as int, a));
                    assert forall|x: int| 0 <= x < self.assets@.len() implies is_key(#[trigger] self.assets@[x].key@) by {
                        if x != i {
                            assert(self.assets@[x] == old(self).assets@[x]);
                        }
                    }
                    assert forall|x: int, y: int| 0 <= x < y < self.assets@.len() implies #[trigger] self.assets@[x].key@
                        != #[trigger] self.assets@[y].key@ by {
                        assert(old(self).assets@[x].key@ != old(self).assets@[y].key@);
                    }
                }
            },
            None => {
                self.assets.push(a);
                proof {
                    assert(self.assets@.drop_last() =~= old(self).assets@);
                    assert forall|x: int| 0 <= x < self.assets@.len() implies is_key(#[trigger] self.assets@[x].key@) by {
                        if x < old(self).assets@.len() {
                            assert(self.assets@[x] == old(self).assets@[x]);
                        }
                    }
                    assert forall|x: int, y: int| 0 <= x < y < self.assets@.len() implies #[trigger] self.assets@[x].key@
                        != #[trigger] self.assets@[y].key@ by {
                        if y < old(self).assets@.len() {
                            assert(old(self).assets@[x].key@ != old(self).assets@[y].key@);
                        } else {
                            assert(old(self).assets@[x] == self.assets@[x]);
                        }
                    }
                }
            },
        }
    }
}

/// Looking assets up by key.
pub trait Assets {
    /// The decompressed contents of the asset at `key`, `None` where there is
    /// none, or an error where its payload does not decompress.
    fn get(&self, key: &str) -> Result<Option<Vec<u8>>, EmbeddedAssetsError>;
}

impl Assets for EmbeddedAssets {
    /// Normalizes `key`, finds its asset and decompresses the payload.
    fn get(&self, key: &str) -> (r: Result<Option<Vec<u8>>, EmbeddedAssetsError>)
        ensures
            match r {
                Ok(Some(v)) => lookup(self@, key@) == Some(Some(v@)),
                Ok(None) => lookup(self@, key@) is None,
                Err(e) => lookup(self@, key@) == Some(None::<Seq<u8>>) && e is AssetDecode,
            },
    {
        let k = AssetKey::from(key);
        match self.find(&k) {
            None => {
                proof {
                    lemma_rows_absent(self.assets@, k@);
                }
                Ok(None)
            },
            Some(i) => {
                proof {
                    lemma_rows_last(self.assets@, i as int);
                }
                match decompress(self.assets[i].bytes.as_slice()) {
                    Ok(v) => Ok(Some(v)),
                    Err(cause) => Err(EmbeddedAssetsError::AssetDecode { key: String::from(k), cause }),
                }
            },
        }
    }
}

} // verus!
