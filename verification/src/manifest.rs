//! Manifests: a snapshot of a file tree as (path, size, hash) entries, sorted
//! by path, and the checks that compare a snapshot with a tree.

use vstd::prelude::*;
use crate::error::EngineError;
use crate::order::{lemma_lt_asymmetric, lemma_lt_transitive, path_lt, rank, Rank};
use crate::paths::{normalize_separators, normalized, to_chars};

verus! {

/// One file of a tree: its path relative to the root, its size in bytes and
/// the hex digest of its contents.
#[derive(Debug)]
pub struct ManifestEntry {
    pub path: String,
    pub size: u64,
    pub hash: String,
}

/// What an entry says, as plain values.
pub struct EntryView {
    pub path: Seq<char>,
    pub size: u64,
    pub hash: Seq<char>,
}

impl View for ManifestEntry {
    type V = EntryView;

    open spec fn view(&self) -> EntryView {
        EntryView { path: self.path@, size: self.size, hash: self.hash@ }
    }
}

/// The entries of a list, each as plain values.
pub open spec fn views(s: Seq<ManifestEntry>) -> Seq<EntryView> {
    Seq::new(s.len(), |i: int| s[i]@)
}

/// A lowercase hexadecimal digit.
pub open spec fn is_hex(c: char) -> bool {
    ('0' <= c && c <= '9') || ('a' <= c && c <= 'f')
}

/// A digest: 64 lowercase hexadecimal digits.
pub open spec fn is_digest(s: Seq<char>) -> bool {
    s.len() == 64 && forall|i: int| 0 <= i < s.len() ==> is_hex(#[trigger] s[i])
}

/// Tells whether `hash` has the form of a digest.
pub fn check_digest(hash: &str) -> (ok: bool)
    ensures
        ok == is_digest(hash@),
{
    let n: usize = hash.unicode_len();
    if n != 64 {
        return false;
    }
    let mut i: usize = 0;
    while i < n
        invariant
            n == hash@.len(),
            i <= n,
            forall|j: int| 0 <= j < i ==> is_hex(#[trigger] hash@[j]),
        decreases n - i,
    {
        let c: char = hash.get_char(i);
        if !(('0' <= c && c <= '9') || ('a' <= c && c <= 'f')) {
            return false;
        }
        i += 1;
    }
    true
}

/// The lowercase hexadecimal digit for a value below 16.
pub open spec fn hex_char(v: int) -> char {
    if v == 0 {
        '0'
    } else if v == 1 {
        '1'
    } else if v == 2 {
        '2'
    } else if v == 3 {
        '3'
    } else if v == 4 {
        '4'
    } else if v == 5 {
        '5'
    } else if v == 6 {
        '6'
    } else if v == 7 {
        '7'
    } else if v == 8 {
        '8'
    } else if v == 9 {
        '9'
    } else if v == 10 {
        'a'
    } else if v == 11 {
        'b'
    } else if v == 12 {
        'c'
    } else if v == 13 {
        'd'
    } else if v == 14 {
        'e'
    } else {
        'f'
    }
}

/// Bytes in lowercase hexadecimal, two digits each, the high one first.
pub open spec fn hex_of(bytes: Seq<u8>) -> Seq<char> {
    Seq::new(
        2 * bytes.len(),
        |i: int|
            if i % 2 == 0 {
                hex_char(bytes[i / 2] as int / 16)
            } else {
                hex_char(bytes[i / 2] as int % 16)
            },
    )
}

fn hex_digit(v: u8) -> (c: char)
    requires
        v < 16,
    ensures
        c == hex_char(v as int),
        is_hex(c),
{
    if v == 0 {
        '0'
    } else if v == 1 {
        '1'
    } else if v == 2 {
        '2'
    } else if v == 3 {
        '3'
    } else if v == 4 {
        '4'
    } else if v == 5 {
        '5'
    } else if v == 6 {
        '6'
    } else if v == 7 {
        '7'
    } else if v == 8 {
        '8'
    } else if v == 9 {
        '9'
    } else if v == 10 {
        'a'
    } else if v == 11 {
        'b'
    } else if v == 12 {
        'c'
    } else if v == 13 {
        'd'
    } else if v == 14 {
        'e'
    } else {
        'f'
    }
}

/// Writes the bytes of a hash in lowercase hexadecimal. A hash of 32 bytes
/// gives a digest.
pub fn hex_digest(bytes: &Vec<u8>) -> (out: String)
    ensures
        out@ == hex_of(bytes@),
        bytes@.len() == 32 ==> is_digest(out@),
{
    let mut out = String::new();
    let mut i: usize = 0;
    while i < bytes.len()
        invariant
            i <= bytes@.len(),
            out@.len() == 2 * i,
            forall|k: int| 0 <= k < 2 * i ==> #[trigger] out@[k] == hex_of(bytes@)[k],
            forall|k: int| 0 <= k < 2 * i ==> is_hex(#[trigger] out@[k]),
        decreases bytes@.len() - i,
    {
        let b: u8 = bytes[i];
        let high = hex_digit(b / 16);
        let low = hex_digit(b % 16);
        let ghost before = out@;
        out.push(high);
        out.push(low);
        proof {
            assert(out@ =~= before.push(high).push(low));
            assert forall|k: int| 0 <= k < 2 * (i + 1) implies #[trigger] out@[k] == hex_of(
                bytes@,
            )[k] && is_hex(out@[k]) by {
                if k < 2 * i {
                    assert(out@[k] == before[k]);
                } else if k == 2 * i {
                    assert(k / 2 == i && k % 2 == 0);
                } else {
                    assert(k / 2 == i && k % 2 == 1);
                }
            }
        }
        i += 1;
    }
    proof {
        assert(out@ =~= hex_of(bytes@));
    }
    out
}

/// An entry with the separators of its path normalised.
pub open spec fn clean(e: EntryView) -> EntryView {
    EntryView { path: normalized(e.path), size: e.size, hash: e.hash }
}

/// A scan with the separators of every path normalised.
pub open spec fn cleaned(files: Seq<EntryView>) -> Seq<EntryView> {
    Seq::new(files.len(), |i: int| clean(files[i]))
}

/// No two entries share a path.
pub open spec fn distinct_paths(files: Seq<EntryView>) -> bool {
    forall|i: int, j: int| 0 <= i < j < files.len() ==> files[i].path != files[j].path
}

/// Every hash is a digest.
pub open spec fn all_digests(files: Seq<EntryView>) -> bool {
    forall|i: int| 0 <= i < files.len() ==> is_digest(#[trigger] files[i].hash)
}

/// Every path is written with forward slashes only.
pub open spec fn all_clean(files: Seq<EntryView>) -> bool {
    forall|i: int| 0 <= i < files.len() ==> normalized(#[trigger] files[i].path) == files[i].path
}

/// The entries stand in strictly ascending order of their paths.
pub open spec fn sorted(files: Seq<EntryView>) -> bool {
    forall|i: int, j: int| 0 <= i < j < files.len() ==> path_lt(files[i].path, files[j].path)
}

/// A scan from which a manifest can be built: every hash is a digest and no
/// two files share a normalised path.
pub open spec fn buildable(files: Seq<EntryView>) -> bool {
    all_digests(files) && distinct_paths(cleaned(files))
}

/// `m` is the manifest of the scan `files`: the same entries with normalised
/// separators, in ascending order of their paths.
pub open spec fn is_manifest_of(m: Seq<EntryView>, files: Seq<EntryView>) -> bool {
    sorted(m) && all_clean(m) && all_digests(m) && m.to_multiset() == cleaned(files).to_multiset()
}

/// What is known of one file of a tree besides its path.
pub struct Stamp {
    pub size: u64,
    pub hash: Seq<char>,
}

/// Size and hash of an entry.
pub open spec fn stamp(e: EntryView) -> Stamp {
    Stamp { size: e.size, hash: e.hash }
}

/// A tree as a map from normalised path to size and hash.
pub type Tree = Map<Seq<char>, Stamp>;

/// The tree that the first `n` files of a scan describe. Where two files share
/// a normalised path the later one counts.
pub open spec fn tree_upto(files: Seq<EntryView>, n: int) -> Tree
    decreases n,
{
    if n <= 0 {
        Map::empty()
    } else {
        tree_upto(files, n - 1).insert(normalized(files[n - 1].path), stamp(files[n - 1]))
    }
}

/// The tree that a scan describes.
pub open spec fn tree_of(files: Seq<EntryView>) -> Tree {
    tree_upto(files, files.len() as int)
}

/// Every entry is a file of the tree, with that size and that hash.
pub open spec fn covers(tree: Tree, entries: Seq<EntryView>) -> bool {
    forall|i: int|
        0 <= i < entries.len() ==> tree.contains_key(#[trigger] entries[i].path)
            && tree[entries[i].path] == stamp(entries[i])
}

/// Some entry has the normalised path and the size of `file`.
pub open spec fn sized_in(file: EntryView, entries: Seq<EntryView>) -> bool {
    exists|k: int|
        0 <= k < entries.len() && (#[trigger] entries[k]).path == normalized(file.path)
            && entries[k].size == file.size
}

/// The cheap comparison: as many entries as files, and every file listed with
/// its size. Hashes are not looked at.
pub open spec fn sizes_match(entries: Seq<EntryView>, files: Seq<EntryView>) -> bool {
    entries.len() == files.len() && forall|i: int|
        0 <= i < files.len() ==> sized_in(#[trigger] files[i], entries)
}

/// A snapshot of a tree.
#[derive(Debug)]
pub struct Manifest {
    entries: Vec<ManifestEntry>,
}

impl View for Manifest {
    type V = Seq<EntryView>;

    closed spec fn view(&self) -> Seq<EntryView> {
        views(self.entries@)
    }
}

impl Manifest {
    #[verifier::type_invariant]
    spec fn holds(self) -> bool {
        sorted(views(self.entries@)) && all_clean(views(self.entries@)) && all_digests(
            views(self.entries@),
        )
    }

    /// What every manifest satisfies: ascending paths (so no path occurs
    /// twice), forward slashes only, and digests for hashes.
    pub open spec fn wf(&self) -> bool {
        sorted(self@) && all_clean(self@) && all_digests(self@)
    }


    /// The entries in order.
    pub fn entries(&self) -> (out: &Vec<ManifestEntry>)
        ensures
            views(out@) == self@,
            self.wf(),
    {
        proof {
            use_type_invariant(self);
        }
        &self.entries
    }

    /// The number of entries.
    pub fn len(&self) -> (n: usize)
        ensures
            n == self@.len(),
    {
        self.entries.len()
    }
}

/// Inserting a value adds it to the multiset of a sequence.
proof fn lemma_insert_multiset(s: Seq<EntryView>, j: int, x: EntryView)
    requires
        0 <= j <= s.len(),
    ensures
        s.insert(j, x).to_multiset() == s.to_multiset().insert(x),
{
    broadcast use vstd::seq_lib::group_to_multiset_ensures;

    let t = s.insert(j, x);
    assert(t.remove(j) =~= s);
    assert(t[j] == x);
    assert(t.to_multiset().remove(x) == s.to_multiset());
    assert(t.contains(x));
    assert(t.to_multiset() =~= s.to_multiset().insert(x));
}

/// A value counted in the multiset of a sequence stands at some index of it.
proof fn lemma_member_index(s: Seq<EntryView>, x: EntryView) -> (k: int)
    requires
        s.to_multiset().count(x) > 0,
    ensures
        0 <= k < s.len(),
        s[k] == x,
{
    broadcast use vstd::seq_lib::group_to_multiset_ensures;

    assert(s.contains(x));
    choose|k: int| 0 <= k < s.len() && s[k] == x
}

/// Builds the manifest of a scanned tree: separators normalised, entries
/// sorted by path. The scan is refused where a hash is no digest or two files
/// share a normalised path.
pub fn build(files: &Vec<ManifestEntry>) -> (out: Result<Manifest, EngineError>)
    ensures
        match out {
            Ok(m) => buildable(views(files@)) && is_manifest_of(m@, views(files@)),
            Err(e) => !buildable(views(files@)) && e == EngineError::SerializationError,
        },
{
    let ghost scan = views(files@);
    let mut entries: Vec<ManifestEntry> = Vec::new();
    let mut keys: Vec<Vec<char>> = Vec::new();
    let mut i: usize = 0;
    proof {
        assert(cleaned(scan).subrange(0, 0) =~= Seq::<EntryView>::empty());
        assert(views(entries@) =~= Seq::<EntryView>::empty());
    }
    while i < files.len()
        invariant
            i <= files.len(),
            scan == views(files@),
            keys@.len() == entries@.len(),
            forall|k: int| 0 <= k < keys@.len() ==> (#[trigger] keys@[k])@ == entries@[k].path@,
            sorted(views(entries@)),
            all_clean(views(entries@)),
            all_digests(views(entries@)),
            views(entries@).to_multiset() == cleaned(scan).subrange(0, i as int).to_multiset(),
            forall|k: int| 0 <= k < i ==> is_digest(#[trigger] scan[k].hash),
            distinct_paths(cleaned(scan).subrange(0, i as int)),
        decreases files.len() - i,
    {
        let file = &files[i];
        assert(scan[i as int] == file@);
        if !check_digest(file.hash.as_str()) {
            proof {
                assert(!is_digest(scan[i as int].hash));
            }
            return Err(EngineError::SerializationError);
        }
        let path = normalize_separators(file.path.as_str());
        let key = to_chars(path.as_str());
        let mut j: usize = 0;
        let mut clash: bool = false;
        let mut stop: bool = false;
        while j < keys.len() && !clash && !stop
            invariant
                j <= keys@.len(),
                keys@.len() == entries@.len(),
                forall|k: int| 0 <= k < keys@.len() ==> (#[trigger] keys@[k])@ == entries@[k].path@,
                forall|k: int| 0 <= k < j ==> path_lt(#[trigger] entries@[k].path@, key@),
                clash ==> j < keys@.len() && entries@[j as int].path@ == key@,
                stop ==> j < keys@.len() && path_lt(key@, entries@[j as int].path@),
                !(clash && stop),
            decreases keys@.len() - j + (if clash || stop { 0int } else { 1int }),
        {
            match rank(&keys[j], &key) {
                Rank::Before => {
                    j += 1;
                },
                Rank::Same => {
                    clash = true;
                },
                Rank::After => {
                    stop = true;
                },
            }
        }
        let ghost old_entries = views(entries@);
        let ghost old_keys = keys@;
        let ghost raw_entries = entries@;
        let ghost prefix = cleaned(scan).subrange(0, i as int);
        let ghost next = cleaned(scan).subrange(0, i + 1);
        if clash {
            proof {
                let x = old_entries[j as int];
                assert(old_entries.contains(x));
                broadcast use vstd::seq_lib::group_to_multiset_ensures;

                assert(prefix.to_multiset().count(x) > 0);
                let k = lemma_member_index(prefix, x);
                assert(cleaned(scan)[k].path == cleaned(scan)[i as int].path);
            }
            return Err(EngineError::SerializationError);
        }
        let entry = ManifestEntry { path, size: file.size, hash: file.hash.clone() };
        let ghost fresh = entry@;
        proof {
            assert(fresh == cleaned(scan)[i as int]);
            assert(normalized(normalized(file.path@)) =~= normalized(file.path@));
            assert forall|k: int| 0 <= k < old_entries.len() implies old_entries[k].path
                != fresh.path && (k < j ==> path_lt(old_entries[k].path, fresh.path)) && (k >= j
                ==> path_lt(fresh.path, old_entries[k].path)) by {
                if k < j {
                    assert(path_lt(entries@[k].path@, key@));
                    lemma_lt_asymmetric(old_entries[k].path, fresh.path);
                } else {
                    assert(stop);
                    assert(path_lt(key@, entries@[j as int].path@));
                    assert(path_lt(fresh.path, old_entries[j as int].path));
                    if k > j {
                        assert(path_lt(old_entries[j as int].path, old_entries[k].path));
                        lemma_lt_transitive(
                            fresh.path,
                            old_entries[j as int].path,
                            old_entries[k].path,
                        );
                    }
                    lemma_lt_asymmetric(fresh.path, old_entries[k].path);
                }
            }
            assert forall|a: int, b: int| 0 <= a < b < next.len() implies next[a].path
                != next[b].path by {
                if b < i {
                    assert(prefix[a].path != prefix[b].path);
                } else {
                    broadcast use vstd::seq_lib::group_to_multiset_ensures;

                    assert(prefix.contains(prefix[a]));
                    assert(old_entries.to_multiset().count(prefix[a]) > 0);
                    let k = lemma_member_index(old_entries, prefix[a]);
                    assert(old_entries[k].path != fresh.path);
                }
            }
            lemma_insert_multiset(old_entries, j as int, fresh);
            assert(next =~= prefix.push(fresh));
            broadcast use vstd::seq_lib::group_to_multiset_ensures;

            assert(next.to_multiset() == prefix.to_multiset().insert(fresh));
        }
        entries.insert(j, entry);
        keys.insert(j, key);
        proof {
            let now = views(entries@);
            assert(now =~= old_entries.insert(j as int, fresh));
            assert forall|a: int, b: int| 0 <= a < b < now.len() implies path_lt(
                now[a].path,
                now[b].path,
            ) by {
                if b < j {
                    assert(now[a] == old_entries[a] && now[b] == old_entries[b]);
                } else if b == j {
                    assert(now[a] == old_entries[a]);
                } else if a < j {
                    assert(now[a] == old_entries[a] && now[b] == old_entries[b - 1]);
                } else if a == j {
                    assert(now[b] == old_entries[b - 1]);
                } else {
                    assert(now[a] == old_entries[a - 1] && now[b] == old_entries[b - 1]);
                }
            }
            assert forall|k: int| 0 <= k < now.len() implies normalized(#[trigger] now[k].path)
                == now[k].path && is_digest(now[k].hash) by {
                if k < j {
                    assert(now[k] == old_entries[k]);
                } else if k > j {
                    assert(now[k] == old_entries[k - 1]);
                }
            }
            assert forall|k: int| 0 <= k < keys@.len() implies (#[trigger] keys@[k])@
                == entries@[k].path@ by {
                if k < j {
                    assert(keys@[k] == old_keys[k] && entries@[k] == raw_entries[k]);
                } else if k > j {
                    assert(keys@[k] == old_keys[k - 1] && entries@[k] == raw_entries[k - 1]);
                }
            }
        }
        i += 1;
    }
    proof {
        assert(cleaned(scan).subrange(0, i as int) =~= cleaned(scan));
    }
    Ok(Manifest { entries })
}

/// The file at index `k` is what the tree holds at its path when no later
/// file of the scan shares that path.
pub proof fn lemma_tree_last(files: Seq<EntryView>, n: int, k: int)
    requires
        0 <= k < n <= files.len(),
        forall|j: int| k < j < n ==> normalized(#[trigger] files[j].path) != normalized(files[k].path),
    ensures
        tree_upto(files, n).contains_key(normalized(files[k].path)),
        tree_upto(files, n)[normalized(files[k].path)] == stamp(files[k]),
    decreases n,
{
    if n - 1 > k {
        lemma_tree_last(files, n - 1, k);
        assert(normalized(files[n - 1].path) != normalized(files[k].path));
    }
}

/// A path that no file of the scan has is not in the tree.
pub proof fn lemma_tree_absent(files: Seq<EntryView>, n: int, p: Seq<char>)
    requires
        0 <= n <= files.len(),
        forall|j: int| 0 <= j < n ==> normalized(#[trigger] files[j].path) != p,
    ensures
        !tree_upto(files, n).contains_key(p),
    decreases n,
{
    if n > 0 {
        lemma_tree_absent(files, n - 1, p);
        assert(normalized(files[n - 1].path) != p);
    }
}

/// A manifest built from a scan matches the tree that the scan describes.
pub proof fn law_manifest_matches_own_tree(m: Seq<EntryView>, files: Seq<EntryView>)
    requires
        buildable(files),
        is_manifest_of(m, files),
    ensures
        covers(tree_of(files), m),
{
    broadcast use vstd::seq_lib::group_to_multiset_ensures;

    let c = cleaned(files);
    assert forall|i: int| 0 <= i < m.len() implies tree_of(files).contains_key(
        #[trigger] m[i].path,
    ) && tree_of(files)[m[i].path] == stamp(m[i]) by {
        assert(m.contains(m[i]));
        assert(c.to_multiset().count(m[i]) > 0);
        let k = lemma_member_index(c, m[i]);
        assert forall|j: int| k < j < files.len() implies normalized(#[trigger] files[j].path)
            != normalized(files[k].path) by {
            assert(c[k].path != c[j].path);
        }
        lemma_tree_last(files, files.len() as int, k);
    }
}

/// Two lists in ascending order of their paths that hold the same entries are
/// the same list.
pub proof fn lemma_sorted_same_entries(a: Seq<EntryView>, b: Seq<EntryView>)
    requires
        sorted(a),
        sorted(b),
        a.to_multiset() == b.to_multiset(),
    ensures
        a == b,
    decreases a.len(),
{
    broadcast use vstd::seq_lib::group_to_multiset_ensures;

    a.to_multiset_ensures();
    b.to_multiset_ensures();
    assert(a.len() == b.len());
    if a.len() > 0 {
        let x = a[0];
        let y = b[0];
        assert(a.contains(x));
        assert(b.contains(y));
        let k = lemma_member_index(b, x);
        let j = lemma_member_index(a, y);
        if k > 0 {
            assert(path_lt(b[0].path, b[k].path));
            if j > 0 {
                assert(path_lt(a[0].path, a[j].path));
            }
            lemma_lt_asymmetric(y.path, x.path);
        }
        assert(x == y);
        let a2 = a.remove(0);
        let b2 = b.remove(0);
        assert(a2.to_multiset() == a.to_multiset().remove(x));
        assert(b2.to_multiset() == b.to_multiset().remove(y));
        assert forall|i: int, j: int| 0 <= i < j < a2.len() implies path_lt(
            a2[i].path,
            a2[j].path,
        ) by {
            assert(a2[i] == a[i + 1] && a2[j] == a[j + 1]);
        }
        assert forall|i: int, j: int| 0 <= i < j < b2.len() implies path_lt(
            b2[i].path,
            b2[j].path,
        ) by {
            assert(b2[i] == b[i + 1] && b2[j] == b[j + 1]);
        }
        lemma_sorted_same_entries(a2, b2);
        assert forall|i: int| 0 <= i < a.len() implies a[i] == b[i] by {
            if i > 0 {
                assert(a[i] == a2[i - 1] && b[i] == b2[i - 1]);
            }
        }
    }
    assert(a =~= b);
}

/// A tree has one manifest: two scans that list the same files, in whatever
/// order and with whatever separators, give the same manifest.
pub proof fn law_manifest_is_determined(
    m1: Seq<EntryView>,
    files1: Seq<EntryView>,
    m2: Seq<EntryView>,
    files2: Seq<EntryView>,
)
    requires
        is_manifest_of(m1, files1),
        is_manifest_of(m2, files2),
        cleaned(files1).to_multiset() == cleaned(files2).to_multiset(),
    ensures
        m1 == m2,
{
    lemma_sorted_same_entries(m1, m2);
}

/// Whether a tree covers a list of entries depends on the entries only, not on
/// their order.
pub proof fn lemma_covers_same_entries(tree: Tree, a: Seq<EntryView>, b: Seq<EntryView>)
    requires
        a.to_multiset() == b.to_multiset(),
    ensures
        covers(tree, a) == covers(tree, b),
{
    broadcast use vstd::seq_lib::group_to_multiset_ensures;

    if covers(tree, a) {
        assert forall|i: int| 0 <= i < b.len() implies tree.contains_key(#[trigger] b[i].path)
            && tree[b[i].path] == stamp(b[i]) by {
            assert(b.contains(b[i]));
            let k = lemma_member_index(a, b[i]);
            assert(tree.contains_key(a[k].path));
        }
    }
    if covers(tree, b) {
        assert forall|i: int| 0 <= i < a.len() implies tree.contains_key(#[trigger] a[i].path)
            && tree[a[i].path] == stamp(a[i]) by {
            assert(a.contains(a[i]));
            let k = lemma_member_index(b, a[i]);
            assert(tree.contains_key(b[k].path));
        }
    }
}

/// The normalised paths of a scan, in its order.
fn clean_paths(files: &Vec<ManifestEntry>) -> (out: Vec<String>)
    ensures
        out@.len() == files@.len(),
        forall|k: int| 0 <= k < out@.len() ==> (#[trigger] out@[k])@ == normalized(files@[k].path@),
{
    let mut out: Vec<String> = Vec::new();
    let mut k: usize = 0;
    while k < files.len()
        invariant
            k <= files.len(),
            out@.len() == k,
            forall|j: int| 0 <= j < k ==> (#[trigger] out@[j])@ == normalized(files@[j].path@),
        decreases files.len() - k,
    {
        out.push(normalize_separators(files[k].path.as_str()));
        k += 1;
    }
    out
}

/// Whether one entry is a file of the scanned tree, with equal size and hash.
/// `clean` holds the normalised paths of `files`.
fn entry_in_tree(entry: &ManifestEntry, files: &Vec<ManifestEntry>, clean: &Vec<String>) -> (ok:
    bool)
    requires
        clean@.len() == files@.len(),
        forall|k: int|
            0 <= k < clean@.len() ==> (#[trigger] clean@[k])@ == normalized(files@[k].path@),
    ensures
        ok == (tree_of(views(files@)).contains_key(entry.path@) && tree_of(
            views(files@),
        )[entry.path@] == stamp(entry@)),
{
    let ghost scan = views(files@);
    let mut k: usize = files.len();
    while k > 0
        invariant
            k <= files.len(),
            scan == views(files@),
            clean@.len() == files@.len(),
            forall|j: int|
                0 <= j < clean@.len() ==> (#[trigger] clean@[j])@ == normalized(files@[j].path@),
            forall|j: int|
                k <= j < files.len() ==> normalized(#[trigger] scan[j].path) != entry.path@,
        decreases k,
    {
        k -= 1;
        if clean[k] == entry.path {
            proof {
                assert(clean@[k as int]@ == normalized(files@[k as int].path@));
                assert(normalized(scan[k as int].path) == entry.path@);
                lemma_tree_last(scan, scan.len() as int, k as int);
                assert(stamp(scan[k as int]) == stamp(entry@) <==> (files@[k as int].size
                    == entry.size && files@[k as int].hash@ == entry.hash@));
            }
            return files[k].size == entry.size && files[k].hash == entry.hash;
        }
        proof {
            assert(clean@[k as int]@ == normalized(files@[k as int].path@));
        }
    }
    proof {
        lemma_tree_absent(scan, scan.len() as int, entry.path@);
    }
    false
}

/// The exact comparison: every entry of the manifest is a file of the scanned
/// destination with equal size and equal hash.
pub fn matches_destination(manifest: &Manifest, dest: &Vec<ManifestEntry>) -> (ok: bool)
    ensures
        ok == covers(tree_of(views(dest@)), manifest@),
{
    let clean = clean_paths(dest);
    let ghost tree = tree_of(views(dest@));
    let mut i: usize = 0;
    while i < manifest.entries.len()
        invariant
            i <= manifest.entries@.len(),
            tree == tree_of(views(dest@)),
            clean@.len() == dest@.len(),
            forall|k: int|
                0 <= k < clean@.len() ==> (#[trigger] clean@[k])@ == normalized(dest@[k].path@),
            forall|j: int|
                0 <= j < i ==> tree.contains_key(#[trigger] manifest@[j].path)
                    && tree[manifest@[j].path] == stamp(manifest@[j]),
        decreases manifest.entries@.len() - i,
    {
        if !entry_in_tree(&manifest.entries[i], dest, &clean) {
            proof {
                let e = manifest@[i as int];
                assert(e == manifest.entries@[i as int]@);
                assert(!(tree.contains_key(e.path) && tree[e.path] == stamp(e)));
            }
            return false;
        }
        proof {
            assert(manifest@[i as int] == manifest.entries@[i as int]@);
        }
        i += 1;
    }
    true
}

/// The cheap comparison of a manifest with a scanned source: equal counts, and
/// every file listed under its normalised path with its size.
pub fn matches_source(manifest: &Manifest, source: &Vec<ManifestEntry>) -> (ok: bool)
    ensures
        ok == sizes_match(manifest@, views(source@)),
{
    if manifest.entries.len() != source.len() {
        return false;
    }
    let ghost scan = views(source@);
    let mut i: usize = 0;
    while i < source.len()
        invariant
            i <= source.len(),
            scan == views(source@),
            forall|j: int| 0 <= j < i ==> sized_in(#[trigger] scan[j], manifest@),
        decreases source.len() - i,
    {
        let path = normalize_separators(source[i].path.as_str());
        let size: u64 = source[i].size;
        let ghost file = scan[i as int];
        proof {
            assert(file == source@[i as int]@);
        }
        let mut k: usize = 0;
        let mut found: bool = false;
        while k < manifest.entries.len() && !found
            invariant
                k <= manifest.entries@.len(),
                path@ == normalized(file.path),
                size == file.size,
                found ==> sized_in(file, manifest@),
                !found ==> forall|j: int|
                    0 <= j < k ==> !((#[trigger] manifest@[j]).path == path@ && manifest@[j].size
                        == size),
            decreases manifest.entries@.len() - k + (if found { 0int } else { 1int }),
        {
            let e = &manifest.entries[k];
            proof {
                assert(manifest@[k as int] == e@);
            }
            if e.path == path && e.size == size {
                found = true;
            } else {
                k += 1;
            }
        }
        if !found {
            proof {
                assert(!sized_in(scan[i as int], manifest@));
            }
            return false;
        }
        i += 1;
    }
    true
}

/// What the check for an earlier, complete synchronisation found.
#[derive(Debug)]
pub struct Verdict {
    /// The destination holds every file of the source, with equal contents.
    pub applied: bool,
    /// A freshly built manifest to store, where one was built and matched.
    pub persist: Option<Manifest>,
}

/// A stored manifest still fits the source by the cheap comparison.
pub open spec fn is_current(stored: Option<&Manifest>, source: Seq<EntryView>) -> bool {
    match stored {
        Some(m) => sizes_match(m@, source),
        None => false,
    }
}

/// The entries of an optional manifest.
pub open spec fn stored_entries(stored: Option<&Manifest>) -> Option<Seq<EntryView>> {
    match stored {
        Some(m) => Some(m@),
        None => None,
    }
}

/// Whether the source counts as synchronised onto the destination: a stored
/// manifest that still fits the source by size and count decides; without one
/// the files of the source themselves do.
pub open spec fn counts_as_applied(
    stored: Option<Seq<EntryView>>,
    source: Seq<EntryView>,
    dest: Tree,
) -> bool {
    if stored is Some && sizes_match(stored.unwrap(), source) {
        covers(dest, stored.unwrap())
    } else {
        covers(dest, cleaned(source))
    }
}

/// Whether the stored manifest can be trusted for this source, so that the
/// source need not be hashed again.
pub fn manifest_is_current(stored: Option<&Manifest>, source: &Vec<ManifestEntry>) -> (ok: bool)
    ensures
        ok == is_current(stored, views(source@)),
{
    match stored {
        Some(m) => matches_source(m, source),
        None => false,
    }
}

/// Decides whether the source has already been synchronised onto the
/// destination.
///
/// A stored manifest that still fits the source by size and count is trusted
/// and compared with the destination; the hashes of `source` are then not
/// read. Otherwise a manifest is built from `source`, compared with the
/// destination, and handed back for storing only where it matches.
pub fn is_already_applied(
    stored: Option<&Manifest>,
    source: &Vec<ManifestEntry>,
    dest: &Vec<ManifestEntry>,
) -> (out: Result<Verdict, EngineError>)
    ensures
        out is Ok ==> out.unwrap().applied == counts_as_applied(
            stored_entries(stored),
            views(source@),
            tree_of(views(dest@)),
        ),
        match out {
            Ok(v) => if is_current(stored, views(source@)) {
                v.applied == covers(tree_of(views(dest@)), stored.unwrap()@) && v.persist is None
            } else {
                buildable(views(source@)) && v.applied == covers(
                    tree_of(views(dest@)),
                    cleaned(views(source@)),
                ) && match v.persist {
                    Some(m) => v.applied && is_manifest_of(m@, views(source@)),
                    None => !v.applied,
                }
            },
            Err(e) => !is_current(stored, views(source@)) && !buildable(views(source@)) && e
                == EngineError::SerializationError,
        },
{
    if manifest_is_current(stored, source) {
        match stored {
            Some(m) => {
                return Ok(Verdict { applied: matches_destination(m, dest), persist: None });
            },
            None => {},
        }
    }
    match build(source) {
        Ok(fresh) => {
            let applied = matches_destination(&fresh, dest);
            proof {
                lemma_covers_same_entries(
                    tree_of(views(dest@)),
                    fresh@,
                    cleaned(views(source@)),
                );
            }
            if applied {
                Ok(Verdict { applied: true, persist: Some(fresh) })
            } else {
                Ok(Verdict { applied: false, persist: None })
            }
        },
        Err(e) => Err(e),
    }
}

} // verus!
