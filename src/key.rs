//! Canonical lookup keys.
//!
//! A key is the path rebuilt from its components: it starts with `/`, joins
//! the components with `/`, keeps `.` and `..` as they are, and never ends in
//! `/` unless it is the root itself. Both `/` and `\` separate components, so
//! a path written with either host's separator gives the same key.

use vstd::prelude::*;

use crate::text::{chars_of, string_from_chars};

verus! {

/// A character that separates path components.
pub open spec fn is_separator(c: char) -> bool {
    c == '/' || c == '\\'
}

/// The components of `s`: its maximal runs of characters that are not
/// separators, in order.
pub open spec fn segments(s: Seq<char>) -> Seq<Seq<char>>
    decreases s.len(),
{
    if s.len() == 0 {
        Seq::empty()
    } else {
        let t = segments(s.drop_last());
        let c = s.last();
        if is_separator(c) {
            t
        } else if s.len() == 1 || is_separator(s[s.len() - 2]) {
            t.push(seq![c])
        } else {
            t.update(t.len() - 1, t.last().push(c))
        }
    }
}

/// The components `ss` joined with `/` between them.
pub open spec fn joined(ss: Seq<Seq<char>>) -> Seq<char>
    decreases ss.len(),
{
    if ss.len() == 0 {
        Seq::empty()
    } else if ss.len() == 1 {
        ss[0]
    } else {
        joined(ss.drop_last()) + seq!['/'] + ss.last()
    }
}

/// The key of the path `s`: the root separator followed by its components
/// joined with `/`.
pub open spec fn normalized(s: Seq<char>) -> Seq<char> {
    seq!['/'] + joined(segments(s))
}

/// Reads `s` from left to right and returns the key built so far, together
/// with whether a separator is waiting to be written before the next
/// component; this is how [`normalize_chars`] computes [`normalized`].
pub open spec fn scan(s: Seq<char>) -> (Seq<char>, bool)
    decreases s.len(),
{
    if s.len() == 0 {
        (seq!['/'], false)
    } else {
        let (out, pending) = scan(s.drop_last());
        let c = s.last();
        if is_separator(c) {
            (out, out.len() > 1)
        } else if pending {
            (out.push('/').push(c), false)
        } else {
            (out.push(c), false)
        }
    }
}

/// The shape of every key: rooted, `/` as the only separator, no empty
/// component, no trailing separator unless it is the root.
pub open spec fn is_key(k: Seq<char>) -> bool {
    &&& k.len() >= 1
    &&& k[0] == '/'
    &&& forall|i: int| 0 <= i < k.len() ==> k[i] != '\\'
    &&& forall|i: int| 0 <= i < k.len() - 1 ==> !(k[i] == '/' && #[trigger] k[i + 1] == '/')
    &&& k.len() > 1 ==> k[k.len() - 1] != '/'
}

/// The current-directory component `.`.
pub open spec fn dot() -> Seq<char> {
    seq!['.']
}

/// `ss` without its `.` components.
pub open spec fn without_dots(ss: Seq<Seq<char>>) -> Seq<Seq<char>>
    decreases ss.len(),
{
    if ss.len() == 0 {
        ss
    } else {
        let t = without_dots(ss.drop_last());
        if ss.last() == dot() {
            t
        } else {
            t.push(ss.last())
        }
    }
}

/// Whether `s` begins at the root.
pub open spec fn is_rooted(s: Seq<char>) -> bool {
    s.len() > 0 && is_separator(s[0])
}

/// The components of `s` as a path reads them: its segments without `.`,
/// except a leading `.` of a path that does not begin at the root.
pub open spec fn components(s: Seq<char>) -> Seq<Seq<char>> {
    let ss = segments(s);
    if !is_rooted(s) && ss.len() > 0 && ss[0] == dot() {
        seq![dot()] + without_dots(ss.drop_first())
    } else {
        without_dots(ss)
    }
}

/// The character sequences held by `v`.
pub open spec fn views(v: Seq<Vec<char>>) -> Seq<Seq<char>> {
    v.map_values(|x: Vec<char>| x@)
}

/// The segments of the path whose characters are `s`.
pub fn segments_of(s: &Vec<char>) -> (r: Vec<Vec<char>>)
    ensures
        views(r@) == segments(s@),
{
    let mut done: Vec<Vec<char>> = Vec::new();
    let mut cur: Vec<char> = Vec::new();
    let mut i: usize = 0;
    proof {
        assert(s@.subrange(0, 0) =~= Seq::<char>::empty());
        assert(views(done@) =~= Seq::<Seq<char>>::empty());
    }
    while i < s.len()
        invariant
            0 <= i <= s@.len(),
            segments(s@.subrange(0, i as int)) == (if cur@.len() > 0 {
                views(done@).push(cur@)
            } else {
                views(done@)
            }),
            cur@.len() > 0 <==> (i > 0 && !is_separator(s@[i - 1])),
        decreases s@.len() - i,
    {
        let c = s[i];
        let ghost pre = s@.subrange(0, i as int);
        proof {
            assert(s@.subrange(0, i + 1).drop_last() =~= pre);
            assert(s@.subrange(0, i + 1).last() == c);
            if i > 0 {
                assert(s@.subrange(0, i + 1)[i - 1] == s@[i - 1]);
            }
        }
        if c == '/' || c == '\\' {
            if cur.len() > 0 {
                let ghost before = done@;
                done.push(cur);
                cur = Vec::new();
                proof {
                    assert(views(done@) =~= views(before).push(done@.last()@));
                }
            }
        } else {
            let ghost old_cur = cur@;
            cur.push(c);
            proof {
                if old_cur.len() > 0 {
                    assert(views(done@).push(old_cur).update(views(done@).len() as int, old_cur.push(c))
                        =~= views(done@).push(cur@));
                } else {
                    assert(old_cur.push(c) =~= seq![c]);
                }
            }
        }
        i += 1;
    }
    proof {
        assert(s@.subrange(0, s@.len() as int) =~= s@);
    }
    if cur.len() > 0 {
        let ghost before = done@;
        done.push(cur);
        proof {
            assert(views(done@) =~= views(before).push(done@.last()@));
        }
    }
    done
}

/// Whether `v` is the component `.`.
fn is_dot(v: &Vec<char>) -> (r: bool)
    ensures
        r == (v@ == dot()),
{
    if v.len() == 1 && v[0] == '.' {
        proof {
            assert(v@ =~= dot());
        }
        true
    } else {
        false
    }
}

/// The components of the path whose characters are `s`.
pub fn components_of(s: &Vec<char>) -> (r: Vec<Vec<char>>)
    ensures
        views(r@) == components(s@),
{
    let mut segs = segments_of(s);
    let ghost ss = views(segs@);
    let rooted = s.len() > 0 && (s[0] == '/' || s[0] == '\\');
    let mut out: Vec<Vec<char>> = Vec::new();
    let lead = !rooted && segs.len() > 0 && is_dot(&segs[0]);
    if lead {
        let d = segs.remove(0);
        out.push(d);
    }
    let ghost base = views(out@);
    let ghost all = views(segs@);
    proof {
        if lead {
            assert(base =~= seq![dot()]);
            assert(all =~= ss.drop_first());
        } else {
            assert(base =~= Seq::<Seq<char>>::empty());
            assert(all =~= ss);
        }
        assert(all.subrange(0, 0) =~= Seq::<Seq<char>>::empty());
        assert(all.subrange(0, all.len() as int) =~= all);
        assert(base + without_dots(all.subrange(0, 0)) =~= base);
    }
    while segs.len() > 0
        invariant
            segs@.len() <= all.len(),
            views(segs@) == all.subrange(all.len() - segs@.len(), all.len() as int),
            views(out@) == base + without_dots(all.subrange(0, all.len() - segs@.len())),
        decreases segs@.len(),
    {
        let ghost k = all.len() - segs@.len();
        let ghost before = out@;
        let ghost old_segs = segs@;
        proof {
            assert(views(old_segs)[0] == all.subrange(k, all.len() as int)[0]);
        }
        let x = segs.remove(0);
        proof {
            assert(segs@ =~= old_segs.subrange(1, old_segs.len() as int));
            assert forall|i: int| 0 <= i < segs@.len() implies views(segs@)[i] == all[k + 1 + i] by {
                assert(views(segs@)[i] == segs@[i]@);
                assert(segs@[i] == old_segs[i + 1]);
                assert(views(old_segs)[i + 1] == all.subrange(k, all.len() as int)[i + 1]);
            }
            assert(x@ == all[k]);
            assert(all.subrange(0, k + 1).drop_last() =~= all.subrange(0, k));
            assert(all.subrange(0, k + 1).last() == all[k]);
            assert(views(segs@) =~= all.subrange(all.len() - segs@.len(), all.len() as int));
        }
        if !is_dot(&x) {
            out.push(x);
            proof {
                assert(views(out@) =~= views(before).push(x@));
            }
        }
    }
    out
}

/// The components `ss` joined with `/` between them.
pub fn join_components(ss: &Vec<Vec<char>>, from: usize) -> (r: Vec<char>)
    requires
        from <= ss@.len(),
    ensures
        r@ == joined(views(ss@).subrange(from as int, ss@.len() as int)),
{
    let mut out: Vec<char> = Vec::new();
    let mut j: usize = from;
    proof {
        assert(views(ss@).subrange(from as int, from as int) =~= Seq::<Seq<char>>::empty());
    }
    while j < ss.len()
        invariant
            from <= j <= ss@.len(),
            out@ == joined(views(ss@).subrange(from as int, j as int)),
        decreases ss@.len() - j,
    {
        let ghost before = out@;
        let ghost part = views(ss@).subrange(from as int, j + 1);
        proof {
            assert(part.drop_last() =~= views(ss@).subrange(from as int, j as int));
            assert(part.last() == ss@[j as int]@);
        }
        if j > from {
            out.push('/');
        }
        let seg = &ss[j];
        let mut k: usize = 0;
        let ghost mid = out@;
        while k < seg.len()
            invariant
                0 <= k <= seg@.len(),
                out@ == mid + seg@.subrange(0, k as int),
            decreases seg@.len() - k,
        {
            out.push(seg[k]);
            proof {
                assert(out@ =~= mid + seg@.subrange(0, k + 1));
            }
            k += 1;
        }
        proof {
            assert(seg@.subrange(0, seg@.len() as int) =~= seg@);
            if j == from {
                assert(out@ =~= part[0]);
            } else {
                assert(out@ =~= before + seq!['/'] + part.last());
            }
        }
        j += 1;
    }
    out
}

/// A canonical lookup key for an asset.
#[derive(Debug)]
pub struct AssetKey(String);

impl View for AssetKey {
    type V = Seq<char>;

    closed spec fn view(&self) -> Seq<char> {
        self.0@
    }
}

impl AssetKey {
    /// The key as a string slice.
    pub fn as_str(&self) -> (r: &str)
        ensures
            r@ == self@,
    {
        self.0.as_str()
    }

    /// Makes a key from characters that already have its shape.
    pub(crate) fn from_key_chars(v: &Vec<char>) -> (k: AssetKey)
        ensures
            k@ == v@,
    {
        AssetKey(string_from_chars(v))
    }
}

impl<'a> From<&'a str> for AssetKey {
    /// Normalizes `path` into its key.
    fn from(path: &'a str) -> (k: AssetKey)
        ensures
            k@ == normalized(path@),
    {
        let v = normalize_chars(&chars_of(path));
        AssetKey(string_from_chars(&v))
    }
}

impl<'a> vstd::std_specs::convert::FromSpecImpl<&'a str> for AssetKey {
    open spec fn obeys_from_spec() -> bool {
        false
    }

    open spec fn from_spec(v: &'a str) -> AssetKey {
        arbitrary()
    }
}

impl From<AssetKey> for String {
    fn from(key: AssetKey) -> (s: String)
        ensures
            s@ == key@,
    {
        key.0
    }
}

impl vstd::std_specs::convert::FromSpecImpl<AssetKey> for String {
    open spec fn obeys_from_spec() -> bool {
        false
    }

    open spec fn from_spec(v: AssetKey) -> String {
        arbitrary()
    }
}

/// The key of the path whose characters are `s`.
pub fn normalize_chars(s: &Vec<char>) -> (r: Vec<char>)
    ensures
        r@ == normalized(s@),
{
    let mut out: Vec<char> = Vec::new();
    out.push('/');
    let mut pending = false;
    let mut i: usize = 0;
    proof {
        assert(out@ =~= seq!['/']);
        assert(s@.subrange(0, 0) =~= Seq::<char>::empty());
    }
    while i < s.len()
        invariant
            0 <= i <= s@.len(),
            (out@, pending) == scan(s@.subrange(0, i as int)),
        decreases s@.len() - i,
    {
        let c = s[i];
        if c == '/' || c == '\\' {
            pending = out.len() > 1;
        } else {
            if pending {
                out.push('/');
                pending = false;
            }
            out.push(c);
        }
        proof {
            assert(s@.subrange(0, i + 1).drop_last() =~= s@.subrange(0, i as int));
        }
        i += 1;
    }
    proof {
        assert(s@.subrange(0, s@.len() as int) =~= s@);
        lemma_scan_segments(s@);
    }
    out
}


/// Joining components that are all non-empty gives nothing only where there
/// are none.
proof fn lemma_joined_empty(ss: Seq<Seq<char>>)
    requires
        forall|k: int| 0 <= k < ss.len() ==> (#[trigger] ss[k]).len() > 0,
    ensures
        (joined(ss).len() == 0) == (ss.len() == 0),
{
    if ss.len() == 1 {
        assert(ss[0].len() > 0);
    } else if ss.len() > 1 {
        assert(ss.last() == ss[ss.len() - 1]);
    }
}

/// The scan builds the root separator followed by the joined components, and
/// holds a separator pending exactly after a component and separators.
proof fn lemma_scan_segments(s: Seq<char>)
    ensures
        scan(s).0 == normalized(s),
        scan(s).1 == (s.len() > 0 && is_separator(s.last()) && segments(s).len() > 0),
        s.len() > 0 && !is_separator(s.last()) ==> segments(s).len() > 0,
        forall|k: int| 0 <= k < segments(s).len() ==> (#[trigger] segments(s)[k]).len() > 0,
    decreases s.len(),
{
    if s.len() == 0 {
        assert(normalized(s) =~= seq!['/']);
    } else {
        let d = s.drop_last();
        lemma_scan_segments(d);
        let t = segments(d);
        let c = s.last();
        lemma_joined_empty(t);
        if is_separator(c) {
        } else if s.len() == 1 || is_separator(s[s.len() - 2]) {
            let u = t.push(seq![c]);
            assert(u.drop_last() =~= t);
            if t.len() == 0 {
                assert(joined(u) =~= seq![c]);
            }
            assert(seq!['/'] + joined(u) =~= scan(s).0);
            assert forall|k: int| 0 <= k < u.len() implies (#[trigger] u[k]).len() > 0 by {
                if k < t.len() {
                    assert(u[k] == t[k]);
                }
            }
        } else {
            assert(d.last() == s[s.len() - 2]);
            let x = t.last().push(c);
            let u = t.update(t.len() - 1, x);
            if t.len() == 1 {
                assert(joined(u) =~= joined(t).push(c));
            } else {
                assert(u.drop_last() =~= t.drop_last());
                assert(joined(u) =~= joined(t).push(c));
            }
            assert(seq!['/'] + joined(u) =~= scan(s).0);
            assert forall|k: int| 0 <= k < u.len() implies (#[trigger] u[k]).len() > 0 by {
                if k < t.len() - 1 {
                    assert(u[k] == t[k]);
                }
            }
        }
    }
}

/// What `scan` builds always has the shape of a key, and a separator is only
/// pending after a first component.
proof fn lemma_scan_shape(s: Seq<char>)
    ensures
        is_key(scan(s).0),
        scan(s).1 ==> scan(s).0.len() > 1,
    decreases s.len(),
{
    if s.len() > 0 {
        lemma_scan_shape(s.drop_last());
        let (out, pending) = scan(s.drop_last());
        let c = s.last();
        if !is_separator(c) {
            let r = scan(s).0;
            if pending {
                assert(r =~= out.push('/').push(c));
                assert forall|i: int| 0 <= i < r.len() - 1 implies !(r[i] == '/' && #[trigger] r[i + 1] == '/') by {
                    if i < out.len() - 1 {
                        assert(r[i] == out[i] && r[i + 1] == out[i + 1]);
                    }
                }
            } else {
                assert(r =~= out.push(c));
                assert forall|i: int| 0 <= i < r.len() - 1 implies !(r[i] == '/' && #[trigger] r[i + 1] == '/') by {
                    if i < out.len() - 1 {
                        assert(r[i] == out[i] && r[i + 1] == out[i + 1]);
                    }
                }
            }
        }
    } else {
        assert(scan(s).0 =~= seq!['/']);
    }
}

/// Scanning a prefix of a key gives that prefix back, with its trailing
/// separator held as pending.
proof fn lemma_scan_key_prefix(k: Seq<char>, i: int)
    requires
        is_key(k),
        1 <= i <= k.len(),
    ensures
        scan(k.subrange(0, i)) == (if i > 1 && k[i - 1] == '/' {
            (k.subrange(0, i - 1), true)
        } else {
            (k.subrange(0, i), false)
        }),
    decreases i,
{
    let p = k.subrange(0, i);
    let prev = k.subrange(0, i - 1);
    assert(p.drop_last() =~= prev);
    assert(p.last() == k[i - 1]);
    if i == 1 {
        assert(prev =~= Seq::<char>::empty());
        assert(scan(prev) == (seq!['/'], false));
        assert(p =~= seq!['/']);
    } else {
        lemma_scan_key_prefix(k, i - 1);
        let c = k[i - 1];
        let (out, pending) = scan(prev);
        if c == '/' {
            let j = i - 2;
            assert(!(k[j] == '/' && k[j + 1] == '/'));
            assert(k[0] == '/');
            assert(!pending);
            assert(out == prev);
            assert(out.len() > 1);
        } else {
            assert(c != '\\');
            if i - 1 > 1 && k[i - 2] == '/' {
                assert(pending && out == k.subrange(0, i - 2));
                assert(k.subrange(0, i - 2).push('/').push(c) =~= p);
            } else {
                assert(!pending && out == prev);
                assert(prev.push(c) =~= p);
            }
        }
    }
}

/// A key normalizes to itself.
pub proof fn lemma_key_is_fixed(k: Seq<char>)
    requires
        is_key(k),
    ensures
        normalized(k) == k,
{
    lemma_scan_key_prefix(k, k.len() as int);
    assert(k.subrange(0, k.len() as int) =~= k);
    lemma_scan_segments(k);
}

/// Every key starts with the root separator and has the shape of a key.
pub proof fn lemma_normalized_is_key(s: Seq<char>)
    ensures
        is_key(normalized(s)),
        normalized(s)[0] == '/',
{
    lemma_scan_shape(s);
    lemma_scan_segments(s);
}

/// Normalizing twice is normalizing once.
pub proof fn lemma_normalize_idempotent(s: Seq<char>)
    ensures
        normalized(normalized(s)) == normalized(s),
{
    lemma_scan_shape(s);
    lemma_scan_segments(s);
    lemma_key_is_fixed(normalized(s));
}

/// The root alone, and the empty path, normalize to `/`.
pub proof fn lemma_root_key()
    ensures
        normalized(seq!['/']) == seq!['/'],
        normalized(seq!['\\']) == seq!['/'],
        normalized(Seq::<char>::empty()) == seq!['/'],
{
    let e = Seq::<char>::empty();
    lemma_scan_segments(e);
    lemma_scan_segments(seq!['/']);
    lemma_scan_segments(seq!['\\']);
    assert(scan(e) == (seq!['/'], false));
    assert(seq!['/'].drop_last() =~= e);
    assert(seq!['/'].last() == '/');
    assert(seq!['\\'].drop_last() =~= e);
    assert(seq!['\\'].last() == '\\');
}

/// Two paths that differ only in which separator they use at each place have
/// the same key.
pub proof fn lemma_separator_invariant(s: Seq<char>, t: Seq<char>)
    requires
        s.len() == t.len(),
        forall|i: int|
            0 <= i < s.len() ==> s[i] == t[i] || (is_separator(s[i]) && is_separator(t[i])),
    ensures
        normalized(s) == normalized(t),
    decreases s.len(),
{
    lemma_scan_equal(s, t);
    lemma_scan_segments(s);
    lemma_scan_segments(t);
}

proof fn lemma_scan_equal(s: Seq<char>, t: Seq<char>)
    requires
        s.len() == t.len(),
        forall|i: int|
            0 <= i < s.len() ==> s[i] == t[i] || (is_separator(s[i]) && is_separator(t[i])),
    ensures
        scan(s) == scan(t),
    decreases s.len(),
{
    if s.len() > 0 {
        let n = s.len() - 1;
        assert forall|i: int| 0 <= i < s.drop_last().len() implies s.drop_last()[i] == t.drop_last()[i]
            || (is_separator(s.drop_last()[i]) && is_separator(t.drop_last()[i])) by {
            assert(s.drop_last()[i] == s[i] && t.drop_last()[i] == t[i]);
        }
        lemma_scan_equal(s.drop_last(), t.drop_last());
        assert(s.last() == s[n] && t.last() == t[n]);
    }
}

} // verus!
