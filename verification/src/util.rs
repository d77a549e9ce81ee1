//! Shared helpers: the `(name, path)` file identity, the change predicate,
//! request URLs, path assembly and splitting, and the content digest.

use vstd::prelude::*;

use crate::model::FileDefinition;
use crate::model::FileDefinitionView;

verus! {

/// The server address used when building request URLs.
pub const SERVER: &'static str = "localhost:8000";

/// Whether two records denote the same logical file by the `(name, path)`
/// fallback identity, used when one side has no id yet.
pub open spec fn spec_same_file(a: FileDefinitionView, b: FileDefinitionView) -> bool {
    a.name == b.name && a.path == b.path
}

/// Whether the fields compared by change detection differ. The content
/// checksum is deliberately left out of this comparison: only name, place
/// and size decide whether an update is pushed.
pub open spec fn spec_have_changed(a: FileDefinitionView, b: FileDefinitionView) -> bool {
    a.name != b.name || a.path != b.path || a.size != b.size
}

/// A relative component joined onto a path as std's `Path::join` does it: a
/// separator is inserted only where the left side is non-empty and does not
/// already end in one, so a base with a trailing separator doubles nothing.
pub open spec fn spec_join(a: Seq<char>, b: Seq<char>) -> Seq<char> {
    if a.len() == 0 {
        b
    } else if a.last() == '/' {
        a + b
    } else {
        a + "/"@ + b
    }
}

/// The full path of a record under `base`: the relative directory (skipped
/// when empty, meaning the sync root) and the leaf name, each joined on by
/// [`spec_join`].
pub open spec fn spec_full_path(base: Seq<char>, path: Seq<char>, name: Seq<char>) -> Seq<char> {
    if path.len() == 0 {
        spec_join(base, name)
    } else {
        spec_join(spec_join(base, path), name)
    }
}

/// The index of the last `/` in `s`, or -1 when there is none.
pub open spec fn last_slash_index(s: Seq<char>) -> int
    decreases s.len(),
{
    if s.len() == 0 {
        -1
    } else if s.last() == '/' {
        s.len() - 1
    } else {
        last_slash_index(s.drop_last())
    }
}

/// The path without its trailing separators, which name no component.
pub open spec fn strip_trailing_slashes(s: Seq<char>) -> Seq<char>
    decreases s.len(),
{
    if s.len() > 0 && s.last() == '/' {
        strip_trailing_slashes(s.drop_last())
    } else {
        s
    }
}

/// `strip_trailing_slashes` keeps the prefix up to the last character that
/// is no separator and cuts only separators.
pub proof fn lemma_strip_trailing_slashes(s: Seq<char>)
    ensures
        strip_trailing_slashes(s).len() <= s.len(),
        strip_trailing_slashes(s) == s.subrange(0, strip_trailing_slashes(s).len() as int),
        forall|k: int| strip_trailing_slashes(s).len() <= k < s.len() ==> s[k] == '/',
        strip_trailing_slashes(s).len() > 0 ==> s[strip_trailing_slashes(s).len() - 1] != '/',
    decreases s.len(),
{
    if s.len() > 0 && s.last() == '/' {
        lemma_strip_trailing_slashes(s.drop_last());
        let t = strip_trailing_slashes(s);
        assert(forall|i: int| 0 <= i < s.len() - 1 ==> s.drop_last()[i] == s[i]);
        assert(t =~= s.subrange(0, t.len() as int));
    }
}

/// A relative path split into directory and leaf name as std's `Path` reads
/// it: trailing separators name no component and are dropped first; what
/// remains is split at its last `/`; without one, the directory is empty
/// (the sync root) and the whole rest is the name.
pub open spec fn spec_split_path(s: Seq<char>) -> (Seq<char>, Seq<char>) {
    let t = strip_trailing_slashes(s);
    let j = last_slash_index(t);
    if j < 0 {
        (Seq::empty(), t)
    } else {
        (t.subrange(0, j), t.subrange(j + 1, t.len() as int))
    }
}

/// `last_slash_index` points at a `/` and nothing after it is a `/`.
pub proof fn lemma_last_slash_index(s: Seq<char>)
    ensures
        -1 <= last_slash_index(s) < s.len(),
        last_slash_index(s) >= 0 ==> s[last_slash_index(s)] == '/',
        forall|k: int| last_slash_index(s) < k < s.len() ==> s[k] != '/',
        last_slash_index(s) < 0 ==> forall|k: int| 0 <= k < s.len() ==> s[k] != '/',
    decreases s.len(),
{
    if s.len() == 0 {
    } else if s.last() == '/' {
    } else {
        lemma_last_slash_index(s.drop_last());
        assert forall|k: int| last_slash_index(s) < k < s.len() implies s[k] != '/' by {
            if k < s.len() - 1 {
                assert(s.drop_last()[k] == s[k]);
                assert(s.drop_last()[k] != '/');
            }
        }
        if last_slash_index(s) < 0 {
            assert forall|k: int| 0 <= k < s.len() implies s[k] != '/' by {
                if k < s.len() - 1 {
                    assert(s.drop_last()[k] == s[k]);
                    assert(s.drop_last()[k] != '/');
                }
            }
        }
    }
}

/// The name the client reserves for its state file at the sync root; it is
/// excluded from every scan.
pub const STATE_FILE_NAME: &'static str = ".sync-state";

/// What the md5 crate's digest of a byte string prints as, in lowercase
/// hexadecimal. The digest is a function of the bytes alone.
pub uninterp spec fn md5_hex_of(bytes: Seq<u8>) -> Seq<char>;

/// Append one relative component to a path, as std's `Path::push` does on a
/// relative component, inserting a separator only where one is missing.
pub(crate) fn push_component(s: &mut String, comp: &str)
    ensures
        final(s)@ == spec_join(old(s)@, comp@),
{
    let n = s.as_str().unicode_len();
    if n > 0 {
        if s.as_str().get_char(n - 1) != '/' {
            s.append("/");
        }
    }
    s.append(comp);
}

pub struct Util;

impl Util {
    /// The URL of a service location on the configured server.
    pub fn build_url(location: &str) -> (r: String)
        ensures
            r@ == "http://"@ + SERVER@ + "/"@ + location@,
    {
        let mut s = String::from_str("http://");
        s.append(SERVER);
        s.append("/");
        s.append(location);
        s
    }

    /// The full path of `file_def` under `base`, as [`spec_full_path`] says.
    pub fn full_path(base: &str, file_def: &FileDefinition) -> (r: String)
        ensures
            r@ == spec_full_path(base@, file_def@.path, file_def@.name),
    {
        let mut s = String::from_str(base);
        if file_def.path.as_str().unicode_len() > 0 {
            push_component(&mut s, file_def.path.as_str());
        }
        push_component(&mut s, file_def.name.as_str());
        s
    }

    /// Split a relative path into `(directory, leaf name)`, as
    /// [`spec_split_path`] says: trailing separators are dropped, then the
    /// rest is split at its last `/`.
    pub fn split_full_path(full_path: &str) -> (r: (String, String))
        ensures
            r.0@ == spec_split_path(full_path@).0,
            r.1@ == spec_split_path(full_path@).1,
    {
        let ghost t = strip_trailing_slashes(full_path@);
        let n = full_path.unicode_len();
        let mut m: usize = n;
        while m > 0 && full_path.get_char(m - 1) == '/'
            invariant
                n == full_path@.len(),
                m <= n,
                forall|k: int| m <= k < n ==> full_path@[k] == '/',
            decreases m,
        {
            m = m - 1;
        }
        proof {
            lemma_strip_trailing_slashes(full_path@);
            assert(t.len() == m) by {
                if t.len() < m {
                    assert(full_path@[m - 1] == '/');
                }
                if t.len() > m {
                    assert(full_path@[t.len() - 1] == '/');
                }
            }
            assert(t =~= full_path@.subrange(0, m as int));
        }
        let mut i: usize = m;
        while i > 0
            invariant
                n == full_path@.len(),
                i <= m <= n,
                t == strip_trailing_slashes(full_path@),
                t.len() == m,
                t == full_path@.subrange(0, m as int),
                forall|k: int| i <= k < m ==> full_path@[k] != '/',
            decreases i,
        {
            i = i - 1;
            if full_path.get_char(i) == '/' {
                proof {
                    lemma_last_slash_index(t);
                    let j = last_slash_index(t);
                    assert(forall|k: int| 0 <= k < m ==> t[k] == full_path@[k]);
                    assert(j == i) by {
                        if j > i {
                            assert(full_path@[j] != '/');
                            assert(t[j] == '/');
                        }
                        if j < i {
                            assert(t[i as int] != '/');
                            assert(full_path@[i as int] == '/');
                        }
                    }
                }
                let path = full_path.substring_char(0, i).to_owned();
                let name = full_path.substring_char(i + 1, m).to_owned();
                proof {
                    assert(path@ =~= spec_split_path(full_path@).0);
                    assert(name@ =~= spec_split_path(full_path@).1);
                }
                return (path, name);
            }
        }
        proof {
            lemma_last_slash_index(t);
            assert(forall|k: int| 0 <= k < m ==> t[k] == full_path@[k]);
            assert(last_slash_index(t) < 0) by {
                let j = last_slash_index(t);
                if j >= 0 {
                    assert(full_path@[j] != '/');
                    assert(t[j] == '/');
                }
            }
        }
        let name = full_path.substring_char(0, m).to_owned();
        let empty = String::new();
        assert(name@ =~= spec_split_path(full_path@).1);
        assert(empty@ =~= spec_split_path(full_path@).0);
        (empty, name)
    }

    /// The content digest used for change detection.
    ///
    /// Relies on `md5::compute`, whose 16-byte digest depends on the input
    /// bytes alone, and on the md5 crate's `LowerHex` formatting, which
    /// prints each digest byte as exactly two lowercase hexadecimal digits.
    #[verifier::external_body]
    pub fn checksum(content: &[u8]) -> (r: String)
        ensures
            r@ == md5_hex_of(content@),
            r@.len() == 32,
    {
        let digest = md5::compute(content);
        format!("{:x}", digest)
    }

    /// Whether the fields compared by change detection differ, as
    /// [`spec_have_changed`] says.
    pub fn have_changed(a: &FileDefinition, b: &FileDefinition) -> (r: bool)
        ensures
            r == spec_have_changed(a@, b@),
    {
        !a.name.eq(&b.name) || !a.path.eq(&b.path) || !Self::opt_u64_eq(&a.size, &b.size)
    }

    /// Whether two records denote the same logical file, as
    /// [`spec_same_file`] says.
    pub fn same_file(a: &FileDefinition, b: &FileDefinition) -> (r: bool)
        ensures
            r == spec_same_file(a@, b@),
    {
        a.name.eq(&b.name) && a.path.eq(&b.path)
    }

    /// Equality of two optional sizes.
    pub fn opt_u64_eq(a: &Option<u64>, b: &Option<u64>) -> (r: bool)
        ensures
            r == (*a == *b),
    {
        match (a, b) {
            (None, None) => true,
            (Some(x), Some(y)) => *x == *y,
            _ => false,
        }
    }

    /// The record a filesystem scan yields for one regular file: `rel_path`
    /// is the file's path relative to the sync root, `content` its bytes,
    /// `last_update` its modification time. The record has no id yet; its
    /// checksum is the content digest.
    pub fn get_local_file_definition(rel_path: &str, content: &[u8], last_update: u64) -> (r:
        FileDefinition)
        ensures
            r@ == (FileDefinitionView {
                name: spec_split_path(rel_path@).1,
                path: spec_split_path(rel_path@).0,
                id: None,
                size: Some(content@.len() as u64),
                checksum: Some(md5_hex_of(content@)),
                last_update: Some(last_update),
            }),
    {
        let (path, name) = Self::split_full_path(rel_path);
        let checksum = Self::checksum(content);
        let size = content.len() as u64;
        FileDefinition::new_full_no_id(name, path, size, checksum, last_update)
    }
}

} // verus!
