//! Naming rules for input discovery and output files.
//!
//! The surrounding tool works on file names; the rules themselves — which
//! names count as scan files, and how the two output names are derived from
//! an input name — are plain string logic and live here. Callers hand in
//! the file name and the directory part as strings.

use vstd::prelude::*;
use vstd::string::StrSliceExecFns;
use vstd::string::StringExecFns;

verus! {

/// `s` ends with `suffix`.
pub open spec fn ends_with_spec(s: Seq<char>, suffix: Seq<char>) -> bool {
    suffix.len() <= s.len() && s.subrange(s.len() - suffix.len(), s.len() as int) == suffix
}

/// Every occurrence of `pat` removed from `s`, scanning left to right
/// without overlap, as replacing each occurrence by the empty string does.
pub open spec fn remove_all(s: Seq<char>, pat: Seq<char>) -> Seq<char>
    decreases s.len(),
{
    if pat.len() == 0 || s.len() < pat.len() {
        s
    } else if s.subrange(0, pat.len() as int) == pat {
        remove_all(s.skip(pat.len() as int), pat)
    } else {
        seq![s[0]] + remove_all(s.skip(1), pat)
    }
}

/// Decide whether `s` ends with `suffix`.
fn str_ends_with(s: &str, suffix: &str) -> (r: bool)
    ensures
        r == ends_with_spec(s@, suffix@),
{
    let n = s.unicode_len();
    let m = suffix.unicode_len();
    if m > n {
        return false;
    }
    let mut j: usize = 0;
    while j < m
        invariant
            n == s@.len(),
            m == suffix@.len(),
            m <= n,
            j <= m,
            forall|k: int| 0 <= k < j ==> s@[n - m + k] == suffix@[k],
        decreases m - j,
    {
        let c1 = s.get_char(n - m + j);
        let c2 = suffix.get_char(j);
        if c1 != c2 {
            proof {
                if ends_with_spec(s@, suffix@) {
                    assert(s@.subrange(n - m, n as int)[j as int] == suffix@[j as int]);
                }
            }
            return false;
        }
        j = j + 1;
    }
    proof {
        assert(s@.subrange(n - m, n as int) =~= suffix@);
    }
    true
}

/// `pat` occurs in `s` at position `i`.
fn match_at(s: &str, i: usize, pat: &str) -> (r: bool)
    requires
        i + pat@.len() <= s@.len(),
    ensures
        r == (s@.subrange(i as int, i + pat@.len()) == pat@),
{
    let n = s.unicode_len();
    let m = pat.unicode_len();
    let mut j: usize = 0;
    while j < m
        invariant
            n == s@.len(),
            m == pat@.len(),
            i + m <= n,
            j <= m,
            forall|k: int| 0 <= k < j ==> s@[i + k] == pat@[k],
        decreases m - j,
    {
        let c1 = s.get_char(i + j);
        let c2 = pat.get_char(j);
        if c1 != c2 {
            proof {
                if s@.subrange(i as int, i + pat@.len()) == pat@ {
                    assert(s@.subrange(i as int, i + pat@.len())[j as int] == pat@[j as int]);
                }
            }
            return false;
        }
        j = j + 1;
    }
    proof {
        assert(s@.subrange(i as int, i + pat@.len()) =~= pat@);
    }
    true
}

/// Remove every occurrence of `pat` from `s`, scanning left to right.
fn remove_occurrences(s: &str, pat: &str) -> (r: String)
    requires
        pat@.len() >= 1,
    ensures
        r@ == remove_all(s@, pat@),
{
    let n = s.unicode_len();
    let m = pat.unicode_len();
    let mut out = String::new();
    let mut i: usize = 0;
    proof {
        assert(s@.skip(0) =~= s@);
    }
    while i < n
        invariant
            n == s@.len(),
            m == pat@.len(),
            m >= 1,
            i <= n,
            remove_all(s@, pat@) == out@ + remove_all(s@.skip(i as int), pat@),
        decreases n - i,
    {
        let ghost rest = s@.skip(i as int);
        if n - i >= m && match_at(s, i, pat) {
            proof {
                assert(rest.subrange(0, m as int) =~= s@.subrange(i as int, i + m as int));
                assert(rest.skip(m as int) =~= s@.skip(i + m as int));
            }
            i = i + m;
        } else {
            let ghost out0 = out@;
            let c = s.substring_char(i, i + 1);
            out.append(c);
            proof {
                assert(c@ =~= seq![s@[i as int]]);
                if rest.len() >= m && rest.subrange(0, m as int) == pat@ {
                    assert(rest.subrange(0, m as int) =~= s@.subrange(i as int, i + m as int));
                }
                assert(rest.skip(1) =~= s@.skip(i + 1));
                if rest.len() < m {
                    assert(rest =~= seq![s@[i as int]] + rest.skip(1));
                    assert(remove_all(rest, pat@) == rest);
                    assert(remove_all(rest.skip(1), pat@) == rest.skip(1));
                }
                assert(out0 + (seq![s@[i as int]] + remove_all(s@.skip(i + 1), pat@)) =~= out@
                    + remove_all(s@.skip(i + 1), pat@));
            }
            i = i + 1;
        }
    }
    proof {
        assert(s@.skip(n as int) =~= Seq::<char>::empty());
        assert(out@ + Seq::<char>::empty() =~= out@);
    }
    out
}

/// A file name names a scan file: it ends in `.nii.gz` or `.nii`.
pub fn is_nifti(name: &str) -> (r: bool)
    ensures
        r == (ends_with_spec(name@, ".nii.gz"@) || ends_with_spec(name@, ".nii"@)),
{
    str_ends_with(name, ".nii.gz") || str_ends_with(name, ".nii")
}

/// The directory prefix that `output_paths` puts before a file name: the
/// parent followed by a separator, or nothing for an empty parent, so that
/// a bare file name stays relative instead of becoming absolute.
pub open spec fn dir_prefix(parent: Seq<char>) -> Seq<char> {
    if parent.len() == 0 {
        parent
    } else {
        parent + "/"@
    }
}

/// Derive the two output names for an input file: the stem is the file
/// name with every `.nii.gz` and `.nii` removed, and the outputs are
/// `<parent>/<stem>_tbet.nii.gz` and `<parent>/<stem>_tbetmask.nii.gz`;
/// with an empty parent, just `<stem>_tbet.nii.gz` and
/// `<stem>_tbetmask.nii.gz`.
pub fn output_paths(file_name: &str, parent: &str) -> (r: (String, String))
    ensures
        r.0@ == dir_prefix(parent@) + remove_all(remove_all(file_name@, ".nii.gz"@), ".nii"@)
            + "_tbet.nii.gz"@,
        r.1@ == dir_prefix(parent@) + remove_all(remove_all(file_name@, ".nii.gz"@), ".nii"@)
            + "_tbetmask.nii.gz"@,
{
    proof {
        reveal_strlit(".nii.gz");
        reveal_strlit(".nii");
    }
    let stem1 = remove_occurrences(file_name, ".nii.gz");
    let stem = remove_occurrences(stem1.as_str(), ".nii");
    let mut tbx = String::from_str(parent);
    if !parent.is_empty() {
        tbx.append("/");
    }
    proof {
        if parent@.len() == 0 {
            assert(parent@ + stem@ =~= stem@);
            assert(tbx@ =~= dir_prefix(parent@));
        }
    }
    tbx.append(stem.as_str());
    tbx.append("_tbet.nii.gz");
    let mut tbxmask = String::from_str(parent);
    if !parent.is_empty() {
        tbxmask.append("/");
    }
    proof {
        if parent@.len() == 0 {
            assert(tbxmask@ =~= dir_prefix(parent@));
        }
    }
    tbxmask.append(stem.as_str());
    tbxmask.append("_tbetmask.nii.gz");
    (tbx, tbxmask)
}

} // verus!
