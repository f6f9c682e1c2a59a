//! Coverage reconciliation support: which discovered spec files have no
//! timing record, which timing records still name a real spec file, and the
//! file-stem convention by which spec files are recognized.

use crate::text::chars_of;
use crate::timings::FileTiming;
use vstd::prelude::*;

verus! {

// ---------------------------------------------------------------------------
// File stems
// ---------------------------------------------------------------------------

/// The index of the last occurrence of `c` in `s`, or `-1`.
pub open spec fn find_last(s: Seq<char>, c: char) -> int
    decreases s.len()
{
    if s.len() == 0 {
        -1
    } else if s.last() == c {
        s.len() - 1
    } else {
        find_last(s.drop_last(), c)
    }
}

proof fn lemma_find_last_is(s: Seq<char>, l: int, c: char)
    requires
        -1 <= l < s.len(),
        l >= 0 ==> s[l] == c,
        forall|i: int| l < i < s.len() ==> s[i] != c,
    ensures
        find_last(s, c) == l,
    decreases s.len(),
{
    if s.len() > 0 {
        if s.last() == c {
            assert(l == s.len() - 1);
        } else {
            assert(l < s.len() - 1);
            assert(forall|i: int| 0 <= i < s.len() - 1 ==> #[trigger] s.drop_last()[i] == s[i]);
            lemma_find_last_is(s.drop_last(), l, c);
        }
    }
}

/// The final path component: everything after the last `/`.
pub open spec fn file_name_of(path: Seq<char>) -> Seq<char> {
    path.skip(find_last(path, '/') + 1)
}

/// Whether a path has a file stem: its final component is nonempty and names
/// a file rather than `.` or `..`.
pub open spec fn has_file_stem(path: Seq<char>) -> bool {
    let name = file_name_of(path);
    name.len() > 0 && name != seq!['.'] && name != seq!['.', '.']
}

/// The file stem: the final path component, with the extension (everything
/// from the last dot onward) removed; a leading dot opens no extension.
pub open spec fn file_stem_of(path: Seq<char>) -> Seq<char> {
    let name = file_name_of(path);
    let d = find_last(name, '.');
    if d > 0 {
        name.take(d)
    } else {
        name
    }
}

/// The stem of the file a path names, as `file_stem_of` describes.
pub fn get_file_stem(path: &str) -> (r: String)
    requires
        has_file_stem(path@),
    ensures
        r@ == file_stem_of(path@),
{
    let chars = chars_of(path);
    let n = chars.len();
    // start of the final path component
    let mut start: usize = 0;
    let mut j: usize = 0;
    while j < n
        invariant
            n == chars@.len(),
            j <= n,
            start <= j,
            start >= 1 ==> chars@[start - 1] == '/',
            forall|l: int| start <= l < j ==> chars@[l] != '/',
            start == 0 ==> forall|l: int| 0 <= l < j ==> chars@[l] != '/',
        decreases n - j,
    {
        if chars[j] == '/' {
            start = j + 1;
        }
        j = j + 1;
    }
    proof {
        lemma_find_last_is(chars@, start - 1, '/');
        assert(chars@ == path@);
    }
    let ghost name = file_name_of(path@);
    proof {
        assert(name =~= chars@.subrange(start as int, n as int));
    }
    // last dot within the component
    let mut dot: usize = 0;
    let mut has_dot = false;
    let mut j2: usize = start;
    while j2 < n
        invariant
            n == chars@.len(),
            start <= j2 <= n,
            has_dot ==> start <= dot < j2 && chars@[dot as int] == '.',
            forall|l: int| (if has_dot { dot + 1 } else { start as int }) <= l < j2 ==> chars@[l]
                != '.',
            !has_dot ==> forall|l: int| start <= l < j2 ==> chars@[l] != '.',
        decreases n - j2,
    {
        if chars[j2] == '.' {
            dot = j2;
            has_dot = true;
        }
        j2 = j2 + 1;
    }
    proof {
        assert(forall|l: int| 0 <= l < name.len() ==> #[trigger] name[l] == chars@[start + l]);
        if has_dot {
            lemma_find_last_is(name, dot - start, '.');
        } else {
            lemma_find_last_is(name, -1, '.');
        }
    }
    let end: usize = if has_dot && dot > start {
        dot
    } else {
        n
    };
    proof {
        if has_dot && dot > start {
            assert(name.take(dot - start) =~= path@.subrange(start as int, dot as int));
        } else {
            assert(name =~= path@.subrange(start as int, n as int));
        }
    }
    String::from_str(path.substring_char(start, end))
}

/// The suffix that marks a spec file's stem.
pub open spec fn spec_suffix() -> Seq<char> {
    seq!['_', 's', 'p', 'e', 'c']
}

/// Whether a path names a spec file: its file stem ends in `_spec`.
pub open spec fn is_spec_path(path: Seq<char>) -> bool {
    let stem = file_stem_of(path);
    stem.len() >= 5 && stem.skip(stem.len() - 5) == spec_suffix()
}

/// Whether the file a path names is a spec file, by the `_spec` stem
/// convention.
pub fn is_spec_file(path: &str) -> (r: bool)
    requires
        has_file_stem(path@),
    ensures
        r == is_spec_path(path@),
{
    let stem = get_file_stem(path);
    let s = stem.as_str();
    let n = s.unicode_len();
    if n < 5 {
        return false;
    }
    let r = s.get_char(n - 5) == '_' && s.get_char(n - 4) == 's' && s.get_char(n - 3) == 'p'
        && s.get_char(n - 2) == 'e' && s.get_char(n - 1) == 'c';
    proof {
        let tail = stem@.skip(n - 5);
        assert(tail.len() == 5);
        assert(tail[0] == stem@[n - 5]);
        assert(tail[1] == stem@[n - 4]);
        assert(tail[2] == stem@[n - 3]);
        assert(tail[3] == stem@[n - 2]);
        assert(tail[4] == stem@[n - 1]);
        if r {
            assert(tail =~= spec_suffix());
        } else {
            assert(tail != spec_suffix());
        }
    }
    r
}

// ---------------------------------------------------------------------------
// Coverage
// ---------------------------------------------------------------------------

/// Whether some string in `paths` has exactly the characters `p`.
pub open spec fn contains_str(paths: Seq<String>, p: Seq<char>) -> bool {
    exists|i: int| 0 <= i < paths.len() && paths[i]@ == p
}

/// Whether some path in `paths` is equal to `p`.
fn contains_path(paths: &Vec<String>, p: &String) -> (r: bool)
    ensures
        r == contains_str(paths@, p@),
{
    let n = paths.len();
    let mut i: usize = 0;
    while i < n
        invariant
            n == paths@.len(),
            i <= n,
            forall|l: int| 0 <= l < i ==> (#[trigger] paths@[l])@ != p@,
        decreases n - i,
    {
        if paths[i] == *p {
            return true;
        }
        i = i + 1;
    }
    false
}

/// The spec paths that no covered path matches, in their given order.
pub open spec fn not_covered_model(covered: Seq<String>, specs: Seq<String>) -> Seq<String>
    decreases specs.len()
{
    if specs.len() == 0 {
        Seq::empty()
    } else {
        let rest = not_covered_model(covered, specs.drop_last());
        if contains_str(covered, specs.last()@) {
            rest
        } else {
            rest.push(specs.last())
        }
    }
}

/// The spec-file paths that none of `covered_paths` matches, in the order the
/// spec files were given.
pub fn paths_not_covered(covered_paths: &Vec<String>, all_spec_paths: &Vec<String>) -> (r: Vec<
    String,
>)
    ensures
        r@ == not_covered_model(covered_paths@, all_spec_paths@),
{
    let n = all_spec_paths.len();
    let mut r: Vec<String> = Vec::new();
    let mut i: usize = 0;
    proof {
        assert(all_spec_paths@.take(0) =~= Seq::<String>::empty());
        assert(r@ =~= not_covered_model(covered_paths@, all_spec_paths@.take(0)));
    }
    while i < n
        invariant
            n == all_spec_paths@.len(),
            i <= n,
            r@ == not_covered_model(covered_paths@, all_spec_paths@.take(i as int)),
        decreases n - i,
    {
        proof {
            assert(all_spec_paths@.take(i + 1).drop_last() =~= all_spec_paths@.take(i as int));
            assert(all_spec_paths@.take(i + 1).last() == all_spec_paths@[i as int]);
        }
        if !contains_path(covered_paths, &all_spec_paths[i]) {
            r.push(all_spec_paths[i].clone());
        }
        i = i + 1;
    }
    proof {
        assert(all_spec_paths@.take(n as int) =~= all_spec_paths@);
    }
    r
}

/// The paths of a run of timing records.
pub open spec fn covered_of(timings: Seq<FileTiming>) -> Seq<String> {
    timings.map_values(|t: FileTiming| t.file_path)
}

/// The spec-file paths that no timing record covers, in the order the spec
/// files were given.
pub fn paths_not_covered_by_timings(timings: &Vec<FileTiming>, all_spec_paths: &Vec<String>) -> (r:
    Vec<String>)
    ensures
        r@ == not_covered_model(covered_of(timings@), all_spec_paths@),
{
    let n = timings.len();
    let mut covered: Vec<String> = Vec::new();
    let mut i: usize = 0;
    proof {
        assert(covered@ =~= covered_of(timings@.take(0)));
    }
    while i < n
        invariant
            n == timings@.len(),
            i <= n,
            covered@ == covered_of(timings@.take(i as int)),
        decreases n - i,
    {
        covered.push(timings[i].file_path.clone());
        proof {
            assert(covered@ =~= covered_of(timings@.take(i + 1)));
        }
        i = i + 1;
    }
    proof {
        assert(timings@.take(n as int) =~= timings@);
    }
    paths_not_covered(&covered, all_spec_paths)
}

/// The timing records whose paths are among the known spec files, in order.
pub open spec fn retain_model(timings: Seq<FileTiming>, specs: Seq<String>) -> Seq<FileTiming>
    decreases timings.len()
{
    if timings.len() == 0 {
        Seq::empty()
    } else {
        let rest = retain_model(timings.drop_last(), specs);
        if contains_str(specs, timings.last().file_path@) {
            rest.push(timings.last())
        } else {
            rest
        }
    }
}

/// Keeps only the timing records that name a known spec file, in their given
/// order.
pub fn retain_spec_timings(timings: &Vec<FileTiming>, spec_paths: &Vec<String>) -> (r: Vec<
    FileTiming,
>)
    ensures
        r@ == retain_model(timings@, spec_paths@),
{
    let n = timings.len();
    let mut r: Vec<FileTiming> = Vec::new();
    let mut i: usize = 0;
    proof {
        assert(r@ =~= retain_model(timings@.take(0), spec_paths@));
    }
    while i < n
        invariant
            n == timings@.len(),
            i <= n,
            r@ == retain_model(timings@.take(i as int), spec_paths@),
        decreases n - i,
    {
        proof {
            assert(timings@.take(i + 1).drop_last() =~= timings@.take(i as int));
            assert(timings@.take(i + 1).last() == timings@[i as int]);
        }
        if contains_path(spec_paths, &timings[i].file_path) {
            r.push(timings[i].clone());
        }
        i = i + 1;
    }
    proof {
        assert(timings@.take(n as int) =~= timings@);
    }
    r
}

} // verus!
