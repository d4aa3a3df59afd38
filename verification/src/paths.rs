//! The default output path: the input's stem with `.rewritten.md`, next to the input.

use vstd::prelude::*;

use std::path::Path;

verus! {

/// The stem that `std::path::Path::file_stem` gives for the path `path`: its file name
/// without the final extension, if it has a file name.
pub uninterp spec fn path_file_stem(path: Seq<char>) -> Option<Seq<char>>;

/// The path that `std::path::Path::with_file_name` gives: `path` with its file name
/// replaced by `name` (or `name` pushed onto it when it has none).
pub uninterp spec fn path_with_file_name(path: Seq<char>, name: Seq<char>) -> Seq<char>;

/// The components that `std::path::Path::components` gives for the path `path`, each as
/// its text: the root as `/`, a leading `.`, `..`, and the names, with repeated separators
/// and inner `.` components left out.
pub uninterp spec fn path_components(path: Seq<char>) -> Seq<Seq<char>>;

/// A name that stands for one file in one directory on every platform: not empty, not `.`
/// or `..`, and without a separator or a drive colon.
pub open spec fn is_plain_name(name: Seq<char>) -> bool {
    &&& name.len() > 0
    &&& name != seq!['.']
    &&& name != seq!['.', '.']
    &&& forall|i: int|
        0 <= i < name.len() ==> #[trigger] name[i] != '/' && name[i] != '\\' && name[i] != ':'
}

/// Whether `s` holds no separator and no drive colon.
pub open spec fn has_no_separator(s: Seq<char>) -> bool {
    forall|i: int| 0 <= i < s.len() ==> #[trigger] s[i] != '/' && s[i] != '\\' && s[i] != ':'
}

/// Calls `Path::components` on `path` and takes each component's text. Trusted: the result
/// is the named list of components (parts of a UTF-8 path are UTF-8, so the lossy conversion
/// changes nothing).
#[verifier::external_body]
fn components(path: &str) -> (r: Vec<String>)
    ensures
        crate::text::views(r@) == path_components(path@),
{
    Path::new(path).components().map(|c| c.as_os_str().to_string_lossy().into_owned()).collect()
}

/// Calls `Path::file_stem` on `path`. Trusted: the result is the named stem of `path`
/// (a stem of a UTF-8 path is UTF-8, so the lossy conversion changes nothing). As std
/// documents, a stem comes from the file name, which is the last component (a name, never
/// `.`): the whole name, or the part before its final `.`.
#[verifier::external_body]
fn file_stem(path: &str) -> (r: Option<String>)
    ensures
        r matches Some(s) ==> path_file_stem(path@) == Some(s@),
        r is None ==> path_file_stem(path@) is None,
        r matches Some(s) ==> ({
            let c = path_components(path@);
            &&& c.len() > 0
            &&& c.last() != seq!['.']
            &&& (c.last() == s@ || exists|ext: Seq<char>|
                crate::text::lacks(ext, '.') && c.last() == s@ + seq!['.'] + ext)
        }),
{
    Path::new(path).file_stem().map(|s| s.to_string_lossy().into_owned())
}

/// Calls `Path::with_file_name` on `path` and `name`. Trusted: the result is the named path
/// (built from UTF-8 parts, so the lossy conversion changes nothing). When `path` has a file
/// name (it has a stem exactly then) and `name` is a plain name, the call pops that file
/// name and pushes `name`, as std documents: the result's components are `path`'s with the
/// last one replaced by `name`.
#[verifier::external_body]
fn with_file_name(path: &str, name: &str) -> (r: String)
    ensures
        r@ == path_with_file_name(path@, name@),
        path_file_stem(path@) is Some && is_plain_name(name@) ==> path_components(r@)
            == path_components(path@).drop_last().push(name@),
{
    Path::new(path).with_file_name(name).to_string_lossy().into_owned()
}

/// The output file's name for an input of stem `stem`: the stem (or `output` when there is
/// none) followed by `.rewritten.md`.
pub open spec fn output_name(stem: Option<Seq<char>>) -> Seq<char> {
    let base = match stem {
        Some(s) => s,
        None => seq!['o', 'u', 't', 'p', 'u', 't'],
    };
    base + seq!['.', 'r', 'e', 'w', 'r', 'i', 't', 't', 'e', 'n', '.', 'm', 'd']
}

/// The output file's name for an input whose stem is `stem`.
pub fn output_file_name(stem: Option<String>) -> (r: String)
    ensures
        r@ == output_name(
            match stem {
                Some(s) => Some(s@),
                None => None,
            },
        ),
{
    let mut name = match stem {
        Some(s) => s,
        None => {
            proof {
                reveal_strlit("output");
            }
            "output".to_owned()
        },
    };
    proof {
        reveal_strlit(".rewritten.md");
    }
    name.append(".rewritten.md");
    name
}

/// The output file's name made from a stem without separators is a plain name: the output
/// lands in the input's directory.
pub proof fn law_output_name_is_plain(stem: Seq<char>)
    requires
        has_no_separator(stem),
    ensures
        is_plain_name(output_name(Some(stem))),
{
    let n = output_name(Some(stem));
    let ext = seq!['.', 'r', 'e', 'w', 'r', 'i', 't', 't', 'e', 'n', '.', 'm', 'd'];
    assert(n == stem + ext);
    assert(n.len() >= 13);
    assert(n != seq!['.']);
    assert(n != seq!['.', '.']);
    assert forall|i: int| 0 <= i < n.len() implies #[trigger] n[i] != '/' && n[i] != '\\'
        && n[i] != ':' by {
        if i < stem.len() {
            assert(n[i] == stem[i]);
        } else {
            assert(n[i] == ext[i - stem.len()]);
        }
    }
}

/// Default output: `<input stem>.rewritten.md` next to the input.
pub fn default_output(input: &str) -> (r: String)
    ensures
        r@ == path_with_file_name(input@, output_name(path_file_stem(input@))),
        path_file_stem(input@) matches Some(s) ==> (has_no_separator(s) ==> path_components(r@)
            == path_components(input@).drop_last().push(output_name(Some(s))) && !same_path_spec(
            input@,
            r@,
        )),
{
    proof {
        if let Some(s) = path_file_stem(input@) {
            if has_no_separator(s) {
                law_output_name_is_plain(s);
            }
        }
    }
    let stem = file_stem(input);
    let name = output_file_name(stem);
    let r = with_file_name(input, name.as_str());
    proof {
        if let Some(s) = path_file_stem(input@) {
            if has_no_separator(s) {
                lemma_renamed_not_same(input@, r@, s);
            }
        }
    }
    r
}

/// A file name is never the output name made from its own stem.
proof fn lemma_output_name_differs(s: Seq<char>, last: Seq<char>)
    requires
        last == s || exists|ext: Seq<char>|
            crate::text::lacks(ext, '.') && last == s + seq!['.'] + ext,
    ensures
        last != output_name(Some(s)),
{
    let n = output_name(Some(s));
    let tail = seq!['.', 'r', 'e', 'w', 'r', 'i', 't', 't', 'e', 'n', '.', 'm', 'd'];
    assert(n == s + tail);
    if last == s {
        assert(n.len() == s.len() + 13);
    } else {
        let ext = choose|ext: Seq<char>|
            crate::text::lacks(ext, '.') && last == s + seq!['.'] + ext;
        if last == n {
            assert(last.len() == s.len() + 1 + ext.len());
            assert(ext.len() == 12);
            assert(ext[9] == last[s.len() + 10int]);
            assert(n[s.len() + 10int] == tail[10]);
            assert(ext[9] == '.');
        }
    }
}

proof fn lemma_renamed_not_same(input: Seq<char>, r: Seq<char>, s: Seq<char>)
    requires
        path_components(r) == path_components(input).drop_last().push(output_name(Some(s))),
        path_components(input).len() > 0,
        path_components(input).last() != seq!['.'],
        path_components(input).last() == s || exists|ext: Seq<char>|
            crate::text::lacks(ext, '.') && path_components(input).last() == s + seq!['.'] + ext,
        is_plain_name(output_name(Some(s))),
    ensures
        !same_path_spec(input, r),
{
    let ci = path_components(input);
    let co = path_components(r);
    let n = output_name(Some(s));
    lemma_output_name_differs(s, ci.last());
    let dot = seq!['.'];
    if ci.len() == 1 {
        assert(co =~= seq![n]);
        assert(strip_cur_dir(ci) == ci);
        assert(co[0] == n);
        assert(strip_cur_dir(co) == co);
    } else {
        assert(co[0] == ci[0]);
        assert(co.len() == ci.len());
        if ci[0] == dot {
            assert(strip_cur_dir(ci).last() == ci.last());
            assert(strip_cur_dir(co).last() == n);
        } else {
            assert(strip_cur_dir(ci).last() == ci.last());
            assert(strip_cur_dir(co).last() == n);
        }
    }
}

} // verus!

verus! {

/// Components without a leading `.`, which names the current directory and changes nothing.
pub open spec fn strip_cur_dir(c: Seq<Seq<char>>) -> Seq<Seq<char>> {
    if c.len() > 0 && c[0] == seq!['.'] {
        c.drop_first()
    } else {
        c
    }
}

/// Whether two paths name the same file by their text alone: the same components, a leading
/// `.` aside.
pub open spec fn same_path_spec(a: Seq<char>, b: Seq<char>) -> bool {
    strip_cur_dir(path_components(a)) == strip_cur_dir(path_components(b))
}

/// Whether two paths name the same file by their text alone: the same components, a leading
/// `.` aside, so `a.md`, `./a.md` and `.//a.md` name one file.
pub fn same_path(a: &str, b: &str) -> (r: bool)
    ensures
        r == same_path_spec(a@, b@),
{
    let ca = components(a);
    let cb = components(b);
    let sa: usize = if ca.len() > 0 && is_cur_dir(&ca[0]) {
        1
    } else {
        0
    };
    let sb: usize = if cb.len() > 0 && is_cur_dir(&cb[0]) {
        1
    } else {
        0
    };
    let ghost va = crate::text::views(ca@);
    let ghost vb = crate::text::views(cb@);
    let ghost xa = strip_cur_dir(path_components(a@));
    let ghost xb = strip_cur_dir(path_components(b@));
    assert(xa =~= va.skip(sa as int));
    assert(xb =~= vb.skip(sb as int));
    if ca.len() - sa != cb.len() - sb {
        return false;
    }
    let mut i: usize = 0;
    while i < ca.len() - sa
        invariant
            va == crate::text::views(ca@),
            vb == crate::text::views(cb@),
            xa == va.skip(sa as int),
            xb == vb.skip(sb as int),
            xa == strip_cur_dir(path_components(a@)),
            xb == strip_cur_dir(path_components(b@)),
            sa <= ca.len(),
            sb <= cb.len(),
            ca.len() - sa == cb.len() - sb,
            i <= ca.len() - sa,
            forall|k: int| 0 <= k < i ==> xa[k] == xb[k],
        decreases ca.len() - sa - i,
    {
        let same = ca[sa + i] == cb[sb + i];
        if !same {
            assert(ca[sa + i]@ != cb[sb + i]@);
            assert(xa[i as int] == ca[sa + i]@);
            assert(xb[i as int] == cb[sb + i]@);
            assert(xa[i as int] != xb[i as int]);
            return false;
        }
        i = i + 1;
    }
    assert(xa =~= xb);
    true
}

/// Whether a component is `.`.
fn is_cur_dir(c: &String) -> (r: bool)
    ensures
        r == (c@ == seq!['.']),
{
    proof {
        reveal_strlit(".");
    }
    let dot = ".".to_owned();
    assert(dot@ =~= seq!['.']);
    *c == dot
}

/// The file the rewrite goes to: `output` when one is given, else the default output next to
/// the input.
pub open spec fn chosen_output(input: Seq<char>, output: Option<Seq<char>>) -> Seq<char> {
    match output {
        Some(o) => o,
        None => path_with_file_name(input, output_name(path_file_stem(input))),
    }
}

/// The file the rewrite is written to: `output` when given, else the default output next to
/// the input; nothing when that path names the input by its components, since the input file
/// is never modified. The default output of an input with a stem is never refused.
pub fn output_path(input: &str, output: Option<String>) -> (r: Option<String>)
    ensures
        ({
            let chosen = chosen_output(
                input@,
                match output {
                    Some(o) => Some(o@),
                    None => None,
                },
            );
            &&& r is Some <==> !same_path_spec(input@, chosen)
            &&& r matches Some(p) ==> p@ == chosen
        }),
        output is None ==> (path_file_stem(input@) matches Some(s) ==> (has_no_separator(s)
            ==> r is Some)),
{
    let chosen = match output {
        Some(o) => o,
        None => default_output(input),
    };
    if same_path(input, chosen.as_str()) {
        None
    } else {
        Some(chosen)
    }
}

} // verus!

verus! {

/// Two paths count as the same file exactly when their components agree one by one, a
/// leading `.` aside: paths that differ in how many components they have, or in any one of
/// them, are different files, and an explicit output is then used as given.
pub proof fn law_same_path_is_component_equality(a: Seq<char>, b: Seq<char>)
    ensures
        ({
            let x = strip_cur_dir(path_components(a));
            let y = strip_cur_dir(path_components(b));
            &&& same_path_spec(a, b) ==> x.len() == y.len() && forall|k: int|
                0 <= k < x.len() ==> #[trigger] x[k] == y[k]
            &&& (x.len() == y.len() && forall|k: int| 0 <= k < x.len() ==> #[trigger] x[k] == y[k])
                ==> same_path_spec(a, b)
            &&& (x.len() != y.len() || exists|k: int| 0 <= k < x.len() && #[trigger] x[k] != y[k])
                ==> !same_path_spec(a, b) && chosen_output(a, Some(b)) == b
        }),
{
    let x = strip_cur_dir(path_components(a));
    let y = strip_cur_dir(path_components(b));
    if x.len() == y.len() && forall|k: int| 0 <= k < x.len() ==> #[trigger] x[k] == y[k] {
        assert(x =~= y);
    }
}

/// Every path is the same file as itself, and sameness does not depend on the order.
pub proof fn law_same_path_reflexive_symmetric(a: Seq<char>, b: Seq<char>)
    ensures
        same_path_spec(a, a),
        same_path_spec(a, b) == same_path_spec(b, a),
{
}

} // verus!
