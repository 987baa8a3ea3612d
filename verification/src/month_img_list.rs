use vstd::prelude::*;

use crate::tree_walk::opt_path_view;
use vstd::string::StrSliceExecFns;

verus! {

/// What `std::path::Path::extension` gives for the path `path`: the part of
/// the file name after its last dot, if any.
pub uninterp spec fn spec_path_extension(path: Seq<char>) -> Option<Seq<char>>;

/// Calls `std::path::Path::extension` on `path`. Trusted to return the same
/// extension for the same path, named `spec_path_extension`; what that
/// extension is (how file names, dots and separators are read) is left to
/// the standard library and not stated here.
#[verifier::external_body]
fn path_extension(path: &str) -> (res: Option<String>)
    ensures
        opt_path_view(res) == spec_path_extension(path@),
{
    match std::path::Path::new(path).extension() {
        Some(e) => match e.to_str() {
            Some(s) => Some(s.to_string()),
            None => None,
        },
        None => None,
    }
}

/// A file of the chosen directory with the year and month of its last
/// modification (local time), if that could be read.
#[derive(Debug)]
pub struct DatedFile {
    pub path: String,
    pub modified: Option<(i32, u32)>,
}

/// `c` in lower case, for ASCII letters.
pub open spec fn ascii_lower(c: char) -> char {
    if 'A' <= c && c <= 'Z' {
        ((c as u32) + 32) as char
    } else {
        c
    }
}

/// `s` with its ASCII letters in lower case.
pub open spec fn ascii_lower_seq(s: Seq<char>) -> Seq<char> {
    s.map_values(|c: char| ascii_lower(c))
}

/// The image extensions that are accepted, in lower case.
pub open spec fn image_extensions() -> Seq<Seq<char>> {
    seq![
        seq!['p', 'n', 'g'],
        seq!['j', 'p', 'g'],
        seq!['j', 'p', 'e', 'g'],
        seq!['b', 'm', 'p'],
        seq!['g', 'i', 'f'],
        seq!['w', 'e', 'b', 'p'],
        seq!['a', 'v', 'i', 'f'],
    ]
}

/// The path has an image extension, in any letter case.
pub open spec fn is_image_path(path: Seq<char>) -> bool {
    match spec_path_extension(path) {
        Some(e) => image_extensions().contains(ascii_lower_seq(e)),
        None => false,
    }
}

/// The paths of `s` that have an image extension, in their order.
pub open spec fn image_paths(s: Seq<Seq<char>>) -> Seq<Seq<char>> {
    s.filter(|p: Seq<char>| is_image_path(p))
}

/// Keeping the image paths of `s` with one more path.
proof fn lemma_image_paths_push(s: Seq<Seq<char>>, x: Seq<char>)
    ensures
        image_paths(s.push(x)) == if is_image_path(x) {
            image_paths(s).push(x)
        } else {
            image_paths(s)
        },
{
    reveal(Seq::filter);
    assert(s.push(x).drop_last() =~= s);
}

/// Keeping the image paths distributes over concatenation, and keeping
/// them twice keeps the same paths as keeping them once.
pub proof fn lemma_image_paths_laws(a: Seq<Seq<char>>, b: Seq<Seq<char>>)
    ensures
        image_paths(a + b) == image_paths(a) + image_paths(b),
        image_paths(image_paths(a)) == image_paths(a),
    decreases a.len(),
{
    Seq::filter_distributes_over_add(a, b, |p: Seq<char>| is_image_path(p));
    if a.len() > 0 {
        let dl = a.drop_last();
        lemma_image_paths_laws(dl, b);
        assert(dl.push(a.last()) =~= a);
        lemma_image_paths_push(dl, a.last());
        if is_image_path(a.last()) {
            lemma_image_paths_push(image_paths(dl), a.last());
        }
    } else {
        reveal(Seq::filter);
    }
}

/// The spec view of a sequence of paths.
pub open spec fn paths_view(s: Seq<String>) -> Seq<Seq<char>> {
    s.map_values(|p: String| p@)
}

/// `c` in lower case, for ASCII letters.
fn lower_char(c: char) -> (res: char)
    ensures
        res == ascii_lower(c),
{
    if 'A' <= c && c <= 'Z' {
        let b: u8 = (c as u8) + 32;
        b as char
    } else {
        c
    }
}

/// `e` with its ASCII letters in lower case, as characters.
fn lower_chars(e: &str) -> (res: Vec<char>)
    ensures
        res@ == ascii_lower_seq(e@),
{
    let n = e.unicode_len();
    let mut res: Vec<char> = Vec::new();
    let mut i: usize = 0;
    while i < n
        invariant
            n == e@.len(),
            i <= n,
            res@ == ascii_lower_seq(e@.take(i as int)),
        decreases n - i,
    {
        let c = lower_char(e.get_char(i));
        res.push(c);
        i = i + 1;
        assert(res@ =~= ascii_lower_seq(e@.take(i as int)));
    }
    assert(e@.take(n as int) =~= e@);
    res
}

/// Whether the lower-case extension `v` is one of the image extensions.
fn is_lower_image_extension(v: &Vec<char>) -> (res: bool)
    ensures
        res == image_extensions().contains(v@),
{
    let n = v.len();
    let res = (n == 3 && v[0] == 'p' && v[1] == 'n' && v[2] == 'g')
        || (n == 3 && v[0] == 'j' && v[1] == 'p' && v[2] == 'g')
        || (n == 4 && v[0] == 'j' && v[1] == 'p' && v[2] == 'e' && v[3] == 'g')
        || (n == 3 && v[0] == 'b' && v[1] == 'm' && v[2] == 'p')
        || (n == 3 && v[0] == 'g' && v[1] == 'i' && v[2] == 'f')
        || (n == 4 && v[0] == 'w' && v[1] == 'e' && v[2] == 'b' && v[3] == 'p')
        || (n == 4 && v[0] == 'a' && v[1] == 'v' && v[2] == 'i' && v[3] == 'f');
    proof {
        let exts = image_extensions();
        if res {
            assert(exts[0] == seq!['p', 'n', 'g']);
            if n == 3 && v[0] == 'p' && v[1] == 'n' && v[2] == 'g' {
                assert(v@ =~= exts[0]);
            } else if n == 3 && v[0] == 'j' && v[1] == 'p' && v[2] == 'g' {
                assert(v@ =~= exts[1]);
            } else if n == 4 && v[0] == 'j' && v[1] == 'p' && v[2] == 'e' && v[3] == 'g' {
                assert(v@ =~= exts[2]);
            } else if n == 3 && v[0] == 'b' && v[1] == 'm' && v[2] == 'p' {
                assert(v@ =~= exts[3]);
            } else if n == 3 && v[0] == 'g' && v[1] == 'i' && v[2] == 'f' {
                assert(v@ =~= exts[4]);
            } else if n == 4 && v[0] == 'w' && v[1] == 'e' && v[2] == 'b' && v[3] == 'p' {
                assert(v@ =~= exts[5]);
            } else {
                assert(v@ =~= exts[6]);
            }
        } else {
            assert forall|k: int| 0 <= k < exts.len() implies exts[k] != v@ by {
                if exts[k] == v@ {
                    assert(v@[0] == exts[k][0]);
                    assert(v@[1] == exts[k][1]);
                    assert(v@[2] == exts[k][2]);
                    if exts[k].len() == 4 {
                        assert(v@[3] == exts[k][3]);
                    }
                }
            }
        }
    }
    res
}


/// Whether the extension `e` (as `Path::extension` gives it) is one of the
/// image extensions, ignoring the case of ASCII letters.
pub fn is_image_extension(e: &str) -> (res: bool)
    ensures
        res == image_extensions().contains(ascii_lower_seq(e@)),
{
    let lowered = lower_chars(e);
    is_lower_image_extension(&lowered)
}

/// Filtering a sequence with one more element.
proof fn lemma_filter_push<A>(s: Seq<A>, x: A, p: spec_fn(A) -> bool)
    ensures
        s.push(x).filter(p) == if p(x) {
            s.filter(p).push(x)
        } else {
            s.filter(p)
        },
{
    reveal(Seq::filter);
    assert(s.push(x).drop_last() =~= s);
}

/// Whether `path` has an image extension (in any letter case).
fn has_image_extension(path: &String) -> (res: bool)
    ensures
        res == is_image_path(path@),
{
    match path_extension(path.as_str()) {
        Some(e) => {
            is_image_extension(e.as_str())
        },
        None => false,
    }
}

/// The paths of `paths` that have an image extension, in their order.
pub fn filter_by_extension(paths: Vec<String>) -> (res: Vec<String>)
    ensures
        paths_view(res@) == image_paths(paths_view(paths@)),
{
    let ghost ps = paths_view(paths@);
    let mut v = paths;
    let mut res: Vec<String> = Vec::new();
    let ghost mut i: int = 0;
    proof {
        reveal(Seq::filter);
        assert(ps.take(0) =~= Seq::<Seq<char>>::empty());
        assert(paths_view(res@) =~= Seq::<Seq<char>>::empty());
    }
    while v.len() > 0
        invariant
            0 <= i <= ps.len(),
            paths_view(v@) == ps.skip(i),
            paths_view(res@) == image_paths(ps.take(i)),
        decreases v.len(),
    {
        let ghost v0 = v@;
        proof {
            assert(paths_view(v0).len() == v0.len());
            assert(paths_view(v0)[0] == ps.skip(i)[0]);
        }
        let p = v.remove(0);
        proof {
            assert(p@ == ps[i]);
            assert forall|t: int| 0 <= t < v@.len() implies #[trigger] paths_view(v@)[t] == ps.skip(i + 1)[t] by {
                assert(v@[t] == v0[t + 1]);
                assert(paths_view(v0)[t + 1] == ps.skip(i)[t + 1]);
            }
            assert(paths_view(v@) =~= ps.skip(i + 1));
            assert(ps.take(i + 1) =~= ps.take(i).push(ps[i]));
            lemma_image_paths_push(ps.take(i), ps[i]);
        }
        let ghost r0 = res@;
        if has_image_extension(&p) {
            res.push(p);
            proof {
                assert(paths_view(res@) =~= paths_view(r0).push(ps[i]));
            }
        }
        proof {
            i = i + 1;
        }
    }
    proof {
        assert(ps.take(i) =~= ps);
    }
    res
}

/// The file was last modified in month `m` of year `y`.
pub open spec fn in_month(f: DatedFile, y: i32, m: u32) -> bool {
    f.modified == Some((y, m))
}

/// The files of `s` last modified in month `m` of year `y`, in their order.
pub open spec fn month_files(s: Seq<DatedFile>, y: i32, m: u32) -> Seq<DatedFile> {
    s.filter(|f: DatedFile| in_month(f, y, m))
}

/// Keeping the files of a month in a sequence with one more file.
pub proof fn lemma_month_files_push(s: Seq<DatedFile>, x: DatedFile, y: i32, m: u32)
    ensures
        month_files(s.push(x), y, m) == if in_month(x, y, m) {
            month_files(s, y, m).push(x)
        } else {
            month_files(s, y, m)
        },
{
    reveal(Seq::filter);
    assert(s.push(x).drop_last() =~= s);
}

/// The spec view of a sequence of files: their paths.
pub open spec fn files_paths(s: Seq<DatedFile>) -> Seq<Seq<char>> {
    s.map_values(|f: DatedFile| f.path@)
}

/// The paths of the files last modified in month `m` of year `y`, in their
/// order; a file whose date could not be read is left out.
pub fn filter_by_year_month(files: Vec<DatedFile>, y: i32, m: u32) -> (res: Vec<String>)
    ensures
        paths_view(res@) == files_paths(month_files(files@, y, m)),
{
    let ghost fs = files@;
    let mut v = files;
    let mut res: Vec<String> = Vec::new();
    let ghost mut i: int = 0;
    proof {
        reveal(Seq::filter);
        assert(fs.take(0) =~= Seq::<DatedFile>::empty());
        assert(fs.skip(0) =~= fs);
        assert(paths_view(res@) =~= Seq::<Seq<char>>::empty());
        assert(files_paths(Seq::<DatedFile>::empty()) =~= Seq::<Seq<char>>::empty());
    }
    while v.len() > 0
        invariant
            0 <= i <= fs.len(),
            v@ == fs.skip(i),
            paths_view(res@) == files_paths(month_files(fs.take(i), y, m)),
        decreases v.len(),
    {
        let f = v.remove(0);
        proof {
            assert(f == fs[i]);
            assert(v@ =~= fs.skip(i + 1));
            assert(fs.take(i + 1) =~= fs.take(i).push(fs[i]));
            lemma_month_files_push(fs.take(i), fs[i], y, m);
        }
        let ghost r0 = res@;
        let ghost kept = month_files(fs.take(i), y, m);
        let keep = match f.modified {
            Some((fy, fm)) => fy == y && fm == m,
            None => false,
        };
        if keep {
            res.push(f.path);
            proof {
                assert(paths_view(res@) =~= paths_view(r0).push(fs[i].path@));
                assert(files_paths(kept.push(fs[i])) =~= files_paths(kept).push(fs[i].path@));
            }
        }
        proof {
            i = i + 1;
        }
    }
    proof {
        assert(fs.take(i) =~= fs);
    }
    res
}

/// The image files of the chosen directory: those last modified in month
/// `m` of year `y` if `ymfilt` is set (all of them otherwise), keeping only
/// the paths with an image extension, in their order.
pub fn get_month_img_files(files: Vec<DatedFile>, y: i32, m: u32, ymfilt: bool) -> (res: Vec<String>)
    ensures
        paths_view(res@) == image_paths(
            if ymfilt {
                files_paths(month_files(files@, y, m))
            } else {
                files_paths(files@)
            },
        ),
{
    let filtered_by_date = if ymfilt {
        filter_by_year_month(files, y, m)
    } else {
        all_paths(files)
    };
    filter_by_extension(filtered_by_date)
}

/// The paths of `files`, in their order.
fn all_paths(files: Vec<DatedFile>) -> (res: Vec<String>)
    ensures
        paths_view(res@) == files_paths(files@),
{
    let ghost fs = files@;
    let mut v = files;
    let mut res: Vec<String> = Vec::new();
    let ghost mut i: int = 0;
    proof {
        assert(fs.skip(0) =~= fs);
        assert(paths_view(res@) =~= files_paths(fs.take(0)));
    }
    while v.len() > 0
        invariant
            0 <= i <= fs.len(),
            v@ == fs.skip(i),
            paths_view(res@) == files_paths(fs.take(i)),
        decreases v.len(),
    {
        let f = v.remove(0);
        proof {
            assert(f == fs[i]);
            assert(v@ =~= fs.skip(i + 1));
        }
        let ghost r0 = res@;
        res.push(f.path);
        proof {
            assert(fs.take(i + 1) =~= fs.take(i).push(fs[i]));
            assert(files_paths(fs.take(i).push(fs[i])) =~= files_paths(fs.take(i)).push(fs[i].path@));
            assert(paths_view(res@) =~= paths_view(r0).push(fs[i].path@));
            assert(paths_view(res@) =~= files_paths(fs.take(i + 1)));
            i = i + 1;
        }
    }
    proof {
        assert(fs.take(i) =~= fs);
    }
    res
}

} // verus!
