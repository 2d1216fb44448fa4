use crate::model::FilePath;
use crate::processing::{after_last_dot, last_dot_end};
use vstd::prelude::*;
use vstd::string::StrSliceExecFns;

verus! {

/// One entry of a directory: its file name and its full path.
pub struct DirEntry {
    pub file_name: String,
    pub path: String,
}

/// The entries of one directory, as read from disk.
pub struct DirListing {
    /// The directory as it was named.
    pub dir: String,
    pub entries: Vec<DirEntry>,
}

/// The file name starts with `TEST`.
pub open spec fn starts_with_test(s: Seq<char>) -> bool {
    s.len() >= 4 && s[0] == 'T' && s[1] == 'E' && s[2] == 'S' && s[3] == 'T'
}

/// `e` is `xml` in any mix of ASCII case.
pub open spec fn is_xml(e: Seq<char>) -> bool {
    &&& e.len() == 3
    &&& e[0] == 'x' || e[0] == 'X'
    &&& e[1] == 'm' || e[1] == 'M'
    &&& e[2] == 'l' || e[2] == 'L'
}

/// A JUnit report file: its name starts with `TEST` and its extension, the
/// part after the last `.`, is `xml` in any case.
pub open spec fn report_file_name(s: Seq<char>) -> bool {
    starts_with_test(s) && last_dot_end(s) > 0 && is_xml(s.subrange(last_dot_end(s), s.len() as int))
}

/// The paths of the report files among `entries`, in order.
pub open spec fn report_paths(entries: Seq<DirEntry>) -> Seq<Seq<char>>
    decreases entries.len(),
{
    if entries.len() == 0 {
        Seq::empty()
    } else {
        let rest = report_paths(entries.drop_last());
        if report_file_name(entries.last().file_name@) {
            rest.push(entries.last().path@)
        } else {
            rest
        }
    }
}

/// An earlier listing than the one at `i` names the same directory.
pub open spec fn seen_before(listings: Seq<DirListing>, i: int) -> bool {
    exists|j: int| 0 <= j < i && #[trigger] listings[j].dir@ == listings[i].dir@
}

/// The paths of the report files of each directory, the first time that it
/// is named, in order.
pub open spec fn report_paths_in_dirs(listings: Seq<DirListing>) -> Seq<Seq<char>>
    decreases listings.len(),
{
    if listings.len() == 0 {
        Seq::empty()
    } else {
        let rest = report_paths_in_dirs(listings.drop_last());
        if seen_before(listings, listings.len() - 1) {
            rest
        } else {
            rest + report_paths(listings.last().entries@)
        }
    }
}

/// The paths held by a sequence of file paths.
pub open spec fn paths_view(files: Seq<FilePath>) -> Seq<Seq<char>> {
    files.map_values(|f: FilePath| f.path@)
}

/// Whether a file of this name is a JUnit report: the name starts with
/// `TEST` and its extension is `xml`, in any ASCII case.
pub fn is_report_file(file_name: &str) -> (r: bool)
    ensures
        r == report_file_name(file_name@),
{
    let len = file_name.unicode_len();
    if len < 4 {
        return false;
    }
    let starts = file_name.get_char(0) == 'T' && file_name.get_char(1) == 'E'
        && file_name.get_char(2) == 'S' && file_name.get_char(3) == 'T';
    let start = after_last_dot(file_name);
    if !starts || start == 0 || len - start != 3 {
        return false;
    }
    let a = file_name.get_char(start);
    let b = file_name.get_char(start + 1);
    let c = file_name.get_char(start + 2);
    let ghost e = file_name@.subrange(start as int, len as int);
    assert(e[0] == a && e[1] == b && e[2] == c);
    (a == 'x' || a == 'X') && (b == 'm' || b == 'M') && (c == 'l' || c == 'L')
}

/// The report files of one directory, in the order of its entries.
pub fn list_xml_files_in_dir(listing: &DirListing) -> (r: Vec<FilePath>)
    ensures
        paths_view(r@) == report_paths(listing.entries@),
{
    let ghost es = listing.entries@;
    let mut r: Vec<FilePath> = Vec::new();
    let mut i: usize = 0;
    while i < listing.entries.len()
        invariant
            i <= es.len(),
            es == listing.entries@,
            paths_view(r@) == report_paths(es.take(i as int)),
        decreases es.len() - i,
    {
        let entry = &listing.entries[i];
        proof {
            assert(es.take(i + 1).drop_last() =~= es.take(i as int));
        }
        if is_report_file(entry.file_name.as_str()) {
            let ghost before = r@;
            r.push(FilePath { path: entry.path.clone() });
            proof {
                assert(paths_view(r@) =~= paths_view(before).push(entry.path@));
            }
        }
        i = i + 1;
    }
    assert(es.take(es.len() as int) =~= es);
    r
}

/// The report files of all the directories, each directory taken once, at
/// the place where it is first named.
pub fn list_xml_files_in_dirs(listings: Vec<DirListing>) -> (r: Vec<FilePath>)
    ensures
        paths_view(r@) == report_paths_in_dirs(listings@),
{
    let ghost ls = listings@;
    let mut r: Vec<FilePath> = Vec::new();
    let mut i: usize = 0;
    while i < listings.len()
        invariant
            i <= ls.len(),
            ls == listings@,
            paths_view(r@) == report_paths_in_dirs(ls.take(i as int)),
        decreases ls.len() - i,
    {
        let mut seen = false;
        let mut j: usize = 0;
        while j < i
            invariant
                j <= i < ls.len(),
                ls == listings@,
                seen <==> exists|m: int| 0 <= m < j && #[trigger] ls[m].dir@ == ls[i as int].dir@,
            decreases i - j,
        {
            if listings[j].dir == listings[i].dir {
                seen = true;
            }
            j = j + 1;
        }
        let ghost t = ls.take(i + 1);
        proof {
            assert(t.drop_last() =~= ls.take(i as int));
            assert(seen == seen_before(t, i as int)) by {
                if seen {
                    let m = choose|m: int| 0 <= m < i && #[trigger] ls[m].dir@ == ls[i as int].dir@;
                    assert(t[m] == ls[m]);
                }
                if seen_before(t, i as int) {
                    let m = choose|m: int| 0 <= m < i && #[trigger] t[m].dir@ == t[i as int].dir@;
                    assert(t[m] == ls[m]);
                }
            }
        }
        if !seen {
            let mut files = list_xml_files_in_dir(&listings[i]);
            let ghost before = r@;
            r.append(&mut files);
            proof {
                assert(paths_view(r@) =~= paths_view(before) + report_paths(ls[i as int].entries@));
            }
        }
        i = i + 1;
    }
    assert(ls.take(ls.len() as int) =~= ls);
    r
}

} // verus!
