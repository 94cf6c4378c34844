//! Which files are converted.

use crate::error::{Error, ErrorView};
use vstd::prelude::*;

verus! {

/// A regular file in a directory.
#[derive(Debug)]
pub struct DirFile {
    pub path: String,
    pub extension: Option<String>,
}

/// Whether a file holds points, by its extension.
pub open spec fn is_point_file(f: DirFile) -> bool {
    match f.extension {
        Some(e) => e@ == "laz"@ || e@ == "las"@ || e@ == "LAZ"@ || e@ == "LAS"@,
        None => false,
    }
}

/// Whether text `a` comes before text `b`, character by character.
pub open spec fn text_lt(a: Seq<char>, b: Seq<char>) -> bool
    decreases a.len(),
{
    if b.len() == 0 {
        false
    } else if a.len() == 0 {
        true
    } else if a[0] == b[0] {
        text_lt(a.drop_first(), b.drop_first())
    } else {
        a[0] < b[0]
    }
}

/// No text comes before a smaller one.
pub open spec fn texts_sorted(v: Seq<String>) -> bool {
    forall|i: int, j: int| 0 <= i < j < v.len() ==> !text_lt((#[trigger] v[j])@, (#[trigger] v[i])@)
}

/// Calls `sort` of std's slices on texts, which std orders by their bytes; UTF-8
/// orders bytes as it orders characters. Afterwards the vector holds the same
/// texts, and none comes before a smaller one.
#[verifier::external_body]
fn sort_texts(v: &mut Vec<String>)
    ensures
        final(v)@.to_multiset() == old(v)@.to_multiset(),
        texts_sorted(final(v)@),
{
    v.sort();
}

/// The paths of the files that hold points.
pub open spec fn point_files(files: Seq<DirFile>) -> Seq<String>
    decreases files.len(),
{
    if files.len() == 0 {
        Seq::empty()
    } else if is_point_file(files.last()) {
        point_files(files.drop_last()).push(files.last().path)
    } else {
        point_files(files.drop_last())
    }
}

fn holds_points(f: &DirFile) -> (b: bool)
    ensures
        b == is_point_file(*f),
{
    match &f.extension {
        Some(e) => *e == "laz".to_owned() || *e == "las".to_owned() || *e == "LAZ".to_owned() || *e
            == "LAS".to_owned(),
        None => false,
    }
}

/// The input files for what the user named: a path that is no directory is
/// taken as it is; in a directory all files that hold points are taken, sorted.
/// `listing` holds the regular files of the directory, and is missing where the
/// path is no directory.
pub fn collect_input_files(raw: String, listing: Option<Vec<DirFile>>) -> (r: Result<
    Vec<String>,
    Error,
>)
    ensures
        match (listing, r) {
            (None, Ok(v)) => v@ == seq![raw],
            (Some(files), Ok(v)) => {
                &&& v@.len() > 0
                &&& v@.to_multiset() == point_files(files@).to_multiset()
                &&& texts_sorted(v@)
            },
            (Some(files), Err(e)) => {
                &&& point_files(files@).len() == 0
                &&& e@ == (ErrorView::NoInputFiles { path: raw@ })
            },
            (None, Err(_)) => false,
        },
{
    match listing {
        None => {
            let mut v: Vec<String> = Vec::new();
            v.push(raw);
            assert(v@ =~= seq![raw]);
            Ok(v)
        },
        Some(files) => {
            let mut v: Vec<String> = Vec::new();
            let mut i: usize = 0;
            assert(files@.take(0) =~= Seq::<DirFile>::empty());
            while i < files.len()
                invariant
                    i <= files@.len(),
                    v@ == point_files(files@.take(i as int)),
                decreases files@.len() - i,
            {
                assert(files@.take(i + 1).drop_last() =~= files@.take(i as int));
                assert(files@.take(i + 1).last() == files@[i as int]);
                if holds_points(&files[i]) {
                    v.push(files[i].path.clone());
                }
                i = i + 1;
            }
            assert(files@.take(i as int) =~= files@);
            if v.len() == 0 {
                return Err(Error::NoInputFiles { path: raw });
            }
            let ghost before = v@;
            sort_texts(&mut v);
            proof {
                vstd::seq_lib::to_multiset_len(before);
                vstd::seq_lib::to_multiset_len(v@);
            }
            Ok(v)
        },
    }
}

} // verus!
