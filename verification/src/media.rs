//! Where the files of a step are kept: one image, and one other file of any
//! kind, both named after the id of the step.

use vstd::prelude::*;
use vstd::string::StringExecFns;
use crate::text::{characters, decimal, decimal_string};

verus! {

/// The directory of the images.
pub const IMAGES_PATH: &'static str = "data/items/images";

/// The directory of the other files.
pub const MEDIAS_PATH: &'static str = "data/items/medias";

/// The path of the image of the step `id`.
pub open spec fn image_path(id: i32) -> Seq<char> {
    IMAGES_PATH@ + "/"@ + decimal(id as int) + ".jpg"@
}

/// The path under which a file with the extension `ext` is kept for the step
/// `id`. A file without extension is kept under the id alone.
pub open spec fn media_path(id: i32, ext: Seq<char>) -> Seq<char> {
    if ext.len() == 0 {
        MEDIAS_PATH@ + "/"@ + decimal(id as int)
    } else {
        MEDIAS_PATH@ + "/"@ + decimal(id as int) + "."@ + ext
    }
}

/// The path of the image of the step `id`.
pub fn image_filename(id: i32) -> (path: String)
    ensures
        path@ == image_path(id),
{
    let mut path = IMAGES_PATH.to_owned();
    path.append("/");
    path.append(decimal_string(id).as_str());
    path.append(".jpg");
    path
}

/// The path under which a file with the extension `ext` is kept for the step
/// `id`.
pub fn media_filename_in(id: i32, ext: &String) -> (path: String)
    ensures
        path@ == media_path(id, ext@),
{
    let mut path = MEDIAS_PATH.to_owned();
    path.append("/");
    path.append(decimal_string(id).as_str());
    if !ext.as_str().is_empty() {
        path.append(".");
        path.append(ext.as_str());
    }
    path
}

/// The number of characters of a file name that stand before its first dot.
pub open spec fn stem_len(name: Seq<char>) -> nat
    decreases name.len(),
{
    if name.len() == 0 || name[0] == '.' {
        0
    } else {
        1 + stem_len(name.drop_first())
    }
}

/// A file name up to its first dot, or all of it where it has none.
pub open spec fn stem(name: Seq<char>) -> Seq<char> {
    name.take(stem_len(name) as int)
}

/// Whether a file of this name belongs to the step `id`: its stem is the id
/// in decimal notation.
pub open spec fn belongs_to(name: Seq<char>, id: i32) -> bool {
    stem(name) == decimal(id as int)
}

/// The position of the first file that belongs to the step `id`, among the
/// names of a directory. A name that is no text stands as `None`, and ends
/// the search where it is reached before such a file.
pub open spec fn first_media(names: Seq<Option<Seq<char>>>, id: i32, from: int) -> Option<int>
    decreases names.len() - from,
{
    if from < 0 || from >= names.len() {
        None
    } else {
        match names[from] {
            None => None,
            Some(name) => if belongs_to(name, id) {
                Some(from)
            } else {
                first_media(names, id, from + 1)
            },
        }
    }
}

/// The names of a directory, as sequences of characters.
pub open spec fn names_of(entries: Seq<Option<String>>) -> Seq<Option<Seq<char>>> {
    entries.map_values(
        |e: Option<String>|
            match e {
                Some(name) => Some(name@),
                None => None,
            },
    )
}

proof fn lemma_stem_len(name: Seq<char>, n: int)
    requires
        0 <= n <= name.len(),
        forall|k: int| 0 <= k < n ==> name[k] != '.',
        n < name.len() ==> name[n] == '.',
    ensures
        stem_len(name) == n,
    decreases n,
{
    if n > 0 {
        let rest = name.drop_first();
        assert forall|k: int| 0 <= k < n - 1 implies rest[k] != '.' by {}
        lemma_stem_len(rest, n - 1);
    }
}

/// Whether a file of this name belongs to the step whose id reads `wanted`
/// in decimal notation.
fn has_stem(name: &str, wanted: &Vec<char>) -> (yes: bool)
    ensures
        yes == (stem(name@) == wanted@),
{
    let chars = characters(name);
    let mut n: usize = 0;
    while n < chars.len() && chars[n] != '.'
        invariant
            n <= chars.len(),
            forall|k: int| 0 <= k < n ==> chars@[k] != '.',
        decreases chars.len() - n,
    {
        n += 1;
    }
    proof {
        lemma_stem_len(chars@, n as int);
    }
    if n != wanted.len() {
        return false;
    }
    let mut i: usize = 0;
    while i < n
        invariant
            i <= n <= chars.len(),
            n == wanted.len(),
            stem(name@) == chars@.take(n as int),
            forall|k: int| 0 <= k < i ==> chars@[k] == wanted@[k],
        decreases n - i,
    {
        if chars[i] != wanted[i] {
            return false;
        }
        i += 1;
    }
    assert(chars@.take(n as int) =~= wanted@);
    true
}

/// Finds the file of the step `id` among the names of the directory of the
/// other files, in the order in which the directory gave them. A name that
/// is no text is given as `None`, and ends the search.
pub fn media_filename_out(id: i32, entries: &Vec<Option<String>>) -> (found: Option<usize>)
    ensures
        match first_media(names_of(entries@), id, 0) {
            Some(i) => found == Some(i as usize) && i < entries.len(),
            None => found is None,
        },
{
    let wanted = characters(decimal_string(id).as_str());
    let ghost names = names_of(entries@);
    let mut i: usize = 0;
    while i < entries.len()
        invariant
            i <= entries.len(),
            names == names_of(entries@),
            wanted@ == decimal(id as int),
            first_media(names, id, 0) == first_media(names, id, i as int),
        decreases entries.len() - i,
    {
        match &entries[i] {
            None => {
                return None;
            },
            Some(name) => {
                if has_stem(name.as_str(), &wanted) {
                    return Some(i);
                }
            },
        }
        i += 1;
    }
    None
}

} // verus!
