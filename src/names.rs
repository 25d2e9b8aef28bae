use vstd::prelude::*;
use crate::store::str_equal;

verus! {

/// What `std::path::Path::file_stem` gives for a path, as text.
pub uninterp spec fn file_stem_of(path: Seq<char>) -> Option<Seq<char>>;

/// What `std::path::Path::extension` gives for a path, as text.
pub uninterp spec fn extension_of(path: Seq<char>) -> Option<Seq<char>>;

/// What `urlencoding::encode` gives for a text.
pub uninterp spec fn url_encoded(s: Seq<char>) -> Seq<char>;

/// Relies on std::path::Path::file_stem: the file name without its extension.
#[verifier::external_body]
fn path_file_stem(path: &str) -> (r: Option<String>)
    ensures
        r matches Some(s) ==> file_stem_of(path@) == Some(s@),
        r is None ==> file_stem_of(path@) is None,
{
    std::path::Path::new(path).file_stem().and_then(|s| s.to_str()).map(|s| s.to_string())
}

/// Relies on std::path::Path::extension: the part of the file name after its last dot.
#[verifier::external_body]
fn path_extension(path: &str) -> (r: Option<String>)
    ensures
        r matches Some(s) ==> extension_of(path@) == Some(s@),
        r is None ==> extension_of(path@) is None,
{
    std::path::Path::new(path).extension().and_then(|s| s.to_str()).map(|s| s.to_string())
}

/// Relies on urlencoding::encode: percent-encoding of every byte but ASCII letters,
/// digits and `-`, `_`, `.`, `~`; the empty text stays empty.
#[verifier::external_body]
fn url_encode(s: &str) -> (r: String)
    ensures
        r@ == url_encoded(s@),
        s@.len() == 0 ==> r@.len() == 0,
{
    urlencoding::encode(s).into_owned()
}

/// The name of the note stored at `path`: its file stem, or empty text when it has none.
pub open spec fn stem_text(path: Seq<char>) -> Seq<char> {
    match file_stem_of(path) {
        Some(s) => s,
        None => Seq::empty(),
    }
}

/// A path holds a note when its extension is `md`.
pub open spec fn is_note(path: Seq<char>) -> bool {
    extension_of(path) == Some("md"@)
}

/// The names of the notes among `paths`, each once, in order of first appearance.
pub open spec fn catalog_of(paths: Seq<Seq<char>>) -> Seq<Seq<char>>
    decreases paths.len(),
{
    if paths.len() == 0 {
        Seq::empty()
    } else {
        let c = catalog_of(paths.drop_last());
        let p = paths.last();
        if is_note(p) && !c.contains(stem_text(p)) {
            c.push(stem_text(p))
        } else {
            c
        }
    }
}

pub open spec fn texts(v: Seq<String>) -> Seq<Seq<char>> {
    v.map_values(|s: String| s@)
}

/// The note-app link that opens note `name` in the `memo` vault.
pub open spec fn spec_item_link(name: Seq<char>) -> Seq<char> {
    "obsidian://open?vault="@ + "memo"@ + "&file="@ + url_encoded(name)
}

/// A terminal hyperlink (OSC 8) that shows `name` and points at its note-app link.
pub open spec fn spec_terminal_link(name: Seq<char>) -> Seq<char> {
    "\x1b]8;;"@ + spec_item_link(name) + "\x1b\\"@ + name + "\x1b]8;;\x1b\\"@
}

/// The name of the note at `path`: its file stem, or empty text when it has none.
pub fn get_file_stem_str(path: &str) -> (r: String)
    ensures
        r@ == stem_text(path@),
{
    match path_file_stem(path) {
        Some(s) => s,
        None => String::new(),
    }
}

/// Whether `path` names a note file.
pub fn is_note_path(path: &str) -> (r: bool)
    ensures
        r == is_note(path@),
{
    match path_extension(path) {
        Some(e) => str_equal(e.as_str(), "md"),
        None => false,
    }
}

fn has_text(v: &Vec<String>, s: &str) -> (r: bool)
    ensures
        r == texts(v@).contains(s@),
{
    let mut i: usize = 0;
    while i < v.len()
        invariant
            i <= v@.len(),
            forall|k: int| 0 <= k < i ==> v@[k]@ != s@,
        decreases v@.len() - i,
    {
        if str_equal(v[i].as_str(), s) {
            assert(texts(v@)[i as int] == s@);
            return true;
        }
        i = i + 1;
    }
    proof {
        if texts(v@).contains(s@) {
            let k = choose|k: int| 0 <= k < texts(v@).len() && texts(v@)[k] == s@;
            assert(v@[k]@ == s@);
        }
    }
    false
}

/// The catalog: the names of the note files among `paths`, each once, in the order
/// in which they first appear.
pub fn catalog_names(paths: &Vec<String>) -> (r: Vec<String>)
    ensures
        texts(r@) == catalog_of(texts(paths@)),
{
    let mut names: Vec<String> = Vec::new();
    let mut i: usize = 0;
    while i < paths.len()
        invariant
            i <= paths@.len(),
            texts(names@) == catalog_of(texts(paths@).take(i as int)),
        decreases paths@.len() - i,
    {
        let p = paths[i].as_str();
        proof {
            assert(texts(paths@).take(i + 1).drop_last() =~= texts(paths@).take(i as int));
            assert(texts(paths@).take(i + 1).last() == p@);
        }
        if is_note_path(p) {
            let name = get_file_stem_str(p);
            if !has_text(&names, name.as_str()) {
                let ghost before = names@;
                names.push(name);
                assert(texts(names@) =~= texts(before).push(name@));
            }
        }
        i = i + 1;
    }
    assert(texts(paths@).take(paths@.len() as int) =~= texts(paths@));
    names
}

/// The note-app link that opens note `name`.
pub fn item_link(name: &str) -> (r: String)
    ensures
        r@ == spec_item_link(name@),
{
    let encoded = url_encode(name);
    let mut s = String::from_str("obsidian://open?vault=");
    s.append("memo");
    s.append("&file=");
    s.append(encoded.as_str());
    s
}

/// The terminal hyperlink shown for note `name`; nothing for an empty name.
pub fn terminal_link(name: &str) -> (r: Option<String>)
    ensures
        name@.len() == 0 ==> r is None,
        name@.len() > 0 ==> (r matches Some(s) && s@ == spec_terminal_link(name@)),
{
    if name.unicode_len() == 0 {
        return None;
    }
    let link = item_link(name);
    let mut s = String::from_str("\x1b]8;;");
    s.append(link.as_str());
    s.append("\x1b\\");
    s.append(name);
    s.append("\x1b]8;;\x1b\\");
    assert(s@ == spec_terminal_link(name@));
    Some(s)
}

} // verus!
