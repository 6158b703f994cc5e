//! Which recordings are on disk.

use crate::text::{
    all_digits, chars_of, find_first, find_last, first_occurrence, is_digit, last_occurrence,
    lemma_first_occurrence, lemma_first_place, lemma_last_occurrence, lemma_last_place, occurs_at,
    only_digits, same_text, slice_chars,
};
use vstd::prelude::*;
use vstd::string::*;

verus! {

/// An entry of the download directory.
#[derive(Debug)]
pub struct Entry {
    /// Whether the entry is a file.
    pub is_file: bool,
    /// Its name; nothing where the name is no text.
    pub name: Option<String>,
}

/// The contents of an `Entry`.
pub struct EntryView {
    /// Whether the entry is a file.
    pub is_file: bool,
    /// Its name.
    pub name: Option<Seq<char>>,
}

impl View for Entry {
    type V = EntryView;

    open spec fn view(&self) -> EntryView {
        EntryView {
            is_file: self.is_file,
            name: match self.name {
                Some(name) => Some(name@),
                None => None,
            },
        }
    }
}

/// A file's name without its extension, and the extension. The last dot parts them, unless it is
/// the first character.
pub open spec fn split_name(name: Seq<char>) -> (Seq<char>, Option<Seq<char>>) {
    match last_occurrence(name, "."@) {
        Some(at) => if at > 0 {
            (name.take(at), Some(name.skip(at + 1)))
        } else {
            (name, None)
        },
        None => (name, None),
    }
}

/// A name without extension that stands for a title: the title itself, or the title behind digits,
/// a dot and a space.
pub open spec fn stands_for(stem: Seq<char>, title: Seq<char>) -> bool {
    stem == title || match first_occurrence(stem, ". "@) {
        Some(at) => all_digits(stem.take(at)) && stem.skip(at + 2) == title,
        None => false,
    }
}

/// An extension of finished recordings.
pub open spec fn is_media_extension(extension: Seq<char>) -> bool {
    ||| extension == "mp4"@
    ||| extension == "mkv"@
    ||| extension == "mov"@
    ||| extension == "avi"@
    ||| extension == "webm"@
}

/// The entry is a finished recording of the title.
pub open spec fn is_media_of(entry: EntryView, title: Seq<char>) -> bool {
    entry.is_file && match entry.name {
        Some(name) => {
            let (stem, extension) = split_name(name);
            &&& stands_for(stem, title)
            &&& extension is Some
            &&& is_media_extension(extension->0)
        },
        None => false,
    }
}

/// Parts a file's name from its extension.
fn part_name<'a>(name: &'a str) -> (r: (&'a str, Option<&'a str>))
    ensures
        r.0@ == split_name(name@).0,
        match r.1 {
            Some(extension) => split_name(name@).1 == Some(extension@),
            None => split_name(name@).1 is None,
        },
{
    let chars = chars_of(name);
    match find_last(&chars, &chars_of(".")) {
        Some(at) => {
            proof {
                reveal_strlit(".");
                assert(at + 1 <= chars.len());
            }
            if at > 0 {
                assert(name@.subrange(0, at as int) =~= name@.take(at as int));
                assert(name@.subrange(at + 1, name@.len() as int) =~= name@.skip(at + 1));
                (name.substring_char(0, at), Some(name.substring_char(at + 1, chars.len())))
            } else {
                (name, None)
            }
        },
        None => (name, None),
    }
}

/// Whether a name without extension stands for a title.
fn names_title(stem: &str, title: &str) -> (r: bool)
    ensures
        r == stands_for(stem@, title@),
{
    if same_text(stem, title) {
        return true;
    }
    let chars = chars_of(stem);
    match find_first(&chars, &chars_of(". ")) {
        Some(at) => {
            proof {
                reveal_strlit(". ");
                assert(at + 2 <= chars.len());
            }
            let digits = slice_chars(&chars, 0, at);
            assert(digits@ =~= stem@.take(at as int));
            assert(stem@.subrange(at + 2, stem@.len() as int) =~= stem@.skip(at + 2));
            only_digits(&digits) && same_text(stem.substring_char(at + 2, chars.len()), title)
        },
        None => false,
    }
}

/// Whether an extension is one of finished recordings.
fn media_extension(extension: &str) -> (r: bool)
    ensures
        r == is_media_extension(extension@),
{
    same_text(extension, "mp4") || same_text(extension, "mkv") || same_text(extension, "mov")
        || same_text(extension, "avi") || same_text(extension, "webm")
}

/// Whether an entry is a finished recording of the title.
pub fn is_recording(entry: &Entry, title: &str) -> (r: bool)
    ensures
        r == is_media_of(entry@, title@),
{
    if !entry.is_file {
        return false;
    }
    match &entry.name {
        Some(name) => {
            let (stem, extension) = part_name(name.as_str());
            match extension {
                Some(extension) => names_title(stem, title) && media_extension(extension),
                None => false,
            }
        },
        None => false,
    }
}

/// A finished recording of the title is among the entries.
pub open spec fn holds_media(entries: Seq<Entry>, title: Seq<char>) -> bool {
    exists|i: int| 0 <= i < entries.len() && is_media_of(#[trigger] entries[i]@, title)
}

/// Whether a finished recording of the title is among the entries.
fn any_recording(entries: &Vec<Entry>, title: &str) -> (r: bool)
    ensures
        r == holds_media(entries@, title@),
{
    let mut i: usize = 0;
    while i < entries.len()
        invariant
            i <= entries.len(),
            forall|j: int| 0 <= j < i ==> !is_media_of(#[trigger] entries@[j]@, title@),
        decreases entries.len() - i,
    {
        if is_recording(&entries[i], title) {
            assert(is_media_of(entries@[i as int]@, title@));
            return true;
        }
        i = i + 1;
    }
    false
}

/// Whether a finished recording of the title is among the entries of the download directory;
/// `entries` is nothing where the directory cannot be read.
pub fn existing_media(entries: &Option<Vec<Entry>>, title: &str) -> (r: bool)
    ensures
        r == (match *entries {
            Some(entries) => holds_media(entries@, title@),
            None => false,
        }),
{
    match entries {
        Some(entries) => any_recording(entries, title),
        None => false,
    }
}

/// A name's last dot, where no dot comes behind it, parts stem and extension; a name that begins
/// with it has no extension.
proof fn lemma_split_name(stem: Seq<char>, extension: Seq<char>)
    requires
        !extension.contains('.'),
    ensures
        stem.len() > 0 ==> split_name(stem + "."@ + extension) == (stem, Some(extension)),
        stem.len() == 0 ==> split_name(stem + "."@ + extension).1 is None,
{
    reveal_strlit(".");
    let name = stem + "."@ + extension;
    let at = stem.len() as int;
    assert(name.subrange(at, at + 1) =~= "."@);
    assert forall|j: int| #[trigger] occurs_at(name, "."@, j) implies j <= at by {
        assert(name.subrange(j, j + 1)[0] == '.');
        if j > at {
            assert(extension[j - at - 1] == name[j]);
        }
    }
    lemma_last_occurrence(name, "."@, at);
    assert(name.take(at) =~= stem);
    assert(name.skip(at + 1) =~= extension);
}

/// A finished recording is found under its title, and under its title behind digits, a dot and a
/// space, in each of the formats.
pub proof fn law_recordings_are_found(digits: Seq<char>, title: Seq<char>, extension: Seq<char>)
    requires
        all_digits(digits),
        is_media_extension(extension),
    ensures
        title.len() > 0 ==> is_media_of(
            EntryView { is_file: true, name: Some(title + "."@ + extension) },
            title,
        ),
        is_media_of(
            EntryView { is_file: true, name: Some(digits + ". "@ + title + "."@ + extension) },
            title,
        ),
{
    reveal_strlit("mp4");
    reveal_strlit("mkv");
    reveal_strlit("mov");
    reveal_strlit("avi");
    reveal_strlit("webm");
    reveal_strlit(". ");
    if title.len() > 0 {
        lemma_split_name(title, extension);
    }
    let stem = digits + ". "@ + title;
    lemma_split_name(stem, extension);
    let at = digits.len() as int;
    assert(stem.subrange(at, at + 2) =~= ". "@);
    assert forall|j: int| #[trigger] occurs_at(stem, ". "@, j) implies at <= j by {
        assert(stem.subrange(j, j + 2)[0] == '.');
        if j < at {
            assert(is_digit(digits[j]));
        }
    }
    lemma_first_occurrence(stem, ". "@, at);
    assert(stem.take(at) =~= digits);
    assert(stem.skip(at + 2) =~= title);
}

/// A download that is not finished, and anything else with another extension, is no recording.
pub proof fn law_unfinished_downloads_do_not_count(
    stem: Seq<char>,
    extension: Seq<char>,
    title: Seq<char>,
    is_file: bool,
)
    requires
        !extension.contains('.'),
        !is_media_extension(extension),
    ensures
        !is_media_of(EntryView { is_file, name: Some(stem + "."@ + extension) }, title),
{
    lemma_split_name(stem, extension);
}

/// A recording is found in each of the five formats.
pub proof fn law_formats(title: Seq<char>)
    requires
        title.len() > 0,
    ensures
        is_media_of(EntryView { is_file: true, name: Some(title + "."@ + "mp4"@) }, title),
        is_media_of(EntryView { is_file: true, name: Some(title + "."@ + "mkv"@) }, title),
        is_media_of(EntryView { is_file: true, name: Some(title + "."@ + "mov"@) }, title),
        is_media_of(EntryView { is_file: true, name: Some(title + "."@ + "avi"@) }, title),
        is_media_of(EntryView { is_file: true, name: Some(title + "."@ + "webm"@) }, title),
{
    let none = Seq::<char>::empty();
    law_recordings_are_found(none, title, "mp4"@);
    law_recordings_are_found(none, title, "mkv"@);
    law_recordings_are_found(none, title, "mov"@);
    law_recordings_are_found(none, title, "avi"@);
    law_recordings_are_found(none, title, "webm"@);
}

/// The name of a file is made of its stem, a dot and its extension, where it has one.
proof fn lemma_name_parts(name: Seq<char>)
    ensures
        split_name(name).1 matches Some(extension) ==> name == split_name(name).0 + "."@
            + extension,
{
    reveal_strlit(".");
    if let Some(at) = last_occurrence(name, "."@) {
        lemma_last_place(name, "."@);
        assert(name =~= name.take(at) + name.subrange(at, at + 1) + name.skip(at + 1));
    }
}

/// A file counts only under exactly the title: its name is the title, or digits, a dot, a space and
/// the title, and then a dot and one of the five formats.
pub proof fn law_only_the_title_counts(entry: EntryView, title: Seq<char>)
    requires
        is_media_of(entry, title),
    ensures
        entry.is_file,
        entry.name is Some,
        exists|digits: Seq<char>, extension: Seq<char>|
            #![trigger digits.len(), extension.len()]
            {
                &&& entry.name->0 == title + "."@ + extension || entry.name->0 == digits + ". "@
                    + title + "."@ + extension
                &&& forall|i: int| 0 <= i < digits.len() ==> '0' <= #[trigger] digits[i] <= '9'
                &&& {
                    ||| extension == "mp4"@
                    ||| extension == "mkv"@
                    ||| extension == "mov"@
                    ||| extension == "avi"@
                    ||| extension == "webm"@
                }
            },
{
    reveal_strlit(". ");
    let name = entry.name->0;
    lemma_name_parts(name);
    let (stem, found) = split_name(name);
    let extension = found->0;
    let none = Seq::<char>::empty();
    if stem == title {
        assert(none.len() == 0 && extension.len() >= 0);
        assert(name == title + "."@ + extension);
    } else {
        lemma_first_place(stem, ". "@);
        let at = first_occurrence(stem, ". "@)->0;
        let digits = stem.take(at);
        assert(stem =~= digits + stem.subrange(at, at + 2) + stem.skip(at + 2));
        assert forall|i: int| 0 <= i < digits.len() implies '0' <= #[trigger] digits[i] <= '9' by {
            assert(is_digit(digits[i]));
        }
        assert(name == digits + ". "@ + title + "."@ + extension);
        assert(digits.len() >= 0 && extension.len() >= 0);
    }
}

/// What is no file is no recording.
pub proof fn law_directories_do_not_count(entry: EntryView, title: Seq<char>)
    requires
        !entry.is_file || entry.name is None,
    ensures
        !is_media_of(entry, title),
{
}

/// One recording among the entries of a directory is enough, wherever it stands, and without one
/// there is none.
pub proof fn law_one_recording_is_enough(
    front: Seq<Entry>,
    entry: Entry,
    back: Seq<Entry>,
    title: Seq<char>,
)
    ensures
        holds_media(front + seq![entry] + back, title) <==> {
            ||| holds_media(front, title)
            ||| is_media_of(entry@, title)
            ||| holds_media(back, title)
        },
        !holds_media(Seq::empty(), title),
{
    let all = front + seq![entry] + back;
    let at = front.len() as int;
    assert(all[at] == entry);
    if holds_media(front, title) {
        let i = choose|i: int| 0 <= i < front.len() && is_media_of(#[trigger] front[i]@, title);
        assert(all[i] == front[i]);
    }
    if holds_media(back, title) {
        let i = choose|i: int| 0 <= i < back.len() && is_media_of(#[trigger] back[i]@, title);
        assert(all[at + 1 + i] == back[i]);
    }
    if holds_media(all, title) {
        let i = choose|i: int| 0 <= i < all.len() && is_media_of(#[trigger] all[i]@, title);
        if i < at {
            assert(front[i] == all[i]);
        } else if i > at {
            assert(back[i - at - 1] == all[i]);
        }
    }
}

} // verus!
