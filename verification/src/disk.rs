//! What the site reads from its directory of page sources, held as plain
//! values: the directory listing, and for each path whether it is a file,
//! its modification time and its lines.
use crate::text::str_eq;
use vstd::prelude::*;

verus! {

/// A path's modification time, as the site reads it from the path's metadata.
#[derive(Clone, Copy)]
pub enum Stamp {
    /// The metadata could not be read.
    NoMetadata,
    /// The metadata was read, but holds no modification time at or after the
    /// UNIX epoch (the site stops where it needs this one).
    NoTime,
    /// Whole seconds since the UNIX epoch.
    Secs(i64),
}

/// A path's contents, read line by line.
pub enum Text {
    /// The file could not be opened.
    Closed,
    /// The lines, without their line ends.
    Lines(Vec<String>),
    /// A line could not be read (the site stops where it reads this one).
    Broken,
}

/// One entry of the directory listing.
pub enum Entry {
    /// The entry could not be read.
    Failed,
    /// The entry's path.
    Path(String),
    /// The entry's path is not UTF-8 (the site stops where it reads this
    /// one).
    NotText,
}

/// What is known of one path.
pub struct FileFacts {
    pub path: String,
    /// The path is a regular file (following links).
    pub is_file: bool,
    /// From the metadata that follows links.
    pub stamp: Stamp,
    /// From the metadata of the directory entry, which does not follow links.
    pub entry_stamp: Stamp,
    pub text: Text,
}

/// The site's directory as read at one moment. A path with no facts is
/// absent: not a file, without metadata, and not openable.
pub struct Disk {
    /// The entries of the directory, in the order the listing gave them, or
    /// `None` where the directory could not be listed.
    pub listing: Option<Vec<Entry>>,
    pub files: Vec<FileFacts>,
}

/// The facts of the first file with this path.
pub open spec fn find_file(files: Seq<FileFacts>, path: Seq<char>) -> Option<FileFacts>
    decreases files.len(),
{
    if files.len() == 0 {
        None
    } else if files[0].path@ == path {
        Some(files[0])
    } else {
        find_file(files.skip(1), path)
    }
}

/// The path is a regular file.
pub open spec fn is_file_at(disk: &Disk, path: Seq<char>) -> bool {
    match find_file(disk.files@, path) {
        Some(f) => f.is_file,
        None => false,
    }
}

/// The path's modification time, from the metadata that follows links.
pub open spec fn stamp_at(disk: &Disk, path: Seq<char>) -> Stamp {
    match find_file(disk.files@, path) {
        Some(f) => f.stamp,
        None => Stamp::NoMetadata,
    }
}

/// The path's modification time, from the directory entry's metadata.
pub open spec fn entry_stamp_at(disk: &Disk, path: Seq<char>) -> Stamp {
    match find_file(disk.files@, path) {
        Some(f) => f.entry_stamp,
        None => Stamp::NoMetadata,
    }
}

/// A path's contents as plain values.
pub enum TextView {
    Closed,
    Lines(Seq<Seq<char>>),
    Broken,
}

/// The path's contents.
pub open spec fn text_at(disk: &Disk, path: Seq<char>) -> TextView {
    match find_file(disk.files@, path) {
        Some(f) => match f.text {
            Text::Closed => TextView::Closed,
            Text::Lines(ls) => TextView::Lines(ls.deep_view()),
            Text::Broken => TextView::Broken,
        },
        None => TextView::Closed,
    }
}

proof fn lemma_find_file_skip(files: Seq<FileFacts>, path: Seq<char>, i: int)
    requires
        0 <= i <= files.len(),
        forall|j: int| 0 <= j < i ==> (#[trigger] files[j]).path@ != path,
    ensures
        find_file(files, path) == find_file(files.skip(i), path),
    decreases i,
{
    if i > 0 {
        assert(files[0].path@ != path);
        assert forall|j: int| 0 <= j < i - 1 implies (#[trigger] files.skip(1)[j]).path@ != path by {
            assert(files.skip(1)[j] == files[j + 1]);
        }
        lemma_find_file_skip(files.skip(1), path, i - 1);
        assert(files.skip(1).skip(i - 1) =~= files.skip(i));
    } else {
        assert(files.skip(0) =~= files);
    }
}

impl Disk {
    /// The position of the first file with this path.
    fn find(&self, path: &str) -> (r: Option<usize>)
        ensures
            r matches Some(i) ==> i < self.files@.len() && find_file(self.files@, path@) == Some(
                self.files@[i as int],
            ),
            r is None ==> find_file(self.files@, path@) is None,
    {
        let n = self.files.len();
        let mut i: usize = 0;
        while i < n
            invariant
                n == self.files@.len(),
                i <= n,
                forall|j: int| 0 <= j < i ==> (#[trigger] self.files@[j]).path@ != path@,
            decreases n - i,
        {
            if str_eq(self.files[i].path.as_str(), path) {
                proof {
                    lemma_find_file_skip(self.files@, path@, i as int);
                }
                return Some(i);
            }
            i = i + 1;
        }
        proof {
            lemma_find_file_skip(self.files@, path@, n as int);
        }
        None
    }

    /// Whether the path is a regular file.
    pub fn is_file(&self, path: &str) -> (r: bool)
        ensures
            r == is_file_at(self, path@),
    {
        match self.find(path) {
            Some(i) => self.files[i].is_file,
            None => false,
        }
    }

    /// The path's modification time, following links.
    pub fn stamp(&self, path: &str) -> (r: Stamp)
        ensures
            r == stamp_at(self, path@),
    {
        match self.find(path) {
            Some(i) => self.files[i].stamp,
            None => Stamp::NoMetadata,
        }
    }

    /// The path's modification time, from its directory entry.
    pub fn entry_stamp(&self, path: &str) -> (r: Stamp)
        ensures
            r == entry_stamp_at(self, path@),
    {
        match self.find(path) {
            Some(i) => self.files[i].entry_stamp,
            None => Stamp::NoMetadata,
        }
    }

    /// The path's contents: `None` where it could not be opened, the lines
    /// otherwise (a broken text gives `Some(None)`).
    pub fn text(&self, path: &str) -> (r: Option<Option<&Vec<String>>>)
        ensures
            r is None <==> text_at(self, path@) is Closed,
            r matches Some(None) <==> text_at(self, path@) is Broken,
            r matches Some(Some(ls)) ==> text_at(self, path@) == TextView::Lines(ls.deep_view()),
    {
        match self.find(path) {
            Some(i) => match &self.files[i].text {
                Text::Closed => None,
                Text::Lines(ls) => Some(Some(ls)),
                Text::Broken => Some(None),
            },
            None => None,
        }
    }
}

} // verus!
