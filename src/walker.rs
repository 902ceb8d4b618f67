//! The directory walk as a state machine.
//!
//! The walker keeps an explicit stack of directories still to be listed, so
//! the depth of a tree never grows the call stack. The caller pops a
//! directory, lists it, and hands each entry back; the walker says which
//! files are to be hashed and records what failed.
use vstd::prelude::*;
use crate::aggregate::{strs, errs, ErrorKind, ScanError, ErrorView};

verus! {

/// Files shorter than this many bytes are neither hashed nor counted.
pub const MIN_FILE_LEN: u64 = 1024;

/// One entry of a directory listing, as the caller saw it.
#[derive(Debug)]
pub enum Entry {
    /// A subdirectory.
    Directory(String),
    /// A file and its length in bytes.
    File(String, u64),
    /// An entry whose metadata could not be read.
    Unreadable(String),
}

/// A directory entry as a mathematical value.
pub enum EntryView {
    Directory(Seq<char>),
    File(Seq<char>, u64),
    Unreadable(Seq<char>),
}

impl View for Entry {
    type V = EntryView;

    open spec fn view(&self) -> EntryView {
        match self {
            Entry::Directory(p) => EntryView::Directory(p@),
            Entry::File(p, n) => EntryView::File(p@, *n),
            Entry::Unreadable(p) => EntryView::Unreadable(p@),
        }
    }
}

/// The paths of the files, among `entries`, that are long enough to hash.
pub open spec fn eligible(entries: Seq<EntryView>) -> Seq<Seq<char>>
    decreases entries.len(),
{
    if entries.len() == 0 {
        Seq::empty()
    } else {
        let prev = eligible(entries.drop_last());
        match entries.last() {
            EntryView::File(p, n) => if n >= MIN_FILE_LEN {
                prev.push(p)
            } else {
                prev
            },
            _ => prev,
        }
    }
}

/// Only a file of at least the minimum length is ever handed out for
/// hashing: each path handed out was seen as such a file.
pub proof fn lemma_small_files_never_hashed(entries: Seq<EntryView>, i: int)
    requires
        0 <= i < eligible(entries).len(),
    ensures
        exists|j: int|
            0 <= j < entries.len() && #[trigger] entries[j] is File && entries[j]->File_0 == eligible(
                entries,
            )[i] && entries[j]->File_1 >= MIN_FILE_LEN,
    decreases entries.len(),
{
    let init = entries.drop_last();
    if i < eligible(init).len() {
        lemma_small_files_never_hashed(init, i);
        let j = choose|j: int|
            0 <= j < init.len() && #[trigger] init[j] is File && init[j]->File_0 == eligible(init)[i]
                && init[j]->File_1 >= MIN_FILE_LEN;
        assert(entries[j] == init[j]);
    } else {
        let j = entries.len() - 1;
        assert(entries[j] is File);
    }
}

/// The state of a walk: directories still to list, files handed out for
/// hashing, and errors met.
pub struct Walker {
    pending: Vec<String>,
    issued: Vec<String>,
    errors: Vec<ScanError>,
    seen: Ghost<Seq<EntryView>>,
}

impl Walker {
    /// Directories still to be listed; the last is listed next.
    pub closed spec fn pending(&self) -> Seq<Seq<char>> {
        strs(self.pending@)
    }

    /// Paths handed out for hashing, in order.
    pub closed spec fn issued(&self) -> Seq<Seq<char>> {
        strs(self.issued@)
    }

    /// Errors recorded so far, in order.
    pub closed spec fn errors(&self) -> Seq<ErrorView> {
        errs(self.errors@)
    }

    /// Every entry handed to the walker so far, in order.
    pub closed spec fn entries(&self) -> Seq<EntryView> {
        self.seen@
    }

    /// The files handed out are exactly the eligible files seen.
    pub closed spec fn wf(&self) -> bool {
        strs(self.issued@) == eligible(self.seen@)
    }

    /// A walk from `root`; nothing is walked unless the root is a directory.
    pub fn new(root: String, root_is_dir: bool) -> (r: Walker)
        ensures
            r.wf(),
            r.pending() == (if root_is_dir {
                seq![root@]
            } else {
                Seq::empty()
            }),
            r.issued() == Seq::<Seq<char>>::empty(),
            r.errors() == Seq::<ErrorView>::empty(),
            r.entries() == Seq::<EntryView>::empty(),
    {
        let mut pending: Vec<String> = Vec::new();
        if root_is_dir {
            pending.push(root);
        }
        let r = Walker { pending, issued: Vec::new(), errors: Vec::new(), seen: Ghost(Seq::empty()) };
        proof {
            assert(strs(r.issued@) =~= eligible(r.seen@));
            assert(r.pending() =~= (if root_is_dir {
                seq![root@]
            } else {
                Seq::empty()
            }));
            assert(r.issued() =~= Seq::<Seq<char>>::empty());
            assert(r.errors() =~= Seq::<ErrorView>::empty());
        }
        r
    }

    /// Whether the walk is over.
    pub fn is_done(&self) -> (r: bool)
        ensures
            r == (self.pending().len() == 0),
    {
        self.pending.len() == 0
    }

    /// Takes the next directory to list, depth first.
    pub fn next_directory(&mut self) -> (r: Option<String>)
        requires
            old(self).wf(),
        ensures
            final(self).wf(),
            old(self).pending().len() == 0 ==> r.is_none() && final(self).pending() == old(self).pending(),
            old(self).pending().len() > 0 ==> r.is_some() && r.unwrap()@ == old(self).pending().last()
                && final(self).pending() == old(self).pending().drop_last(),
            final(self).issued() == old(self).issued(),
            final(self).errors() == old(self).errors(),
            final(self).entries() == old(self).entries(),
    {
        let ghost before = self.pending@;
        let r = self.pending.pop();
        proof {
            if before.len() > 0 {
                assert(strs(self.pending@) =~= strs(before).drop_last());
            }
        }
        r
    }

    /// Takes one entry of the directory being listed. Returns the path to
    /// hash when the entry is a file of at least the minimum length; a
    /// subdirectory is pushed to be listed later, and an entry whose
    /// metadata could not be read is recorded as an error.
    pub fn visit(&mut self, entry: Entry) -> (r: Option<String>)
        requires
            old(self).wf(),
        ensures
            final(self).wf(),
            final(self).entries() == old(self).entries().push(entry@),
            match entry@ {
                EntryView::Directory(p) => r.is_none() && final(self).pending() == old(self).pending().push(p)
                    && final(self).issued() == old(self).issued() && final(self).errors() == old(self).errors(),
                EntryView::File(p, n) => final(self).pending() == old(self).pending() && final(self).errors()
                    == old(self).errors() && if n >= MIN_FILE_LEN {
                    r.is_some() && r.unwrap()@ == p && final(self).issued() == old(self).issued().push(p)
                } else {
                    r.is_none() && final(self).issued() == old(self).issued()
                },
                EntryView::Unreadable(p) => r.is_none() && final(self).pending() == old(self).pending()
                    && final(self).issued() == old(self).issued() && final(self).errors() == old(
                    self,
                ).errors().push(ErrorView { kind: ErrorKind::Metadata, path: p }),
            },
    {
        let ghost e = entry@;
        let ghost seen2 = self.seen@.push(e);
        assert(seen2.drop_last() =~= self.seen@);
        self.seen = Ghost(seen2);
        match entry {
            Entry::Directory(p) => {
                let ghost before = self.pending@;
                self.pending.push(p);
                assert(strs(self.pending@) =~= strs(before).push(e->Directory_0));
                None
            },
            Entry::File(p, n) => {
                if n >= MIN_FILE_LEN {
                    let ghost before = self.issued@;
                    self.issued.push(p.clone());
                    assert(strs(self.issued@) =~= strs(before).push(p@));
                    Some(p)
                } else {
                    None
                }
            },
            Entry::Unreadable(p) => {
                let ghost before = self.errors@;
                self.errors.push(ScanError { kind: ErrorKind::Metadata, path: p });
                assert(errs(self.errors@) =~= errs(before).push(
                    ErrorView { kind: ErrorKind::Metadata, path: e->Unreadable_0 },
                ));
                None
            },
        }
    }

    /// Records that listing the directory `dir` failed; the walk goes on.
    pub fn listing_failed(&mut self, dir: String)
        requires
            old(self).wf(),
        ensures
            final(self).wf(),
            final(self).pending() == old(self).pending(),
            final(self).issued() == old(self).issued(),
            final(self).entries() == old(self).entries(),
            final(self).errors() == old(self).errors().push(ErrorView { kind: ErrorKind::DirectoryRead, path: dir@ }),
    {
        let ghost before = self.errors@;
        let ghost d = dir@;
        self.errors.push(ScanError { kind: ErrorKind::DirectoryRead, path: dir });
        assert(errs(self.errors@) =~= errs(before).push(ErrorView { kind: ErrorKind::DirectoryRead, path: d }));
    }

    /// Ends the walk: the paths handed out for hashing and the errors met.
    pub fn finish(self) -> (r: (Vec<String>, Vec<ScanError>))
        ensures
            strs(r.0@) == self.issued(),
            errs(r.1@) == self.errors(),
    {
        (self.issued, self.errors)
    }
}

} // verus!
