//! The curator-authored narrative: named chapters that reference specific
//! hunks of a parsed diff by `(file, hunk_index)`.

use vstd::prelude::*;

verus! {

/// A narrative over one diff: an optional description, the main chapters,
/// and a second, lower-priority chapter group rendered separately but
/// resolved identically.
#[derive(Debug, Clone)]
pub struct Storyline {
    pub description: Option<String>,
    pub chapters: Vec<Chapter>,
    pub misc: Vec<Chapter>,
}

/// A titled group of hunk references.
#[derive(Debug, Clone)]
pub struct Chapter {
    pub title: String,
    pub description: Option<String>,
    pub hunks: Vec<HunkRef>,
}

/// A reference to one hunk: the file's display path and the 0-based index
/// into that file's hunk sequence, optionally annotated with a note.
#[derive(Debug, Clone)]
pub struct HunkRef {
    pub file: String,
    pub hunk_index: usize,
    pub note: Option<String>,
}

pub ghost struct SpecStoryline {
    pub description: Option<Seq<char>>,
    pub chapters: Seq<SpecChapter>,
    pub misc: Seq<SpecChapter>,
}

pub ghost struct SpecChapter {
    pub title: Seq<char>,
    pub description: Option<Seq<char>>,
    pub hunks: Seq<SpecHunkRef>,
}

pub ghost struct SpecHunkRef {
    pub file: Seq<char>,
    pub hunk_index: int,
    pub note: Option<Seq<char>>,
}

pub open spec fn view_opt_string(s: Option<String>) -> Option<Seq<char>> {
    match s {
        Some(x) => Some(x@),
        None => None,
    }
}

impl View for HunkRef {
    type V = SpecHunkRef;

    open spec fn view(&self) -> SpecHunkRef {
        SpecHunkRef {
            file: self.file@,
            hunk_index: self.hunk_index as int,
            note: view_opt_string(self.note),
        }
    }
}

impl View for Chapter {
    type V = SpecChapter;

    open spec fn view(&self) -> SpecChapter {
        SpecChapter {
            title: self.title@,
            description: view_opt_string(self.description),
            hunks: self.hunks@.map_values(|h: HunkRef| h@),
        }
    }
}

impl View for Storyline {
    type V = SpecStoryline;

    open spec fn view(&self) -> SpecStoryline {
        SpecStoryline {
            description: view_opt_string(self.description),
            chapters: self.chapters@.map_values(|c: Chapter| c@),
            misc: self.misc@.map_values(|c: Chapter| c@),
        }
    }
}

} // verus!
