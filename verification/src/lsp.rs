//! Mapping the positions, ranges and locations of language server messages
//! between Fiasco sources and the preprocessed files made from them.

use vstd::prelude::*;
use crate::source_mapping::{
    FiascoSourceMapping, MapDirection, MappingView, Table, map_block, path_eq, same_path,
    files_in_range, dedup_paths,
};

verus! {

/// A zero-based line and column in a text document.
#[derive(Debug, Clone, Copy, PartialEq, Eq, Structural)]
pub struct Position {
    pub line: u32,
    pub character: u32,
}

/// The positions from `start` to `end` in a text document.
#[derive(Debug, Clone, Copy, PartialEq, Eq, Structural)]
pub struct Range {
    pub start: Position,
    pub end: Position,
}

/// A range in the file at `path`.
#[derive(Debug, Clone)]
pub struct Location {
    pub path: String,
    pub range: Range,
}

/// Where the position at `line`, `character` of `path` is mapped to: the
/// file and line that the block covering `line` gives, with the column
/// unchanged; `None` where no block covers the line.
pub open spec fn mapped_position(t: Table, path: Seq<char>, p: Position) -> Option<(Seq<char>, Position)> {
    match map_block(t, path, p.line) {
        Some(m) => Some((m.dst_file, Position { line: m.translate(p.line) as u32, character: p.character })),
        None => None,
    }
}

/// Where a range of `path` is mapped to: both ends are mapped, and must
/// land in the same file (as paths compare); `None` otherwise.
pub open spec fn mapped_range(t: Table, path: Seq<char>, r: Range) -> Option<(Seq<char>, Range)> {
    match (mapped_position(t, path, r.start), mapped_position(t, path, r.end)) {
        (Some((a, s)), Some((b, e))) => if path_eq(a, b) {
            Some((a, Range { start: s, end: e }))
        } else {
            None
        },
        _ => None,
    }
}

impl FiascoSourceMapping {
    /// Maps a position of the file at `path` in the given direction; both
    /// stay as they are where no block covers its line.
    pub fn map_position(&self, direction: MapDirection, path: &mut String, position: &mut Position)
        requires
            self@.sorted(),
            self@.fits(),
        ensures
            match mapped_position(self@.table(direction), old(path)@, *old(position)) {
                Some((p, q)) => final(path)@ == p && *final(position) == q,
                None => final(path)@ == old(path)@ && *final(position) == *old(position),
            },
    {
        let mapped = self.map(direction, path.as_str(), position.line, position.character);
        match mapped {
            Some(loc) => {
                *path = loc.path;
                position.line = loc.line;
                position.character = loc.character;
            },
            None => {},
        }
    }

    /// Maps a range of the file at `path` in the given direction. Fails, and
    /// changes nothing, where an end is not covered by a block or the two
    /// ends land in different files.
    pub fn map_range(&self, direction: MapDirection, path: &mut String, range: &mut Range) -> (r: Result<
        (),
        (),
    >)
        requires
            self@.sorted(),
            self@.fits(),
        ensures
            match mapped_range(self@.table(direction), old(path)@, *old(range)) {
                Some((p, q)) => r is Ok && final(path)@ == p && *final(range) == q,
                None => r is Err && final(path)@ == old(path)@ && *final(range) == *old(range),
            },
    {
        let mapped_start = self.map(direction, path.as_str(), range.start.line, range.start.character);
        let mapped_end = self.map(direction, path.as_str(), range.end.line, range.end.character);
        match (mapped_start, mapped_end) {
            (Some(s), Some(e)) => {
                if !same_path(s.path.as_str(), e.path.as_str()) {
                    return Err(());
                }
                *path = s.path;
                range.start.line = s.line;
                range.start.character = s.character;
                range.end.line = e.line;
                range.end.character = e.character;
                Ok(())
            },
            _ => Err(()),
        }
    }

    /// Maps a location in the given direction, as [`Self::map_range`] does.
    pub fn map_location(&self, direction: MapDirection, location: &mut Location) -> (r: Result<(), ()>)
        requires
            self@.sorted(),
            self@.fits(),
        ensures
            match mapped_range(self@.table(direction), old(location).path@, old(location).range) {
                Some((p, q)) => r is Ok && final(location).path@ == p && final(location).range == q,
                None => r is Err && final(location).path@ == old(location).path@ && final(location).range
                    == old(location).range,
            },
    {
        self.map_range(direction, &mut location.path, &mut location.range)
    }

    /// The files that the blocks of `path` meeting the lines of `range` map
    /// to, each path once.
    pub fn map_file_range(&self, direction: MapDirection, path: &str, range: &Range) -> (r: Vec<String>)
        ensures
            r@.map_values(|s: String| s@) == dedup_paths(
                files_in_range(self@.table(direction), path@, range.start.line, range.end.line),
            ),
    {
        self.map_files_with_range(direction, path, range.start.line, range.end.line)
    }
}

} // verus!
