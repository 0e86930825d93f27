//! Line mappings between preprocessed files and the Fiasco sources they
//! were made from, in both directions, and lookups of single lines and line
//! ranges.

use vstd::prelude::*;

verus! {

/// Which part of a Fiasco source file a mapped block belongs to.
#[derive(Clone, Copy, Debug, PartialEq, Eq, Structural)]
pub enum PreprocessSection {
    NoSection,
    Interface,
    Implementation,
}

/// `Path::new(a) == Path::new(b)` (std::path): whether two paths name the
/// same sequence of path components.
pub uninterp spec fn path_eq(a: Seq<char>, b: Seq<char>) -> bool;

/// Compares two paths as `std::path::Path` does, component by component.
/// Equal strings always name equal paths.
#[verifier::external_body]
pub(crate) fn same_path(a: &str, b: &str) -> (r: bool)
    ensures
        r == path_eq(a@, b@),
        a@ == b@ ==> r,
{
    std::path::Path::new(a) == std::path::Path::new(b)
}

/// A block of consecutive source lines that maps to a block of lines that
/// starts at `dst_line` in `dst_file`.
#[derive(Debug)]
pub struct LineMapping {
    pub section: PreprocessSection,
    pub src_line: u32,
    pub src_end_line: u32,
    pub dst_file: String,
    pub dst_line: u32,
}

/// The value of a [`LineMapping`], with the file as its characters.
pub struct MappingView {
    pub section: PreprocessSection,
    pub src_line: u32,
    pub src_end_line: u32,
    pub dst_file: Seq<char>,
    pub dst_line: u32,
}

impl View for LineMapping {
    type V = MappingView;

    open spec fn view(&self) -> MappingView {
        MappingView {
            section: self.section,
            src_line: self.src_line,
            src_end_line: self.src_end_line,
            dst_file: self.dst_file@,
            dst_line: self.dst_line,
        }
    }
}

/// The values of a sequence of mappings.
pub open spec fn views(s: Seq<LineMapping>) -> Seq<MappingView> {
    s.map_values(|m: LineMapping| m@)
}

impl MappingView {
    /// Whether `line` lies within the block (both ends included).
    pub open spec fn covers(self, line: u32) -> bool {
        self.src_line <= line <= self.src_end_line
    }

    /// Whether the block meets the line range `start..=end`.
    pub open spec fn meets(self, start: u32, end: u32) -> bool {
        start <= self.src_end_line && self.src_line <= end
    }

    /// The line that `line` of the block maps to.
    pub open spec fn translate(self, line: u32) -> int {
        self.dst_line + (line - self.src_line)
    }

    /// The block read in the other direction: from the destination lines
    /// back to the source lines of `src_file`.
    pub open spec fn reversed(self, src_file: Seq<char>) -> MappingView {
        MappingView {
            section: self.section,
            src_line: self.dst_line,
            src_end_line: (self.dst_line + (self.src_end_line - self.src_line)) as u32,
            dst_file: src_file,
            dst_line: self.src_line,
        }
    }

    /// The block is well formed and every line of it maps to a `u32` line.
    pub open spec fn fits(self) -> bool {
        &&& self.src_line <= self.src_end_line
        &&& self.dst_line + (self.src_end_line - self.src_line) <= u32::MAX
    }
}

impl LineMapping {
    /// Whether `line` lies within the block (both ends included).
    fn contains(&self, line: u32) -> (r: bool)
        ensures
            r == self@.covers(line),
    {
        line >= self.src_line && line <= self.src_end_line
    }

    /// Whether the block meets the line range `start..=end`.
    fn overlaps(&self, start: u32, end: u32) -> (r: bool)
        ensures
            r == self@.meets(start, end),
    {
        start <= self.src_end_line && self.src_line <= end
    }
}

/// Mapping a line through a block and then back through the reversed block
/// gives the line back.
pub proof fn lemma_reversed_round_trip(m: MappingView, src_file: Seq<char>, line: u32)
    requires
        m.fits(),
        m.covers(line),
    ensures
        m.reversed(src_file).covers(m.translate(line) as u32),
        m.reversed(src_file).translate(m.translate(line) as u32) == line,
        m.reversed(src_file).reversed(m.dst_file) == m,
        m.reversed(src_file).fits(),
{
}

/// Whether the blocks are ordered by their first line.
pub open spec fn sorted_by_start(s: Seq<MappingView>) -> bool {
    forall|i: int, j: int| 0 <= i <= j < s.len() ==> s[i].src_line <= s[j].src_line
}

/// Whether each block ends no later than the next one starts.
pub open spec fn non_overlapping(s: Seq<MappingView>) -> bool {
    forall|i: int| 0 <= i < s.len() - 1 ==> #[trigger] s[i].src_end_line <= s[i + 1].src_line
}

/// Whether a block starts at line `k`.
pub open spec fn starts_on(k: u32) -> spec_fn(MappingView) -> bool {
    |m: MappingView| m.src_line == k
}

/// The blocks of `s` that start at line `k`, in their order in `s`.
pub open spec fn starting_at(s: Seq<MappingView>, k: u32) -> Seq<MappingView> {
    s.filter(starts_on(k))
}

/// `t` is `s` sorted by first line, with blocks that start on the same line
/// kept in their order (a stable sort).
pub open spec fn stable_sorted(s: Seq<MappingView>, t: Seq<MappingView>) -> bool {
    &&& sorted_by_start(t)
    &&& forall|k: u32| #[trigger] starting_at(t, k) == starting_at(s, k)
}

/// The contents of a [`FileLineMappings`].
pub struct FileMappingsView {
    pub files: Seq<Seq<char>>,
    pub none: Seq<MappingView>,
    pub interface: Seq<MappingView>,
    pub implementation: Seq<MappingView>,
    pub length: u32,
}

impl FileMappingsView {
    /// The blocks of one section.
    pub open spec fn section(self, section: PreprocessSection) -> Seq<MappingView> {
        match section {
            PreprocessSection::NoSection => self.none,
            PreprocessSection::Interface => self.interface,
            PreprocessSection::Implementation => self.implementation,
        }
    }

    /// Every section is sorted by first line.
    pub open spec fn sorted(self) -> bool {
        &&& sorted_by_start(self.none)
        &&& sorted_by_start(self.interface)
        &&& sorted_by_start(self.implementation)
    }

    /// No two consecutive blocks of a section overlap.
    pub open spec fn disjoint(self) -> bool {
        &&& non_overlapping(self.none)
        &&& non_overlapping(self.interface)
        &&& non_overlapping(self.implementation)
    }

    /// The first overlap, looking at the sections in the order none,
    /// interface, implementation, is at index `i` of section `sec`.
    pub open spec fn first_overlap_in(self, sec: PreprocessSection, i: int) -> bool {
        &&& first_overlap(self.section(sec), i)
        &&& sec != PreprocessSection::NoSection ==> non_overlapping(self.none)
        &&& sec == PreprocessSection::Implementation ==> non_overlapping(self.interface)
    }

    /// Every block of every section fits.
    pub open spec fn fits(self) -> bool {
        &&& forall|i: int| 0 <= i < self.none.len() ==> (#[trigger] self.none[i]).fits()
        &&& forall|i: int| 0 <= i < self.interface.len() ==> (#[trigger] self.interface[i]).fits()
        &&& forall|i: int|
            0 <= i < self.implementation.len() ==> (#[trigger] self.implementation[i]).fits()
    }
}

/// Whether `files` lists a path equal to `f`.
pub open spec fn lists_path(files: Seq<Seq<char>>, f: Seq<char>) -> bool {
    exists|i: int| 0 <= i < files.len() && path_eq(#[trigger] files[i], f)
}

/// The mappings of one file, by section, with the files they map to and
/// the number of lines they span.
#[derive(Debug)]
pub struct FileLineMappings {
    files: Vec<String>,
    none: Vec<LineMapping>,
    interface: Vec<LineMapping>,
    implementation: Vec<LineMapping>,
    length: u32,
}

impl View for FileLineMappings {
    type V = FileMappingsView;

    closed spec fn view(&self) -> FileMappingsView {
        FileMappingsView {
            files: self.files@.map_values(|f: String| f@),
            none: views(self.none@),
            interface: views(self.interface@),
            implementation: views(self.implementation@),
            length: self.length,
        }
    }
}

/// The stable sort of one section, by first line.
fn sort_section(v: &mut Vec<LineMapping>)
    ensures
        stable_sorted(views(old(v)@), views(final(v)@)),
        views(final(v)@).len() == views(old(v)@).len(),
{
    let mut src: Vec<LineMapping> = Vec::new();
    std::mem::swap(&mut src, v);
    let ghost input = views(src@);
    let n = src.len();
    let mut out: Vec<LineMapping> = Vec::new();
    let mut i: usize = 0;
    while i < n
        invariant
            n == input.len(),
            i <= n,
            views(src@) == input.skip(i as int),
            src@.len() == n - i,
            views(out@).len() == i,
            sorted_by_start(views(out@)),
            forall|k: u32| #[trigger] starting_at(views(out@), k) == starting_at(input.take(i as int), k),
        decreases n - i,
    {
        assert(views(src@)[0] == src@[0]@);
        assert(input.skip(i as int)[0] == input[i as int]);
        let ghost old_src = src@;
        let x = src.remove(0);
        let ghost xv = x@;
        assert(xv == input[i as int]);
        let mut pos: usize = out.len();
        while pos > 0 && out[pos - 1].src_line > x.src_line
            invariant
                pos <= out.len(),
                forall|j: int| pos <= j < out.len() ==> out@[j]@.src_line > xv.src_line,
                x@ == xv,
            decreases pos,
        {
            pos = pos - 1;
        }
        let ghost before = views(out@);
        let ghost out_before = out@;
        out.insert(pos, x);
        proof {
            let after = views(out@);
            assert(after =~= before.take(pos as int) + seq![xv] + before.skip(pos as int));
            assert(before =~= before.take(pos as int) + before.skip(pos as int));
            assert(input.take(i + 1) =~= input.take(i as int) + seq![xv]);
            assert(src@.len() == n - i - 1);
            assert forall|j: int| 0 <= j < src@.len() implies views(src@)[j] == input.skip(i + 1)[j] by {
                assert(src@[j] == old_src[j + 1]);
                assert(views(old_src)[j + 1] == input.skip(i as int)[j + 1]);
            }
            assert(views(src@) =~= input.skip(i + 1));
            assert forall|a: int, b: int| 0 <= a <= b < after.len() implies after[a].src_line
                <= after[b].src_line by {
                if a < pos && b > pos {
                    assert(before[a].src_line <= before[b - 1].src_line);
                } else if a < pos && b == pos {
                    if pos > 0 {
                        assert(before[a].src_line <= before[pos - 1].src_line);
                    }
                } else if a > pos {
                    assert(before[a - 1].src_line <= before[b - 1].src_line);
                }
            }
            assert forall|k: u32| #[trigger] starting_at(after, k) == starting_at(
                input.take(i + 1),
                k,
            ) by {
                let pred = starts_on(k);
                assert(starting_at(before, k) == starting_at(input.take(i as int), k));
                let front = before.take(pos as int);
                let back = before.skip(pos as int);
                Seq::filter_distributes_over_add(front + seq![xv], back, pred);
                Seq::filter_distributes_over_add(front, seq![xv], pred);
                Seq::filter_distributes_over_add(front, back, pred);
                Seq::filter_distributes_over_add(input.take(i as int), seq![xv], pred);
                reveal_with_fuel(Seq::filter, 2);
                if k == xv.src_line {
                    assert forall|j: int| 0 <= j < back.len() implies !pred(back[j]) by {
                        assert(back[j] == before[pos + j]);
                        assert(before[pos + j] == out_before[pos + j]@);
                    }
                    back.lemma_all_neg_filter_empty(pred);
                }
            }
        }
        i = i + 1;
    }
    assert(input.take(n as int) =~= input);
    *v = out;
}

impl FileLineMappings {
    /// No mappings yet.
    pub fn new() -> (m: FileLineMappings)
        ensures
            m@.files.len() == 0,
            m@.none.len() == 0,
            m@.interface.len() == 0,
            m@.implementation.len() == 0,
            m@.length == 0,
            m@.files_listed(),
    {
        FileLineMappings {
            files: Vec::new(),
            none: Vec::new(),
            interface: Vec::new(),
            implementation: Vec::new(),
            length: 0,
        }
    }

    /// The mappings of one section.
    pub fn get(&self, section: PreprocessSection) -> (r: &Vec<LineMapping>)
        ensures
            views(r@) == self@.section(section),
    {
        match section {
            PreprocessSection::NoSection => &self.none,
            PreprocessSection::Interface => &self.interface,
            PreprocessSection::Implementation => &self.implementation,
        }
    }

    /// The files that the mappings map to, in the order they first appeared.
    pub fn files(&self) -> (r: &Vec<String>)
        ensures
            r@.map_values(|f: String| f@) == self@.files,
    {
        &self.files
    }

    /// Adds a mapping to its section, widens the line count to its end and
    /// lists its file if no equal path is listed yet.
    pub fn push(&mut self, mapping: LineMapping)
        ensures
            final(self)@.length == if mapping.src_end_line > old(self)@.length {
                mapping.src_end_line
            } else {
                old(self)@.length
            },
            final(self)@.files == if lists_path(old(self)@.files, mapping.dst_file@) {
                old(self)@.files
            } else {
                old(self)@.files.push(mapping.dst_file@)
            },
            forall|s: PreprocessSection|
                #[trigger] final(self)@.section(s) == if s == mapping.section {
                    old(self)@.section(s).push(mapping@)
                } else {
                    old(self)@.section(s)
                },
            final(self)@ == pushed(old(self)@, mapping@),
            old(self)@.files_listed() ==> final(self)@.files_listed(),
    {
        proof {
            if old(self)@.files_listed() {
                lemma_pushed_files_listed(old(self)@, mapping@);
            }
        }
        if mapping.src_end_line > self.length {
            self.length = mapping.src_end_line;
        }
        let mut listed = false;
        let mut i: usize = 0;
        while i < self.files.len()
            invariant
                i <= self.files@.len(),
                listed == exists|j: int| 0 <= j < i && path_eq(#[trigger] self.files@[j]@, mapping.dst_file@),
            decreases self.files@.len() - i,
        {
            if same_path(self.files[i].as_str(), mapping.dst_file.as_str()) {
                listed = true;
            }
            i = i + 1;
        }
        proof {
            let fv = self.files@.map_values(|f: String| f@);
            if listed {
                let j = choose|j: int| 0 <= j < i && path_eq(#[trigger] self.files@[j]@, mapping.dst_file@);
                assert(fv[j] == self.files@[j]@);
            } else {
                assert forall|j: int| 0 <= j < fv.len() implies !path_eq(#[trigger] fv[j], mapping.dst_file@) by {
                    assert(fv[j] == self.files@[j]@);
                }
            }
        }
        if !listed {
            let ghost before = self.files@;
            self.files.push(mapping.dst_file.clone());
            assert(self.files@.map_values(|f: String| f@) =~= before.map_values(|f: String| f@).push(mapping.dst_file@));
        }
        let ghost mv = mapping@;
        match mapping.section {
            PreprocessSection::NoSection => {
                let ghost before = self.none@;
                self.none.push(mapping);
                assert(views(self.none@) =~= views(before).push(mv));
            },
            PreprocessSection::Interface => {
                let ghost before = self.interface@;
                self.interface.push(mapping);
                assert(views(self.interface@) =~= views(before).push(mv));
            },
            PreprocessSection::Implementation => {
                let ghost before = self.implementation@;
                self.implementation.push(mapping);
                assert(views(self.implementation@) =~= views(before).push(mv));
            },
        }
    }

    /// Sorts every section by first line, keeping blocks that start on the
    /// same line in their order.
    pub fn sort(&mut self)
        ensures
            final(self)@.files == old(self)@.files,
            final(self)@.length == old(self)@.length,
            forall|s: PreprocessSection|
                #[trigger] stable_sorted(old(self)@.section(s), final(self)@.section(s)),
            old(self)@.files_listed() ==> final(self)@.files_listed(),
    {
        sort_section(&mut self.none);
        sort_section(&mut self.interface);
        sort_section(&mut self.implementation);
        proof {
            if old(self)@.files_listed() {
                lemma_resorted_files_listed(seq![(Seq::empty(), old(self)@)], seq![(Seq::empty(), self@)]);
                assert(seq![(Seq::<char>::empty(), self@)][0].1 == self@);
            }
        }
    }

    /// The number of lines that the mappings span.
    pub fn length(&self) -> (r: u32)
        ensures
            r == self@.length,
    {
        self.length
    }
}

/// `i` is the first place in `s` where a block ends after the next one
/// starts.
pub open spec fn first_overlap(s: Seq<MappingView>, i: int) -> bool {
    &&& 0 <= i < s.len() - 1
    &&& s[i].src_end_line > s[i + 1].src_line
    &&& forall|j: int| 0 <= j < i ==> #[trigger] s[j].src_end_line <= s[j + 1].src_line
}

/// The first index of `v` whose block overlaps the next one, if any.
fn check_section(v: &Vec<LineMapping>) -> (r: Result<(), usize>)
    ensures
        match r {
            Ok(()) => non_overlapping(views(v@)),
            Err(i) => first_overlap(views(v@), i as int),
        },
{
    let n = v.len();
    if n == 0 {
        return Ok(());
    }
    let mut i: usize = 0;
    while i < n - 1
        invariant
            n == v@.len(),
            n > 0,
            i <= v@.len(),
            forall|j: int| 0 <= j < i && j < v@.len() - 1 ==> #[trigger] views(v@)[j].src_end_line
                <= views(v@)[j + 1].src_line,
        decreases v@.len() - i,
    {
        assert(views(v@)[i as int] == v@[i as int]@);
        assert(views(v@)[i + 1] == v@[i + 1]@);
        if v[i].src_end_line > v[i + 1].src_line {
            return Err(i);
        }
        i = i + 1;
    }
    Ok(())
}

impl FileLineMappings {
    /// Collects mappings, in order, as [`FileLineMappings::push`] adds them.
    pub fn from_mappings(mappings: Vec<LineMapping>) -> (m: FileLineMappings)
        ensures
            m@ == collected(views(mappings@)),
            m@.files_listed(),
    {
        proof {
            lemma_collected_files_listed(views(mappings@));
        }
        let mut m = Self::new();
        let mut rest = mappings;
        let ghost all = views(rest@);
        let ghost mut done: int = 0;
        assert(collected(all.take(0)) == m@) by {
            assert(all.take(0) =~= Seq::<MappingView>::empty());
            assert(m@.files =~= Seq::<Seq<char>>::empty());
            assert(m@.none =~= Seq::<MappingView>::empty());
            assert(m@.interface =~= Seq::<MappingView>::empty());
            assert(m@.implementation =~= Seq::<MappingView>::empty());
        }
        while rest.len() > 0
            invariant
                0 <= done <= all.len(),
                views(rest@) == all.skip(done),
                rest@.len() == all.len() - done,
                m@ == collected(all.take(done)),
            decreases rest@.len(),
        {
            assert(views(rest@)[0] == rest@[0]@);
            let ghost old_rest = rest@;
            let x = rest.remove(0);
            let ghost xv = x@;
            m.push(x);
            proof {
                assert(all.take(done + 1).drop_last() =~= all.take(done));
                assert(all.take(done + 1).last() == xv);
                assert(m@ =~= pushed(collected(all.take(done)), xv));
                assert forall|j: int| 0 <= j < rest@.len() implies views(rest@)[j] == all.skip(
                    done + 1,
                )[j] by {
                    assert(rest@[j] == old_rest[j + 1]);
                    assert(views(old_rest)[j + 1] == all.skip(done)[j + 1]);
                }
                assert(views(rest@) =~= all.skip(done + 1));
                done = done + 1;
            }
        }
        assert(all.take(done) =~= all);
        m
    }

    /// The first overlap of two consecutive blocks, looking at the sections
    /// in the order none, interface, implementation: its section and the
    /// index of its first block. `Ok` where no section has one.
    pub fn check(&self) -> (r: Result<(), (PreprocessSection, usize)>)
        ensures
            match r {
                Ok(()) => self@.disjoint(),
                Err((sec, i)) => self@.first_overlap_in(sec, i as int),
            },
    {
        match check_section(&self.none) {
            Err(i) => {
                return Err((PreprocessSection::NoSection, i));
            },
            Ok(()) => {},
        }
        match check_section(&self.interface) {
            Err(i) => {
                return Err((PreprocessSection::Interface, i));
            },
            Ok(()) => {},
        }
        match check_section(&self.implementation) {
            Err(i) => Err((PreprocessSection::Implementation, i)),
            Ok(()) => Ok(()),
        }
    }
}

/// The mappings after [`FileLineMappings::push`] adds `m` to `v`.
pub open spec fn pushed(v: FileMappingsView, m: MappingView) -> FileMappingsView {
    FileMappingsView {
        files: if lists_path(v.files, m.dst_file) {
            v.files
        } else {
            v.files.push(m.dst_file)
        },
        none: if m.section == PreprocessSection::NoSection {
            v.none.push(m)
        } else {
            v.none
        },
        interface: if m.section == PreprocessSection::Interface {
            v.interface.push(m)
        } else {
            v.interface
        },
        implementation: if m.section == PreprocessSection::Implementation {
            v.implementation.push(m)
        } else {
            v.implementation
        },
        length: if m.src_end_line > v.length {
            m.src_end_line
        } else {
            v.length
        },
    }
}

/// The mappings that pushing each of `s` in order onto no mappings gives.
pub open spec fn collected(s: Seq<MappingView>) -> FileMappingsView
    decreases s.len(),
{
    if s.len() == 0 {
        FileMappingsView {
            files: seq![],
            none: seq![],
            interface: seq![],
            implementation: seq![],
            length: 0,
        }
    } else {
        pushed(collected(s.drop_last()), s.last())
    }
}

/// The per-file mappings of one direction, keyed by path.
pub type Table = Seq<(Seq<char>, FileMappingsView)>;

/// Entry `i` is the first whose path equals `p`.
pub open spec fn is_entry_of(t: Table, p: Seq<char>, i: int) -> bool {
    &&& 0 <= i < t.len()
    &&& path_eq(t[i].0, p)
    &&& forall|j: int| 0 <= j < i ==> !path_eq(#[trigger] t[j].0, p)
}

/// The mappings stored under a path equal to `p`, if any.
pub open spec fn lookup(t: Table, p: Seq<char>) -> Option<FileMappingsView> {
    if exists|i: int| is_entry_of(t, p, i) {
        Some(t[choose|i: int| is_entry_of(t, p, i)].1)
    } else {
        None
    }
}

/// The table after storing `v` under `p`, as `HashMap::insert` does: an
/// entry under an equal path gets the new mappings, else a new entry is added.
pub open spec fn inserted(t: Table, p: Seq<char>, v: FileMappingsView) -> Table {
    if exists|i: int| is_entry_of(t, p, i) {
        let i = choose|i: int| is_entry_of(t, p, i);
        t.update(i, (t[i].0, v))
    } else {
        t.push((p, v))
    }
}

/// The table after `m` is pushed to the mappings under `p`, which start out
/// empty if `p` has no entry yet.
pub open spec fn pushed_under(t: Table, p: Seq<char>, m: MappingView) -> Table {
    if exists|i: int| is_entry_of(t, p, i) {
        let i = choose|i: int| is_entry_of(t, p, i);
        t.update(i, (t[i].0, pushed(t[i].1, m)))
    } else {
        t.push((p, pushed(collected(seq![]), m)))
    }
}

/// The first entry that matches is unique.
pub proof fn lemma_entry_unique(t: Table, p: Seq<char>, i: int, j: int)
    requires
        is_entry_of(t, p, i),
        is_entry_of(t, p, j),
    ensures
        i == j,
{
    if i < j {
        assert(!path_eq(t[i].0, p));
    } else if j < i {
        assert(!path_eq(t[j].0, p));
    }
}

/// `u` is `t` with every section of every file stably sorted by first
/// line: the same paths, files and line counts, in the same order.
pub open spec fn table_resorted(t: Table, u: Table) -> bool {
    &&& u.len() == t.len()
    &&& forall|i: int|
        0 <= i < t.len() ==> {
            &&& (#[trigger] u[i]).0 == t[i].0
            &&& u[i].1.files == t[i].1.files
            &&& u[i].1.length == t[i].1.length
            &&& forall|s: PreprocessSection| #[trigger] stable_sorted(t[i].1.section(s), u[i].1.section(s))
        }
}

/// Every section of every file is sorted.
pub open spec fn table_sorted(t: Table) -> bool {
    forall|i: int| 0 <= i < t.len() ==> (#[trigger] t[i]).1.sorted()
}

/// Every block of every file fits.
pub open spec fn table_fits(t: Table) -> bool {
    forall|i: int| 0 <= i < t.len() ==> (#[trigger] t[i]).1.fits()
}

/// No section of any file has overlapping blocks.
pub open spec fn table_disjoint(t: Table) -> bool {
    forall|i: int| 0 <= i < t.len() ==> (#[trigger] t[i]).1.disjoint()
}

/// The first overlap in `t`, looking at the files in their order, is in
/// the file of entry `k`, at index `i` of section `sec`.
pub open spec fn table_first_overlap(t: Table, k: int, sec: PreprocessSection, i: int) -> bool {
    &&& 0 <= k < t.len()
    &&& forall|j: int| 0 <= j < k ==> (#[trigger] t[j]).1.disjoint()
    &&& t[k].1.first_overlap_in(sec, i)
}

/// The first overlap in `t` is in the file stored under `p`, at index `i`
/// of section `sec`.
pub open spec fn overlap_at(t: Table, p: Seq<char>, sec: PreprocessSection, i: int) -> bool {
    exists|k: int| #[trigger] table_first_overlap(t, k, sec, i) && t[k].0 == p
}

/// The per-file mappings of one direction.
#[derive(Debug)]
pub struct LineMappings {
    entries: Vec<(String, FileLineMappings)>,
}

impl View for LineMappings {
    type V = Table;

    closed spec fn view(&self) -> Table {
        self.entries@.map_values(|e: (String, FileLineMappings)| (e.0@, e.1@))
    }
}

impl LineMappings {
    /// No files.
    pub fn new() -> (r: LineMappings)
        ensures
            r@.len() == 0,
    {
        LineMappings { entries: Vec::new() }
    }

    /// The index of the first entry whose path equals `path`.
    fn index_of(&self, path: &str) -> (r: Option<usize>)
        ensures
            match r {
                Some(i) => is_entry_of(self@, path@, i as int),
                None => !exists|i: int| is_entry_of(self@, path@, i),
            },
    {
        let mut i: usize = 0;
        while i < self.entries.len()
            invariant
                i <= self.entries@.len(),
                forall|j: int| 0 <= j < i ==> !path_eq(#[trigger] self@[j].0, path@),
            decreases self.entries@.len() - i,
        {
            assert(self@[i as int].0 == self.entries@[i as int].0@);
            if same_path(self.entries[i].0.as_str(), path) {
                return Some(i);
            }
            i = i + 1;
        }
        proof {
            assert forall|k: int| !is_entry_of(self@, path@, k) by {
                if 0 <= k < self@.len() {
                    assert(!path_eq(self@[k].0, path@));
                }
            }
        }
        None
    }

    /// The mappings stored under a path equal to `path`.
    pub fn get(&self, path: &str) -> (r: Option<&FileLineMappings>)
        ensures
            match r {
                Some(f) => lookup(self@, path@) == Some(f@),
                None => lookup(self@, path@) is None,
            },
    {
        match self.index_of(path) {
            Some(i) => {
                assert(self@[i as int].1 == self.entries@[i as int].1@);
                Some(&self.entries[i].1)
            },
            None => None,
        }
    }

    /// Stores `value` under `path`; an entry under an equal path keeps its
    /// path and gets the new mappings.
    pub fn insert(&mut self, path: String, value: FileLineMappings)
        ensures
            final(self)@ == inserted(old(self)@, path@, value@),
    {
        match self.index_of(path.as_str()) {
            Some(i) => {
                let ghost t = self@;
                let (key, _old) = self.entries.remove(i);
                let ghost kv = key@;
                self.entries.insert(i, (key, value));
                proof {
                    let j = choose|j: int| is_entry_of(t, path@, j);
                    lemma_entry_unique(t, path@, i as int, j);
                    assert(t[i as int].0 == kv);
                    assert(self@ =~= t.update(i as int, (kv, value@)));
                }
            },
            None => {
                let ghost t = self@;
                let ghost pv = path@;
                let ghost vv = value@;
                self.entries.push((path, value));
                assert(self@ =~= t.push((pv, vv)));
            },
        }
    }

    /// Pushes `mapping` to the mappings under `path`, adding an entry with
    /// no mappings first if there is none.
    pub fn push_under(&mut self, path: &String, mapping: LineMapping)
        ensures
            final(self)@ == pushed_under(old(self)@, path@, mapping@),
    {
        let ghost t = self@;
        let ghost mv = mapping@;
        let i = match self.index_of(path.as_str()) {
            Some(i) => i,
            None => {
                let f = FileLineMappings::new();
                assert(f@ == collected(seq![])) by {
                    assert(f@.files =~= Seq::<Seq<char>>::empty());
                    assert(f@.none =~= Seq::<MappingView>::empty());
                    assert(f@.interface =~= Seq::<MappingView>::empty());
                    assert(f@.implementation =~= Seq::<MappingView>::empty());
                }
                self.entries.push((path.clone(), f));
                self.entries.len() - 1
            },
        };
        let ghost mid = self@;
        let (key, mut f) = self.entries.remove(i);
        let ghost kv = key@;
        let ghost fv = f@;
        f.push(mapping);
        self.entries.insert(i, (key, f));
        proof {
            assert(mid[i as int] == (kv, fv));
            assert(self@ =~= mid.update(i as int, (kv, pushed(fv, mv))));
            if exists|j: int| is_entry_of(t, path@, j) {
                let j = choose|j: int| is_entry_of(t, path@, j);
                assert(mid == t);
                lemma_entry_unique(t, path@, i as int, j);
            } else {
                assert(mid =~= t.push((path@, collected(seq![]))));
                assert(self@ =~= t.push((path@, pushed(collected(seq![]), mv))));
            }
        }
    }

    /// Sorts every section of every file.
    pub fn sort(&mut self)
        ensures
            table_resorted(old(self)@, final(self)@),
            table_sorted(final(self)@),
    {
        let ghost t = self@;
        let n = self.entries.len();
        let mut i: usize = 0;
        while i < n
            invariant
                n == t.len(),
                self@.len() == n,
                i <= n,
                forall|j: int| i <= j < n ==> #[trigger] self@[j] == t[j],
                forall|j: int|
                    0 <= j < i ==> {
                        &&& (#[trigger] self@[j]).0 == t[j].0
                        &&& self@[j].1.files == t[j].1.files
                        &&& self@[j].1.length == t[j].1.length
                        &&& forall|s: PreprocessSection|
                            #[trigger] stable_sorted(t[j].1.section(s), self@[j].1.section(s))
                    },
            decreases n - i,
        {
            let ghost before = self@;
            let ghost before_e = self.entries@;
            let (key, mut f) = self.entries.remove(i);
            let ghost kv = key@;
            let ghost fv = f@;
            f.sort();
            self.entries.insert(i, (key, f));
            proof {
                assert(self.entries@ =~= before_e.update(i as int, self.entries@[i as int]));
                assert(before[i as int] == (kv, fv));
                assert forall|j: int| 0 <= j < n && j != i implies #[trigger] self@[j] == before[j] by {
                    assert(self.entries@[j] == before_e[j]);
                }
            }
            i = i + 1;
        }
        assert forall|j: int| 0 <= j < self@.len() implies (#[trigger] self@[j]).1.sorted() by {
            assert(stable_sorted(t[j].1.section(PreprocessSection::NoSection), self@[j].1.section(PreprocessSection::NoSection)));
            assert(stable_sorted(t[j].1.section(PreprocessSection::Interface), self@[j].1.section(PreprocessSection::Interface)));
            assert(stable_sorted(t[j].1.section(PreprocessSection::Implementation), self@[j].1.section(PreprocessSection::Implementation)));
        }
    }
}

impl LineMappings {
    /// The first overlap of two consecutive blocks, looking at the files in
    /// their order and within each as [`FileLineMappings::check`] does: the
    /// file's path, the section and the index of its first block. `Ok` where
    /// no file has one.
    pub fn check(&self) -> (r: Result<(), (String, PreprocessSection, usize)>)
        ensures
            r is Ok <==> table_disjoint(self@),
            r matches Err((p, sec, i)) ==> overlap_at(self@, p@, sec, i as int),
    {
        let mut i: usize = 0;
        while i < self.entries.len()
            invariant
                i <= self.entries@.len(),
                forall|j: int| 0 <= j < i ==> (#[trigger] self@[j]).1.disjoint(),
            decreases self.entries@.len() - i,
        {
            assert(self@[i as int] == (self.entries@[i as int].0@, self.entries@[i as int].1@));
            match self.entries[i].1.check() {
                Err((sec, j)) => {
                    let p = self.entries[i].0.clone();
                    assert(table_first_overlap(self@, i as int, sec, j as int));
                    return Err((p, sec, j));
                },
                Ok(()) => {},
            }
            i = i + 1;
        }
        Ok(())
    }
}

/// `p` splits `s` into the blocks that start at or before `line` and those
/// that start after it.
pub open spec fn split_at_line(s: Seq<MappingView>, line: u32, p: int) -> bool {
    &&& 0 <= p <= s.len()
    &&& forall|i: int| 0 <= i < p ==> (#[trigger] s[i]).src_line <= line
    &&& forall|i: int| p <= i < s.len() ==> (#[trigger] s[i]).src_line > line
}

/// In a sorted section: the last block that starts at or before `line`,
/// if it covers `line`.
pub open spec fn block_for(s: Seq<MappingView>, line: u32) -> Option<MappingView> {
    let p = choose|p: int| split_at_line(s, line, p);
    if p > 0 && s[p - 1].covers(line) {
        Some(s[p - 1])
    } else {
        None
    }
}

/// A sorted section is split at exactly one point.
pub proof fn lemma_split_unique(s: Seq<MappingView>, line: u32, p: int, q: int)
    requires
        split_at_line(s, line, p),
        split_at_line(s, line, q),
    ensures
        p == q,
{
    if p < q {
        assert(s[p].src_line > line);
        assert(s[p].src_line <= line);
    } else if q < p {
        assert(s[q].src_line > line);
        assert(s[q].src_line <= line);
    }
}

/// The block that covers `line` of the file at `path`, searched in one section.
pub open spec fn find_block(t: Table, path: Seq<char>, line: u32, section: PreprocessSection) -> Option<
    MappingView,
> {
    match lookup(t, path) {
        None => None,
        Some(f) => block_for(f.section(section), line),
    }
}

/// The block used to map `line` of `path`: implementation blocks first, then
/// interface blocks, then the others.
pub open spec fn map_block(t: Table, path: Seq<char>, line: u32) -> Option<MappingView> {
    match find_block(t, path, line, PreprocessSection::Implementation) {
        Some(m) => Some(m),
        None => match find_block(t, path, line, PreprocessSection::Interface) {
            Some(m) => Some(m),
            None => find_block(t, path, line, PreprocessSection::NoSection),
        },
    }
}

/// The files of the blocks that meet the lines `start..=end`: implementation
/// blocks first, then interface blocks, then the others.
pub open spec fn files_in_range(t: Table, path: Seq<char>, start: u32, end: u32) -> Seq<Seq<char>> {
    match lookup(t, path) {
        None => seq![],
        Some(f) => {
            files_meeting(f.implementation, start, end) + files_meeting(f.interface, start, end)
                + files_meeting(f.none, start, end)
        },
    }
}

/// The files of the blocks of `s` that meet the lines `start..=end`, in order.
pub open spec fn files_meeting(s: Seq<MappingView>, start: u32, end: u32) -> Seq<Seq<char>>
    decreases s.len(),
{
    if s.len() == 0 {
        seq![]
    } else if s.last().meets(start, end) {
        files_meeting(s.drop_last(), start, end).push(s.last().dst_file)
    } else {
        files_meeting(s.drop_last(), start, end)
    }
}

/// `s` with every path dropped that equals one kept before it (a `HashSet`
/// of paths, in order of insertion).
pub open spec fn dedup_paths(s: Seq<Seq<char>>) -> Seq<Seq<char>>
    decreases s.len(),
{
    if s.len() == 0 {
        seq![]
    } else {
        let d = dedup_paths(s.drop_last());
        if lists_path(d, s.last()) {
            d
        } else {
            d.push(s.last())
        }
    }
}

/// Which way to map locations.
#[derive(Clone, Copy, Debug, PartialEq, Eq, Structural)]
pub enum MapDirection {
    ToPreprocess,
    FromPreprocess,
}

/// A line and column in a file.
#[derive(Debug)]
pub struct SourceLocation {
    pub path: String,
    pub line: u32,
    pub character: u32,
}

/// The mappings of a [`FiascoSourceMapping`], in both directions.
pub struct SourceMappingView {
    pub to_preprocess: Table,
    pub from_preprocess: Table,
}

impl SourceMappingView {
    /// The mappings of one direction.
    pub open spec fn table(self, direction: MapDirection) -> Table {
        match direction {
            MapDirection::ToPreprocess => self.to_preprocess,
            MapDirection::FromPreprocess => self.from_preprocess,
        }
    }

    /// Every block fits, in both directions.
    pub open spec fn fits(self) -> bool {
        table_fits(self.to_preprocess) && table_fits(self.from_preprocess)
    }

    /// Every section is sorted, in both directions.
    pub open spec fn sorted(self) -> bool {
        table_sorted(self.to_preprocess) && table_sorted(self.from_preprocess)
    }
}

/// Line mappings from Fiasco sources to the preprocessed files and back.
#[derive(Debug)]
pub struct FiascoSourceMapping {
    to_preprocess: LineMappings,
    from_preprocess: LineMappings,
}

impl View for FiascoSourceMapping {
    type V = SourceMappingView;

    closed spec fn view(&self) -> SourceMappingView {
        SourceMappingView { to_preprocess: self.to_preprocess@, from_preprocess: self.from_preprocess@ }
    }
}

/// The first index in a sorted section whose block starts after `line`.
fn partition_point(s: &Vec<LineMapping>, line: u32) -> (p: usize)
    requires
        sorted_by_start(views(s@)),
    ensures
        split_at_line(views(s@), line, p as int),
{
    let ghost v = views(s@);
    let mut lo: usize = 0;
    let mut hi: usize = s.len();
    while lo < hi
        invariant
            v == views(s@),
            sorted_by_start(v),
            lo <= hi <= s@.len(),
            forall|i: int| 0 <= i < lo ==> (#[trigger] v[i]).src_line <= line,
            forall|i: int| hi <= i < v.len() ==> (#[trigger] v[i]).src_line > line,
        decreases hi - lo,
    {
        let mid = lo + (hi - lo) / 2;
        assert(v[mid as int] == s@[mid as int]@);
        if line >= s[mid].src_line {
            assert forall|i: int| 0 <= i < mid + 1 implies (#[trigger] v[i]).src_line <= line by {
                assert(v[i].src_line <= v[mid as int].src_line);
            }
            lo = mid + 1;
        } else {
            assert forall|i: int| mid <= i < v.len() implies (#[trigger] v[i]).src_line > line by {
                assert(v[mid as int].src_line <= v[i].src_line);
            }
            hi = mid;
        }
    }
    lo
}

impl FiascoSourceMapping {
    /// Every block fits, and the file of every block is listed, in both
    /// directions.
    #[verifier::type_invariant]
    spec fn well_formed(self) -> bool {
        self@.fits() && self@.files_listed()
    }

    /// No mappings.
    pub fn new() -> (r: FiascoSourceMapping)
        ensures
            r@.to_preprocess.len() == 0,
            r@.from_preprocess.len() == 0,
            mirrored(r@),
            r@.files_listed(),
    {
        FiascoSourceMapping { to_preprocess: LineMappings::new(), from_preprocess: LineMappings::new() }
    }

    /// The mappings of one direction.
    pub fn get(&self, direction: MapDirection) -> (r: &LineMappings)
        ensures
            r@ == self@.table(direction),
    {
        match direction {
            MapDirection::ToPreprocess => &self.to_preprocess,
            MapDirection::FromPreprocess => &self.from_preprocess,
        }
    }

    /// The block of `path` in `section` that covers `line`.
    fn find_mapping<'a>(
        line_mappings: &'a LineMappings,
        path: &str,
        line: u32,
        section: PreprocessSection,
    ) -> (r: Option<&'a LineMapping>)
        requires
            table_sorted(line_mappings@),
        ensures
            match r {
                Some(m) => find_block(line_mappings@, path@, line, section) == Some(m@),
                None => find_block(line_mappings@, path@, line, section) is None,
            },
    {
        match line_mappings.get(path) {
            None => None,
            Some(mappings) => {
                proof {
                    let i = choose|i: int| is_entry_of(line_mappings@, path@, i);
                    assert(line_mappings@[i].1.sorted());
                }
                let s = mappings.get(section);
                let index = partition_point(s, line);
                proof {
                    let p = choose|p: int| split_at_line(views(s@), line, p);
                    lemma_split_unique(views(s@), line, p, index as int);
                }
                if index > 0 {
                    let mapping = &s[index - 1];
                    assert(views(s@)[index - 1] == mapping@);
                    if mapping.contains(line) {
                        Some(mapping)
                    } else {
                        None
                    }
                } else {
                    None
                }
            },
        }
    }

    /// Maps a location in `path` in the given direction: the line moves by
    /// the block that covers it, the column stays.  `None` when no block
    /// covers the line.
    pub fn map(&self, direction: MapDirection, path: &str, line: u32, character: u32) -> (r: Option<
        SourceLocation,
    >)
        requires
            self@.sorted(),
            self@.fits(),
        ensures
            match (r, map_block(self@.table(direction), path@, line)) {
                (Some(loc), Some(m)) => {
                    &&& loc.path@ == m.dst_file
                    &&& loc.line == m.translate(line)
                    &&& loc.character == character
                },
                (None, None) => true,
                _ => false,
            },
            r matches Some(loc) ==> (lookup(self@.table(direction), path@) matches Some(f) && holds_path(
                f.files,
                loc.path@,
            )),
    {
        proof {
            use_type_invariant(self);
            lemma_mapped_file_listed(self@.table(direction), path@, line);
        }
        let line_mappings = self.get(direction);
        let found = match Self::find_mapping(
            line_mappings,
            path,
            line,
            PreprocessSection::Implementation,
        ) {
            Some(m) => Some(m),
            None => match Self::find_mapping(line_mappings, path, line, PreprocessSection::Interface) {
                Some(m) => Some(m),
                None => Self::find_mapping(line_mappings, path, line, PreprocessSection::NoSection),
            },
        };
        match found {
            None => None,
            Some(mapping) => {
                proof {
                    let t = line_mappings@;
                    let sec = mapping@.section;
                    let f = lookup(t, path@).unwrap();
                    let i = choose|i: int| is_entry_of(t, path@, i);
                    assert(t[i].1.fits());
                    lemma_block_for_member(f.implementation, line);
                    lemma_block_for_member(f.interface, line);
                    lemma_block_for_member(f.none, line);
                }
                Some(
                    SourceLocation {
                        path: mapping.dst_file.clone(),
                        line: mapping.dst_line + (line - mapping.src_line),
                        character,
                    },
                )
            },
        }
    }

    /// The files that the mappings of `path` map to.
    pub fn map_files(&self, direction: MapDirection, path: &str) -> (r: &[String])
        ensures
            match lookup(self@.table(direction), path@) {
                None => r@.len() == 0,
                Some(f) => r@.map_values(|s: String| s@) == f.files,
            },
    {
        match self.get(direction).get(path) {
            None => &[],
            Some(mappings) => mappings.files().as_slice(),
        }
    }

    /// The files that the blocks of `path` meeting the lines `start..=end`
    /// map to, each path once.
    pub fn map_files_with_range(&self, direction: MapDirection, path: &str, start: u32, end: u32) -> (r:
        Vec<String>)
        ensures
            r@.map_values(|s: String| s@) == dedup_paths(
                files_in_range(self@.table(direction), path@, start, end),
            ),
            forall|k: int|
                0 <= k < r@.len() ==> (lookup(self@.table(direction), path@) matches Some(f) && holds_path(
                    f.files,
                    #[trigger] r@[k]@,
                )),
    {
        proof {
            use_type_invariant(self);
            lemma_range_files_listed(self@.table(direction), path@, start, end);
        }
        let mut out: Vec<String> = Vec::new();
        match self.get(direction).get(path) {
            None => {
                assert(out@.map_values(|s: String| s@) =~= dedup_paths(seq![]));
            },
            Some(mappings) => {
                let ghost f = mappings@;
                let ghost s0: Seq<Seq<char>> = Seq::empty();
                assert(out@.map_values(|s: String| s@) =~= dedup_paths(s0));
                Self::collect_files(mappings.get(PreprocessSection::Implementation), start, end, &mut out, Ghost(s0));
                assert(s0 + files_meeting(f.implementation, start, end) =~= files_meeting(
                    f.implementation,
                    start,
                    end,
                ));
                let ghost s1 = files_meeting(f.implementation, start, end);
                Self::collect_files(mappings.get(PreprocessSection::Interface), start, end, &mut out, Ghost(s1));
                let ghost s2 = s1 + files_meeting(f.interface, start, end);
                Self::collect_files(mappings.get(PreprocessSection::NoSection), start, end, &mut out, Ghost(s2));
            },
        }
        proof {
            let d = dedup_paths(files_in_range(self@.table(direction), path@, start, end));
            assert forall|k: int| 0 <= k < out@.len() implies (lookup(self@.table(direction), path@) matches Some(f)
                && holds_path(f.files, #[trigger] out@[k]@)) by {
                assert(out@.map_values(|s: String| s@)[k] == out@[k]@);
                assert(d[k] == out@[k]@);
                assert(d.contains(out@[k]@));
            }
        }
        out
    }

    /// Adds the files of the blocks of `s` that meet `start..=end` to `out`,
    /// skipping paths that `out` already holds.
    fn collect_files(
        s: &Vec<LineMapping>,
        start: u32,
        end: u32,
        out: &mut Vec<String>,
        Ghost(prior): Ghost<Seq<Seq<char>>>,
    )
        requires
            old(out)@.map_values(|x: String| x@) == dedup_paths(prior),
        ensures
            final(out)@.map_values(|x: String| x@) == dedup_paths(
                prior + files_meeting(views(s@), start, end),
            ),
    {
        let mut i: usize = 0;
        while i < s.len()
            invariant
                i <= s@.len(),
                out@.map_values(|x: String| x@) == dedup_paths(prior + files_meeting(views(s@).take(i as int), start, end)),
            decreases s@.len() - i,
        {
            let ghost before = out@;
            let ghost v = views(s@);
            assert(v[i as int] == s@[i as int]@);
            assert(v.take(i + 1).drop_last() =~= v.take(i as int));
            if s[i].overlaps(start, end) {
                let f = &s[i].dst_file;
                assert(files_meeting(v.take(i + 1), start, end) == files_meeting(v.take(i as int), start, end).push(f@));
                assert(prior + files_meeting(v.take(i + 1), start, end) =~= (prior + files_meeting(v.take(i as int), start, end)).push(f@));
                let mut listed = false;
                let mut k: usize = 0;
                while k < out.len()
                    invariant
                        k <= out@.len(),
                        out@ == before,
                        listed == exists|j: int| 0 <= j < k && path_eq(#[trigger] out@[j]@, f@),
                    decreases out@.len() - k,
                {
                    if same_path(out[k].as_str(), f.as_str()) {
                        listed = true;
                    }
                    k = k + 1;
                }
                proof {
                    let d = before.map_values(|x: String| x@);
                    let xs = prior + files_meeting(v.take(i as int), start, end);
                    assert(xs.push(f@).drop_last() =~= xs);
                    assert(xs.push(f@).last() == f@);
                    if listed {
                        let j = choose|j: int| 0 <= j < k && path_eq(#[trigger] out@[j]@, f@);
                        assert(d[j] == out@[j]@);
                    } else {
                        assert forall|j: int| 0 <= j < d.len() implies !path_eq(#[trigger] d[j], f@) by {
                            assert(d[j] == out@[j]@);
                        }
                    }
                }
                if !listed {
                    out.push(f.clone());
                    assert(out@.map_values(|x: String| x@) =~= before.map_values(|x: String| x@).push(f@));
                }
            } else {
                assert(files_meeting(v.take(i + 1), start, end) == files_meeting(v.take(i as int), start, end));
            }
            i = i + 1;
        }
        assert(views(s@).take(s@.len() as int) =~= views(s@));
    }

    /// The number of lines that the mappings of `path` span.
    pub fn file_length(&self, direction: MapDirection, path: &str) -> (r: Option<u32>)
        ensures
            match lookup(self@.table(direction), path@) {
                None => r is None,
                Some(f) => r == Some(f.length),
            },
    {
        match self.get(direction).get(path) {
            None => None,
            Some(m) => Some(m.length()),
        }
    }

    /// Sorts every section of every file, in both directions, keeping
    /// blocks that start on the same line in their order.
    pub fn sort(&mut self)
        ensures
            final(self)@.sorted(),
            table_resorted(old(self)@.to_preprocess, final(self)@.to_preprocess),
            table_resorted(old(self)@.from_preprocess, final(self)@.from_preprocess),
            old(self)@.fits() ==> final(self)@.fits(),
            mirrored(old(self)@) ==> mirrored(final(self)@),
            old(self)@.files_listed() ==> final(self)@.files_listed(),
    {
        proof {
            use_type_invariant(&*self);
        }
        let ghost t0 = self@.to_preprocess;
        let ghost f0 = self@.from_preprocess;
        let mut to = LineMappings::new();
        std::mem::swap(&mut to, &mut self.to_preprocess);
        assert(to@ == t0);
        to.sort();
        proof {
            lemma_resorted_files_listed(t0, to@);
            lemma_resorted_fits(t0, to@);
        }
        self.to_preprocess = to;
        let mut from = LineMappings::new();
        std::mem::swap(&mut from, &mut self.from_preprocess);
        assert(from@ == f0);
        from.sort();
        proof {
            lemma_resorted_files_listed(f0, from@);
            lemma_resorted_fits(f0, from@);
        }
        self.from_preprocess = from;
        proof {
            if mirrored(old(self)@) {
                lemma_sort_mirrored(old(self)@, self@);
            }
        }
    }

    /// The first overlap of two consecutive blocks, looking first at the
    /// mappings into the preprocessed files and then at those back, each as
    /// [`LineMappings::check`] does: the direction, the file's path, the
    /// section and the index of its first block. `Ok` where there is none.
    pub fn check(&self) -> (r: Result<(), (MapDirection, String, PreprocessSection, usize)>)
        ensures
            r is Ok <==> table_disjoint(self@.to_preprocess) && table_disjoint(self@.from_preprocess),
            r matches Err((d, p, sec, i)) ==> overlap_at(self@.table(d), p@, sec, i as int),
            r matches Err((d, _, _, _)) ==> (d == MapDirection::FromPreprocess ==> table_disjoint(
                self@.to_preprocess,
            )),
    {
        match self.to_preprocess.check() {
            Err((p, sec, i)) => {
                assert(self@.table(MapDirection::ToPreprocess) == self.to_preprocess@);
                return Err((MapDirection::ToPreprocess, p, sec, i));
            },
            Ok(()) => {},
        }
        assert(self@.table(MapDirection::FromPreprocess) == self.from_preprocess@);
        match self.from_preprocess.check() {
            Err((p, sec, i)) => Err((MapDirection::FromPreprocess, p, sec, i)),
            Ok(()) => Ok(()),
        }
    }
}

/// A sorted section can be split at any line.
pub proof fn lemma_split_exists(s: Seq<MappingView>, line: u32)
    requires
        sorted_by_start(s),
    ensures
        exists|p: int| split_at_line(s, line, p),
    decreases s.len(),
{
    if s.len() == 0 {
        assert(split_at_line(s, line, 0));
    } else {
        let d = s.drop_last();
        assert(sorted_by_start(d)) by {
            assert forall|i: int, j: int| 0 <= i <= j < d.len() implies d[i].src_line
                <= d[j].src_line by {
                assert(d[i] == s[i] && d[j] == s[j]);
            }
        }
        lemma_split_exists(d, line);
        let q = choose|q: int| split_at_line(d, line, q);
        if s.last().src_line <= line {
            assert forall|i: int| 0 <= i < s.len() implies (#[trigger] s[i]).src_line <= line by {
                assert(s[i].src_line <= s[s.len() - 1].src_line);
            }
            assert(split_at_line(s, line, s.len() as int));
        } else {
            assert forall|i: int| 0 <= i < q implies (#[trigger] s[i]).src_line <= line by {
                assert(s[i] == d[i]);
            }
            assert forall|i: int| q <= i < s.len() implies (#[trigger] s[i]).src_line > line by {
                if i < s.len() - 1 {
                    assert(s[i] == d[i]);
                }
            }
            assert(split_at_line(s, line, q));
        }
    }
}

/// A block that `block_for` picks is one of the section's blocks.
pub proof fn lemma_block_for_member(s: Seq<MappingView>, line: u32)
    requires
        sorted_by_start(s),
    ensures
        block_for(s, line) matches Some(m) ==> exists|i: int| 0 <= i < s.len() && s[i] == m,
{
    lemma_split_exists(s, line);
    let p = choose|p: int| split_at_line(s, line, p);
    if p > 0 && s[p - 1].covers(line) {
        assert(0 <= p - 1 < s.len());
    }
}

/// Every block of `s` fits.
pub open spec fn all_fit(s: Seq<MappingView>) -> bool {
    forall|i: int| 0 <= i < s.len() ==> (#[trigger] s[i]).fits()
}

/// The table after the reversal of each block of `ms` is pushed under the
/// file that the block maps to, in order.
pub open spec fn reverse_all(t: Table, ms: Seq<MappingView>, path: Seq<char>) -> Table
    decreases ms.len(),
{
    if ms.len() == 0 {
        t
    } else {
        pushed_under(reverse_all(t, ms.drop_last(), path), ms.last().dst_file, ms.last().reversed(path))
    }
}

/// Pushing a block that fits keeps every block fitting.
pub proof fn lemma_pushed_fits(v: FileMappingsView, m: MappingView)
    requires
        v.fits(),
        m.fits(),
    ensures
        pushed(v, m).fits(),
{
    let w = pushed(v, m);
    assert forall|i: int| 0 <= i < w.none.len() implies (#[trigger] w.none[i]).fits() by {
        if i < v.none.len() {
            assert(w.none[i] == v.none[i]);
        }
    }
    assert forall|i: int| 0 <= i < w.interface.len() implies (#[trigger] w.interface[i]).fits() by {
        if i < v.interface.len() {
            assert(w.interface[i] == v.interface[i]);
        }
    }
    assert forall|i: int| 0 <= i < w.implementation.len() implies (
    #[trigger] w.implementation[i]).fits() by {
        if i < v.implementation.len() {
            assert(w.implementation[i] == v.implementation[i]);
        }
    }
}

/// Collecting blocks that all fit gives mappings whose blocks all fit.
pub proof fn lemma_collected_fits(s: Seq<MappingView>)
    requires
        all_fit(s),
    ensures
        collected(s).fits(),
    decreases s.len(),
{
    if s.len() > 0 {
        assert(all_fit(s.drop_last())) by {
            assert forall|i: int| 0 <= i < s.drop_last().len() implies (
            #[trigger] s.drop_last()[i]).fits() by {
                assert(s.drop_last()[i] == s[i]);
            }
        }
        lemma_collected_fits(s.drop_last());
        assert(s.last() == s[s.len() - 1]);
        lemma_pushed_fits(collected(s.drop_last()), s.last());
    }
}

/// Pushing a block that fits under a path keeps the table fitting.
pub proof fn lemma_pushed_under_fits(t: Table, p: Seq<char>, m: MappingView)
    requires
        table_fits(t),
        m.fits(),
    ensures
        table_fits(pushed_under(t, p, m)),
{
    let u = pushed_under(t, p, m);
    if exists|i: int| is_entry_of(t, p, i) {
        let i = choose|i: int| is_entry_of(t, p, i);
        lemma_pushed_fits(t[i].1, m);
        assert forall|j: int| 0 <= j < u.len() implies (#[trigger] u[j]).1.fits() by {
            if j != i {
                assert(u[j] == t[j]);
            }
        }
    } else {
        lemma_collected_fits(seq![]);
        lemma_pushed_fits(collected(seq![]), m);
        assert forall|j: int| 0 <= j < u.len() implies (#[trigger] u[j]).1.fits() by {
            if j < t.len() {
                assert(u[j] == t[j]);
            }
        }
    }
}

/// Reversing blocks that fit keeps the table fitting.
pub proof fn lemma_reverse_all_fits(t: Table, ms: Seq<MappingView>, path: Seq<char>)
    requires
        table_fits(t),
        all_fit(ms),
    ensures
        table_fits(reverse_all(t, ms, path)),
    decreases ms.len(),
{
    if ms.len() > 0 {
        assert(all_fit(ms.drop_last())) by {
            assert forall|i: int| 0 <= i < ms.drop_last().len() implies (
            #[trigger] ms.drop_last()[i]).fits() by {
                assert(ms.drop_last()[i] == ms[i]);
            }
        }
        lemma_reverse_all_fits(t, ms.drop_last(), path);
        assert(ms.last() == ms[ms.len() - 1]);
        lemma_pushed_under_fits(reverse_all(t, ms.drop_last(), path), ms.last().dst_file, ms.last().reversed(path));
    }
}

/// Storing mappings that fit keeps the table fitting.
pub proof fn lemma_inserted_fits(t: Table, p: Seq<char>, v: FileMappingsView)
    requires
        table_fits(t),
        v.fits(),
    ensures
        table_fits(inserted(t, p, v)),
{
    let u = inserted(t, p, v);
    if exists|i: int| is_entry_of(t, p, i) {
        let i = choose|i: int| is_entry_of(t, p, i);
        assert forall|j: int| 0 <= j < u.len() implies (#[trigger] u[j]).1.fits() by {
            if j != i {
                assert(u[j] == t[j]);
            }
        }
    } else {
        assert forall|j: int| 0 <= j < u.len() implies (#[trigger] u[j]).1.fits() by {
            if j < t.len() {
                assert(u[j] == t[j]);
            }
        }
    }
}

impl FiascoSourceMapping {
    /// Records the blocks of the preprocessed file `path`: each block,
    /// reversed, under the file it maps to, and all of them, in order, under
    /// `path`.
    pub fn add_file(&mut self, path: &str, mappings: Vec<LineMapping>)
        requires
            all_fit(views(mappings@)),
        ensures
            final(self)@.to_preprocess == reverse_all(old(self)@.to_preprocess, views(mappings@), path@),
            final(self)@.from_preprocess == inserted(
                old(self)@.from_preprocess,
                path@,
                collected(views(mappings@)),
            ),
            old(self)@.fits() ==> final(self)@.fits(),
            mirrored(old(self)@) && lookup(old(self)@.from_preprocess, path@) is None && (forall|i: int|
                0 <= i < mappings@.len() ==> path_eq(#[trigger] mappings@[i].dst_file@, mappings@[i].dst_file@))
                ==> mirrored(final(self)@),
            old(self)@.files_listed() ==> final(self)@.files_listed(),
    {
        proof {
            use_type_invariant(&*self);
        }
        let ghost ms = views(mappings@);
        let ghost t0 = self@.to_preprocess;
        let ghost f0 = self@.from_preprocess;
        let mut to = LineMappings::new();
        std::mem::swap(&mut to, &mut self.to_preprocess);
        assert(to@ == t0);
        let mut i: usize = 0;
        assert(ms.take(0) =~= Seq::<MappingView>::empty());
        while i < mappings.len()
            invariant
                ms == views(mappings@),
                all_fit(ms),
                i <= mappings@.len(),
                to@ == reverse_all(t0, ms.take(i as int), path@),
            decreases mappings@.len() - i,
        {
            let m = &mappings[i];
            assert(ms[i as int] == m@);
            assert(ms[i as int].fits());
            let reversed = LineMapping {
                section: m.section,
                src_line: m.dst_line,
                src_end_line: m.dst_line + (m.src_end_line - m.src_line),
                dst_file: path.to_owned(),
                dst_line: m.src_line,
            };
            assert(reversed@ == m@.reversed(path@));
            to.push_under(&m.dst_file, reversed);
            assert(ms.take(i + 1).drop_last() =~= ms.take(i as int));
            assert(ms.take(i + 1).last() == m@);
            i = i + 1;
        }
        assert(ms.take(mappings@.len() as int) =~= ms);
        proof {
            lemma_reverse_all_fits(t0, ms, path@);
            lemma_reverse_all_files_listed(t0, ms, path@);
        }
        self.to_preprocess = to;
        let mut from = LineMappings::new();
        std::mem::swap(&mut from, &mut self.from_preprocess);
        assert(from@ == f0);
        from.insert(path.to_owned(), FileLineMappings::from_mappings(mappings));
        proof {
            lemma_collected_fits(ms);
            lemma_inserted_fits(f0, path@, collected(ms));
            lemma_collected_files_listed(ms);
            lemma_inserted_files_listed(f0, path@, collected(ms));
        }
        self.from_preprocess = from;
        proof {
            if mirrored(old(self)@) && lookup(old(self)@.from_preprocess, path@) is None && (forall|i: int|
                0 <= i < mappings@.len() ==> path_eq(#[trigger] mappings@[i].dst_file@, mappings@[i].dst_file@)) {
                assert forall|i: int| 0 <= i < ms.len() implies path_eq(#[trigger] ms[i].dst_file, ms[i].dst_file) by {
                    assert(ms[i] == mappings@[i]@);
                    assert(path_eq(mappings@[i].dst_file@, mappings@[i].dst_file@));
                }
                lemma_add_file_mirrored(old(self)@, path@, ms);
            }
        }
    }
}

/// In a section without overlaps whose blocks all fit, a block ends no
/// later than any later block starts.
proof fn lemma_ends_before_later(s: Seq<MappingView>, a: int, b: int)
    requires
        non_overlapping(s),
        all_fit(s),
        0 <= a < b < s.len(),
    ensures
        s[a].src_end_line <= s[b].src_line,
    decreases b - a,
{
    assert(s[a].src_end_line <= s[a + 1].src_line);
    if a + 1 < b {
        assert(s[a + 1].fits());
        lemma_ends_before_later(s, a + 1, b);
    }
}

/// A sorted section without overlaps whose blocks all fit finds a block for
/// every line that one of its blocks covers, and the block it finds covers
/// the line.
pub proof fn lemma_block_for_complete(s: Seq<MappingView>, line: u32, j: int)
    requires
        sorted_by_start(s),
        non_overlapping(s),
        all_fit(s),
        0 <= j < s.len(),
        s[j].covers(line),
    ensures
        block_for(s, line) matches Some(m) && m.covers(line),
{
    lemma_split_exists(s, line);
    let p = choose|p: int| split_at_line(s, line, p);
    assert(j < p);
    if j < p - 1 {
        lemma_ends_before_later(s, j, p - 1);
        assert(s[p - 1].fits());
    }
}

/// Whatever `block_for` finds is a block of the section that covers the line.
pub proof fn lemma_block_for_sound(s: Seq<MappingView>, line: u32)
    requires
        sorted_by_start(s),
    ensures
        block_for(s, line) matches Some(m) ==> m.covers(line) && exists|i: int|
            0 <= i < s.len() && s[i] == m,
{
    lemma_block_for_member(s, line);
}

/// No block of `f` but `r`, which is in section `sec`, covers line `x`.
pub open spec fn sole_cover(f: FileMappingsView, sec: PreprocessSection, r: MappingView, x: u32) -> bool {
    forall|b: PreprocessSection, j: int|
        0 <= j < f.section(b).len() && #[trigger] f.section(b)[j].covers(x) ==> b == sec && f.section(b)[j]
            == r
}

/// Where `r` is the only block that covers line `x`, it is the one the
/// lookup in its section finds, and no section searched before it finds
/// another.
proof fn lemma_unique_block(f: FileMappingsView, r: MappingView, sec: PreprocessSection, x: u32)
    requires
        f.disjoint(),
        f.fits(),
        f.sorted(),
        f.section(sec).contains(r),
        r.covers(x),
        sole_cover(f, sec, r, x),
    ensures
        block_for(f.section(sec), x) == Some(r),
        forall|other: PreprocessSection| other != sec ==> block_for(f.section(other), x) is None,
{
    let s = f.section(sec);
    let j = choose|j: int| 0 <= j < s.len() && s[j] == r;
    assert(sorted_by_start(s) && non_overlapping(s) && all_fit(s)) by {
        match sec {
            PreprocessSection::NoSection => {},
            PreprocessSection::Interface => {},
            PreprocessSection::Implementation => {},
        }
    }
    lemma_block_for_complete(s, x, j);
    lemma_block_for_sound(s, x);
    let b = block_for(s, x)->0;
    let k = choose|k: int| 0 <= k < s.len() && s[k] == b;
    assert(f.section(sec)[k].covers(x));
    assert forall|other: PreprocessSection| other != sec implies block_for(f.section(other), x) is None by {
        assert(sorted_by_start(f.section(other))) by {
            match other {
                PreprocessSection::NoSection => {},
                PreprocessSection::Interface => {},
                PreprocessSection::Implementation => {},
            }
        }
        lemma_block_for_sound(f.section(other), x);
        if block_for(f.section(other), x) is Some {
            let c = block_for(f.section(other), x)->0;
            let q = choose|q: int| 0 <= q < f.section(other).len() && f.section(other)[q] == c;
            assert(f.section(other)[q].covers(x));
        }
    }
}

/// Mapping a line to the preprocessed file and back gives the line and the
/// file back, where the block it maps through is stored reversed under the
/// preprocessed file, whose sections have no overlapping blocks, and no
/// other block of that file covers the line it maps to.
pub proof fn lemma_map_round_trip(sm: SourceMappingView, path: Seq<char>, line: u32)
    requires
        sm.sorted(),
        sm.fits(),
        map_block(sm.to_preprocess, path, line) matches Some(m) && lookup(
            sm.from_preprocess,
            m.dst_file,
        ) matches Some(f) && f.disjoint() && f.section(m.section).contains(m.reversed(path)) && sole_cover(
            f,
            m.section,
            m.reversed(path),
            m.translate(line) as u32,
        ),
    ensures
        map_block(sm.to_preprocess, path, line) matches Some(m) && {
            &&& map_block(sm.from_preprocess, m.dst_file, m.translate(line) as u32) == Some(m.reversed(path))
            &&& m.reversed(path).translate(m.translate(line) as u32) == line
            &&& m.reversed(path).dst_file == path
        },
{
    let m = map_block(sm.to_preprocess, path, line)->0;
    let to = sm.to_preprocess;
    let e = lookup(to, path)->0;
    let i = choose|i: int| is_entry_of(to, path, i);
    assert(to[i].1.sorted() && to[i].1.fits());
    let sec = m.section;
    lemma_block_for_sound(e.implementation, line);
    lemma_block_for_sound(e.interface, line);
    lemma_block_for_sound(e.none, line);
    assert(m.covers(line) && m.fits());
    let from = sm.from_preprocess;
    let f = lookup(from, m.dst_file)->0;
    let k = choose|k: int| is_entry_of(from, m.dst_file, k);
    assert(from[k].1.sorted() && from[k].1.fits());
    let r = m.reversed(path);
    let x = m.translate(line) as u32;
    lemma_reversed_round_trip(m, path, line);
    lemma_unique_block(f, r, sec, x);
    assert(f.section(PreprocessSection::Implementation) == f.implementation);
    assert(f.section(PreprocessSection::Interface) == f.interface);
    assert(f.section(PreprocessSection::NoSection) == f.none);
}

/// Whatever a filter keeps comes from the filtered sequence.
proof fn lemma_filter_member(s: Seq<MappingView>, p: spec_fn(MappingView) -> bool, x: MappingView)
    requires
        s.filter(p).contains(x),
    ensures
        s.contains(x),
    decreases s.len(),
{
    reveal(Seq::filter);
    if s.len() > 0 {
        let sub = s.drop_last().filter(p);
        let f = s.filter(p);
        let j = choose|j: int| 0 <= j < f.len() && f[j] == x;
        if p(s.last()) && j == sub.len() {
            assert(s[s.len() - 1] == x);
        } else {
            assert(sub[j] == x);
            lemma_filter_member(s.drop_last(), p, x);
            let k = choose|k: int| 0 <= k < s.drop_last().len() && s.drop_last()[k] == x;
            assert(s[k] == x);
        }
    }
}

/// A stable sort keeps every block of the section it sorts.
proof fn lemma_stable_sorted_member(s: Seq<MappingView>, t: Seq<MappingView>, i: int)
    requires
        stable_sorted(s, t),
        0 <= i < t.len(),
    ensures
        s.contains(t[i]),
{
    let k = t[i].src_line;
    let p = starts_on(k);
    t.filter_lemma(p);
    assert(p(t[i]));
    assert(t.filter(p).contains(t[i]));
    assert(starting_at(t, k) == starting_at(s, k));
    lemma_filter_member(s, p, t[i]);
}

/// Sorting keeps every block fitting.
proof fn lemma_stable_sorted_fits(s: Seq<MappingView>, t: Seq<MappingView>)
    requires
        stable_sorted(s, t),
        all_fit(s),
    ensures
        all_fit(t),
{
    assert forall|i: int| 0 <= i < t.len() implies (#[trigger] t[i]).fits() by {
        lemma_stable_sorted_member(s, t, i);
        let j = choose|j: int| 0 <= j < s.len() && s[j] == t[i];
        assert(s[j].fits());
    }
}

/// Re-sorting a table keeps its blocks fitting.
proof fn lemma_resorted_fits(t: Table, u: Table)
    requires
        table_resorted(t, u),
    ensures
        table_fits(t) ==> table_fits(u),
{
    if table_fits(t) {
        assert forall|i: int| 0 <= i < u.len() implies (#[trigger] u[i]).1.fits() by {
            let f = t[i].1;
            let g = u[i].1;
            assert(f.fits());
            assert(stable_sorted(f.section(PreprocessSection::NoSection), g.section(PreprocessSection::NoSection)));
            assert(stable_sorted(f.section(PreprocessSection::Interface), g.section(PreprocessSection::Interface)));
            assert(stable_sorted(
                f.section(PreprocessSection::Implementation),
                g.section(PreprocessSection::Implementation),
            ));
            lemma_stable_sorted_fits(f.none, g.none);
            lemma_stable_sorted_fits(f.interface, g.interface);
            lemma_stable_sorted_fits(f.implementation, g.implementation);
        }
    }
}

/// A stable sort keeps every block of the section it sorts, in the other
/// direction too.
proof fn lemma_stable_sorted_keeps(s: Seq<MappingView>, t: Seq<MappingView>, i: int)
    requires
        stable_sorted(s, t),
        0 <= i < s.len(),
    ensures
        t.contains(s[i]),
{
    let k = s[i].src_line;
    let p = starts_on(k);
    s.filter_lemma(p);
    assert(p(s[i]));
    assert(s.filter(p).contains(s[i]));
    assert(starting_at(t, k) == starting_at(s, k));
    lemma_filter_member(t, p, s[i]);
}

/// Where some entry's path equals `p`, a first one does.
proof fn lemma_first_entry(t: Table, p: Seq<char>, j: int)
    requires
        0 <= j < t.len(),
        path_eq(t[j].0, p),
    ensures
        exists|i: int| is_entry_of(t, p, i),
    decreases j,
{
    if exists|k: int| 0 <= k < j && path_eq(#[trigger] t[k].0, p) {
        let k = choose|k: int| 0 <= k < j && path_eq(#[trigger] t[k].0, p);
        lemma_first_entry(t, p, k);
    } else {
        assert(is_entry_of(t, p, j));
    }
}

/// Re-sorting keeps the entry that a path finds.
proof fn lemma_lookup_resorted(t: Table, u: Table, p: Seq<char>) -> (i: int)
    requires
        table_resorted(t, u),
        lookup(t, p) is Some,
    ensures
        0 <= i < t.len(),
        lookup(t, p) == Some(t[i].1),
        lookup(u, p) == Some(u[i].1),
{
    let i = choose|i: int| is_entry_of(t, p, i);
    assert(u[i].0 == t[i].0);
    assert forall|j: int| 0 <= j < i implies !path_eq(#[trigger] u[j].0, p) by {
        assert(u[j].0 == t[j].0);
    }
    assert(is_entry_of(u, p, i));
    let k = choose|k: int| is_entry_of(u, p, k);
    lemma_entry_unique(u, p, i, k);
    i
}

/// A path that no entry matches finds the entry that is inserted for it.
proof fn lemma_lookup_inserted_new(t: Table, p: Seq<char>, v: FileMappingsView)
    requires
        lookup(t, p) is None,
        path_eq(p, p),
    ensures
        lookup(inserted(t, p, v), p) == Some(v),
{
    let u = inserted(t, p, v);
    let n = t.len() as int;
    assert(u == t.push((p, v)));
    assert forall|j: int| 0 <= j < n implies !path_eq(#[trigger] u[j].0, p) by {
        assert(u[j] == t[j]);
        if path_eq(t[j].0, p) {
            lemma_first_entry(t, p, j);
        }
    }
    assert(is_entry_of(u, p, n));
    let k = choose|k: int| is_entry_of(u, p, k);
    lemma_entry_unique(u, p, n, k);
}

/// Pushing a block under one path leaves what another path finds as it
/// was, or with the block pushed.
proof fn lemma_lookup_pushed_under(t: Table, q: Seq<char>, b: MappingView, p: Seq<char>)
    requires
        lookup(t, p) is Some,
    ensures
        lookup(pushed_under(t, q, b), p) == lookup(t, p) || lookup(pushed_under(t, q, b), p) == Some(
            pushed(lookup(t, p)->0, b),
        ),
{
    let u = pushed_under(t, q, b);
    let i = choose|i: int| is_entry_of(t, p, i);
    assert(u.len() >= t.len());
    assert forall|j: int| 0 <= j < t.len() implies #[trigger] u[j].0 == t[j].0 by {
        if exists|iq: int| is_entry_of(t, q, iq) {
        } else {
            assert(u[j] == t[j]);
        }
    }
    assert forall|j: int| 0 <= j < i implies !path_eq(#[trigger] u[j].0, p) by {
        assert(u[j].0 == t[j].0);
    }
    assert(u[i].0 == t[i].0);
    assert(is_entry_of(u, p, i));
    let k = choose|k: int| is_entry_of(u, p, k);
    lemma_entry_unique(u, p, i, k);
    if exists|iq: int| is_entry_of(t, q, iq) {
        let iq = choose|iq: int| is_entry_of(t, q, iq);
        if iq != i {
            assert(u[i] == t[i]);
        }
    } else {
        assert(u[i] == t[i]);
    }
}

/// After a block is pushed under `q`, `q` finds mappings that hold it.
proof fn lemma_lookup_pushed_under_own(t: Table, q: Seq<char>, b: MappingView)
    requires
        path_eq(q, q),
    ensures
        lookup(pushed_under(t, q, b), q) matches Some(g) && g.section(b.section).contains(b),
{
    let u = pushed_under(t, q, b);
    if exists|iq: int| is_entry_of(t, q, iq) {
        let iq = choose|iq: int| is_entry_of(t, q, iq);
        assert forall|j: int| 0 <= j < iq implies !path_eq(#[trigger] u[j].0, q) by {
            assert(u[j] == t[j]);
        }
        assert(is_entry_of(u, q, iq));
        let k = choose|k: int| is_entry_of(u, q, k);
        lemma_entry_unique(u, q, iq, k);
        let g = pushed(t[iq].1, b);
        assert(g.section(b.section).last() == b);
        assert(g.section(b.section)[g.section(b.section).len() - 1] == b);
    } else {
        let n = t.len() as int;
        assert forall|j: int| 0 <= j < n implies !path_eq(#[trigger] u[j].0, q) by {
            assert(u[j] == t[j]);
            if path_eq(t[j].0, q) {
                lemma_first_entry(t, q, j);
            }
        }
        assert(is_entry_of(u, q, n));
        let k = choose|k: int| is_entry_of(u, q, k);
        lemma_entry_unique(u, q, n, k);
        let g = pushed(collected(seq![]), b);
        assert(g.section(b.section)[g.section(b.section).len() - 1] == b);
    }
}

/// Pushing a block keeps every block of every section.
proof fn lemma_pushed_keeps(v: FileMappingsView, b: MappingView, s: PreprocessSection, x: MappingView)
    requires
        v.section(s).contains(x),
    ensures
        pushed(v, b).section(s).contains(x),
{
    let k = choose|k: int| 0 <= k < v.section(s).len() && v.section(s)[k] == x;
    assert(pushed(v, b).section(s)[k] == x);
}

/// The reversal of every block of `ms` is found under the file the block
/// maps to.
proof fn lemma_reverse_all_contains(t: Table, ms: Seq<MappingView>, path: Seq<char>, j: int)
    requires
        0 <= j < ms.len(),
        forall|i: int| 0 <= i < ms.len() ==> path_eq(#[trigger] ms[i].dst_file, ms[i].dst_file),
    ensures
        lookup(reverse_all(t, ms, path), ms[j].dst_file) matches Some(g) && g.section(ms[j].section).contains(
            ms[j].reversed(path),
        ),
    decreases ms.len(),
{
    let d = ms.drop_last();
    let prev = reverse_all(t, d, path);
    let last = ms.last();
    assert(path_eq(ms[ms.len() - 1].dst_file, ms[ms.len() - 1].dst_file));
    if j == ms.len() - 1 {
        lemma_lookup_pushed_under_own(prev, last.dst_file, last.reversed(path));
    } else {
        assert forall|i: int| 0 <= i < d.len() implies path_eq(#[trigger] d[i].dst_file, d[i].dst_file) by {
            assert(d[i] == ms[i]);
            assert(path_eq(ms[i].dst_file, ms[i].dst_file));
        }
        assert(d[j] == ms[j]);
        lemma_reverse_all_contains(t, d, path, j);
        let p = ms[j].dst_file;
        lemma_lookup_pushed_under(prev, last.dst_file, last.reversed(path), p);
        lemma_pushed_keeps(lookup(prev, p)->0, last.reversed(path), ms[j].section, ms[j].reversed(path));
    }
}

/// Every block of collected mappings is one of the collected blocks.
proof fn lemma_collected_member(ms: Seq<MappingView>, s: PreprocessSection, x: MappingView)
    requires
        collected(ms).section(s).contains(x),
    ensures
        ms.contains(x),
    decreases ms.len(),
{
    if ms.len() > 0 {
        let d = ms.drop_last();
        let prev = collected(d);
        let last = ms.last();
        let sec = collected(ms).section(s);
        let k = choose|k: int| 0 <= k < sec.len() && sec[k] == x;
        if last.section == s && k == prev.section(s).len() {
            assert(ms[ms.len() - 1] == x);
        } else {
            assert(prev.section(s)[k] == x);
            lemma_collected_member(d, s, x);
            let w = choose|w: int| 0 <= w < d.len() && d[w] == x;
            assert(ms[w] == x);
        }
    }
}

/// The reversal of block `m`, stored under the preprocessed file `key`, is
/// stored in the same section under the Fiasco source that `m` maps to.
pub open spec fn mirror_stored(t: Table, key: Seq<char>, m: MappingView) -> bool {
    lookup(t, m.dst_file) matches Some(g) && g.section(m.section).contains(m.reversed(key))
}

/// Every block stored under a preprocessed file has its reversal stored
/// under the Fiasco source it maps to.
pub open spec fn mirrored(sm: SourceMappingView) -> bool {
    forall|i: int, s: PreprocessSection, k: int|
        0 <= i < sm.from_preprocess.len() && 0 <= k < sm.from_preprocess[i].1.section(s).len()
            ==> #[trigger] mirror_stored(
            sm.to_preprocess,
            sm.from_preprocess[i].0,
            sm.from_preprocess[i].1.section(s)[k],
        )
}

/// The path of the entry that `p` finds.
pub open spec fn entry_key(t: Table, p: Seq<char>) -> Seq<char> {
    t[choose|i: int| is_entry_of(t, p, i)].0
}

/// Pushing more blocks keeps every stored reversal.
proof fn lemma_mirror_stored_reverse_all(t: Table, ms: Seq<MappingView>, path: Seq<char>, key: Seq<char>, m: MappingView)
    requires
        mirror_stored(t, key, m),
    ensures
        mirror_stored(reverse_all(t, ms, path), key, m),
    decreases ms.len(),
{
    if ms.len() > 0 {
        let prev = reverse_all(t, ms.drop_last(), path);
        lemma_mirror_stored_reverse_all(t, ms.drop_last(), path, key, m);
        let g = lookup(prev, m.dst_file)->0;
        lemma_lookup_pushed_under(prev, ms.last().dst_file, ms.last().reversed(path), m.dst_file);
        lemma_pushed_keeps(g, ms.last().reversed(path), m.section, m.reversed(key));
    }
}

/// Adding the blocks of a preprocessed file that the mapping does not know
/// yet, as [`FiascoSourceMapping::add_file`] does, keeps every block's
/// reversal stored.
pub proof fn lemma_add_file_mirrored(sm0: SourceMappingView, path: Seq<char>, ms: Seq<MappingView>)
    requires
        mirrored(sm0),
        lookup(sm0.from_preprocess, path) is None,
        forall|i: int| 0 <= i < ms.len() ==> path_eq(#[trigger] ms[i].dst_file, ms[i].dst_file),
    ensures
        mirrored(
            SourceMappingView {
                to_preprocess: reverse_all(sm0.to_preprocess, ms, path),
                from_preprocess: inserted(sm0.from_preprocess, path, collected(ms)),
            },
        ),
{
    let to1 = reverse_all(sm0.to_preprocess, ms, path);
    let from0 = sm0.from_preprocess;
    let from1 = inserted(from0, path, collected(ms));
    let n = from0.len() as int;
    assert(from1 == from0.push((path, collected(ms))));
    assert forall|i: int, s: PreprocessSection, k: int|
        0 <= i < from1.len() && 0 <= k < from1[i].1.section(s).len() implies #[trigger] mirror_stored(
        to1,
        from1[i].0,
        from1[i].1.section(s)[k],
    ) by {
        if i < n {
            assert(from1[i] == from0[i]);
            assert(mirror_stored(sm0.to_preprocess, from0[i].0, from0[i].1.section(s)[k]));
            lemma_mirror_stored_reverse_all(sm0.to_preprocess, ms, path, from0[i].0, from0[i].1.section(s)[k]);
        } else {
            let x = collected(ms).section(s)[k];
            assert(collected(ms).section(s).contains(x));
            lemma_collected_member(ms, s, x);
            let j = choose|j: int| 0 <= j < ms.len() && ms[j] == x;
            lemma_reverse_all_contains(sm0.to_preprocess, ms, path, j);
        }
    }
}

/// Sorting keeps every block's reversal stored.
pub proof fn lemma_sort_mirrored(sm0: SourceMappingView, sm: SourceMappingView)
    requires
        mirrored(sm0),
        table_resorted(sm0.to_preprocess, sm.to_preprocess),
        table_resorted(sm0.from_preprocess, sm.from_preprocess),
    ensures
        mirrored(sm),
{
    assert forall|i: int, s: PreprocessSection, k: int|
        0 <= i < sm.from_preprocess.len() && 0 <= k < sm.from_preprocess[i].1.section(s).len()
            implies #[trigger] mirror_stored(
        sm.to_preprocess,
        sm.from_preprocess[i].0,
        sm.from_preprocess[i].1.section(s)[k],
    ) by {
        let e0 = sm0.from_preprocess[i].1;
        let e = sm.from_preprocess[i].1;
        let m = e.section(s)[k];
        assert(sm.from_preprocess[i].0 == sm0.from_preprocess[i].0);
        assert(stable_sorted(e0.section(s), e.section(s)));
        lemma_stable_sorted_member(e0.section(s), e.section(s), k);
        let k0 = choose|k0: int| 0 <= k0 < e0.section(s).len() && e0.section(s)[k0] == m;
        assert(mirror_stored(sm0.to_preprocess, sm0.from_preprocess[i].0, e0.section(s)[k0]));
        let key = sm0.from_preprocess[i].0;
        let g = lookup(sm0.to_preprocess, m.dst_file)->0;
        let i2 = lemma_lookup_resorted(sm0.to_preprocess, sm.to_preprocess, m.dst_file);
        let f = sm.to_preprocess[i2].1;
        assert(sm0.to_preprocess[i2].1 == g);
        assert(stable_sorted(g.section(m.section), f.section(m.section)));
        let kr = choose|kr: int|
            0 <= kr < g.section(m.section).len() && g.section(m.section)[kr] == m.reversed(key);
        lemma_stable_sorted_keeps(g.section(m.section), f.section(m.section), kr);
    }
}

/// Mapping a line of a preprocessed file to its Fiasco source and back gives
/// the line and the file back, where the reversal of the block it maps
/// through is stored under the source, the source's sections have no
/// overlapping blocks, and no other block of the source covers the line it
/// maps to.
pub proof fn lemma_mapping_round_trip(sm: SourceMappingView, path: Seq<char>, line: u32)
    requires
        sm.sorted(),
        sm.fits(),
        map_block(sm.from_preprocess, path, line) matches Some(m) && lookup(
            sm.to_preprocess,
            m.dst_file,
        ) matches Some(f) && f.disjoint() && f.section(m.section).contains(
            m.reversed(entry_key(sm.from_preprocess, path)),
        ) && sole_cover(
            f,
            m.section,
            m.reversed(entry_key(sm.from_preprocess, path)),
            m.translate(line) as u32,
        ),
    ensures
        map_block(sm.from_preprocess, path, line) matches Some(m) && {
            let back = m.reversed(entry_key(sm.from_preprocess, path));
            &&& map_block(sm.to_preprocess, m.dst_file, m.translate(line) as u32) == Some(back)
            &&& back.translate(m.translate(line) as u32) == line
            &&& path_eq(back.dst_file, path)
        },
{
    let from = sm.from_preprocess;
    let i = choose|i: int| is_entry_of(from, path, i);
    let key = from[i].0;
    let e = from[i].1;
    assert(e.sorted() && e.fits());
    let m = map_block(from, path, line)->0;
    lemma_block_for_sound(e.implementation, line);
    lemma_block_for_sound(e.interface, line);
    lemma_block_for_sound(e.none, line);
    assert(e.section(PreprocessSection::Implementation) == e.implementation);
    assert(e.section(PreprocessSection::Interface) == e.interface);
    assert(e.section(PreprocessSection::NoSection) == e.none);
    let sec = if block_for(e.implementation, line) is Some {
        PreprocessSection::Implementation
    } else if block_for(e.interface, line) is Some {
        PreprocessSection::Interface
    } else {
        PreprocessSection::NoSection
    };
    assert(block_for(e.section(sec), line) == Some(m));
    let k = choose|k: int| 0 <= k < e.section(sec).len() && e.section(sec)[k] == m;
    let fits_all = e.section(sec);
    assert(fits_all[k].fits());
    assert(m.covers(line));
    let r = m.reversed(key);
    let f = lookup(sm.to_preprocess, m.dst_file)->0;
    let i2 = choose|i2: int| is_entry_of(sm.to_preprocess, m.dst_file, i2);
    assert(sm.to_preprocess[i2].1.sorted() && sm.to_preprocess[i2].1.fits());
    let x = m.translate(line) as u32;
    lemma_reversed_round_trip(m, key, line);
    lemma_unique_block(f, r, m.section, x);
    assert(f.section(PreprocessSection::Implementation) == f.implementation);
    assert(f.section(PreprocessSection::Interface) == f.interface);
    assert(f.section(PreprocessSection::NoSection) == f.none);
}

/// `files` holds `d` itself or a path equal to it.
pub open spec fn holds_path(files: Seq<Seq<char>>, d: Seq<char>) -> bool {
    files.contains(d) || lists_path(files, d)
}

impl FileMappingsView {
    /// The file of every block is listed in `files`.
    pub open spec fn files_listed(self) -> bool {
        forall|s: PreprocessSection, k: int|
            0 <= k < self.section(s).len() ==> holds_path(self.files, #[trigger] self.section(s)[k].dst_file)
    }
}

/// In every file of `t`, the file of every block is listed.
pub open spec fn table_files_listed(t: Table) -> bool {
    forall|i: int| 0 <= i < t.len() ==> (#[trigger] t[i]).1.files_listed()
}

impl SourceMappingView {
    /// In both directions, the file of every block is listed.
    pub open spec fn files_listed(self) -> bool {
        table_files_listed(self.to_preprocess) && table_files_listed(self.from_preprocess)
    }
}

/// Pushing a block keeps every listed file listed, and lists the block's.
proof fn lemma_pushed_files_listed(v: FileMappingsView, m: MappingView)
    requires
        v.files_listed(),
    ensures
        pushed(v, m).files_listed(),
        forall|d: Seq<char>| holds_path(v.files, d) ==> #[trigger] holds_path(pushed(v, m).files, d),
{
    let w = pushed(v, m);
    assert forall|d: Seq<char>| holds_path(v.files, d) implies #[trigger] holds_path(w.files, d) by {
        if !lists_path(v.files, m.dst_file) {
            if v.files.contains(d) {
                let i = choose|i: int| 0 <= i < v.files.len() && v.files[i] == d;
                assert(w.files[i] == d);
            } else {
                let i = choose|i: int| 0 <= i < v.files.len() && path_eq(#[trigger] v.files[i], d);
                assert(w.files[i] == v.files[i]);
            }
        }
    }
    assert forall|s: PreprocessSection, k: int| 0 <= k < w.section(s).len() implies holds_path(
        w.files,
        #[trigger] w.section(s)[k].dst_file,
    ) by {
        if !lists_path(v.files, m.dst_file) {
            assert(w.files[v.files.len() as int] == m.dst_file);
        }
        if k < v.section(s).len() {
            assert(w.section(s)[k] == v.section(s)[k]);
            assert(holds_path(v.files, v.section(s)[k].dst_file));
        } else {
            assert(w.section(s)[k] == m);
        }
    }
}

/// Collected blocks have their files listed.
proof fn lemma_collected_files_listed(ms: Seq<MappingView>)
    ensures
        collected(ms).files_listed(),
    decreases ms.len(),
{
    if ms.len() > 0 {
        lemma_collected_files_listed(ms.drop_last());
        lemma_pushed_files_listed(collected(ms.drop_last()), ms.last());
    }
}

/// Pushing a block under a path keeps every file's blocks listed.
proof fn lemma_pushed_under_files_listed(t: Table, p: Seq<char>, m: MappingView)
    requires
        table_files_listed(t),
    ensures
        table_files_listed(pushed_under(t, p, m)),
{
    let u = pushed_under(t, p, m);
    lemma_collected_files_listed(seq![]);
    if exists|i: int| is_entry_of(t, p, i) {
        let i = choose|i: int| is_entry_of(t, p, i);
        lemma_pushed_files_listed(t[i].1, m);
        assert forall|j: int| 0 <= j < u.len() implies (#[trigger] u[j]).1.files_listed() by {
            if j != i {
                assert(u[j] == t[j]);
            }
        }
    } else {
        lemma_pushed_files_listed(collected(seq![]), m);
        assert forall|j: int| 0 <= j < u.len() implies (#[trigger] u[j]).1.files_listed() by {
            if j < t.len() {
                assert(u[j] == t[j]);
            }
        }
    }
}

/// Pushing the reversal of each block keeps every file's blocks listed.
proof fn lemma_reverse_all_files_listed(t: Table, ms: Seq<MappingView>, path: Seq<char>)
    requires
        table_files_listed(t),
    ensures
        table_files_listed(reverse_all(t, ms, path)),
    decreases ms.len(),
{
    if ms.len() > 0 {
        lemma_reverse_all_files_listed(t, ms.drop_last(), path);
        lemma_pushed_under_files_listed(
            reverse_all(t, ms.drop_last(), path),
            ms.last().dst_file,
            ms.last().reversed(path),
        );
    }
}

/// Storing mappings whose files are listed keeps every file's blocks listed.
proof fn lemma_inserted_files_listed(t: Table, p: Seq<char>, v: FileMappingsView)
    requires
        table_files_listed(t),
        v.files_listed(),
    ensures
        table_files_listed(inserted(t, p, v)),
{
    let u = inserted(t, p, v);
    if exists|i: int| is_entry_of(t, p, i) {
        let i = choose|i: int| is_entry_of(t, p, i);
        assert forall|j: int| 0 <= j < u.len() implies (#[trigger] u[j]).1.files_listed() by {
            if j != i {
                assert(u[j] == t[j]);
            }
        }
    } else {
        assert forall|j: int| 0 <= j < u.len() implies (#[trigger] u[j]).1.files_listed() by {
            if j < t.len() {
                assert(u[j] == t[j]);
            }
        }
    }
}

/// Sorting keeps every file's blocks listed.
proof fn lemma_resorted_files_listed(t: Table, u: Table)
    requires
        table_files_listed(t),
        table_resorted(t, u),
    ensures
        table_files_listed(u),
{
    assert forall|i: int| 0 <= i < u.len() implies (#[trigger] u[i]).1.files_listed() by {
        assert(t[i].1.files_listed());
        assert forall|s: PreprocessSection, k: int| 0 <= k < u[i].1.section(s).len() implies holds_path(
            u[i].1.files,
            #[trigger] u[i].1.section(s)[k].dst_file,
        ) by {
            assert(stable_sorted(t[i].1.section(s), u[i].1.section(s)));
            lemma_stable_sorted_member(t[i].1.section(s), u[i].1.section(s), k);
            let k0 = choose|k0: int|
                0 <= k0 < t[i].1.section(s).len() && t[i].1.section(s)[k0] == u[i].1.section(s)[k];
            assert(holds_path(t[i].1.files, t[i].1.section(s)[k0].dst_file));
        }
    }
}

/// The file that a line maps to is listed among the files of the path it
/// maps from: `map_files` holds the file of every location that `map`
/// gives.
pub proof fn lemma_mapped_file_listed(t: Table, path: Seq<char>, line: u32)
    requires
        table_sorted(t),
        table_files_listed(t),
    ensures
        map_block(t, path, line) matches Some(m) ==> lookup(t, path) matches Some(f) && holds_path(
            f.files,
            m.dst_file,
        ),
{
    if map_block(t, path, line) is Some {
        let m = map_block(t, path, line)->0;
        let i = choose|i: int| is_entry_of(t, path, i);
        let f = t[i].1;
        assert(f.sorted() && f.files_listed());
        let sec = if block_for(f.implementation, line) is Some {
            PreprocessSection::Implementation
        } else if block_for(f.interface, line) is Some {
            PreprocessSection::Interface
        } else {
            PreprocessSection::NoSection
        };
        assert(f.section(PreprocessSection::Implementation) == f.implementation);
        assert(f.section(PreprocessSection::Interface) == f.interface);
        assert(f.section(PreprocessSection::NoSection) == f.none);
        assert(block_for(f.section(sec), line) == Some(m));
        lemma_block_for_sound(f.section(sec), line);
        let k = choose|k: int| 0 <= k < f.section(sec).len() && f.section(sec)[k] == m;
        assert(holds_path(f.files, f.section(sec)[k].dst_file));
    }
}

/// Whatever `dedup_paths` keeps comes from its argument.
proof fn lemma_dedup_member(s: Seq<Seq<char>>, x: Seq<char>)
    requires
        dedup_paths(s).contains(x),
    ensures
        s.contains(x),
    decreases s.len(),
{
    if s.len() > 0 {
        let d = dedup_paths(s.drop_last());
        if d.contains(x) {
            lemma_dedup_member(s.drop_last(), x);
            let i = choose|i: int| 0 <= i < s.drop_last().len() && s.drop_last()[i] == x;
            assert(s[i] == x);
        } else {
            assert(x == s.last());
            assert(s[s.len() - 1] == x);
        }
    }
}

/// Every file that `files_meeting` gives is the file of a block of `s`.
proof fn lemma_files_meeting_member(s: Seq<MappingView>, start: u32, end: u32, x: Seq<char>)
    requires
        files_meeting(s, start, end).contains(x),
    ensures
        exists|k: int| 0 <= k < s.len() && (#[trigger] s[k]).dst_file == x,
    decreases s.len(),
{
    if s.len() > 0 {
        let d = files_meeting(s.drop_last(), start, end);
        if d.contains(x) {
            lemma_files_meeting_member(s.drop_last(), start, end, x);
            let k = choose|k: int| 0 <= k < s.drop_last().len() && (#[trigger] s.drop_last()[k]).dst_file == x;
            assert(s[k] == s.drop_last()[k]);
        } else {
            assert(s[s.len() - 1].dst_file == x);
        }
    }
}

/// The files of the blocks that meet a range of lines are listed among the
/// files of the path: what `map_files_with_range` gives, `map_files` holds.
pub proof fn lemma_range_files_listed(t: Table, path: Seq<char>, start: u32, end: u32)
    requires
        table_files_listed(t),
    ensures
        forall|x: Seq<char>| #[trigger]
            dedup_paths(files_in_range(t, path, start, end)).contains(x) ==> (lookup(t, path) matches Some(f)
                && holds_path(f.files, x)),
{
    assert forall|x: Seq<char>| #[trigger]
        dedup_paths(files_in_range(t, path, start, end)).contains(x) implies (lookup(t, path) matches Some(f)
            && holds_path(f.files, x)) by {
        lemma_dedup_member(files_in_range(t, path, start, end), x);
        let i = choose|i: int| is_entry_of(t, path, i);
        let f = t[i].1;
        assert(f.files_listed());
        let a = files_meeting(f.implementation, start, end);
        let b = files_meeting(f.interface, start, end);
        let c = files_meeting(f.none, start, end);
        let all = a + b + c;
        let j = choose|j: int| 0 <= j < all.len() && all[j] == x;
        assert(f.section(PreprocessSection::Implementation) == f.implementation);
        assert(f.section(PreprocessSection::Interface) == f.interface);
        assert(f.section(PreprocessSection::NoSection) == f.none);
        if j < a.len() {
            assert(a[j] == x);
            lemma_files_meeting_member(f.implementation, start, end, x);
            let k = choose|k: int| 0 <= k < f.implementation.len() && (#[trigger] f.implementation[k]).dst_file == x;
            assert(holds_path(f.files, f.section(PreprocessSection::Implementation)[k].dst_file));
        } else if j < a.len() + b.len() {
            assert(b[j - a.len()] == x);
            lemma_files_meeting_member(f.interface, start, end, x);
            let k = choose|k: int| 0 <= k < f.interface.len() && (#[trigger] f.interface[k]).dst_file == x;
            assert(holds_path(f.files, f.section(PreprocessSection::Interface)[k].dst_file));
        } else {
            assert(c[j - a.len() - b.len()] == x);
            lemma_files_meeting_member(f.none, start, end, x);
            let k = choose|k: int| 0 <= k < f.none.len() && (#[trigger] f.none[k]).dst_file == x;
            assert(holds_path(f.files, f.section(PreprocessSection::NoSection)[k].dst_file));
        }
    }
}

} // verus!
