//! Rewriting the locations in language server requests and responses that
//! pass between the editor and the language server.
//!
//! Documents are identified by the paths of their `file:` URIs; the parts
//! of a message that the rewriting does not read are carried along as `rest`.

use vstd::prelude::*;
use crate::source_mapping::{FiascoSourceMapping, MapDirection, Table, lookup};
use crate::lsp::{Location, Position, Range, mapped_position, mapped_range};
use crate::text::str_eq;

verus! {

/// The path and range of a location.
pub open spec fn loc_view(l: Location) -> (Seq<char>, Range) {
    (l.path@, l.range)
}

/// The paths and ranges of locations.
pub open spec fn loc_views(s: Seq<Location>) -> Seq<(Seq<char>, Range)> {
    s.map_values(|l: Location| loc_view(l))
}

/// The locations that can be mapped, mapped, in order; the others are
/// dropped.
pub open spec fn kept_locations(t: Table, s: Seq<(Seq<char>, Range)>) -> Seq<(Seq<char>, Range)>
    decreases s.len(),
{
    if s.len() == 0 {
        seq![]
    } else {
        let k = kept_locations(t, s.drop_last());
        match mapped_range(t, s.last().0, s.last().1) {
            Some(x) => k.push(x),
            None => k,
        }
    }
}

/// The files that the mappings of `path` map to.
pub open spec fn files_of(t: Table, path: Seq<char>) -> Seq<Seq<char>> {
    match lookup(t, path) {
        Some(f) => f.files,
        None => seq![],
    }
}

/// The items of `v` in reverse order.
fn reversed<X>(v: Vec<X>) -> (r: Vec<X>)
    ensures
        r@.len() == v@.len(),
        forall|k: int| 0 <= k < v@.len() ==> r@[k] == v@[v@.len() - 1 - k],
{
    let ghost s = v@;
    let n = v.len();
    let mut rest = v;
    let mut out: Vec<X> = Vec::new();
    while rest.len() > 0
        invariant
            n == s.len(),
            rest@ == s.take(n - out@.len()),
            out@.len() <= n,
            forall|k: int| 0 <= k < out@.len() ==> out@[k] == s[n - 1 - k],
        decreases rest@.len(),
    {
        let ghost before = rest@;
        let x = rest.pop().unwrap();
        assert(x == s[n - 1 - out@.len()]);
        assert(rest@ =~= s.take(n - out@.len() - 1));
        out.push(x);
    }
    out
}

/// The locations that can be mapped in the given direction, mapped, in
/// order; the others are dropped.
pub fn keep_mapped_locations(
    mapping: &FiascoSourceMapping,
    direction: MapDirection,
    locations: Vec<Location>,
) -> (r: Vec<Location>)
    requires
        mapping@.sorted(),
        mapping@.fits(),
    ensures
        loc_views(r@) == kept_locations(mapping@.table(direction), loc_views(locations@)),
{
    let ghost t = mapping@.table(direction);
    let ghost s = loc_views(locations@);
    let n = locations.len();
    let mut rest = reversed(locations);
    let mut out: Vec<Location> = Vec::new();
    let mut i: usize = 0;
    while i < n
        invariant
            t == mapping@.table(direction),
            mapping@.sorted(),
            mapping@.fits(),
            n == s.len(),
            i <= n,
            rest@.len() == n - i,
            forall|k: int| 0 <= k < n - i ==> loc_view(#[trigger] rest@[k]) == s[n - 1 - k],
            loc_views(out@) == kept_locations(t, s.take(i as int)),
        decreases n - i,
    {
        let mut l = rest.pop().unwrap();
        assert(loc_view(l) == s[i as int]);
        assert(s.take(i + 1).drop_last() =~= s.take(i as int));
        let ghost before = out@;
        if mapping.map_location(direction, &mut l).is_ok() {
            out.push(l);
            assert(loc_views(out@) =~= loc_views(before).push(loc_view(l)));
        }
        i = i + 1;
    }
    assert(s.take(n as int) =~= s);
    out
}

/// The response to a references request: every location that can be
/// mapped back to the Fiasco sources, mapped; the others are dropped.
pub fn handle_res_references(mapping: &FiascoSourceMapping, res: Option<Vec<Location>>) -> (r: Option<
    Vec<Location>,
>)
    requires
        mapping@.sorted(),
        mapping@.fits(),
    ensures
        match res {
            None => r is None,
            Some(v) => r matches Some(w) && loc_views(w@) == kept_locations(
                mapping@.table(MapDirection::FromPreprocess),
                loc_views(v@),
            ),
        },
{
    match res {
        None => None,
        Some(v) => Some(keep_mapped_locations(mapping, MapDirection::FromPreprocess, v)),
    }
}

/// A link from a range of the requesting document to a target.
pub struct LocationLink {
    pub origin_selection_range: Option<Range>,
    pub target_path: String,
    pub target_range: Range,
    pub target_selection_range: Range,
}

/// A link, with the target's path as its characters.
pub struct LinkView {
    pub origin_selection_range: Option<Range>,
    pub target_path: Seq<char>,
    pub target_range: Range,
    pub target_selection_range: Range,
}

/// The model of a link.
pub open spec fn link_view(l: LocationLink) -> LinkView {
    LinkView {
        origin_selection_range: l.origin_selection_range,
        target_path: l.target_path@,
        target_range: l.target_range,
        target_selection_range: l.target_selection_range,
    }
}

/// Where the target range of a link maps, it lands in an absolute path,
/// and so does its selection range where that maps too: paths of which
/// `file:` URLs can be built.
pub open spec fn link_targets_absolute(t: Table, l: LinkView) -> bool {
    match mapped_range(t, l.target_path, l.target_range) {
        Some((p1, _)) => "/"@.is_prefix_of(p1) && (mapped_range(t, l.target_path, l.target_selection_range) matches Some((p2, _)) ==> "/"@.is_prefix_of(p2)),
        None => true,
    }
}

/// A link mapped back to the Fiasco sources: the origin range is mapped
/// from `mapped_file` where it can be and kept otherwise; both target ranges
/// must map, to files with the same `file:` URL.
pub open spec fn mapped_link(t: Table, mapped_file: Seq<char>, l: LinkView) -> Option<LinkView> {
    let origin = match l.origin_selection_range {
        Some(o) => match mapped_range(t, mapped_file, o) {
            Some((_, q)) => Some(q),
            None => Some(o),
        },
        None => None,
    };
    match (mapped_range(t, l.target_path, l.target_range), mapped_range(t, l.target_path, l.target_selection_range)) {
        (Some((p1, r1)), Some((p2, r2))) => if file_url_path(p1) == file_url_path(p2) {
            Some(LinkView { origin_selection_range: origin, target_path: p2, target_range: r1, target_selection_range: r2 })
        } else {
            None
        },
        _ => None,
    }
}

/// A link is kept exactly where both its target ranges map back, into
/// files with the same `file:` URL; it then points at the place its
/// target selection range maps to, its target range mapped, and its origin
/// range is the one mapped from the requesting document's preprocessed
/// file `mapped_file`, or kept as it is where that does not map: the
/// link's target plays no part in it.
pub proof fn lemma_mapped_link(t: Table, mapped_file: Seq<char>, l: LinkView)
    ensures
        mapped_link(t, mapped_file, l) is Some <==> (mapped_range(t, l.target_path, l.target_range) matches Some(
            (p1, _),
        ) && mapped_range(t, l.target_path, l.target_selection_range) matches Some((p2, _)) && file_url_path(p1)
            == file_url_path(p2)),
        mapped_link(t, mapped_file, l) matches Some(x) ==> {
            &&& mapped_range(t, l.target_path, l.target_range) == Some((
                (mapped_range(t, l.target_path, l.target_range)->0).0,
                x.target_range,
            ))
            &&& mapped_range(t, l.target_path, l.target_selection_range) == Some((x.target_path, x.target_selection_range))
            &&& x.origin_selection_range == match l.origin_selection_range {
                None => None,
                Some(o) => Some(
                    match mapped_range(t, mapped_file, o) {
                        Some((_, q)) => q,
                        None => o,
                    },
                ),
            }
        },
{
}

/// The links that can be mapped, mapped, in order.
pub open spec fn kept_links(t: Table, mapped_file: Seq<char>, s: Seq<LinkView>) -> Seq<LinkView>
    decreases s.len(),
{
    if s.len() == 0 {
        seq![]
    } else {
        let k = kept_links(t, mapped_file, s.drop_last());
        match mapped_link(t, mapped_file, s.last()) {
            Some(x) => k.push(x),
            None => k,
        }
    }
}

/// `idx` picks, in order, the links of `s` that `r` keeps: each kept link
/// is its pick mapped, and every link that maps is picked.
pub open spec fn links_picked(t: Table, mapped_file: Seq<char>, s: Seq<LinkView>, r: Seq<LinkView>, idx: Seq<int>) -> bool {
    &&& idx.len() == r.len()
    &&& forall|k: int|
        0 <= k < r.len() ==> 0 <= #[trigger] idx[k] < s.len() && mapped_link(t, mapped_file, s[idx[k]]) == Some(
            r[k],
        )
    &&& forall|a: int, b: int| 0 <= a < b < r.len() ==> #[trigger] idx[a] < #[trigger] idx[b]
    &&& forall|i: int|
        0 <= i < s.len() && mapped_link(t, mapped_file, #[trigger] s[i]) is Some ==> exists|k: int|
            0 <= k < r.len() && idx[k] == i
}

/// The links of a mapped goto response are, in order, exactly the links
/// that map (see [`lemma_mapped_link`]), each mapped.
pub proof fn lemma_kept_links(t: Table, mapped_file: Seq<char>, s: Seq<LinkView>)
    ensures
        exists|idx: Seq<int>| links_picked(t, mapped_file, s, kept_links(t, mapped_file, s), idx),
    decreases s.len(),
{
    if s.len() == 0 {
        assert(links_picked(t, mapped_file, s, kept_links(t, mapped_file, s), Seq::<int>::empty()));
    } else {
        let d = s.drop_last();
        lemma_kept_links(t, mapped_file, d);
        let p = kept_links(t, mapped_file, d);
        let r = kept_links(t, mapped_file, s);
        let pidx = choose|idx: Seq<int>| links_picked(t, mapped_file, d, p, idx);
        let n = s.len() - 1;
        assert(s[n] == s.last());
        assert forall|i: int| 0 <= i < n implies s[i] == d[i] by {}
        match mapped_link(t, mapped_file, s.last()) {
            Some(x) => {
                let idx = pidx.push(n);
                assert(r == p.push(x));
                assert forall|i: int| 0 <= i < s.len() && mapped_link(t, mapped_file, #[trigger] s[i]) is Some implies exists|k: int|
                    0 <= k < r.len() && idx[k] == i by {
                    if i == n {
                        assert(idx[r.len() - 1] == i);
                    } else {
                        assert(d[i] == s[i]);
                        let k = choose|k: int| 0 <= k < p.len() && pidx[k] == i;
                        assert(idx[k] == i);
                    }
                }
                assert(links_picked(t, mapped_file, s, r, idx));
            },
            None => {
                assert(r == p);
                assert forall|i: int| 0 <= i < s.len() && mapped_link(t, mapped_file, #[trigger] s[i]) is Some implies exists|k: int|
                    0 <= k < r.len() && pidx[k] == i by {
                    assert(d[i] == s[i]);
                }
                assert(links_picked(t, mapped_file, s, r, pidx));
            },
        }
    }
}

/// The models of links.
pub open spec fn link_views(s: Seq<LocationLink>) -> Seq<LinkView> {
    s.map_values(|l: LocationLink| link_view(l))
}

/// Maps one link back to the Fiasco sources; `false` where it is to be
/// dropped.
fn map_link(mapping: &FiascoSourceMapping, mapped_file: &String, link: &mut LocationLink) -> (keep: bool)
    requires
        mapping@.sorted(),
        mapping@.fits(),
        link_targets_absolute(mapping@.table(MapDirection::FromPreprocess), link_view(*old(link))),
    ensures
        match mapped_link(mapping@.table(MapDirection::FromPreprocess), mapped_file@, link_view(*old(link))) {
            Some(x) => keep && link_view(*final(link)) == x,
            None => !keep,
        },
{
    let direction = MapDirection::FromPreprocess;
    let mut path = mapped_file.clone();
    match link.origin_selection_range {
        Some(o) => {
            let mut range = o;
            let _ = mapping.map_range(direction, &mut path, &mut range);
            link.origin_selection_range = Some(range);
        },
        None => {},
    }
    let mut mapped_path = link.target_path.clone();
    if mapping.map_range(direction, &mut mapped_path, &mut link.target_range).is_err() {
        return false;
    }
    if mapping.map_range(direction, &mut link.target_path, &mut link.target_selection_range).is_err() {
        return false;
    }
    match (file_url_path_of(mapped_path.as_str()), file_url_path_of(link.target_path.as_str())) {
        (Some(a), Some(b)) => str_eq(a.as_str(), b.as_str()),
        _ => {
            proof {
                assert(false);
            }
            false
        },
    }
}

/// The response to a goto request.
pub enum GotoDefinitionResponse {
    Scalar(Location),
    Array(Vec<Location>),
    Link(Vec<LocationLink>),
}

/// The model of a goto response.
pub enum GotoView {
    Scalar((Seq<char>, Range)),
    Array(Seq<(Seq<char>, Range)>),
    Link(Seq<LinkView>),
}

/// The model of a goto response.
pub open spec fn goto_view(g: GotoDefinitionResponse) -> GotoView {
    match g {
        GotoDefinitionResponse::Scalar(l) => GotoView::Scalar(loc_view(l)),
        GotoDefinitionResponse::Array(v) => GotoView::Array(loc_views(v@)),
        GotoDefinitionResponse::Link(v) => GotoView::Link(link_views(v@)),
    }
}

/// A goto response mapped back to the Fiasco sources: a single location
/// is mapped where it can be and kept otherwise; lists keep what maps.
pub open spec fn mapped_goto(t: Table, mapped_file: Seq<char>, g: GotoView) -> GotoView {
    match g {
        GotoView::Scalar(l) => GotoView::Scalar(
            match mapped_range(t, l.0, l.1) {
                Some(x) => x,
                None => l,
            },
        ),
        GotoView::Array(s) => GotoView::Array(kept_locations(t, s)),
        GotoView::Link(s) => GotoView::Link(kept_links(t, mapped_file, s)),
    }
}

/// The links that can be mapped, mapped, in order.
fn keep_mapped_links(mapping: &FiascoSourceMapping, mapped_file: &String, links: Vec<LocationLink>) -> (r: Vec<
    LocationLink,
>)
    requires
        mapping@.sorted(),
        mapping@.fits(),
        forall|k: int|
            0 <= k < links@.len() ==> link_targets_absolute(
                mapping@.table(MapDirection::FromPreprocess),
                link_view(#[trigger] links@[k]),
            ),
    ensures
        link_views(r@) == kept_links(mapping@.table(MapDirection::FromPreprocess), mapped_file@, link_views(links@)),
{
    let ghost t = mapping@.table(MapDirection::FromPreprocess);
    let ghost s = link_views(links@);
    let n = links.len();
    let mut rest = reversed(links);
    let mut out: Vec<LocationLink> = Vec::new();
    let mut i: usize = 0;
    while i < n
        invariant
            t == mapping@.table(MapDirection::FromPreprocess),
            mapping@.sorted(),
            mapping@.fits(),
            n == s.len(),
            i <= n,
            rest@.len() == n - i,
            forall|k: int| 0 <= k < n - i ==> link_view(#[trigger] rest@[k]) == s[n - 1 - k],
            link_views(out@) == kept_links(t, mapped_file@, s.take(i as int)),
            forall|k: int| 0 <= k < n ==> link_targets_absolute(t, #[trigger] s[k]),
        decreases n - i,
    {
        let mut l = rest.pop().unwrap();
        assert(link_view(l) == s[i as int]);
        assert(s.take(i + 1).drop_last() =~= s.take(i as int));
        let ghost before = out@;
        if map_link(mapping, mapped_file, &mut l) {
            out.push(l);
            assert(link_views(out@) =~= link_views(before).push(link_view(l)));
        }
        i = i + 1;
    }
    assert(s.take(n as int) =~= s);
    out
}

/// The response to a goto request, mapped back to the Fiasco sources.
/// `context` holds the requesting document's path and the path of the
/// preprocessed file it was mapped to; without it the response passes
/// unchanged.
pub fn handle_res_goto(
    mapping: &FiascoSourceMapping,
    context: Option<(String, String)>,
    res: Option<GotoDefinitionResponse>,
) -> (r: Option<GotoDefinitionResponse>)
    requires
        mapping@.sorted(),
        mapping@.fits(),
        context is Some ==> (res matches Some(GotoDefinitionResponse::Link(v)) ==> forall|k: int|
            0 <= k < v@.len() ==> link_targets_absolute(
                mapping@.table(MapDirection::FromPreprocess),
                link_view(#[trigger] v@[k]),
            )),
    ensures
        match (context, res) {
            (None, _) => r == res,
            (Some(_), None) => r is None,
            (Some((_, mapped_file)), Some(g)) => r matches Some(h) && goto_view(h) == mapped_goto(
                mapping@.table(MapDirection::FromPreprocess),
                mapped_file@,
                goto_view(g),
            ),
        },
{
    let (_source_path, mapped_file) = match context {
        None => {
            return res;
        },
        Some(c) => c,
    };
    let result = match res {
        None => {
            return None;
        },
        Some(g) => g,
    };
    match result {
        GotoDefinitionResponse::Scalar(location) => {
            let mut l = location;
            let _ = mapping.map_location(MapDirection::FromPreprocess, &mut l);
            Some(GotoDefinitionResponse::Scalar(l))
        },
        GotoDefinitionResponse::Array(v) => Some(
            GotoDefinitionResponse::Array(keep_mapped_locations(mapping, MapDirection::FromPreprocess, v)),
        ),
        GotoDefinitionResponse::Link(v) => Some(
            GotoDefinitionResponse::Link(keep_mapped_links(mapping, &mapped_file, v)),
        ),
    }
}

/// A symbol with its location; `rest` is what the rewriting does not read.
pub struct SymbolInformation<T> {
    pub rest: T,
    pub location: Location,
}

/// Where a workspace symbol is: a full location, or only the URI of a
/// document, by its scheme and path.
pub enum SymbolLocation {
    Location(Location),
    Workspace { scheme: String, path: String },
}

/// A workspace symbol with its location; `rest` is what the rewriting does
/// not read.
pub struct WorkspaceSymbol<T> {
    pub rest: T,
    pub location: SymbolLocation,
}

/// The response to a workspace symbol request.
pub enum WorkspaceSymbolResponse<T, U> {
    Flat(Vec<SymbolInformation<T>>),
    Nested(Vec<WorkspaceSymbol<U>>),
}

/// The model of a symbol location.
pub enum SymbolLocationView {
    Location((Seq<char>, Range)),
    Workspace(Seq<char>, Seq<char>),
}

/// The model of a symbol location.
pub open spec fn symbol_location_view(l: SymbolLocation) -> SymbolLocationView {
    match l {
        SymbolLocation::Location(x) => SymbolLocationView::Location(loc_view(x)),
        SymbolLocation::Workspace { scheme, path } => SymbolLocationView::Workspace(scheme@, path@),
    }
}

/// The model of the response to a workspace symbol request.
pub enum WorkspaceSymbolView<T, U> {
    Flat(Seq<(T, (Seq<char>, Range))>),
    Nested(Seq<(U, SymbolLocationView)>),
}

/// The model of the response to a workspace symbol request.
pub open spec fn workspace_symbol_view<T, U>(r: WorkspaceSymbolResponse<T, U>) -> WorkspaceSymbolView<T, U> {
    match r {
        WorkspaceSymbolResponse::Flat(v) => WorkspaceSymbolView::Flat(
            v@.map_values(|s: SymbolInformation<T>| (s.rest, loc_view(s.location))),
        ),
        WorkspaceSymbolResponse::Nested(v) => WorkspaceSymbolView::Nested(
            v@.map_values(|s: WorkspaceSymbol<U>| (s.rest, symbol_location_view(s.location))),
        ),
    }
}

/// The symbols whose locations can be mapped, mapped, in order.
pub open spec fn kept_symbols<T>(t: Table, s: Seq<(T, (Seq<char>, Range))>) -> Seq<(T, (Seq<char>, Range))>
    decreases s.len(),
{
    if s.len() == 0 {
        seq![]
    } else {
        let k = kept_symbols(t, s.drop_last());
        match mapped_range(t, s.last().1.0, s.last().1.1) {
            Some(x) => k.push((s.last().0, x)),
            None => k,
        }
    }
}

/// A workspace symbol's location mapped back to the Fiasco sources: a
/// full location must map; a document of another scheme than `file` stays
/// as it is; a file must map to exactly one Fiasco source file.
pub open spec fn mapped_symbol_location(t: Table, l: SymbolLocationView) -> Option<SymbolLocationView> {
    match l {
        SymbolLocationView::Location(x) => match mapped_range(t, x.0, x.1) {
            Some(m) => Some(SymbolLocationView::Location(m)),
            None => None,
        },
        SymbolLocationView::Workspace(scheme, path) => if scheme != "file"@ {
            Some(l)
        } else if files_of(t, path).len() != 1 {
            None
        } else {
            Some(SymbolLocationView::Workspace(scheme, files_of(t, path)[0]))
        },
    }
}

/// `idx` picks, in order, the symbols of `s` that the flat response `r`
/// keeps: each kept symbol is its pick with the location mapped back, and
/// every symbol whose location maps back is picked.
pub open spec fn flat_picked<T>(
    t: Table,
    s: Seq<(T, (Seq<char>, Range))>,
    r: Seq<(T, (Seq<char>, Range))>,
    idx: Seq<int>,
) -> bool {
    &&& idx.len() == r.len()
    &&& forall|k: int|
        0 <= k < r.len() ==> 0 <= #[trigger] idx[k] < s.len() && r[k].0 == s[idx[k]].0 && mapped_range(
            t,
            s[idx[k]].1.0,
            s[idx[k]].1.1,
        ) == Some(r[k].1)
    &&& forall|a: int, b: int| 0 <= a < b < r.len() ==> #[trigger] idx[a] < #[trigger] idx[b]
    &&& forall|i: int|
        0 <= i < s.len() && mapped_range(t, (#[trigger] s[i]).1.0, s[i].1.1) is Some
            ==> exists|k: int| 0 <= k < r.len() && idx[k] == i
}

/// A mapped flat response holds, in order, exactly the symbols whose
/// locations map back, each with its location mapped: a symbol whose
/// location does not map back is dropped, and no other is.
pub proof fn lemma_flat_symbols_mapped<T>(t: Table, s: Seq<(T, (Seq<char>, Range))>)
    ensures
        exists|idx: Seq<int>| flat_picked(t, s, kept_symbols(t, s), idx),
    decreases s.len(),
{
    if s.len() == 0 {
        assert(flat_picked(t, s, kept_symbols(t, s), Seq::<int>::empty()));
    } else {
        let d = s.drop_last();
        lemma_flat_symbols_mapped(t, d);
        let p = kept_symbols(t, d);
        let r = kept_symbols(t, s);
        let pidx = choose|idx: Seq<int>| flat_picked(t, d, p, idx);
        let n = s.len() - 1;
        assert(s[n] == s.last());
        assert forall|i: int| 0 <= i < n implies s[i] == d[i] by {}
        if mapped_range(t, s.last().1.0, s.last().1.1) is Some {
            let idx = pidx.push(n);
            assert(r == p.push((s.last().0, mapped_range(t, s.last().1.0, s.last().1.1)->0)));
            assert forall|i: int|
                0 <= i < s.len() && mapped_range(t, (#[trigger] s[i]).1.0, s[i].1.1) is Some
                    implies exists|k: int| 0 <= k < r.len() && idx[k] == i by {
                if i == n {
                    assert(idx[r.len() - 1] == i);
                } else {
                    assert(d[i] == s[i]);
                    let k = choose|k: int| 0 <= k < p.len() && pidx[k] == i;
                    assert(idx[k] == i);
                }
            }
            assert(flat_picked(t, s, r, idx));
        } else {
            assert(r == p);
            assert forall|i: int|
                0 <= i < s.len() && mapped_range(t, (#[trigger] s[i]).1.0, s[i].1.1) is Some
                    implies exists|k: int| 0 <= k < r.len() && pidx[k] == i by {
                assert(d[i] == s[i]);
            }
            assert(flat_picked(t, s, r, pidx));
        }
    }
}

/// `idx` picks, in order, the symbols of `s` that the nested response `r`
/// keeps: each kept symbol is its pick moved (see [`symbol_moved`]), and
/// every symbol that can be moved is picked.
pub open spec fn nested_picked<U>(
    t: Table,
    s: Seq<(U, SymbolLocationView)>,
    r: Seq<(U, SymbolLocationView)>,
    idx: Seq<int>,
) -> bool {
    &&& idx.len() == r.len()
    &&& forall|k: int|
        0 <= k < r.len() ==> 0 <= #[trigger] idx[k] < s.len() && r[k].0 == s[idx[k]].0 && symbol_moved(
            t,
            s[idx[k]].1,
            r[k].1,
        )
    &&& forall|a: int, b: int| 0 <= a < b < r.len() ==> #[trigger] idx[a] < #[trigger] idx[b]
    &&& forall|i: int|
        0 <= i < s.len() && symbol_movable(t, (#[trigger] s[i]).1) ==> exists|k: int| 0 <= k < r.len() && idx[k]
            == i
}

/// A mapped nested response holds, in order, exactly the symbols that can
/// be moved back to the Fiasco sources, each moved: a symbol whose full
/// location does not map back is dropped; a document of another scheme
/// than `file` stays; a `file:` document moves to the one Fiasco source its
/// preprocessed file maps to, and is dropped where there is not exactly one.
pub proof fn lemma_nested_symbols_mapped<U>(t: Table, s: Seq<(U, SymbolLocationView)>)
    ensures
        exists|idx: Seq<int>| nested_picked(t, s, kept_workspace_symbols(t, s), idx),
    decreases s.len(),
{
    if s.len() == 0 {
        assert(nested_picked(t, s, kept_workspace_symbols(t, s), Seq::<int>::empty()));
    } else {
        let d = s.drop_last();
        lemma_nested_symbols_mapped(t, d);
        let p = kept_workspace_symbols(t, d);
        let r = kept_workspace_symbols(t, s);
        let pidx = choose|idx: Seq<int>| nested_picked(t, d, p, idx);
        let n = s.len() - 1;
        let last = s.last();
        assert(s[n] == last);
        assert forall|i: int| 0 <= i < n implies s[i] == d[i] by {}
        match last.1 {
            SymbolLocationView::Workspace(a, q) => {
                if a == "file"@ && files_of(t, q).len() == 1 {
                    assert(files_of(t, q) =~= seq![files_of(t, q)[0]]);
                }
            },
            _ => {},
        }
        match mapped_symbol_location(t, last.1) {
            Some(x) => {
                let idx = pidx.push(n);
                assert(r == p.push((last.0, x)));
                assert(symbol_moved(t, s[n].1, x));
                assert forall|i: int| 0 <= i < s.len() && symbol_movable(t, (#[trigger] s[i]).1) implies exists|k: int|
                    0 <= k < r.len() && idx[k] == i by {
                    if i == n {
                        assert(idx[r.len() - 1] == i);
                    } else {
                        assert(d[i] == s[i]);
                        let k = choose|k: int| 0 <= k < p.len() && pidx[k] == i;
                        assert(idx[k] == i);
                    }
                }
                assert(nested_picked(t, s, r, idx));
            },
            None => {
                assert(r == p);
                assert(!symbol_movable(t, s[n].1));
                assert forall|i: int| 0 <= i < s.len() && symbol_movable(t, (#[trigger] s[i]).1) implies exists|k: int|
                    0 <= k < r.len() && pidx[k] == i by {
                    assert(d[i] == s[i]);
                }
                assert(nested_picked(t, s, r, pidx));
            },
        }
    }
}

/// Whether a symbol at `from` can be moved back to the Fiasco sources.
pub open spec fn symbol_movable(t: Table, from: SymbolLocationView) -> bool {
    match from {
        SymbolLocationView::Location(x) => mapped_range(t, x.0, x.1) is Some,
        SymbolLocationView::Workspace(a, p) => a != "file"@ || files_of(t, p).len() == 1,
    }
}

/// `to` is where a symbol at `from` may be moved: a full location to the
/// place it maps back to; a document of another scheme than `file` to
/// itself; a `file:` document to the only Fiasco source its preprocessed
/// file maps to.
pub open spec fn symbol_moved(t: Table, from: SymbolLocationView, to: SymbolLocationView) -> bool {
    match (from, to) {
        (SymbolLocationView::Location(x), SymbolLocationView::Location(y)) => mapped_range(t, x.0, x.1) == Some(y),
        (SymbolLocationView::Workspace(a, p), SymbolLocationView::Workspace(b, q)) => a == b && if a == "file"@ {
            files_of(t, p) == seq![q]
        } else {
            p == q
        },
        _ => false,
    }
}

/// The workspace symbols whose locations can be mapped, mapped, in order.
pub open spec fn kept_workspace_symbols<U>(t: Table, s: Seq<(U, SymbolLocationView)>) -> Seq<
    (U, SymbolLocationView),
>
    decreases s.len(),
{
    if s.len() == 0 {
        seq![]
    } else {
        let k = kept_workspace_symbols(t, s.drop_last());
        match mapped_symbol_location(t, s.last().1) {
            Some(x) => k.push((s.last().0, x)),
            None => k,
        }
    }
}

/// Maps the location of one workspace symbol back to the Fiasco
/// sources; `false` where the symbol is to be dropped.
fn map_symbol_location(mapping: &FiascoSourceMapping, location: &mut SymbolLocation) -> (keep: bool)
    requires
        mapping@.sorted(),
        mapping@.fits(),
    ensures
        match mapped_symbol_location(
            mapping@.table(MapDirection::FromPreprocess),
            symbol_location_view(*old(location)),
        ) {
            Some(x) => keep && symbol_location_view(*final(location)) == x,
            None => !keep,
        },
{
    match location {
        SymbolLocation::Location(l) => mapping.map_location(MapDirection::FromPreprocess, l).is_ok(),
        SymbolLocation::Workspace { scheme, path } => {
            if !str_eq(scheme.as_str(), "file") {
                return true;
            }
            let files = mapping.map_files(MapDirection::FromPreprocess, path.as_str());
            proof {
                let t = mapping@.table(MapDirection::FromPreprocess);
                match lookup(t, path@) {
                    Some(f) => {
                        assert(files@.map_values(|s: String| s@).len() == files@.len());
                    },
                    None => {},
                }
            }
            if files.len() != 1 {
                return false;
            }
            *path = files[0].clone();
            proof {
                let t = mapping@.table(MapDirection::FromPreprocess);
                assert(files@.map_values(|s: String| s@)[0] == files@[0]@);
            }
            true
        },
    }
}

/// The response to a workspace symbol request, mapped back to the Fiasco
/// sources: symbols whose locations do not map are dropped.
pub fn handle_res_workspace_symbol<T, U>(
    mapping: &FiascoSourceMapping,
    res: Option<WorkspaceSymbolResponse<T, U>>,
) -> (r: Option<WorkspaceSymbolResponse<T, U>>)
    requires
        mapping@.sorted(),
        mapping@.fits(),
    ensures
        match res {
            None => r is None,
            Some(w) => r matches Some(x) && workspace_symbol_view(x) == match workspace_symbol_view(w) {
                WorkspaceSymbolView::Flat(s) => WorkspaceSymbolView::<T, U>::Flat(
                    kept_symbols(mapping@.table(MapDirection::FromPreprocess), s),
                ),
                WorkspaceSymbolView::Nested(s) => WorkspaceSymbolView::<T, U>::Nested(
                    kept_workspace_symbols(mapping@.table(MapDirection::FromPreprocess), s),
                ),
            },
        },
{
    let ghost t = mapping@.table(MapDirection::FromPreprocess);
    match res {
        None => None,
        Some(WorkspaceSymbolResponse::Flat(v)) => {
            let ghost s = v@.map_values(|x: SymbolInformation<T>| (x.rest, loc_view(x.location)));
            let n = v.len();
            let mut rest = reversed(v);
            let mut out: Vec<SymbolInformation<T>> = Vec::new();
            let mut i: usize = 0;
            while i < n
                invariant
                    t == mapping@.table(MapDirection::FromPreprocess),
                    mapping@.sorted(),
                    mapping@.fits(),
                    n == s.len(),
                    i <= n,
                    rest@.len() == n - i,
                    forall|k: int|
                        0 <= k < n - i ==> ((#[trigger] rest@[k]).rest, loc_view(rest@[k].location))
                            == s[n - 1 - k],
                    out@.map_values(|x: SymbolInformation<T>| (x.rest, loc_view(x.location)))
                        == kept_symbols(t, s.take(i as int)),
                decreases n - i,
            {
                let mut x = rest.pop().unwrap();
                assert((x.rest, loc_view(x.location)) == s[i as int]);
                assert(s.take(i + 1).drop_last() =~= s.take(i as int));
                let ghost before = out@;
                if mapping.map_location(MapDirection::FromPreprocess, &mut x.location).is_ok() {
                    out.push(x);
                    assert(out@.map_values(|x: SymbolInformation<T>| (x.rest, loc_view(x.location)))
                        =~= before.map_values(|x: SymbolInformation<T>| (x.rest, loc_view(x.location))).push(
                        (x.rest, loc_view(x.location)),
                    ));
                }
                i = i + 1;
            }
            assert(s.take(n as int) =~= s);
            Some(WorkspaceSymbolResponse::Flat(out))
        },
        Some(WorkspaceSymbolResponse::Nested(v)) => {
            let ghost s = v@.map_values(|x: WorkspaceSymbol<U>| (x.rest, symbol_location_view(x.location)));
            let n = v.len();
            let mut rest = reversed(v);
            let mut out: Vec<WorkspaceSymbol<U>> = Vec::new();
            let mut i: usize = 0;
            while i < n
                invariant
                    t == mapping@.table(MapDirection::FromPreprocess),
                    mapping@.sorted(),
                    mapping@.fits(),
                    n == s.len(),
                    i <= n,
                    rest@.len() == n - i,
                    forall|k: int|
                        0 <= k < n - i ==> ((#[trigger] rest@[k]).rest, symbol_location_view(rest@[k].location))
                            == s[n - 1 - k],
                    out@.map_values(|x: WorkspaceSymbol<U>| (x.rest, symbol_location_view(x.location)))
                        == kept_workspace_symbols(t, s.take(i as int)),
                decreases n - i,
            {
                let mut x = rest.pop().unwrap();
                assert((x.rest, symbol_location_view(x.location)) == s[i as int]);
                assert(s.take(i + 1).drop_last() =~= s.take(i as int));
                let ghost before = out@;
                if map_symbol_location(mapping, &mut x.location) {
                    out.push(x);
                    assert(out@.map_values(|x: WorkspaceSymbol<U>| (x.rest, symbol_location_view(x.location)))
                        =~= before.map_values(|x: WorkspaceSymbol<U>| (x.rest, symbol_location_view(x.location))).push(
                        (x.rest, symbol_location_view(x.location)),
                    ));
                }
                i = i + 1;
            }
            assert(s.take(n as int) =~= s);
            Some(WorkspaceSymbolResponse::Nested(out))
        },
    }
}

/// A diagnostic with its range; `rest` is what the rewriting does not read.
pub struct Diagnostic<D> {
    pub rest: D,
    pub range: Range,
}

/// The parameters of a code action request: the document by the scheme
/// and path of its URI, the range, and the diagnostics in context.
pub struct CodeActionParams<T, D> {
    pub rest: T,
    pub scheme: String,
    pub path: String,
    pub range: Range,
    pub diagnostics: Vec<Diagnostic<D>>,
}

/// The models of diagnostics.
pub open spec fn diagnostics_view<D>(v: Seq<Diagnostic<D>>) -> Seq<(D, Range)> {
    v.map_values(|d: Diagnostic<D>| (d.rest, d.range))
}

/// The diagnostics whose ranges map from `path` into the file `target`,
/// mapped, in order.
pub open spec fn kept_diagnostics<D>(t: Table, path: Seq<char>, target: Seq<char>, s: Seq<(D, Range)>) -> Seq<
    (D, Range),
>
    decreases s.len(),
{
    if s.len() == 0 {
        seq![]
    } else {
        let k = kept_diagnostics(t, path, target, s.drop_last());
        match mapped_range(t, path, s.last().1) {
            Some((p, q)) => if p == target {
                k.push((s.last().0, q))
            } else {
                k
            },
            None => k,
        }
    }
}

/// The diagnostics whose ranges map from `path` into the file `target`,
/// mapped, in order.
fn keep_diagnostics<D>(
    mapping: &FiascoSourceMapping,
    direction: MapDirection,
    path: &String,
    target: &String,
    v: Vec<Diagnostic<D>>,
) -> (r: Vec<Diagnostic<D>>)
    requires
        mapping@.sorted(),
        mapping@.fits(),
    ensures
        diagnostics_view(r@) == kept_diagnostics(mapping@.table(direction), path@, target@, diagnostics_view(v@)),
{
    let ghost t = mapping@.table(direction);
    let ghost s = diagnostics_view(v@);
    let n = v.len();
    let mut rest = reversed(v);
    let mut out: Vec<Diagnostic<D>> = Vec::new();
    let mut i: usize = 0;
    while i < n
        invariant
            t == mapping@.table(direction),
            mapping@.sorted(),
            mapping@.fits(),
            n == s.len(),
            i <= n,
            rest@.len() == n - i,
            forall|k: int| 0 <= k < n - i ==> ((#[trigger] rest@[k]).rest, rest@[k].range) == s[n - 1 - k],
            diagnostics_view(out@) == kept_diagnostics(t, path@, target@, s.take(i as int)),
        decreases n - i,
    {
        let mut d = rest.pop().unwrap();
        assert((d.rest, d.range) == s[i as int]);
        assert(s.take(i + 1).drop_last() =~= s.take(i as int));
        let ghost before = out@;
        let mut diagnostic_path = path.clone();
        if mapping.map_range(direction, &mut diagnostic_path, &mut d.range).is_ok() {
            if str_eq(diagnostic_path.as_str(), target.as_str()) {
                out.push(d);
                assert(diagnostics_view(out@) =~= diagnostics_view(before).push((d.rest, d.range)));
            }
        }
        i = i + 1;
    }
    assert(s.take(n as int) =~= s);
    out
}

/// The model of the parameters of a code action request.
pub struct CodeActionParamsView<T, D> {
    pub rest: T,
    pub scheme: Seq<char>,
    pub path: Seq<char>,
    pub range: Range,
    pub diagnostics: Seq<(D, Range)>,
}

/// The model of the parameters of a code action request.
pub open spec fn code_action_params_view<T, D>(p: CodeActionParams<T, D>) -> CodeActionParamsView<T, D> {
    CodeActionParamsView {
        rest: p.rest,
        scheme: p.scheme@,
        path: p.path@,
        range: p.range,
        diagnostics: diagnostics_view(p.diagnostics@),
    }
}

/// The path of the `file:` URL that the url crate builds from the absolute
/// path `p` (`Url::from_file_path`, then `Url::path`): its components
/// percent-encoded as URL path segments.
pub uninterp spec fn file_url_path(p: Seq<char>) -> Seq<char>;

/// `Url::from_file_path(p)` of the url crate and the path of the URL it
/// builds; `None` where `p` is not absolute, which on Unix means that it
/// does not start with `/`.  What the path holds is left to the name
/// [`file_url_path`]: percent-encoding and the normalisation of the
/// components.
#[verifier::external_body]
fn file_url_path_of(p: &str) -> (r: Option<String>)
    ensures
        r is None <==> !"/"@.is_prefix_of(p@),
        r matches Some(u) ==> u@ == file_url_path(p@),
{
    match lsp_types::Url::from_file_path(p) {
        Ok(u) => Some(u.path().to_owned()),
        Err(()) => None,
    }
}

/// A code action request mapped into the preprocessed files, with the
/// document's path and the path of its new URL; `None` where the request
/// passes unchanged: a document of another scheme than `file`, one that no
/// mapping knows, or a range that does not map. The new URL is the `file:`
/// URL of the file the range maps to, and diagnostics are kept where they
/// map into a file whose path equals that URL's path.
pub open spec fn mapped_code_action_request<T, D>(t: Table, p: CodeActionParamsView<T, D>) -> Option<
    (CodeActionParamsView<T, D>, (Seq<char>, Seq<char>)),
> {
    if p.scheme != "file"@ || files_of(t, p.path).len() == 0 {
        None
    } else {
        match mapped_range(t, p.path, p.range) {
            None => None,
            Some((target, range)) => {
                let url_path = file_url_path(target);
                Some(
                    (
                        CodeActionParamsView {
                            path: url_path,
                            range,
                            diagnostics: kept_diagnostics(t, p.path, url_path, p.diagnostics),
                            ..p
                        },
                        (p.path, url_path),
                    ),
                )
            },
        }
    }
}

/// Where a code action request is mapped, the file it maps to is an
/// absolute path, of which a `file:` URL can be built.
pub open spec fn request_target_absolute<T, D>(t: Table, p: CodeActionParamsView<T, D>) -> bool {
    p.scheme == "file"@ && files_of(t, p.path).len() > 0 ==> match mapped_range(t, p.path, p.range) {
        Some((target, _)) => "/"@.is_prefix_of(target),
        None => true,
    }
}

/// A code action request mapped into the preprocessed files, with the
/// paths to keep for its response.
pub fn handle_req_code_action<T, D>(mapping: &FiascoSourceMapping, params: CodeActionParams<T, D>) -> (r: (
    CodeActionParams<T, D>,
    Option<(String, String)>,
))
    requires
        mapping@.sorted(),
        mapping@.fits(),
        request_target_absolute(mapping@.table(MapDirection::ToPreprocess), code_action_params_view(params)),
    ensures
        match mapped_code_action_request(
            mapping@.table(MapDirection::ToPreprocess),
            code_action_params_view(params),
        ) {
            None => code_action_params_view(r.0) == code_action_params_view(params) && r.1 is None,
            Some((p, (a, b))) => code_action_params_view(r.0) == p && (r.1 matches Some((x, y)) && x@ == a
                && y@ == b),
        },
{
    let direction = MapDirection::ToPreprocess;
    let mut params = params;
    if !str_eq(params.scheme.as_str(), "file") {
        return (params, None);
    }
    let source_path = params.path.clone();
    let files = mapping.map_files(direction, source_path.as_str());
    proof {
        let t = mapping@.table(direction);
        assert(files@.map_values(|s: String| s@).len() == files@.len());
    }
    if files.len() == 0 {
        return (params, None);
    }
    if mapping.map_range(direction, &mut params.path, &mut params.range).is_err() {
        return (params, None);
    }
    let target = match file_url_path_of(params.path.as_str()) {
        Some(u) => u,
        None => {
            proof {
                assert(false);
            }
            return (params, None);
        },
    };
    params.path = target.clone();
    let mut diagnostics: Vec<Diagnostic<D>> = Vec::new();
    std::mem::swap(&mut diagnostics, &mut params.diagnostics);
    params.diagnostics = keep_diagnostics(mapping, direction, &source_path, &target, diagnostics);
    (params, Some((source_path, target)))
}

/// A replacement of the text of a range.
pub struct TextEdit {
    pub range: Range,
    pub new_text: String,
}

/// The changes of a workspace edit, by document path; `rest` is what the
/// rewriting does not read.
pub struct WorkspaceEdit<E> {
    pub rest: E,
    pub changes: Option<Vec<(String, Vec<TextEdit>)>>,
}

/// The model of a text edit.
pub open spec fn text_edit_view(e: TextEdit) -> (Range, Seq<char>) {
    (e.range, e.new_text@)
}

/// The models of text edits.
pub open spec fn text_edits_view(v: Seq<TextEdit>) -> Seq<(Range, Seq<char>)> {
    v.map_values(|e: TextEdit| text_edit_view(e))
}

/// The model of the changes of a workspace edit.
pub open spec fn changes_view(v: Seq<(String, Vec<TextEdit>)>) -> Seq<(Seq<char>, Seq<(Range, Seq<char>)>)> {
    v.map_values(|c: (String, Vec<TextEdit>)| (c.0@, text_edits_view(c.1@)))
}

/// The first group from `i` on whose path has the same `file:` URL as `p`.
pub open spec fn group_of(g: Seq<(Seq<char>, Seq<(Range, Seq<char>)>)>, p: Seq<char>, i: int) -> Option<int>
    decreases g.len() - i,
{
    if i < 0 || i >= g.len() {
        None
    } else if file_url_path(g[i].0) == file_url_path(p) {
        Some(i)
    } else {
        group_of(g, p, i + 1)
    }
}

/// The groups with the edit `e` added to the group of `p`, or to a new
/// group at the end.
pub open spec fn add_edit(g: Seq<(Seq<char>, Seq<(Range, Seq<char>)>)>, p: Seq<char>, e: (Range, Seq<char>)) -> Seq<
    (Seq<char>, Seq<(Range, Seq<char>)>),
> {
    match group_of(g, p, 0) {
        Some(i) => g.update(i, (g[i].0, g[i].1.push(e))),
        None => g.push((p, seq![e])),
    }
}

/// The groups after the edits of the document at `path`: each edit whose
/// range maps is added to the group of the file it maps into.
pub open spec fn group_edits(
    t: Table,
    g: Seq<(Seq<char>, Seq<(Range, Seq<char>)>)>,
    path: Seq<char>,
    edits: Seq<(Range, Seq<char>)>,
) -> Seq<(Seq<char>, Seq<(Range, Seq<char>)>)>
    decreases edits.len(),
{
    if edits.len() == 0 {
        g
    } else {
        let h = group_edits(t, g, path, edits.drop_last());
        match mapped_range(t, path, edits.last().0) {
            Some((p, q)) => add_edit(h, p, (q, edits.last().1)),
            None => h,
        }
    }
}

/// The changes of a workspace edit mapped back to the Fiasco sources,
/// grouped by the `file:` URL of the file each edit maps into; edits that
/// do not map are dropped.
pub open spec fn group_changes(t: Table, changes: Seq<(Seq<char>, Seq<(Range, Seq<char>)>)>) -> Seq<
    (Seq<char>, Seq<(Range, Seq<char>)>),
>
    decreases changes.len(),
{
    if changes.len() == 0 {
        seq![]
    } else {
        group_edits(t, group_changes(t, changes.drop_last()), changes.last().0, changes.last().1)
    }
}

/// Every edit of `changes` that maps lands in an absolute path, of which a
/// `file:` URL can be built.
pub open spec fn edit_targets_absolute(t: Table, changes: Seq<(Seq<char>, Seq<(Range, Seq<char>)>)>) -> bool {
    forall|i: int, k: int|
        0 <= i < changes.len() && 0 <= k < changes[i].1.len() ==> (mapped_range(
            t,
            changes[i].0,
            #[trigger] changes[i].1[k].0,
        ) matches Some((p, _)) ==> "/"@.is_prefix_of(p))
}

/// Every group is keyed by an absolute path.
pub open spec fn keys_absolute(g: Seq<(Seq<char>, Seq<(Range, Seq<char>)>)>) -> bool {
    forall|i: int| 0 <= i < g.len() ==> "/"@.is_prefix_of(#[trigger] g[i].0)
}

/// The position of the group of the file at `p`.
fn find_group(groups: &Vec<(String, Vec<TextEdit>)>, p: &str) -> (r: Option<usize>)
    requires
        "/"@.is_prefix_of(p@),
        keys_absolute(changes_view(groups@)),
    ensures
        r matches Some(i) ==> group_of(changes_view(groups@), p@, 0) == Some(i as int) && i < groups@.len(),
        r is None ==> group_of(changes_view(groups@), p@, 0) is None,
{
    let ghost g = changes_view(groups@);
    let mut i: usize = 0;
    while i < groups.len()
        invariant
            g == changes_view(groups@),
            i <= groups@.len(),
            group_of(g, p@, i as int) == group_of(g, p@, 0),
            "/"@.is_prefix_of(p@),
            keys_absolute(g),
        decreases groups@.len() - i,
    {
        assert(g[i as int].0 == groups@[i as int].0@);
        let key_url = file_url_path_of(groups[i].0.as_str());
        let p_url = file_url_path_of(p);
        match (key_url, p_url) {
            (Some(a), Some(b)) => {
                if str_eq(a.as_str(), b.as_str()) {
                    return Some(i);
                }
            },
            _ => {
                proof {
                    assert(false);
                }
            },
        }
        i = i + 1;
    }
    None
}

/// Adds an edit to the group of the file at `p`.
fn add_edit_to(groups: &mut Vec<(String, Vec<TextEdit>)>, p: String, e: TextEdit)
    requires
        "/"@.is_prefix_of(p@),
        keys_absolute(changes_view(old(groups)@)),
    ensures
        changes_view(final(groups)@) == add_edit(changes_view(old(groups)@), p@, text_edit_view(e)),
        keys_absolute(changes_view(final(groups)@)),
{
    let ghost g = changes_view(groups@);
    match find_group(groups, p.as_str()) {
        Some(i) => {
            let (key, mut edits) = groups.remove(i);
            let ghost ev = text_edits_view(edits@);
            edits.push(e);
            assert(text_edits_view(edits@) =~= ev.push(text_edit_view(e)));
            groups.insert(i, (key, edits));
            assert(changes_view(groups@) =~= g.update(i as int, (g[i as int].0, g[i as int].1.push(text_edit_view(e)))));
        },
        None => {
            let mut edits: Vec<TextEdit> = Vec::new();
            edits.push(e);
            assert(text_edits_view(edits@) =~= seq![text_edit_view(e)]);
            groups.push((p, edits));
            assert(changes_view(groups@) =~= g.push((p@, seq![text_edit_view(e)])));
        },
    }
}

/// Maps the changes of a workspace edit back to the Fiasco sources.
fn map_workspace_edit<E>(mapping: &FiascoSourceMapping, edit: &mut WorkspaceEdit<E>)
    requires
        mapping@.sorted(),
        mapping@.fits(),
        old(edit).changes matches Some(c) ==> edit_targets_absolute(
            mapping@.table(MapDirection::FromPreprocess),
            changes_view(c@),
        ),
    ensures
        final(edit).rest == old(edit).rest,
        match old(edit).changes {
            None => final(edit).changes is None,
            Some(c) => final(edit).changes matches Some(d) && changes_view(d@) == group_changes(
                mapping@.table(MapDirection::FromPreprocess),
                changes_view(c@),
            ),
        },
{
    let direction = MapDirection::FromPreprocess;
    let ghost t = mapping@.table(direction);
    let changes = match edit.changes.take() {
        None => {
            return;
        },
        Some(c) => c,
    };
    let ghost s = changes_view(changes@);
    let n = changes.len();
    let mut rest = reversed(changes);
    let mut groups: Vec<(String, Vec<TextEdit>)> = Vec::new();
    let mut i: usize = 0;
    assert(changes_view(groups@) =~= seq![]);
    while i < n
        invariant
            t == mapping@.table(direction),
            mapping@.sorted(),
            mapping@.fits(),
            n == s.len(),
            i <= n,
            rest@.len() == n - i,
            forall|k: int|
                0 <= k < n - i ==> ((#[trigger] rest@[k]).0@, text_edits_view(rest@[k].1@)) == s[n - 1 - k],
            changes_view(groups@) == group_changes(t, s.take(i as int)),
            edit_targets_absolute(t, s),
            keys_absolute(changes_view(groups@)),
        decreases n - i,
    {
        let (path, edits) = rest.pop().unwrap();
        assert((path@, text_edits_view(edits@)) == s[i as int]);
        assert(s.take(i + 1).drop_last() =~= s.take(i as int));
        let ghost g0 = changes_view(groups@);
        let ghost es = text_edits_view(edits@);
        let m = edits.len();
        proof {
            assert forall|k: int| 0 <= k < m implies (mapped_range(t, path@, #[trigger] es[k].0) matches Some((
                q,
                _,
            )) ==> "/"@.is_prefix_of(q)) by {
                assert(s[i as int].1[k] == es[k]);
            }
        }
        let mut pending = reversed(edits);
        let mut j: usize = 0;
        while j < m
            invariant
                t == mapping@.table(direction),
                mapping@.sorted(),
                mapping@.fits(),
                m == es.len(),
                j <= m,
                pending@.len() == m - j,
                forall|k: int| 0 <= k < m - j ==> text_edit_view(#[trigger] pending@[k]) == es[m - 1 - k],
                changes_view(groups@) == group_edits(t, g0, path@, es.take(j as int)),
                forall|k: int| 0 <= k < m ==> (mapped_range(t, path@, #[trigger] es[k].0) matches Some((q, _))
                    ==> "/"@.is_prefix_of(q)),
                keys_absolute(changes_view(groups@)),
            decreases m - j,
        {
            let mut e = pending.pop().unwrap();
            assert(text_edit_view(e) == es[j as int]);
            assert(es.take(j + 1).drop_last() =~= es.take(j as int));
            let mut edit_path = path.clone();
            assert(e.range == es[j as int].0);
            assert(mapped_range(t, path@, es[j as int].0) matches Some((q, _)) ==> "/"@.is_prefix_of(q));
            if mapping.map_range(direction, &mut edit_path, &mut e.range).is_ok() {
                add_edit_to(&mut groups, edit_path, e);
            }
            j = j + 1;
        }
        assert(es.take(m as int) =~= es);
        i = i + 1;
    }
    assert(s.take(n as int) =~= s);
    edit.changes = Some(groups);
}

/// A code action: its diagnostics and edit; `rest` is what the rewriting
/// does not read.
pub struct CodeAction<A, D, E> {
    pub rest: A,
    pub diagnostics: Option<Vec<Diagnostic<D>>>,
    pub edit: Option<WorkspaceEdit<E>>,
}

/// A command or a code action.
pub enum CodeActionOrCommand<C, A, D, E> {
    Command(C),
    CodeAction(CodeAction<A, D, E>),
}

/// A code action, with its texts.
pub struct CodeActionView<A, D, E> {
    pub rest: A,
    pub diagnostics: Option<Seq<(D, Range)>>,
    pub edit: Option<(E, Option<Seq<(Seq<char>, Seq<(Range, Seq<char>)>)>>)>,
}

/// A command or a code action, with its texts.
pub enum CodeActionOrCommandView<C, A, D, E> {
    Command(C),
    CodeAction(CodeActionView<A, D, E>),
}

/// The model of a command or code action.
pub open spec fn code_action_view<C, A, D, E>(c: CodeActionOrCommand<C, A, D, E>) -> CodeActionOrCommandView<
    C,
    A,
    D,
    E,
> {
    match c {
        CodeActionOrCommand::Command(x) => CodeActionOrCommandView::Command(x),
        CodeActionOrCommand::CodeAction(a) => CodeActionOrCommandView::CodeAction(
            CodeActionView {
                rest: a.rest,
                diagnostics: match a.diagnostics {
                    Some(v) => Some(diagnostics_view(v@)),
                    None => None,
                },
                edit: match a.edit {
                    Some(e) => Some(
                        (
                            e.rest,
                            match e.changes {
                                Some(c) => Some(changes_view(c@)),
                                None => None,
                            },
                        ),
                    ),
                    None => None,
                },
            },
        ),
    }
}

/// A command or code action mapped back to the Fiasco sources: the edit's
/// changes are mapped and grouped; diagnostics are kept where they map from
/// the preprocessed file `path` back into `source_path`.
pub open spec fn mapped_code_action<C, A, D, E>(
    t: Table,
    source_path: Seq<char>,
    path: Seq<char>,
    c: CodeActionOrCommandView<C, A, D, E>,
) -> CodeActionOrCommandView<C, A, D, E> {
    match c {
        CodeActionOrCommandView::Command(x) => CodeActionOrCommandView::Command(x),
        CodeActionOrCommandView::CodeAction(a) => CodeActionOrCommandView::CodeAction(
            CodeActionView {
                rest: a.rest,
                diagnostics: match a.diagnostics {
                    Some(s) => Some(kept_diagnostics(t, path, source_path, s)),
                    None => None,
                },
                edit: match a.edit {
                    Some((r, Some(ch))) => Some((r, Some(group_changes(t, ch)))),
                    other => other,
                },
            },
        ),
    }
}

/// Every edit of a code action that maps lands in an absolute path.
pub open spec fn code_action_targets_absolute<C, A, D, E>(t: Table, c: CodeActionOrCommandView<C, A, D, E>) -> bool {
    match c {
        CodeActionOrCommandView::CodeAction(a) => match a.edit {
            Some((_, Some(ch))) => edit_targets_absolute(t, ch),
            _ => true,
        },
        _ => true,
    }
}

/// The response to a code action request, mapped back to the Fiasco
/// sources. `context` holds the requesting document's path and the path of
/// the preprocessed file it was mapped to; without it the response passes
/// unchanged.
pub fn handle_res_code_action<C, A, D, E>(
    mapping: &FiascoSourceMapping,
    context: Option<(String, String)>,
    res: Option<Vec<CodeActionOrCommand<C, A, D, E>>>,
) -> (r: Option<Vec<CodeActionOrCommand<C, A, D, E>>>)
    requires
        mapping@.sorted(),
        mapping@.fits(),
        context is Some && res is Some ==> forall|k: int|
            0 <= k < res->0@.len() ==> code_action_targets_absolute(
                mapping@.table(MapDirection::FromPreprocess),
                code_action_view(#[trigger] res->0@[k]),
            ),
    ensures
        match (context, res) {
            (None, _) => r == res,
            (Some(_), None) => r is None,
            (Some((source_path, path)), Some(v)) => r matches Some(w) && w@.len() == v@.len() && forall|k: int|
                0 <= k < v@.len() ==> code_action_view(#[trigger] w@[k]) == mapped_code_action(
                    mapping@.table(MapDirection::FromPreprocess),
                    source_path@,
                    path@,
                    code_action_view(v@[k]),
                ),
        },
{
    let (source_path, path) = match context {
        None => {
            return res;
        },
        Some(c) => c,
    };
    let v = match res {
        None => {
            return None;
        },
        Some(v) => v,
    };
    let ghost t = mapping@.table(MapDirection::FromPreprocess);
    let ghost s = v@;
    let n = v.len();
    let mut rest = reversed(v);
    let mut out: Vec<CodeActionOrCommand<C, A, D, E>> = Vec::new();
    let mut i: usize = 0;
    while i < n
        invariant
            t == mapping@.table(MapDirection::FromPreprocess),
            mapping@.sorted(),
            mapping@.fits(),
            n == s.len(),
            i <= n,
            rest@.len() == n - i,
            forall|k: int| 0 <= k < n - i ==> #[trigger] rest@[k] == s[n - 1 - k],
            out@.len() == i,
            forall|k: int|
                0 <= k < n ==> code_action_targets_absolute(t, code_action_view(#[trigger] s[k])),
            forall|k: int|
                0 <= k < i ==> code_action_view(#[trigger] out@[k]) == mapped_code_action(
                    t,
                    source_path@,
                    path@,
                    code_action_view(s[k]),
                ),
        decreases n - i,
    {
        let cc = rest.pop().unwrap();
        assert(cc == s[i as int]);
        let mapped = match cc {
            CodeActionOrCommand::Command(x) => CodeActionOrCommand::Command(x),
            CodeActionOrCommand::CodeAction(action) => {
                let mut action = action;
                match action.edit {
                    Some(mut e) => {
                        map_workspace_edit(mapping, &mut e);
                        action.edit = Some(e);
                    },
                    None => {},
                }
                match action.diagnostics {
                    Some(d) => {
                        action.diagnostics = Some(
                            keep_diagnostics(mapping, MapDirection::FromPreprocess, &path, &source_path, d),
                        );
                    },
                    None => {},
                }
                CodeActionOrCommand::CodeAction(action)
            },
        };
        out.push(mapped);
        i = i + 1;
    }
    Some(out)
}

/// The parameters of a server request to apply a workspace edit; `rest` is
/// what the rewriting does not read.
pub struct ApplyWorkspaceEditParams<L, E> {
    pub rest: L,
    pub edit: WorkspaceEdit<E>,
}

/// A server request to apply a workspace edit, mapped back to the Fiasco
/// sources.
pub fn handle_server_req_workspace_edit<L, E>(
    mapping: &FiascoSourceMapping,
    params: ApplyWorkspaceEditParams<L, E>,
) -> (r: ApplyWorkspaceEditParams<L, E>)
    requires
        mapping@.sorted(),
        mapping@.fits(),
        params.edit.changes matches Some(c) ==> edit_targets_absolute(
            mapping@.table(MapDirection::FromPreprocess),
            changes_view(c@),
        ),
    ensures
        r.rest == params.rest,
        r.edit.rest == params.edit.rest,
        match params.edit.changes {
            None => r.edit.changes is None,
            Some(c) => r.edit.changes matches Some(d) && changes_view(d@) == group_changes(
                mapping@.table(MapDirection::FromPreprocess),
                changes_view(c@),
            ),
        },
{
    let mut params = params;
    map_workspace_edit(mapping, &mut params.edit);
    params
}

/// What the proxy does with a request from the editor, by its method.
#[derive(Debug, Clone, Copy, PartialEq, Eq, Structural)]
pub enum ClientRoute {
    /// Passed on to the language server unchanged.
    Forward,
    /// The document position in its parameters is mapped into the
    /// preprocessed files (see [`handle_req_source_location`]).
    SourcePosition,
    /// Mapped by [`handle_req_code_action`].
    CodeAction,
    /// A document symbol request.
    DocumentSymbol,
    /// An inlay hint request.
    InlayHint,
}

/// The route of a request from the editor with method `m`.
pub open spec fn client_route_spec(m: Seq<char>) -> ClientRoute {
    if m == "textDocument/completion"@ || m == "textDocument/hover"@ || m == "textDocument/signatureHelp"@
        || m == "textDocument/declaration"@ || m == "textDocument/definition"@ || m
        == "textDocument/references"@ || m == "textDocument/documentHighlight"@ || m
        == "textDocument/onTypeFormatting"@ || m == "textDocument/rename"@ || m
        == "textDocument/implementation"@ || m == "textDocument/typeDefinition"@ || m
        == "textDocument/moniker"@ || m == "textDocument/linkedEditingRange"@ || m
        == "textDocument/prepareCallHierarchy"@ || m == "textDocument/prepareTypeHierarchy"@ {
        ClientRoute::SourcePosition
    } else if m == "textDocument/codeAction"@ {
        ClientRoute::CodeAction
    } else if m == "textDocument/documentSymbol"@ {
        ClientRoute::DocumentSymbol
    } else if m == "textDocument/inlayHint"@ {
        ClientRoute::InlayHint
    } else {
        ClientRoute::Forward
    }
}

/// The route of a request from the editor with the given method.
pub fn client_route(method: &str) -> (r: ClientRoute)
    ensures
        r == client_route_spec(method@),
{
    if str_eq(method, "textDocument/completion") || str_eq(method, "textDocument/hover") || str_eq(
        method,
        "textDocument/signatureHelp",
    ) || str_eq(method, "textDocument/declaration") || str_eq(method, "textDocument/definition")
        || str_eq(method, "textDocument/references") || str_eq(method, "textDocument/documentHighlight")
        || str_eq(method, "textDocument/onTypeFormatting") || str_eq(method, "textDocument/rename")
        || str_eq(method, "textDocument/implementation") || str_eq(method, "textDocument/typeDefinition")
        || str_eq(method, "textDocument/moniker") || str_eq(method, "textDocument/linkedEditingRange")
        || str_eq(method, "textDocument/prepareCallHierarchy") || str_eq(
        method,
        "textDocument/prepareTypeHierarchy",
    ) {
        ClientRoute::SourcePosition
    } else if str_eq(method, "textDocument/codeAction") {
        ClientRoute::CodeAction
    } else if str_eq(method, "textDocument/documentSymbol") {
        ClientRoute::DocumentSymbol
    } else if str_eq(method, "textDocument/inlayHint") {
        ClientRoute::InlayHint
    } else {
        ClientRoute::Forward
    }
}

/// What the proxy does with the language server's response to a request,
/// by the request's method.
#[derive(Debug, Clone, Copy, PartialEq, Eq, Structural)]
pub enum ServerRoute {
    /// Passed on to the editor unchanged.
    Forward,
    /// Mapped by [`handle_res_goto`].
    Goto,
    /// Mapped by [`handle_res_references`].
    References,
    /// Mapped by [`handle_res_workspace_symbol`].
    WorkspaceSymbol,
    /// Mapped by [`handle_res_code_action`].
    CodeAction,
    /// A document highlight response.
    DocumentHighlight,
    /// A document symbol response.
    DocumentSymbol,
    /// An inlay hint response.
    InlayHint,
}

/// The route of the response to a request with method `m`.
pub open spec fn server_route_spec(m: Seq<char>) -> ServerRoute {
    if m == "textDocument/declaration"@ || m == "textDocument/definition"@ || m
        == "textDocument/implementation"@ || m == "textDocument/typeDefinition"@ {
        ServerRoute::Goto
    } else if m == "textDocument/references"@ {
        ServerRoute::References
    } else if m == "workspace/symbol"@ {
        ServerRoute::WorkspaceSymbol
    } else if m == "textDocument/codeAction"@ {
        ServerRoute::CodeAction
    } else if m == "textDocument/documentHighlight"@ {
        ServerRoute::DocumentHighlight
    } else if m == "textDocument/documentSymbol"@ {
        ServerRoute::DocumentSymbol
    } else if m == "textDocument/inlayHint"@ {
        ServerRoute::InlayHint
    } else {
        ServerRoute::Forward
    }
}

/// The route of the response to a request with the given method.
pub fn server_route(method: &str) -> (r: ServerRoute)
    ensures
        r == server_route_spec(method@),
{
    if str_eq(method, "textDocument/declaration") || str_eq(method, "textDocument/definition") || str_eq(
        method,
        "textDocument/implementation",
    ) || str_eq(method, "textDocument/typeDefinition") {
        ServerRoute::Goto
    } else if str_eq(method, "textDocument/references") {
        ServerRoute::References
    } else if str_eq(method, "workspace/symbol") {
        ServerRoute::WorkspaceSymbol
    } else if str_eq(method, "textDocument/codeAction") {
        ServerRoute::CodeAction
    } else if str_eq(method, "textDocument/documentHighlight") {
        ServerRoute::DocumentHighlight
    } else if str_eq(method, "textDocument/documentSymbol") {
        ServerRoute::DocumentSymbol
    } else if str_eq(method, "textDocument/inlayHint") {
        ServerRoute::InlayHint
    } else {
        ServerRoute::Forward
    }
}

/// The document position of a request from the editor, mapped into the
/// preprocessed files: the new path and position, and the pair of the
/// requesting document's path and the path it was mapped to, kept for the
/// response. Where no block covers the position's line, path and position
/// pass unchanged and nothing is kept.
pub fn handle_req_source_location(mapping: &FiascoSourceMapping, path: String, position: Position) -> (r: (
    String,
    Position,
    Option<(String, String)>,
))
    requires
        mapping@.sorted(),
        mapping@.fits(),
    ensures
        match mapped_position(mapping@.table(MapDirection::ToPreprocess), path@, position) {
            Some((p, q)) => r.0@ == p && r.1 == q && (r.2 matches Some((a, b)) && a@ == path@ && b@ == p),
            None => r.0@ == path@ && r.1 == position && r.2 is None,
        },
{
    let found = mapping.map(MapDirection::ToPreprocess, path.as_str(), position.line, position.character);
    match found {
        Some(loc) => {
            let target = loc.path.clone();
            (loc.path, Position { line: loc.line, character: loc.character }, Some((path, target)))
        },
        None => (path, position, None),
    }
}

} // verus!
