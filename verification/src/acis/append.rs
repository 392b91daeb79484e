//! Writing a whole body into a document as new records.
//!
//! `lower` updates records a body was lifted from; this creates them. A
//! solid built from scratch has no records behind it, so the pointer graph
//! is laid down anew: every node gets a record, and every record names the
//! ones its node is joined to.
//!
//! # Layout
//!
//! The new records go after everything the document already holds, in this
//! order: a point and a vertex record for each vertex, then the curves, the
//! surfaces, the edges, coedges, loops, faces, shells and lumps, and last the
//! body record. Ids are array positions, so each node's id is known from the
//! layout alone, and every record is written with its pointers in place; the
//! vertex records, whose pointers are only written once every geometry record
//! is known to be writable, are the one exception.
//!
//! # What the reader expects
//!
//! Every record's first token is its attribute pointer, always null here.
//! Siblings are strung together rather than listed: a shell names its first
//! face and every face names the next, and a loop's coedges form a ring.

use vstd::prelude::*;
use super::body::{Body, Coedge, Edge, Face, GeometryRecord, Loop, Lump, Shell, Vertex};
use super::document::{
    duplicate_tokens, tokens_view, RecordView, SatDocument, SatRecord, SatToken, TokenView, NULL,
};

verus! {

/// Why a body could not be written.
#[derive(Debug, Clone, Copy, PartialEq, Eq, Structural)]
pub enum Unappendable {
    /// A curve with no record form.
    Curve,
    /// A surface with no record form.
    Surface,
    /// The body's own topology does not hold together.
    Inconsistent,
}

/// Where the body ended up.
#[derive(Debug, Clone, Copy, PartialEq, Eq, Structural)]
pub struct Written {
    /// Record id of the `body` record.
    pub body: i32,
    /// How many records were added in total.
    pub records: usize,
}

// ---------------------------------------------------------------------------
// The layout of the new records, relative to the first of them.

pub open spec fn curves_start(b: Body) -> int {
    2 * (b.vertices@.len() as int)
}

pub open spec fn surfaces_start(b: Body) -> int {
    curves_start(b) + b.curves@.len()
}

pub open spec fn edges_start(b: Body) -> int {
    surfaces_start(b) + b.surfaces@.len()
}

pub open spec fn coedges_start(b: Body) -> int {
    edges_start(b) + b.edges@.len()
}

pub open spec fn loops_start(b: Body) -> int {
    coedges_start(b) + b.coedges@.len()
}

pub open spec fn faces_start(b: Body) -> int {
    loops_start(b) + b.loops@.len()
}

pub open spec fn shells_start(b: Body) -> int {
    faces_start(b) + b.faces@.len()
}

pub open spec fn lumps_start(b: Body) -> int {
    shells_start(b) + b.shells@.len()
}

pub open spec fn body_offset(b: Body) -> int {
    lumps_start(b) + b.lumps@.len()
}

/// How many records a body is written as.
pub open spec fn record_total(b: Body) -> int {
    body_offset(b) + 1
}

// ---------------------------------------------------------------------------
// Pointers.

/// The id of node `key` of an arena whose records start at `start`, or null
/// when there is no such node.
pub open spec fn node_id(base: int, start: int, count: int, key: int) -> int {
    if 0 <= key < count {
        base + start + key
    } else {
        -1
    }
}

pub open spec fn pointer_to(id: int) -> TokenView {
    TokenView::Pointer(id as i32)
}

pub open spec fn null_token() -> TokenView {
    TokenView::Pointer(NULL)
}

pub open spec fn sense_token(forward: bool) -> TokenView {
    TokenView::Ident(if forward { "forward"@ } else { "reversed"@ })
}

/// The first position of `x` in `s`.
pub open spec fn first_index(s: Seq<usize>, x: usize) -> Option<int>
    decreases s.len(),
{
    if s.len() == 0 {
        None
    } else {
        match first_index(s.drop_last(), x) {
            Some(p) => Some(p),
            None => if s.last() == x {
                Some(s.len() - 1)
            } else {
                None
            },
        }
    }
}

/// The id of the element after `key` in an ownership list, or null at the
/// end or when `key` is not listed.
pub open spec fn next_in_spec(order: Seq<usize>, key: usize, base: int, start: int, count: int) -> int {
    match first_index(order, key) {
        Some(p) => if p + 1 < order.len() {
            node_id(base, start, count, order[p + 1] as int)
        } else {
            -1
        },
        None => -1,
    }
}

/// The id of the first element of an ownership list, or null when empty.
pub open spec fn first_in(order: Seq<usize>, base: int, start: int, count: int) -> int {
    if order.len() > 0 {
        node_id(base, start, count, order[0] as int)
    } else {
        -1
    }
}

/// The first edge that starts or ends at vertex `v`.
pub open spec fn first_edge_at(edges: Seq<Edge>, v: usize) -> Option<int>
    decreases edges.len(),
{
    if edges.len() == 0 {
        None
    } else {
        match first_edge_at(edges.drop_last(), v) {
            Some(e) => Some(e),
            None => if edges.last().start == v || edges.last().end == v {
                Some(edges.len() - 1)
            } else {
                None
            },
        }
    }
}

/// A coedge's partner: the coedge after it among those its edge lists,
/// going round, when that edge lists more than one; otherwise null.
pub open spec fn partner_id(b: Body, base: int, co: int) -> int {
    let e = b.coedges@[co].edge;
    if e < b.edges@.len() {
        let list = b.edges@[e as int].coedges@;
        match first_index(list, co as usize) {
            Some(p) => if list.len() > 1 {
                node_id(base, coedges_start(b), b.coedges@.len() as int, list[(p + 1) % (list.len() as int)] as int)
            } else {
                -1
            },
            None => -1,
        }
    } else {
        -1
    }
}

// ---------------------------------------------------------------------------
// The tokens of each record.

pub open spec fn geometry_tokens(g: Option<GeometryRecord>) -> Seq<TokenView> {
    match g {
        Some(record) => seq![null_token()] + tokens_view(record.tokens@),
        None => seq![null_token()],
    }
}

pub open spec fn geometry_kind(g: Option<GeometryRecord>) -> Seq<char> {
    match g {
        Some(record) => record.kind@,
        None => Seq::empty(),
    }
}

pub open spec fn point_tokens(v: Vertex) -> Seq<TokenView> {
    seq![null_token(), TokenView::Position(v.point[0], v.point[1], v.point[2])]
}

pub open spec fn vertex_tokens(b: Body, base: int, v: int) -> Seq<TokenView> {
    let edge = match first_edge_at(b.edges@, v as usize) {
        Some(e) => base + edges_start(b) + e,
        None => -1,
    };
    seq![null_token(), pointer_to(edge), pointer_to(base + 2 * v)]
}

pub open spec fn edge_tokens(b: Body, base: int, e: int) -> Seq<TokenView> {
    let edge = b.edges@[e];
    let nv = b.vertices@.len() as int;
    seq![
        null_token(),
        pointer_to(if edge.start < nv { base + 2 * edge.start + 1 } else { -1 }),
        TokenView::Float(edge.start_parameter),
        pointer_to(if edge.end < nv { base + 2 * edge.end + 1 } else { -1 }),
        TokenView::Float(edge.end_parameter),
        pointer_to(first_in(edge.coedges@, base, coedges_start(b), b.coedges@.len() as int)),
        pointer_to(node_id(base, curves_start(b), b.curves@.len() as int, edge.curve as int)),
        sense_token(true),
    ]
}

pub open spec fn coedge_tokens(b: Body, base: int, co: int) -> Seq<TokenView> {
    let coedge = b.coedges@[co];
    let l = coedge.owner as int;
    let nco = b.coedges@.len() as int;
    if 0 <= l < b.loops@.len() {
        let ring = b.loops@[l].coedges@;
        match first_index(ring, co as usize) {
            Some(p) => {
                let count = ring.len() as int;
                seq![
                    null_token(),
                    pointer_to(node_id(base, coedges_start(b), nco, ring[(p + 1) % count] as int)),
                    pointer_to(
                        node_id(base, coedges_start(b), nco, ring[(p + count - 1) % count] as int),
                    ),
                    pointer_to(partner_id(b, base, co)),
                    pointer_to(node_id(base, edges_start(b), b.edges@.len() as int, coedge.edge as int)),
                    sense_token(coedge.forward),
                    pointer_to(node_id(base, loops_start(b), b.loops@.len() as int, l)),
                    null_token(),
                ]
            },
            None => seq![null_token()],
        }
    } else {
        seq![null_token()]
    }
}

pub open spec fn loop_tokens(b: Body, base: int, l: int) -> Seq<TokenView> {
    let ring = b.loops@[l];
    let f = ring.owner as int;
    let siblings = if 0 <= f < b.faces@.len() {
        b.faces@[f].loops@
    } else {
        Seq::empty()
    };
    seq![
        null_token(),
        pointer_to(next_in_spec(siblings, l as usize, base, loops_start(b), b.loops@.len() as int)),
        pointer_to(first_in(ring.coedges@, base, coedges_start(b), b.coedges@.len() as int)),
        pointer_to(node_id(base, faces_start(b), b.faces@.len() as int, f)),
    ]
}

pub open spec fn face_tokens(b: Body, base: int, f: int) -> Seq<TokenView> {
    let face = b.faces@[f];
    let sh = face.owner as int;
    let siblings = if 0 <= sh < b.shells@.len() {
        b.shells@[sh].faces@
    } else {
        Seq::empty()
    };
    seq![
        null_token(),
        pointer_to(next_in_spec(siblings, f as usize, base, faces_start(b), b.faces@.len() as int)),
        pointer_to(first_in(face.loops@, base, loops_start(b), b.loops@.len() as int)),
        pointer_to(node_id(base, shells_start(b), b.shells@.len() as int, sh)),
        null_token(),
        pointer_to(node_id(base, surfaces_start(b), b.surfaces@.len() as int, face.surface as int)),
        sense_token(face.forward),
        TokenView::Ident("single"@),
    ]
}

pub open spec fn shell_tokens(b: Body, base: int, sh: int) -> Seq<TokenView> {
    let shell = b.shells@[sh];
    let lu = shell.owner as int;
    let siblings = if 0 <= lu < b.lumps@.len() {
        b.lumps@[lu].shells@
    } else {
        Seq::empty()
    };
    seq![
        null_token(),
        pointer_to(next_in_spec(siblings, sh as usize, base, shells_start(b), b.shells@.len() as int)),
        null_token(),
        pointer_to(first_in(shell.faces@, base, faces_start(b), b.faces@.len() as int)),
        null_token(),
        pointer_to(node_id(base, lumps_start(b), b.lumps@.len() as int, lu)),
    ]
}

pub open spec fn lump_tokens(b: Body, base: int, lu: int) -> Seq<TokenView> {
    let lump = b.lumps@[lu];
    seq![
        null_token(),
        pointer_to(next_in_spec(b.roots@, lu as usize, base, lumps_start(b), b.lumps@.len() as int)),
        pointer_to(first_in(lump.shells@, base, shells_start(b), b.shells@.len() as int)),
        pointer_to(base + body_offset(b)),
    ]
}

pub open spec fn body_tokens(b: Body, base: int) -> Seq<TokenView> {
    seq![
        null_token(),
        pointer_to(first_in(b.roots@, base, lumps_start(b), b.lumps@.len() as int)),
        null_token(),
        null_token(),
    ]
}

/// The `i`-th new record of a body written at `base`, as it finally stands.
pub open spec fn appended_record(b: Body, base: int, i: int) -> RecordView {
    let id = (base + i) as i32;
    if i < curves_start(b) {
        let v = i / 2;
        if i % 2 == 0 {
            RecordView { index: id, kind: "point"@, tokens: point_tokens(b.vertices@[v]) }
        } else {
            RecordView { index: id, kind: "vertex"@, tokens: vertex_tokens(b, base, v) }
        }
    } else if i < surfaces_start(b) {
        let g = b.curves@[i - curves_start(b)];
        RecordView { index: id, kind: geometry_kind(g), tokens: geometry_tokens(g) }
    } else if i < edges_start(b) {
        let g = b.surfaces@[i - surfaces_start(b)];
        RecordView { index: id, kind: geometry_kind(g), tokens: geometry_tokens(g) }
    } else if i < coedges_start(b) {
        RecordView { index: id, kind: "edge"@, tokens: edge_tokens(b, base, i - edges_start(b)) }
    } else if i < loops_start(b) {
        RecordView { index: id, kind: "coedge"@, tokens: coedge_tokens(b, base, i - coedges_start(b)) }
    } else if i < faces_start(b) {
        RecordView { index: id, kind: "loop"@, tokens: loop_tokens(b, base, i - loops_start(b)) }
    } else if i < shells_start(b) {
        RecordView { index: id, kind: "face"@, tokens: face_tokens(b, base, i - faces_start(b)) }
    } else if i < lumps_start(b) {
        RecordView { index: id, kind: "shell"@, tokens: shell_tokens(b, base, i - shells_start(b)) }
    } else if i < body_offset(b) {
        RecordView { index: id, kind: "lump"@, tokens: lump_tokens(b, base, i - lumps_start(b)) }
    } else {
        RecordView { index: id, kind: "body"@, tokens: body_tokens(b, base) }
    }
}

/// The `i`-th new record as the first stage leaves it: a vertex record
/// still has no pointers.
pub open spec fn staged_record(b: Body, base: int, i: int) -> RecordView {
    if i < curves_start(b) && i % 2 == 1 {
        RecordView { index: (base + i) as i32, kind: "vertex"@, tokens: seq![null_token()] }
    } else {
        appended_record(b, base, i)
    }
}

/// Every new record of a body written at `base`.
pub open spec fn appended_records(b: Body, base: int) -> Seq<RecordView> {
    Seq::new(record_total(b) as nat, |i: int| appended_record(b, base, i))
}

/// The first `n` new records as the first stage leaves them.
pub open spec fn staged_records(b: Body, base: int, n: int) -> Seq<RecordView> {
    Seq::new(n as nat, |i: int| staged_record(b, base, i))
}

// ---------------------------------------------------------------------------
// When a body can be written.

pub open spec fn all_below(s: Seq<usize>, n: int) -> bool {
    forall|i: int| 0 <= i < s.len() ==> (#[trigger] s[i]) < n
}

pub open spec fn no_repeats(s: Seq<usize>) -> bool {
    forall|i: int, j: int| 0 <= i < j < s.len() ==> #[trigger] s[i] != #[trigger] s[j]
}

pub open spec fn edge_ok(b: Body, e: int) -> bool {
    let edge = b.edges@[e];
    &&& edge.start < b.vertices@.len()
    &&& edge.end < b.vertices@.len()
    &&& edge.curve < b.curves@.len()
    &&& all_below(edge.coedges@, b.coedges@.len() as int)
}

pub open spec fn coedge_ok(b: Body, c: int) -> bool {
    b.coedges@[c].edge < b.edges@.len() && b.coedges@[c].owner < b.loops@.len()
}

pub open spec fn loop_ok(b: Body, l: int) -> bool {
    let ring = b.loops@[l].coedges@;
    &&& b.loops@[l].owner < b.faces@.len()
    &&& all_below(ring, b.coedges@.len() as int)
    &&& no_repeats(ring)
    &&& forall|p: int| 0 <= p < ring.len() ==> b.coedges@[#[trigger] ring[p] as int].owner == l
}

pub open spec fn face_ok(b: Body, f: int) -> bool {
    let face = b.faces@[f];
    face.surface < b.surfaces@.len() && face.owner < b.shells@.len() && all_below(
        face.loops@,
        b.loops@.len() as int,
    )
}

pub open spec fn shell_ok(b: Body, s: int) -> bool {
    b.shells@[s].owner < b.lumps@.len() && all_below(b.shells@[s].faces@, b.faces@.len() as int)
}

pub open spec fn lump_ok(b: Body, u: int) -> bool {
    all_below(b.lumps@[u].shells@, b.shells@.len() as int)
}

/// Whether the topology holds together well enough to be written: every
/// node a node names exists, and each loop lists only coedges it owns, each
/// once.
pub open spec fn writable_topology(b: Body) -> bool {
    &&& forall|e: int| 0 <= e < b.edges@.len() ==> #[trigger] edge_ok(b, e)
    &&& forall|c: int| 0 <= c < b.coedges@.len() ==> #[trigger] coedge_ok(b, c)
    &&& forall|l: int| 0 <= l < b.loops@.len() ==> #[trigger] loop_ok(b, l)
    &&& forall|f: int| 0 <= f < b.faces@.len() ==> #[trigger] face_ok(b, f)
    &&& forall|s: int| 0 <= s < b.shells@.len() ==> #[trigger] shell_ok(b, s)
    &&& forall|u: int| 0 <= u < b.lumps@.len() ==> #[trigger] lump_ok(b, u)
    &&& all_below(b.roots@, b.lumps@.len() as int)
}

/// The first curve with no record form.
pub open spec fn first_unwritable(arena: Seq<Option<GeometryRecord>>) -> Option<int>
    decreases arena.len(),
{
    if arena.len() == 0 {
        None
    } else {
        match first_unwritable(arena.drop_last()) {
            Some(i) => Some(i),
            None => if arena.last() is None {
                Some(arena.len() - 1)
            } else {
                None
            },
        }
    }
}

// ---------------------------------------------------------------------------
// Facts about the search functions.

pub(crate) proof fn lemma_first_index(s: Seq<usize>, x: usize)
    ensures
        match first_index(s, x) {
            Some(p) => 0 <= p < s.len() && s[p] == x && forall|i: int| 0 <= i < p ==> #[trigger] s[i] != x,
            None => forall|i: int| 0 <= i < s.len() ==> #[trigger] s[i] != x,
        },
    decreases s.len(),
{
    if s.len() > 0 {
        let prefix = s.drop_last();
        lemma_first_index(prefix, x);
        assert forall|i: int| 0 <= i < prefix.len() implies #[trigger] s[i] == prefix[i] by {}
    }
}

proof fn lemma_first_edge_at(edges: Seq<Edge>, v: usize)
    ensures
        match first_edge_at(edges, v) {
            Some(e) => 0 <= e < edges.len() && (edges[e].start == v || edges[e].end == v) && forall|i: int|
                0 <= i < e ==> (#[trigger] edges[i]).start != v && edges[i].end != v,
            None => forall|i: int| 0 <= i < edges.len() ==> (#[trigger] edges[i]).start != v && edges[i].end != v,
        },
    decreases edges.len(),
{
    if edges.len() > 0 {
        let prefix = edges.drop_last();
        lemma_first_edge_at(prefix, v);
        assert forall|i: int| 0 <= i < prefix.len() implies #[trigger] edges[i] == prefix[i] by {}
    }
}

pub(crate) proof fn lemma_first_unwritable(arena: Seq<Option<GeometryRecord>>)
    ensures
        match first_unwritable(arena) {
            Some(k) => 0 <= k < arena.len() && arena[k] is None && forall|i: int|
                0 <= i < k ==> #[trigger] arena[i] is Some,
            None => forall|i: int| 0 <= i < arena.len() ==> #[trigger] arena[i] is Some,
        },
    decreases arena.len(),
{
    if arena.len() > 0 {
        let prefix = arena.drop_last();
        lemma_first_unwritable(prefix);
        assert forall|i: int| 0 <= i < prefix.len() implies #[trigger] arena[i] == prefix[i] by {}
    }
}

/// The first position of `x` in `s`.
fn first_index_exec(s: &Vec<usize>, x: usize) -> (r: Option<usize>)
    ensures
        r matches Some(p) ==> first_index(s@, x) == Some(p as int),
        r is None ==> first_index(s@, x) is None,
{
    proof {
        lemma_first_index(s@, x);
    }
    let mut i: usize = 0;
    while i < s.len()
        invariant
            i <= s@.len(),
            forall|j: int| 0 <= j < i ==> #[trigger] s@[j] != x,
        decreases s@.len() - i,
    {
        if s[i] == x {
            proof {
                lemma_first_index(s@, x);
            }
            return Some(i);
        }
        i = i + 1;
    }
    None
}

/// The pointer to node `key` of an arena whose records start at id `start`,
/// or null when there is no such node.
fn node_pointer(start: usize, count: usize, key: usize) -> (t: SatToken)
    requires
        start + count <= i32::MAX,
    ensures
        t@ == pointer_to(node_id(start as int, 0, count as int, key as int)),
{
    if key < count {
        SatToken::Pointer((start + key) as i32)
    } else {
        SatToken::Pointer(NULL)
    }
}

/// The id of the element after `key` in an ownership list whose elements'
/// records start at id `start`, or null at the end of the list or when `key`
/// is not in it.
///
/// Siblings are strung together rather than listed, so a shell names its
/// first face and every face names the next.
pub fn next_in(order: &Vec<usize>, key: usize, start: usize, count: usize) -> (id: i32)
    requires
        start + count <= i32::MAX,
    ensures
        id as int == next_in_spec(order@, key, start as int, 0, count as int),
{
    proof {
        lemma_first_index(order@, key);
    }
    match first_index_exec(order, key) {
        Some(at) => {
            if at < order.len() - 1 {
                let next = order[at + 1];
                if next < count {
                    (start + next) as i32
                } else {
                    NULL
                }
            } else {
                NULL
            }
        },
        None => NULL,
    }
}

/// The pointer to the first element of an ownership list, or null.
fn first_pointer(order: &Vec<usize>, start: usize, count: usize) -> (t: SatToken)
    requires
        start + count <= i32::MAX,
    ensures
        t@ == pointer_to(first_in(order@, start as int, 0, count as int)),
{
    if order.len() > 0 {
        node_pointer(start, count, order[0])
    } else {
        SatToken::Pointer(NULL)
    }
}

fn sense(forward: bool) -> (t: SatToken)
    ensures
        t@ == sense_token(forward),
{
    if forward {
        SatToken::Ident(String::from_str("forward"))
    } else {
        SatToken::Ident(String::from_str("reversed"))
    }
}

/// The id each arena's records start at.
struct Layout {
    curves: usize,
    surfaces: usize,
    edges: usize,
    coedges: usize,
    loops: usize,
    faces: usize,
    shells: usize,
    lumps: usize,
    body: usize,
}

spec fn layout_of(l: Layout, b: Body, base: int) -> bool {
    &&& l.curves == base + curves_start(b)
    &&& l.surfaces == base + surfaces_start(b)
    &&& l.edges == base + edges_start(b)
    &&& l.coedges == base + coedges_start(b)
    &&& l.loops == base + loops_start(b)
    &&& l.faces == base + faces_start(b)
    &&& l.shells == base + shells_start(b)
    &&& l.lumps == base + lumps_start(b)
    &&& l.body == base + body_offset(b)
}

fn layout(b: &Body, base: usize) -> (l: Layout)
    requires
        base + record_total(*b) <= i32::MAX,
    ensures
        layout_of(l, *b, base as int),
{
    let curves = base + 2 * b.vertices.len();
    let surfaces = curves + b.curves.len();
    let edges = surfaces + b.surfaces.len();
    let coedges = edges + b.edges.len();
    let loops = coedges + b.coedges.len();
    let faces = loops + b.loops.len();
    let shells = faces + b.faces.len();
    let lumps = shells + b.shells.len();
    let body = lumps + b.lumps.len();
    Layout { curves, surfaces, edges, coedges, loops, faces, shells, lumps, body }
}

// ---------------------------------------------------------------------------
// Building each record's tokens.

fn vertex_record_tokens(b: &Body, base: usize, l: &Layout, v: usize) -> (r: Vec<SatToken>)
    requires
        layout_of(*l, *b, base as int),
        base + record_total(*b) <= i32::MAX,
        v < b.vertices@.len(),
    ensures
        tokens_view(r@) == vertex_tokens(*b, base as int, v as int),
{
    proof {
        lemma_first_edge_at(b.edges@, v);
    }
    let mut e: usize = 0;
    while e < b.edges.len() && b.edges[e].start != v && b.edges[e].end != v
        invariant
            e <= b.edges@.len(),
            forall|i: int| 0 <= i < e ==> (#[trigger] b.edges@[i]).start != v && b.edges@[i].end != v,
        decreases b.edges@.len() - e,
    {
        e = e + 1;
    }
    let edge = if e < b.edges.len() {
        SatToken::Pointer((l.edges + e) as i32)
    } else {
        SatToken::Pointer(NULL)
    };
    let mut r: Vec<SatToken> = Vec::new();
    r.push(SatToken::Pointer(NULL));
    r.push(edge);
    r.push(SatToken::Pointer((base + 2 * v) as i32));
    assert(tokens_view(r@) =~= vertex_tokens(*b, base as int, v as int));
    r
}

fn edge_record_tokens(b: &Body, base: usize, l: &Layout, e: usize) -> (r: Vec<SatToken>)
    requires
        layout_of(*l, *b, base as int),
        base + record_total(*b) <= i32::MAX,
        writable_topology(*b),
        e < b.edges@.len(),
    ensures
        tokens_view(r@) == edge_tokens(*b, base as int, e as int),
{
    let edge = &b.edges[e];
    assert(edge_ok(*b, e as int));
    let mut r: Vec<SatToken> = Vec::new();
    r.push(SatToken::Pointer(NULL));
    r.push(SatToken::Pointer((base + 2 * edge.start + 1) as i32));
    r.push(SatToken::Float(edge.start_parameter));
    r.push(SatToken::Pointer((base + 2 * edge.end + 1) as i32));
    r.push(SatToken::Float(edge.end_parameter));
    r.push(first_pointer(&edge.coedges, l.coedges, b.coedges.len()));
    r.push(node_pointer(l.curves, b.curves.len(), edge.curve));
    r.push(sense(true));
    assert(tokens_view(r@) =~= edge_tokens(*b, base as int, e as int));
    r
}

fn coedge_record_tokens(b: &Body, base: usize, l: &Layout, co: usize) -> (r: Vec<SatToken>)
    requires
        layout_of(*l, *b, base as int),
        base + record_total(*b) <= i32::MAX,
        writable_topology(*b),
        co < b.coedges@.len(),
    ensures
        tokens_view(r@) == coedge_tokens(*b, base as int, co as int),
{
    let coedge = &b.coedges[co];
    assert(coedge_ok(*b, co as int));
    let owner = coedge.owner;
    let mut r: Vec<SatToken> = Vec::new();
    r.push(SatToken::Pointer(NULL));
    let ring = &b.loops[owner].coedges;
    proof {
        lemma_first_index(ring@, co);
    }
    match first_index_exec(ring, co) {
        None => {
            assert(tokens_view(r@) =~= coedge_tokens(*b, base as int, co as int));
            r
        },
        Some(p) => {
            let count = ring.len();
            let next = ring[(p + 1) % count];
            let before = if p == 0 {
                count - 1
            } else {
                p - 1
            };
            proof {
                let pi = p as int;
                let ci = count as int;
                if p == 0 {
                    assert((pi + ci - 1) % ci == ci - 1) by (nonlinear_arith)
                        requires
                            pi == 0,
                            ci > 0,
                    ;
                } else {
                    assert((pi + ci - 1) % ci == pi - 1) by (nonlinear_arith)
                        requires
                            0 < pi < ci,
                    ;
                }
            }
            let previous = ring[before];
            r.push(node_pointer(l.coedges, b.coedges.len(), next));
            r.push(node_pointer(l.coedges, b.coedges.len(), previous));
            r.push(partner_pointer(b, l, co));
            r.push(node_pointer(l.edges, b.edges.len(), coedge.edge));
            r.push(sense(coedge.forward));
            r.push(node_pointer(l.loops, b.loops.len(), owner));
            r.push(SatToken::Pointer(NULL));
            assert(tokens_view(r@) =~= coedge_tokens(*b, base as int, co as int));
            r
        },
    }
}

fn partner_pointer(b: &Body, l: &Layout, co: usize) -> (t: SatToken)
    requires
        layout_of(*l, *b, l.curves - curves_start(*b)),
        l.curves - curves_start(*b) + record_total(*b) <= i32::MAX,
        writable_topology(*b),
        co < b.coedges@.len(),
    ensures
        t@ == pointer_to(partner_id(*b, l.curves - curves_start(*b), co as int)),
{
    assert(coedge_ok(*b, co as int));
    let e = b.coedges[co].edge;
    let list = &b.edges[e].coedges;
    proof {
        lemma_first_index(list@, co);
    }
    match first_index_exec(list, co) {
        Some(p) => {
            if list.len() > 1 {
                node_pointer(l.coedges, b.coedges.len(), list[(p + 1) % list.len()])
            } else {
                SatToken::Pointer(NULL)
            }
        },
        None => SatToken::Pointer(NULL),
    }
}

fn loop_record_tokens(b: &Body, base: usize, l: &Layout, k: usize) -> (r: Vec<SatToken>)
    requires
        layout_of(*l, *b, base as int),
        base + record_total(*b) <= i32::MAX,
        writable_topology(*b),
        k < b.loops@.len(),
    ensures
        tokens_view(r@) == loop_tokens(*b, base as int, k as int),
{
    let ring = &b.loops[k];
    assert(loop_ok(*b, k as int));
    let f = ring.owner;
    let mut r: Vec<SatToken> = Vec::new();
    r.push(SatToken::Pointer(NULL));
    r.push(SatToken::Pointer(next_in(&b.faces[f].loops, k, l.loops, b.loops.len())));
    r.push(first_pointer(&ring.coedges, l.coedges, b.coedges.len()));
    r.push(node_pointer(l.faces, b.faces.len(), f));
    assert(tokens_view(r@) =~= loop_tokens(*b, base as int, k as int));
    r
}

fn face_record_tokens(b: &Body, base: usize, l: &Layout, f: usize) -> (r: Vec<SatToken>)
    requires
        layout_of(*l, *b, base as int),
        base + record_total(*b) <= i32::MAX,
        writable_topology(*b),
        f < b.faces@.len(),
    ensures
        tokens_view(r@) == face_tokens(*b, base as int, f as int),
{
    let face = &b.faces[f];
    assert(face_ok(*b, f as int));
    let sh = face.owner;
    let mut r: Vec<SatToken> = Vec::new();
    r.push(SatToken::Pointer(NULL));
    r.push(SatToken::Pointer(next_in(&b.shells[sh].faces, f, l.faces, b.faces.len())));
    r.push(first_pointer(&face.loops, l.loops, b.loops.len()));
    r.push(node_pointer(l.shells, b.shells.len(), sh));
    r.push(SatToken::Pointer(NULL));
    r.push(node_pointer(l.surfaces, b.surfaces.len(), face.surface));
    r.push(sense(face.forward));
    r.push(SatToken::Ident(String::from_str("single")));
    assert(tokens_view(r@) =~= face_tokens(*b, base as int, f as int));
    r
}

fn shell_record_tokens(b: &Body, base: usize, l: &Layout, sh: usize) -> (r: Vec<SatToken>)
    requires
        layout_of(*l, *b, base as int),
        base + record_total(*b) <= i32::MAX,
        writable_topology(*b),
        sh < b.shells@.len(),
    ensures
        tokens_view(r@) == shell_tokens(*b, base as int, sh as int),
{
    let shell = &b.shells[sh];
    assert(shell_ok(*b, sh as int));
    let lu = shell.owner;
    let mut r: Vec<SatToken> = Vec::new();
    r.push(SatToken::Pointer(NULL));
    r.push(SatToken::Pointer(next_in(&b.lumps[lu].shells, sh, l.shells, b.shells.len())));
    r.push(SatToken::Pointer(NULL));
    r.push(first_pointer(&shell.faces, l.faces, b.faces.len()));
    r.push(SatToken::Pointer(NULL));
    r.push(node_pointer(l.lumps, b.lumps.len(), lu));
    assert(tokens_view(r@) =~= shell_tokens(*b, base as int, sh as int));
    r
}

fn lump_record_tokens(b: &Body, base: usize, l: &Layout, lu: usize) -> (r: Vec<SatToken>)
    requires
        layout_of(*l, *b, base as int),
        base + record_total(*b) <= i32::MAX,
        lu < b.lumps@.len(),
    ensures
        tokens_view(r@) == lump_tokens(*b, base as int, lu as int),
{
    let lump = &b.lumps[lu];
    let mut r: Vec<SatToken> = Vec::new();
    r.push(SatToken::Pointer(NULL));
    r.push(SatToken::Pointer(next_in(&b.roots, lu, l.lumps, b.lumps.len())));
    r.push(first_pointer(&lump.shells, l.shells, b.shells.len()));
    r.push(SatToken::Pointer(l.body as i32));
    assert(tokens_view(r@) =~= lump_tokens(*b, base as int, lu as int));
    r
}

fn body_record_tokens(b: &Body, base: usize, l: &Layout) -> (r: Vec<SatToken>)
    requires
        layout_of(*l, *b, base as int),
        base + record_total(*b) <= i32::MAX,
    ensures
        tokens_view(r@) == body_tokens(*b, base as int),
{
    let mut r: Vec<SatToken> = Vec::new();
    r.push(SatToken::Pointer(NULL));
    r.push(first_pointer(&b.roots, l.lumps, b.lumps.len()));
    r.push(SatToken::Pointer(NULL));
    r.push(SatToken::Pointer(NULL));
    assert(tokens_view(r@) =~= body_tokens(*b, base as int));
    r
}

// ---------------------------------------------------------------------------
// Checking the topology.

fn all_below_exec(s: &Vec<usize>, n: usize) -> (ok: bool)
    ensures
        ok == all_below(s@, n as int),
{
    let mut i: usize = 0;
    while i < s.len()
        invariant
            i <= s@.len(),
            forall|j: int| 0 <= j < i ==> (#[trigger] s@[j]) < n,
        decreases s@.len() - i,
    {
        if s[i] >= n {
            return false;
        }
        i = i + 1;
    }
    true
}

fn no_repeats_exec(s: &Vec<usize>) -> (ok: bool)
    ensures
        ok == no_repeats(s@),
{
    let mut j: usize = 0;
    while j < s.len()
        invariant
            j <= s@.len(),
            forall|a: int, c: int| 0 <= a < c < j ==> #[trigger] s@[a] != #[trigger] s@[c],
        decreases s@.len() - j,
    {
        let mut i: usize = 0;
        while i < j
            invariant
                i <= j < s@.len(),
                forall|a: int| 0 <= a < i ==> #[trigger] s@[a] != s@[j as int],
            decreases j - i,
        {
            if s[i] == s[j] {
                return false;
            }
            i = i + 1;
        }
        j = j + 1;
    }
    true
}

fn loop_ok_exec(b: &Body, l: usize) -> (ok: bool)
    requires
        l < b.loops@.len(),
    ensures
        ok == loop_ok(*b, l as int),
{
    let ring = &b.loops[l].coedges;
    if b.loops[l].owner >= b.faces.len() || !all_below_exec(ring, b.coedges.len()) || !no_repeats_exec(ring) {
        return false;
    }
    let mut p: usize = 0;
    while p < ring.len()
        invariant
            p <= ring@.len(),
            ring@ == b.loops@[l as int].coedges@,
            all_below(ring@, b.coedges@.len() as int),
            forall|q: int| 0 <= q < p ==> b.coedges@[#[trigger] ring@[q] as int].owner == l,
        decreases ring@.len() - p,
    {
        if b.coedges[ring[p]].owner != l {
            return false;
        }
        p = p + 1;
    }
    true
}

/// Whether the topology holds together well enough to be written.
fn check_topology(b: &Body) -> (ok: bool)
    ensures
        ok == writable_topology(*b),
{
    let mut e: usize = 0;
    while e < b.edges.len()
        invariant
            e <= b.edges@.len(),
            forall|i: int| 0 <= i < e ==> #[trigger] edge_ok(*b, i),
        decreases b.edges@.len() - e,
    {
        let edge = &b.edges[e];
        if edge.start >= b.vertices.len() || edge.end >= b.vertices.len() || edge.curve >= b.curves.len()
            || !all_below_exec(&edge.coedges, b.coedges.len()) {
            assert(!edge_ok(*b, e as int));
            return false;
        }
        e = e + 1;
    }
    let mut c: usize = 0;
    while c < b.coedges.len()
        invariant
            c <= b.coedges@.len(),
            forall|i: int| 0 <= i < c ==> #[trigger] coedge_ok(*b, i),
        decreases b.coedges@.len() - c,
    {
        if b.coedges[c].edge >= b.edges.len() || b.coedges[c].owner >= b.loops.len() {
            assert(!coedge_ok(*b, c as int));
            return false;
        }
        c = c + 1;
    }
    let mut l: usize = 0;
    while l < b.loops.len()
        invariant
            l <= b.loops@.len(),
            forall|i: int| 0 <= i < l ==> #[trigger] loop_ok(*b, i),
        decreases b.loops@.len() - l,
    {
        if !loop_ok_exec(b, l) {
            assert(!loop_ok(*b, l as int));
            return false;
        }
        l = l + 1;
    }
    let mut f: usize = 0;
    while f < b.faces.len()
        invariant
            f <= b.faces@.len(),
            forall|i: int| 0 <= i < f ==> #[trigger] face_ok(*b, i),
        decreases b.faces@.len() - f,
    {
        let face = &b.faces[f];
        if face.surface >= b.surfaces.len() || face.owner >= b.shells.len() || !all_below_exec(
            &face.loops,
            b.loops.len(),
        ) {
            assert(!face_ok(*b, f as int));
            return false;
        }
        f = f + 1;
    }
    let mut sh: usize = 0;
    while sh < b.shells.len()
        invariant
            sh <= b.shells@.len(),
            forall|i: int| 0 <= i < sh ==> #[trigger] shell_ok(*b, i),
        decreases b.shells@.len() - sh,
    {
        if b.shells[sh].owner >= b.lumps.len() || !all_below_exec(&b.shells[sh].faces, b.faces.len()) {
            assert(!shell_ok(*b, sh as int));
            return false;
        }
        sh = sh + 1;
    }
    let mut u: usize = 0;
    while u < b.lumps.len()
        invariant
            u <= b.lumps@.len(),
            forall|i: int| 0 <= i < u ==> #[trigger] lump_ok(*b, i),
        decreases b.lumps@.len() - u,
    {
        if !all_below_exec(&b.lumps[u].shells, b.shells.len()) {
            assert(!lump_ok(*b, u as int));
            return false;
        }
        u = u + 1;
    }
    all_below_exec(&b.roots, b.lumps.len())
}

// ---------------------------------------------------------------------------
// Writing.

/// The new records after the vertex records of the first `k` vertices have
/// been given their pointers.
pub open spec fn patched_records(b: Body, base: int, k: int) -> Seq<RecordView> {
    Seq::new(
        record_total(b) as nat,
        |i: int|
            if i < curves_start(b) && i % 2 == 1 && i / 2 < k {
                appended_record(b, base, i)
            } else {
                staged_record(b, base, i)
            },
    )
}

fn stage_record(document: &mut SatDocument, kind: &str, tokens: Vec<SatToken>) -> (id: i32)
    requires
        old(document)@.len() < i32::MAX,
    ensures
        id == old(document)@.len(),
        final(document)@ == old(document)@.push(
            RecordView { index: id, kind: kind@, tokens: tokens_view(tokens@) },
        ),
{
    document.add_record(SatRecord { index: NULL, entity_type: String::from_str(kind), tokens })
}

/// A document's records, with `n` staged records of a body after them,
/// extended by the next one.
proof fn lemma_stage_one(start: Seq<RecordView>, b: Body, base: int, n: int, r: RecordView)
    requires
        0 <= n,
        r == staged_record(b, base, n),
    ensures
        (start + staged_records(b, base, n)).push(r) == start + staged_records(b, base, n + 1),
{
    assert((start + staged_records(b, base, n)).push(r) =~= start + staged_records(b, base, n + 1));
}

/// Appends a body to a document as a fresh set of records.
///
/// The document keeps everything it already had; the body is added after
/// it. A body whose topology does not hold together is refused before
/// anything is written. A curve or surface with no record form is refused
/// when its turn comes, with the records written up to it left in place.
pub fn append(body: &Body, document: &mut SatDocument) -> (r: Result<Written, Unappendable>)
    requires
        old(document)@.len() + record_total(*body) <= i32::MAX,
    ensures
        !writable_topology(*body) ==> r == Err::<Written, Unappendable>(Unappendable::Inconsistent)
            && final(document)@ == old(document)@,
        writable_topology(*body) ==> match first_unwritable(body.curves@) {
            Some(c) => r == Err::<Written, Unappendable>(Unappendable::Curve) && final(document)@
                == old(document)@ + staged_records(
                *body,
                old(document)@.len() as int,
                curves_start(*body) + c,
            ),
            None => match first_unwritable(body.surfaces@) {
                Some(s) => r == Err::<Written, Unappendable>(Unappendable::Surface)
                    && final(document)@ == old(document)@ + staged_records(
                    *body,
                    old(document)@.len() as int,
                    surfaces_start(*body) + s,
                ),
                None => r == Ok::<Written, Unappendable>(
                    Written {
                        body: (old(document)@.len() + body_offset(*body)) as i32,
                        records: record_total(*body) as usize,
                    },
                ) && final(document)@ == old(document)@ + appended_records(
                    *body,
                    old(document)@.len() as int,
                ),
            },
        },
{
    if !check_topology(body) {
        return Err(Unappendable::Inconsistent);
    }
    let ghost start = document@;
    let ghost b = *body;
    let base = document.record_count();
    let l = layout(body, base);
    assert(start + staged_records(b, base as int, 0) =~= start);
    let mut v: usize = 0;
    while v < body.vertices.len()
        invariant
            b == *body,
            start == old(document)@,
            base == start.len(),
            layout_of(l, b, base as int),
            base + record_total(b) <= i32::MAX,
            writable_topology(b),
            v <= b.vertices@.len(),
            document@ == start + staged_records(b, base as int, 2 * v),
        decreases b.vertices@.len() - v,
    {
        let p = body.vertices[v].point;
        let mut point: Vec<SatToken> = Vec::new();
        point.push(SatToken::Pointer(NULL));
        point.push(SatToken::Position(p[0], p[1], p[2]));
        let ghost n = 2 * v as int;
        stage_record(document, "point", point);
        proof {
            assert(tokens_view(point@) =~= point_tokens(b.vertices@[v as int]));
            lemma_stage_one(start, b, base as int, n, document@.last());
        }
        let bare: Vec<SatToken> = vec![SatToken::Pointer(NULL)];
        stage_record(document, "vertex", bare);
        proof {
            assert(tokens_view(bare@) =~= seq![null_token()]);
            lemma_stage_one(start, b, base as int, n + 1, document@.last());
        }
        v = v + 1;
    }
    proof {
        lemma_first_unwritable(b.curves@);
        lemma_first_unwritable(b.surfaces@);
    }
    let mut c: usize = 0;
    while c < body.curves.len()
        invariant
            b == *body,
            start == old(document)@,
            base == start.len(),
            layout_of(l, b, base as int),
            base + record_total(b) <= i32::MAX,
            writable_topology(b),
            c <= b.curves@.len(),
            forall|i: int| 0 <= i < c ==> #[trigger] b.curves@[i] is Some,
            document@ == start + staged_records(b, base as int, curves_start(b) + c),
        decreases b.curves@.len() - c,
    {
        match &body.curves[c] {
            None => {
                proof {
                    lemma_first_unwritable(b.curves@);
                }
                return Err(Unappendable::Curve);
            },
            Some(g) => {
                let mut tokens: Vec<SatToken> = vec![SatToken::Pointer(NULL)];
                let mut rest = duplicate_tokens(&g.tokens);
                tokens.append(&mut rest);
                stage_record(document, g.kind.as_str(), tokens);
                proof {
                    assert(tokens_view(tokens@) =~= geometry_tokens(b.curves@[c as int]));
                    lemma_stage_one(start, b, base as int, curves_start(b) + c, document@.last());
                }
            },
        }
        c = c + 1;
    }
    let mut s: usize = 0;
    while s < body.surfaces.len()
        invariant
            b == *body,
            start == old(document)@,
            base == start.len(),
            layout_of(l, b, base as int),
            base + record_total(b) <= i32::MAX,
            first_unwritable(b.curves@) is None,
            writable_topology(b),
            s <= b.surfaces@.len(),
            forall|i: int| 0 <= i < s ==> #[trigger] b.surfaces@[i] is Some,
            document@ == start + staged_records(b, base as int, surfaces_start(b) + s),
        decreases b.surfaces@.len() - s,
    {
        match &body.surfaces[s] {
            None => {
                proof {
                    lemma_first_unwritable(b.surfaces@);
                }
                return Err(Unappendable::Surface);
            },
            Some(g) => {
                let mut tokens: Vec<SatToken> = vec![SatToken::Pointer(NULL)];
                let mut rest = duplicate_tokens(&g.tokens);
                tokens.append(&mut rest);
                stage_record(document, g.kind.as_str(), tokens);
                proof {
                    assert(tokens_view(tokens@) =~= geometry_tokens(b.surfaces@[s as int]));
                    lemma_stage_one(start, b, base as int, surfaces_start(b) + s, document@.last());
                }
            },
        }
        s = s + 1;
    }
    proof {
        lemma_first_unwritable(b.surfaces@);
    }
    let mut e: usize = 0;
    while e < body.edges.len()
        invariant
            b == *body,
            start == old(document)@,
            base == start.len(),
            layout_of(l, b, base as int),
            base + record_total(b) <= i32::MAX,
            writable_topology(b),
            e <= b.edges@.len(),
            document@ == start + staged_records(b, base as int, edges_start(b) + e),
        decreases b.edges@.len() - e,
    {
        let tokens = edge_record_tokens(body, base, &l, e);
        stage_record(document, "edge", tokens);
        proof {
            lemma_stage_one(start, b, base as int, edges_start(b) + e, document@.last());
        }
        e = e + 1;
    }
    let mut co: usize = 0;
    while co < body.coedges.len()
        invariant
            b == *body,
            start == old(document)@,
            base == start.len(),
            layout_of(l, b, base as int),
            base + record_total(b) <= i32::MAX,
            writable_topology(b),
            co <= b.coedges@.len(),
            document@ == start + staged_records(b, base as int, coedges_start(b) + co),
        decreases b.coedges@.len() - co,
    {
        let tokens = coedge_record_tokens(body, base, &l, co);
        stage_record(document, "coedge", tokens);
        proof {
            lemma_stage_one(start, b, base as int, coedges_start(b) + co, document@.last());
        }
        co = co + 1;
    }
    let mut k: usize = 0;
    while k < body.loops.len()
        invariant
            b == *body,
            start == old(document)@,
            base == start.len(),
            layout_of(l, b, base as int),
            base + record_total(b) <= i32::MAX,
            writable_topology(b),
            k <= b.loops@.len(),
            document@ == start + staged_records(b, base as int, loops_start(b) + k),
        decreases b.loops@.len() - k,
    {
        let tokens = loop_record_tokens(body, base, &l, k);
        stage_record(document, "loop", tokens);
        proof {
            lemma_stage_one(start, b, base as int, loops_start(b) + k, document@.last());
        }
        k = k + 1;
    }
    let mut f: usize = 0;
    while f < body.faces.len()
        invariant
            b == *body,
            start == old(document)@,
            base == start.len(),
            layout_of(l, b, base as int),
            base + record_total(b) <= i32::MAX,
            writable_topology(b),
            f <= b.faces@.len(),
            document@ == start + staged_records(b, base as int, faces_start(b) + f),
        decreases b.faces@.len() - f,
    {
        let tokens = face_record_tokens(body, base, &l, f);
        stage_record(document, "face", tokens);
        proof {
            lemma_stage_one(start, b, base as int, faces_start(b) + f, document@.last());
        }
        f = f + 1;
    }
    let mut sh: usize = 0;
    while sh < body.shells.len()
        invariant
            b == *body,
            start == old(document)@,
            base == start.len(),
            layout_of(l, b, base as int),
            base + record_total(b) <= i32::MAX,
            writable_topology(b),
            sh <= b.shells@.len(),
            document@ == start + staged_records(b, base as int, shells_start(b) + sh),
        decreases b.shells@.len() - sh,
    {
        let tokens = shell_record_tokens(body, base, &l, sh);
        stage_record(document, "shell", tokens);
        proof {
            lemma_stage_one(start, b, base as int, shells_start(b) + sh, document@.last());
        }
        sh = sh + 1;
    }
    let mut u: usize = 0;
    while u < body.lumps.len()
        invariant
            b == *body,
            start == old(document)@,
            base == start.len(),
            layout_of(l, b, base as int),
            base + record_total(b) <= i32::MAX,
            writable_topology(b),
            u <= b.lumps@.len(),
            document@ == start + staged_records(b, base as int, lumps_start(b) + u),
        decreases b.lumps@.len() - u,
    {
        let tokens = lump_record_tokens(body, base, &l, u);
        stage_record(document, "lump", tokens);
        proof {
            lemma_stage_one(start, b, base as int, lumps_start(b) + u, document@.last());
        }
        u = u + 1;
    }
    let tokens = body_record_tokens(body, base, &l);
    let body_id = stage_record(document, "body", tokens);
    proof {
        lemma_stage_one(start, b, base as int, body_offset(b), document@.last());
        assert(staged_records(b, base as int, record_total(b)) =~= patched_records(b, base as int, 0));
    }
    let mut w: usize = 0;
    while w < body.vertices.len()
        invariant
            b == *body,
            start == old(document)@,
            base == start.len(),
            layout_of(l, b, base as int),
            base + record_total(b) <= i32::MAX,
            w <= b.vertices@.len(),
            document@ == start + patched_records(b, base as int, w as int),
        decreases b.vertices@.len() - w,
    {
        let tokens = vertex_record_tokens(body, base, &l, w);
        let ghost before = document@;
        document.set_tokens(base + 2 * w + 1, tokens);
        proof {
            assert(document@ =~= start + patched_records(b, base as int, w + 1)) by {
                let i = 2 * w + 1;
                assert(i / 2 == w && i % 2 == 1);
                assert forall|j: int| 0 <= j < record_total(b) implies #[trigger] patched_records(
                    b,
                    base as int,
                    w + 1,
                )[j] == (if j == i {
                    appended_record(b, base as int, i)
                } else {
                    patched_records(b, base as int, w as int)[j]
                }) by {
                    if j < curves_start(b) && j % 2 == 1 {
                        assert(j / 2 < w + 1 <==> (j / 2 < w || j == i));
                    }
                }
            }
        }
        w = w + 1;
    }
    proof {
        assert(patched_records(b, base as int, b.vertices@.len() as int) =~= appended_records(
            b,
            base as int,
        ));
    }
    Ok(Written { body: body_id, records: l.body - base + 1 })
}

// ---------------------------------------------------------------------------
// Laws of the written records.

/// The partner pointer of a written coedge record names the record of
/// another coedge listed by the same edge, whenever that edge lists more
/// than one coedge: the neighbouring face's coedge on a shared edge, so that
/// no shared edge reads as open. Every coedge the edge lists runs along it,
/// so the partner does too. A coedge alone on its edge gets the null pointer.
pub proof fn lemma_partner_is_another_coedge_of_its_edge(b: Body, base: int, c: int)
    requires
        writable_topology(b),
        0 <= base,
        base + record_total(b) <= i32::MAX,
        0 <= c < b.coedges@.len(),
        b.loops@[b.coedges@[c].owner as int].coedges@.contains(c as usize),
        b.edges@[b.coedges@[c].edge as int].coedges@.contains(c as usize),
        no_repeats(b.edges@[b.coedges@[c].edge as int].coedges@),
        forall|k: int|
            0 <= k < b.edges@[b.coedges@[c].edge as int].coedges@.len() ==> b.coedges@[#[trigger] b.edges@[b.coedges@[c].edge as int].coedges@[k] as int].edge
                == b.coedges@[c].edge,
    ensures
        appended_records(b, base)[coedges_start(b) + c].kind == "coedge"@,
        b.edges@[b.coedges@[c].edge as int].coedges@.len() > 1 ==> exists|c2: int|
            #![trigger b.coedges@[c2]]
            0 <= c2 < b.coedges@.len() && c2 != c && b.edges@[b.coedges@[c].edge as int].coedges@.contains(
                c2 as usize,
            ) && b.coedges@[c2].edge == b.coedges@[c].edge && appended_records(b, base)[coedges_start(b)
                + c].tokens[3] == pointer_to(base + coedges_start(b) + c2),
        b.edges@[b.coedges@[c].edge as int].coedges@.len() == 1 ==> appended_records(b, base)[coedges_start(b)
            + c].tokens[3] == null_token(),
{
    assert(coedge_ok(b, c));
    let e = b.coedges@[c].edge as int;
    let l = b.coedges@[c].owner as int;
    assert(edge_ok(b, e));
    let ring = b.loops@[l].coedges@;
    let list = b.edges@[e].coedges@;
    lemma_first_index(ring, c as usize);
    lemma_first_index(list, c as usize);
    let i = coedges_start(b) + c;
    assert(appended_records(b, base)[i] == appended_record(b, base, i));
    let tokens = coedge_tokens(b, base, c);
    assert(appended_record(b, base, i).tokens == tokens);
    assert(tokens[3] == pointer_to(partner_id(b, base, c)));
    let p = first_index(list, c as usize)->0;
    let n = list.len() as int;
    if n > 1 {
        let q = (p + 1) % n;
        if p + 1 < n {
            assert(q == p + 1) by (nonlinear_arith)
                requires
                    q == (p + 1) % n,
                    0 <= p + 1 < n,
            ;
        } else {
            assert(q == 0) by (nonlinear_arith)
                requires
                    q == (p + 1) % n,
                    p + 1 == n,
                    n > 1,
            ;
        }
        let c2 = list[q] as int;
        assert(list[q] != list[p]);
        assert(c2 < b.coedges@.len());
        assert(b.coedges@[c2].edge == b.coedges@[c].edge);
        assert(list.contains(c2 as usize));
        assert(partner_id(b, base, c) == base + coedges_start(b) + c2);
    } else if n == 1 {
        assert(partner_id(b, base, c) == -1);
    }
}

/// In a ring without repeats, the element after `x` has `x` before it.
proof fn lemma_ring_step_back(ring: Seq<usize>, x: usize)
    requires
        no_repeats(ring),
        ring.contains(x),
    ensures
        ({
            let n = ring.len() as int;
            let p = first_index(ring, x)->0;
            let q = (p + 1) % n;
            &&& first_index(ring, x) is Some
            &&& 0 <= q < n
            &&& first_index(ring, ring[q]) == Some(q)
            &&& ring[(q + n - 1) % n] == x
        }),
{
    lemma_first_index(ring, x);
    let n = ring.len() as int;
    let p = first_index(ring, x)->0;
    let q = (p + 1) % n;
    let back = (q + n - 1) % n;
    if p + 1 < n {
        assert(q == p + 1) by (nonlinear_arith)
            requires
                q == (p + 1) % n,
                0 <= p + 1 < n,
        ;
        assert(back == p) by (nonlinear_arith)
            requires
                back == (q + n - 1) % n,
                q == p + 1,
                0 <= p < n,
        ;
    } else {
        assert(q == 0) by (nonlinear_arith)
            requires
                q == (p + 1) % n,
                p + 1 == n,
                n >= 1,
        ;
        assert(back == p) by (nonlinear_arith)
            requires
                back == (q + n - 1) % n,
                q == 0,
                p == n - 1,
                n >= 1,
        ;
    }
    lemma_first_index(ring, ring[q]);
    let f = first_index(ring, ring[q])->0;
    if f != q {
        assert(ring[f] == ring[q]);
        if f < q {
            assert(ring[f] != ring[q]);
        } else {
            assert(ring[q] != ring[f]);
        }
    }
}

/// The ring pointers of written coedge records are inverse: a coedge
/// record's next pointer names the record of a coedge of the same loop, and
/// that record's previous pointer names the first one again.
pub proof fn lemma_ring_next_then_previous_returns(b: Body, base: int, c: int)
    requires
        writable_topology(b),
        0 <= base,
        base + record_total(b) <= i32::MAX,
        0 <= c < b.coedges@.len(),
        b.loops@[b.coedges@[c].owner as int].coedges@.contains(c as usize),
    ensures
        exists|c2: int|
            #![trigger b.coedges@[c2]]
            0 <= c2 < b.coedges@.len() && b.coedges@[c2].owner == b.coedges@[c].owner
                && appended_records(b, base)[coedges_start(b) + c].tokens[1] == pointer_to(
                base + coedges_start(b) + c2,
            ) && appended_records(b, base)[coedges_start(b) + c2].tokens[2] == pointer_to(
                base + coedges_start(b) + c,
            ),
{
    assert(coedge_ok(b, c));
    let l = b.coedges@[c].owner as int;
    assert(loop_ok(b, l));
    let ring = b.loops@[l].coedges@;
    lemma_ring_step_back(ring, c as usize);
    let n = ring.len() as int;
    let q = (first_index(ring, c as usize)->0 + 1) % n;
    let c2 = ring[q] as int;
    assert(c2 < b.coedges@.len());
    assert(b.coedges@[c2].owner == l);
    lemma_coedge_record(b, base, c);
    lemma_coedge_record(b, base, c2);
    let p2 = q;
    assert(coedge_tokens(b, base, c)[1] == pointer_to(base + coedges_start(b) + c2));
    assert(coedge_tokens(b, base, c2)[2] == pointer_to(
        node_id(base, coedges_start(b), b.coedges@.len() as int, ring[(p2 + n - 1) % n] as int),
    ));
}

/// The record written for coedge `c` carries the coedge's tokens.
proof fn lemma_coedge_record(b: Body, base: int, c: int)
    requires
        0 <= c < b.coedges@.len(),
    ensures
        appended_records(b, base)[coedges_start(b) + c].tokens == coedge_tokens(b, base, c),
{
    let i = coedges_start(b) + c;
    assert(appended_records(b, base)[i] == appended_record(b, base, i));
}

} // verus!
