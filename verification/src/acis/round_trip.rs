//! A body written out whole comes back the same when it is lifted again.
//!
//! `append` lays a body's records down after a document's own; `lift_body`
//! walks the pointer graph from a body record. Here the two are put end to
//! end: the walk from the body record `append` wrote visits exactly the
//! records written for the body's lumps, and for each lump's shells, each
//! shell's faces, each face's loops and each loop's coedges, in order.

use vstd::prelude::*;
use super::append::{
    all_below, appended_record, coedge_tokens, edge_tokens, face_tokens, loop_tokens, lump_tokens,
    point_tokens, shell_tokens, vertex_tokens, appended_records, body_offset, coedges_start, curves_start,
    edges_start, faces_start, first_unwritable, lemma_first_index, loops_start,
    lumps_start, no_repeats, record_total, shells_start, surfaces_start, writable_topology, face_ok,
    lump_ok, loop_ok, shell_ok, coedge_ok, edge_ok,
};
use super::body::Body;
use super::document::{lemma_first_slot, resolve_slot, RecordView};
use super::lift::{
    chain, edge_lifts, face_chain, face_complete, face_from, face_sources, surface_lifts,
    lifted_body, lifts_body, link, listed, loop_from, loop_sources, lump_complete, lump_from,
    lump_sources, named, names_kind, nodes_from, ring_chain, ring_complete, ring_fuel,
    shell_complete, shell_from, shell_sources, source_id, coedge_sources, LiftIds, Reading,
};

verus! {

/// The ids of the records written for the nodes a list names, in an arena
/// whose records start at id `offset`.
pub open spec fn written_ids(list: Seq<usize>, offset: int) -> Seq<int> {
    list.map_values(|x: usize| offset + x as int)
}

/// A document's records followed by those `append` writes for a body.
pub open spec fn with_appended(old: Seq<RecordView>, b: Body) -> Seq<RecordView> {
    old + appended_records(b, old.len() as int)
}

/// Whether every record already in a document has an id below the first one
/// `append` gives out.
pub open spec fn ids_below_end(old: Seq<RecordView>) -> bool {
    forall|j: int| 0 <= j < old.len() ==> #[trigger] old[j].index < old.len()
}

/// The id `append` gives each record it writes.
proof fn lemma_written_index(b: Body, base: int, i: int)
    ensures
        appended_record(b, base, i).index == (base + i) as i32,
{
}

/// Each record written for a body is found by its id.
proof fn lemma_written_resolves(old: Seq<RecordView>, b: Body, i: int)
    requires
        ids_below_end(old),
        old.len() + record_total(b) <= i32::MAX,
        0 <= i < record_total(b),
    ensures
        resolve_slot(with_appended(old, b), (old.len() + i) as i32) == Some(old.len() + i),
{
    lemma_written_record_named(old, b, i);
}

/// Each record written for a body is the one its id names.
#[verifier::rlimit(50)]
pub(crate) proof fn lemma_written_record_named(old: Seq<RecordView>, b: Body, i: int)
    requires
        ids_below_end(old),
        old.len() + record_total(b) <= i32::MAX,
        0 <= i < record_total(b),
    ensures
        resolve_slot(with_appended(old, b), (old.len() + i) as i32) == Some(old.len() + i),
        named(with_appended(old, b), old.len() + i) == appended_record(b, old.len() as int, i),
{
    let d = with_appended(old, b);
    let base = old.len() as int;
    let id = (base + i) as i32;
    lemma_first_slot(d, id);
    assert(d[base + i] == appended_record(b, base, i));
    lemma_written_index(b, base, i);
    assert forall|j: int| 0 <= j < base + i implies #[trigger] d[j].index != id by {
        if j < base {
            assert(d[j] == old[j]);
        } else {
            assert(d[j] == appended_record(b, base, j - base));
            lemma_written_index(b, base, j - base);
        }
    }
}

/// A linked list of records, each naming the next by token `next`, walks
/// as the list it was written from.
proof fn lemma_chain_along(
    d: Seq<RecordView>,
    order: Seq<usize>,
    offset: int,
    kind: Seq<char>,
    next: int,
    k: int,
    fuel: nat,
)
    requires
        0 <= k <= order.len(),
        fuel >= order.len() - k,
        forall|j: int|
            0 <= j < order.len() ==> names_kind(d, offset + #[trigger] order[j], kind) && link(
                named(d, offset + order[j]),
                next,
            ) == (if j + 1 < order.len() {
                offset + order[j + 1]
            } else {
                -1
            }),
    ensures
        chain(
            d,
            if k < order.len() {
                offset + order[k]
            } else {
                -1
            },
            kind,
            next,
            fuel,
        ) == written_ids(order.subrange(k, order.len() as int), offset),
    decreases order.len() - k,
{
    if k < order.len() {
        assert(names_kind(d, offset + order[k], kind));
        lemma_chain_along(d, order, offset, kind, next, k + 1, (fuel - 1) as nat);
        assert(written_ids(order.subrange(k, order.len() as int), offset) =~= seq![offset + order[k]]
            + written_ids(order.subrange(k + 1, order.len() as int), offset));
    } else {
        assert(written_ids(order.subrange(k, order.len() as int), offset) =~= Seq::<int>::empty());
    }
}

/// A list with no repeats of numbers below `n` has at most `n` entries.
proof fn lemma_no_more_than_range(s: Seq<usize>, n: int)
    requires
        no_repeats(s),
        all_below(s, n),
        0 <= n <= usize::MAX,
    ensures
        s.len() <= n,
    decreases n,
{
    if n == 0 {
        if s.len() > 0 {
            assert(s[0] < n);
        }
    } else if exists|p: int| 0 <= p < s.len() && s[p] == (n - 1) as usize {
        let p = choose|p: int| 0 <= p < s.len() && s[p] == (n - 1) as usize;
        let t = s.remove(p);
        assert(t.len() == s.len() - 1);
        assert forall|i: int| 0 <= i < t.len() implies (#[trigger] t[i]) < n - 1 by {
            if i < p {
                assert(t[i] == s[i]);
            } else {
                assert(t[i] == s[i + 1]);
            }
        }
        assert forall|i: int, j: int| 0 <= i < j < t.len() implies #[trigger] t[i] != #[trigger] t[j] by {
            let si = if i < p {
                i
            } else {
                i + 1
            };
            let sj = if j < p {
                j
            } else {
                j + 1
            };
            assert(t[i] == s[si] && t[j] == s[sj]);
        }
        lemma_no_more_than_range(t, n - 1);
        assert(s.len() <= n);
    } else {
        assert forall|i: int| 0 <= i < s.len() implies (#[trigger] s[i]) < n - 1 by {
            assert(s[i] < n);
            if s[i] == (n - 1) as usize {
                assert(0 <= i < s.len() && s[i] == (n - 1) as usize);
            }
        }
        lemma_no_more_than_range(s, n - 1);
        assert(s.len() <= n);
    }
}

/// Whether a body's lists hold together as a tree: the topology is
/// writable, every curve and surface has a record form, and each list names
/// each of its nodes once, every one of them owned by the list's owner.
pub open spec fn lists_hold(b: Body) -> bool {
    &&& writable_topology(b)
    &&& first_unwritable(b.curves@) is None
    &&& first_unwritable(b.surfaces@) is None
    &&& no_repeats(b.roots@)
    &&& forall|u: int|
        0 <= u < b.lumps@.len() ==> no_repeats(#[trigger] b.lumps@[u].shells@) && forall|j: int|
            0 <= j < b.lumps@[u].shells@.len() ==> b.shells@[b.lumps@[u].shells@[j] as int].owner == u
    &&& forall|s: int|
        0 <= s < b.shells@.len() ==> no_repeats(#[trigger] b.shells@[s].faces@) && forall|j: int|
            0 <= j < b.shells@[s].faces@.len() ==> b.faces@[b.shells@[s].faces@[j] as int].owner == s
    &&& forall|f: int|
        0 <= f < b.faces@.len() ==> no_repeats(#[trigger] b.faces@[f].loops@) && forall|j: int|
            0 <= j < b.faces@[f].loops@.len() ==> b.loops@[b.faces@[f].loops@[j] as int].owner == f
}

/// The record written for lump `u`.
#[verifier::rlimit(100)]
proof fn lemma_lump_written(old: Seq<RecordView>, b: Body, u: int)
    requires
        ids_below_end(old),
        old.len() + record_total(b) <= i32::MAX,
        0 <= u < b.lumps@.len(),
    ensures
        names_kind(with_appended(old, b), old.len() + lumps_start(b) + u, "lump"@),
        named(with_appended(old, b), old.len() + lumps_start(b) + u).tokens == lump_tokens(
            b,
            old.len() as int,
            u,
        ),
{
    lemma_written_record_named(old, b, lumps_start(b) + u);
}

/// The walk from the body record `append` wrote visits the lumps written
/// for the body's roots, in order.
proof fn lemma_lumps_walk(old: Seq<RecordView>, b: Body)
    requires
        lists_hold(b),
        ids_below_end(old),
        old.len() + record_total(b) <= i32::MAX,
    ensures
        chain(
            with_appended(old, b),
            link(named(with_appended(old, b), old.len() + body_offset(b)), 1),
            "lump"@,
            1,
            with_appended(old, b).len(),
        ) == written_ids(b.roots@, old.len() + lumps_start(b)),
{
    let d = with_appended(old, b);
    let base = old.len() as int;
    let order = b.roots@;
    let offset = base + lumps_start(b);
    lemma_written_record_named(old, b, body_offset(b));
    assert forall|j: int| 0 <= j < order.len() implies names_kind(d, offset + #[trigger] order[j], "lump"@)
        && link(named(d, offset + order[j]), 1) == (if j + 1 < order.len() {
        offset + order[j + 1]
    } else {
        -1
    }) by {
        assert(order[j] < b.lumps@.len());
        lemma_lump_written(old, b, order[j] as int);
        lemma_first_index(order, order[j]);
        if j + 1 < order.len() {
            assert(order[j + 1] < b.lumps@.len());
        }
    }
    lemma_no_more_than_range(order, b.lumps@.len() as int);
    lemma_chain_along(d, order, offset, "lump"@, 1, 0, d.len());
    assert(order.subrange(0, order.len() as int) =~= order);
}

/// The record written for shell `s`.
#[verifier::rlimit(100)]
proof fn lemma_shell_written(old: Seq<RecordView>, b: Body, s: int)
    requires
        ids_below_end(old),
        old.len() + record_total(b) <= i32::MAX,
        0 <= s < b.shells@.len(),
    ensures
        names_kind(with_appended(old, b), old.len() + shells_start(b) + s, "shell"@),
        named(with_appended(old, b), old.len() + shells_start(b) + s).tokens == shell_tokens(
            b,
            old.len() as int,
            s,
        ),
{
    lemma_written_record_named(old, b, shells_start(b) + s);
}

/// The record written for face `f`.
#[verifier::rlimit(100)]
pub(crate) proof fn lemma_face_written(old: Seq<RecordView>, b: Body, f: int)
    requires
        ids_below_end(old),
        old.len() + record_total(b) <= i32::MAX,
        0 <= f < b.faces@.len(),
    ensures
        names_kind(with_appended(old, b), old.len() + faces_start(b) + f, "face"@),
        named(with_appended(old, b), old.len() + faces_start(b) + f).tokens == face_tokens(
            b,
            old.len() as int,
            f,
        ),
{
    lemma_written_record_named(old, b, faces_start(b) + f);
}

/// The record written for loop `l`.
#[verifier::rlimit(100)]
proof fn lemma_loop_written(old: Seq<RecordView>, b: Body, l: int)
    requires
        ids_below_end(old),
        old.len() + record_total(b) <= i32::MAX,
        0 <= l < b.loops@.len(),
    ensures
        names_kind(with_appended(old, b), old.len() + loops_start(b) + l, "loop"@),
        named(with_appended(old, b), old.len() + loops_start(b) + l).tokens == loop_tokens(
            b,
            old.len() as int,
            l,
        ),
{
    lemma_written_record_named(old, b, loops_start(b) + l);
}

/// The walk of the shells of the record written for lump `u` visits the
/// shells written for that lump's list.
proof fn lemma_shells_walk(old: Seq<RecordView>, b: Body, u: int)
    requires
        lists_hold(b),
        ids_below_end(old),
        old.len() + record_total(b) <= i32::MAX,
        0 <= u < b.lumps@.len(),
    ensures
        chain(
            with_appended(old, b),
            link(named(with_appended(old, b), old.len() + lumps_start(b) + u), 2),
            "shell"@,
            1,
            with_appended(old, b).len(),
        ) == written_ids(b.lumps@[u].shells@, old.len() + shells_start(b)),
{
    let d = with_appended(old, b);
    let base = old.len() as int;
    let order = b.lumps@[u].shells@;
    let offset = base + shells_start(b);
    assert(writable_topology(b));
    assert(lump_ok(b, u));
    lemma_lump_written(old, b, u);
    assert forall|j: int| 0 <= j < order.len() implies names_kind(d, offset + #[trigger] order[j], "shell"@)
        && link(named(d, offset + order[j]), 1) == (if j + 1 < order.len() {
        offset + order[j + 1]
    } else {
        -1
    }) by {
        assert(order[j] < b.shells@.len());
        assert(b.shells@[order[j] as int].owner == u);
        lemma_shell_written(old, b, order[j] as int);
        lemma_first_index(order, order[j]);
        if j + 1 < order.len() {
            assert(order[j + 1] < b.shells@.len());
        }
    }
    lemma_no_more_than_range(order, b.shells@.len() as int);
    lemma_chain_along(d, order, offset, "shell"@, 1, 0, d.len());
    assert(order.subrange(0, order.len() as int) =~= order);
}

/// The walk of the loops of the record written for face `f` visits the
/// loops written for that face's list.
proof fn lemma_loops_walk(old: Seq<RecordView>, b: Body, f: int)
    requires
        lists_hold(b),
        ids_below_end(old),
        old.len() + record_total(b) <= i32::MAX,
        0 <= f < b.faces@.len(),
    ensures
        chain(
            with_appended(old, b),
            link(named(with_appended(old, b), old.len() + faces_start(b) + f), 2),
            "loop"@,
            1,
            with_appended(old, b).len(),
        ) == written_ids(b.faces@[f].loops@, old.len() + loops_start(b)),
{
    let d = with_appended(old, b);
    let base = old.len() as int;
    let order = b.faces@[f].loops@;
    let offset = base + loops_start(b);
    assert(writable_topology(b));
    assert(face_ok(b, f));
    lemma_face_written(old, b, f);
    assert forall|j: int| 0 <= j < order.len() implies names_kind(d, offset + #[trigger] order[j], "loop"@)
        && link(named(d, offset + order[j]), 1) == (if j + 1 < order.len() {
        offset + order[j + 1]
    } else {
        -1
    }) by {
        assert(order[j] < b.loops@.len());
        assert(b.loops@[order[j] as int].owner == f);
        lemma_loop_written(old, b, order[j] as int);
        lemma_first_index(order, order[j]);
        if j + 1 < order.len() {
            assert(order[j + 1] < b.loops@.len());
        }
    }
    lemma_no_more_than_range(order, b.loops@.len() as int);
    lemma_chain_along(d, order, offset, "loop"@, 1, 0, d.len());
    assert(order.subrange(0, order.len() as int) =~= order);
}

/// Whether the kernel reads every curve and surface record written for a
/// body appended after `old`.
pub open spec fn geometry_readable(old: Seq<RecordView>, b: Body, reads: Seq<Reading>) -> bool {
    forall|k: int|
        curves_start(b) <= k < edges_start(b) ==> old.len() + k < reads.len() && (if k < surfaces_start(b) {
            (#[trigger] reads[old.len() + k]).curve
        } else {
            reads[old.len() + k].surface
        })
}

/// The record written for edge `e`.
#[verifier::rlimit(100)]
pub(crate) proof fn lemma_edge_written(old: Seq<RecordView>, b: Body, e: int)
    requires
        ids_below_end(old),
        old.len() + record_total(b) <= i32::MAX,
        0 <= e < b.edges@.len(),
    ensures
        names_kind(with_appended(old, b), old.len() + edges_start(b) + e, "edge"@),
        named(with_appended(old, b), old.len() + edges_start(b) + e).tokens == edge_tokens(
            b,
            old.len() as int,
            e,
        ),
{
    lemma_written_record_named(old, b, edges_start(b) + e);
}

/// The record written for coedge `c`.
#[verifier::rlimit(100)]
pub(crate) proof fn lemma_coedge_written(old: Seq<RecordView>, b: Body, c: int)
    requires
        ids_below_end(old),
        old.len() + record_total(b) <= i32::MAX,
        0 <= c < b.coedges@.len(),
    ensures
        names_kind(with_appended(old, b), old.len() + coedges_start(b) + c, "coedge"@),
        named(with_appended(old, b), old.len() + coedges_start(b) + c).tokens == coedge_tokens(
            b,
            old.len() as int,
            c,
        ),
{
    lemma_written_record_named(old, b, coedges_start(b) + c);
}

/// The point and vertex records written for vertex `v`.
#[verifier::rlimit(100)]
pub(crate) proof fn lemma_vertex_written(old: Seq<RecordView>, b: Body, v: int)
    requires
        ids_below_end(old),
        old.len() + record_total(b) <= i32::MAX,
        0 <= v < b.vertices@.len(),
    ensures
        names_kind(with_appended(old, b), old.len() + 2 * v + 1, "vertex"@),
        named(with_appended(old, b), old.len() + 2 * v + 1).tokens == vertex_tokens(
            b,
            old.len() as int,
            v,
        ),
        names_kind(with_appended(old, b), old.len() + 2 * v, "point"@),
        named(with_appended(old, b), old.len() + 2 * v).tokens == point_tokens(b.vertices@[v]),
{
    lemma_written_record_named(old, b, 2 * v + 1);
    lemma_written_record_named(old, b, 2 * v);
    assert((2 * v + 1) / 2 == v && (2 * v + 1) % 2 == 1);
    assert((2 * v) / 2 == v && (2 * v) % 2 == 0);
}

/// An edge written for a body lifts: its curve record is there and both its
/// vertices lift.
#[verifier::rlimit(100)]
proof fn lemma_written_edge_lifts(old: Seq<RecordView>, b: Body, reads: Seq<Reading>, e: int)
    requires
        lists_hold(b),
        ids_below_end(old),
        old.len() + record_total(b) <= i32::MAX,
        geometry_readable(old, b, reads),
        0 <= e < b.edges@.len(),
    ensures
        edge_lifts(with_appended(old, b), reads, old.len() + edges_start(b) + e),
{
    let d = with_appended(old, b);
    let base = old.len() as int;
    let edge = b.edges@[e];
    assert(writable_topology(b));
    assert(edge_ok(b, e));
    lemma_edge_written(old, b, e);
    lemma_written_resolves(old, b, curves_start(b) + edge.curve);
    assert(reads[base + curves_start(b) + edge.curve].curve);
    lemma_vertex_written(old, b, edge.start as int);
    lemma_vertex_written(old, b, edge.end as int);
}

/// A shell's faces, each naming the next and a readable surface, walk as
/// the list they were written from.
proof fn lemma_face_chain_along(
    d: Seq<RecordView>,
    reads: Seq<Reading>,
    order: Seq<usize>,
    offset: int,
    k: int,
    fuel: nat,
)
    requires
        0 <= k <= order.len(),
        fuel >= order.len() - k,
        forall|j: int|
            0 <= j < order.len() ==> names_kind(d, offset + #[trigger] order[j], "face"@) && link(
                named(d, offset + order[j]),
                1,
            ) == (if j + 1 < order.len() {
                offset + order[j + 1]
            } else {
                -1
            }) && surface_lifts(d, reads, link(named(d, offset + order[j]), 5)),
    ensures
        face_chain(
            d,
            reads,
            if k < order.len() {
                offset + order[k]
            } else {
                -1
            },
            fuel,
        ) == written_ids(order.subrange(k, order.len() as int), offset),
    decreases order.len() - k,
{
    if k < order.len() {
        assert(names_kind(d, offset + order[k], "face"@));
        lemma_face_chain_along(d, reads, order, offset, k + 1, (fuel - 1) as nat);
        assert(written_ids(order.subrange(k, order.len() as int), offset) =~= seq![offset + order[k]]
            + written_ids(order.subrange(k + 1, order.len() as int), offset));
    } else {
        assert(written_ids(order.subrange(k, order.len() as int), offset) =~= Seq::<int>::empty());
    }
}

/// The walk of the faces of the record written for shell `s` keeps and
/// visits the faces written for that shell's list.
proof fn lemma_faces_walk(old: Seq<RecordView>, b: Body, reads: Seq<Reading>, s: int)
    requires
        lists_hold(b),
        ids_below_end(old),
        old.len() + record_total(b) <= i32::MAX,
        geometry_readable(old, b, reads),
        0 <= s < b.shells@.len(),
    ensures
        face_chain(
            with_appended(old, b),
            reads,
            link(named(with_appended(old, b), old.len() + shells_start(b) + s), 3),
            with_appended(old, b).len(),
        ) == written_ids(b.shells@[s].faces@, old.len() + faces_start(b)),
{
    let d = with_appended(old, b);
    let base = old.len() as int;
    let order = b.shells@[s].faces@;
    let offset = base + faces_start(b);
    assert(writable_topology(b));
    assert(shell_ok(b, s));
    lemma_shell_written(old, b, s);
    assert forall|j: int| 0 <= j < order.len() implies names_kind(d, offset + #[trigger] order[j], "face"@)
        && link(named(d, offset + order[j]), 1) == (if j + 1 < order.len() {
        offset + order[j + 1]
    } else {
        -1
    }) && surface_lifts(d, reads, link(named(d, offset + order[j]), 5)) by {
        let f = order[j] as int;
        assert(f < b.faces@.len());
        assert(b.faces@[f].owner == s);
        assert(face_ok(b, f));
        lemma_face_written(old, b, f);
        lemma_first_index(order, order[j]);
        lemma_written_resolves(old, b, surfaces_start(b) + b.faces@[f].surface);
        assert(reads[base + surfaces_start(b) + b.faces@[f].surface].surface);
        if j + 1 < order.len() {
            assert(order[j + 1] < b.faces@.len());
        }
    }
    lemma_no_more_than_range(order, b.faces@.len() as int);
    lemma_face_chain_along(d, reads, order, offset, 0, d.len());
    assert(order.subrange(0, order.len() as int) =~= order);
}

/// A ring of coedges, each naming the next round the ring and an edge that
/// lifts, walks as the ring it was written from.
#[verifier::rlimit(100)]
#[verifier::spinoff_prover]
proof fn lemma_ring_along(
    d: Seq<RecordView>,
    reads: Seq<Reading>,
    ring: Seq<usize>,
    offset: int,
    k: int,
    fuel: nat,
)
    requires
        0 < ring.len() <= d.len(),
        0 <= k < ring.len(),
        offset >= 0,
        no_repeats(ring),
        fuel >= ring.len() - k,
        forall|j: int|
            0 <= j < ring.len() ==> names_kind(d, offset + #[trigger] ring[j], "coedge"@) && link(
                named(d, offset + ring[j]),
                1,
            ) == offset + ring[(j + 1) % (ring.len() as int)] && edge_lifts(
                d,
                reads,
                link(named(d, offset + ring[j]), 4),
            ),
    ensures
        ring_chain(d, reads, offset + ring[0], offset + ring[k], k as nat, fuel) == written_ids(
            ring.subrange(k, ring.len() as int),
            offset,
        ),
    decreases ring.len() - k,
{
    let n = ring.len() as int;
    assert(names_kind(d, offset + ring[k], "coedge"@));
    if k + 1 < n {
        vstd::arithmetic::div_mod::lemma_small_mod((k + 1) as nat, n as nat);
        assert(ring[k + 1] != ring[0]);
        lemma_ring_along(d, reads, ring, offset, k + 1, (fuel - 1) as nat);
        assert(written_ids(ring.subrange(k, n), offset) =~= seq![offset + ring[k]] + written_ids(
            ring.subrange(k + 1, n),
            offset,
        ));
    } else {
        vstd::arithmetic::div_mod::lemma_mod_self_0(n);
        assert(written_ids(ring.subrange(k, n), offset) =~= seq![offset + ring[k]]);
    }
}

/// The ring walk of the record written for loop `l` makes the coedges
/// written for that loop's ring, in ring order.
#[verifier::rlimit(100)]
proof fn lemma_ring_walk(old: Seq<RecordView>, b: Body, reads: Seq<Reading>, l: int)
    requires
        lists_hold(b),
        ids_below_end(old),
        old.len() + record_total(b) <= i32::MAX,
        geometry_readable(old, b, reads),
        0 <= l < b.loops@.len(),
    ensures
        ring_chain(
            with_appended(old, b),
            reads,
            link(named(with_appended(old, b), old.len() + loops_start(b) + l), 2),
            link(named(with_appended(old, b), old.len() + loops_start(b) + l), 2),
            0,
            ring_fuel(with_appended(old, b).len()),
        ) == written_ids(b.loops@[l].coedges@, old.len() + coedges_start(b)),
{
    let d = with_appended(old, b);
    let base = old.len() as int;
    let ring = b.loops@[l].coedges@;
    let offset = base + coedges_start(b);
    assert(writable_topology(b));
    assert(loop_ok(b, l));
    lemma_loop_written(old, b, l);
    if ring.len() == 0 {
        assert(written_ids(ring, offset) =~= Seq::<int>::empty());
    } else {
        let n = ring.len() as int;
        assert forall|j: int| 0 <= j < ring.len() implies names_kind(d, offset + #[trigger] ring[j], "coedge"@)
            && link(named(d, offset + ring[j]), 1) == offset + ring[(j + 1) % n] && edge_lifts(
            d,
            reads,
            link(named(d, offset + ring[j]), 4),
        ) by {
            let c = ring[j] as int;
            assert(c < b.coedges@.len());
            assert(b.coedges@[c].owner == l);
            assert(coedge_ok(b, c));
            lemma_coedge_written(old, b, c);
            lemma_first_index(ring, ring[j]);
            assert(0 <= (j + 1) % n < n);
            assert(ring[(j + 1) % n] < b.coedges@.len());
            lemma_written_edge_lifts(old, b, reads, b.coedges@[c].edge as int);
        }
        lemma_no_more_than_range(ring, b.coedges@.len() as int);
        let dn = d.len();
        assert(dn * (dn + 2) >= dn) by (nonlinear_arith);
        lemma_ring_along(d, reads, ring, offset, 0, ring_fuel(d.len()));
        assert(ring.subrange(0, n) =~= ring);
    }
}

/// Each lifted lump came from the record written for a lump of `b`, and
/// lists the records written for that lump's shells.
pub open spec fn lumps_come_back(old: Seq<RecordView>, b: Body, lifted: Body) -> bool {
    forall|u: int|
        0 <= u < lifted.lumps@.len() ==> {
            let k = source_id((#[trigger] lifted.lumps@[u]).provenance) - old.len() - lumps_start(b);
            &&& 0 <= k < b.lumps@.len()
            &&& listed(shell_sources(lifted.shells@), lifted.lumps@[u].shells@) == written_ids(
                b.lumps@[k].shells@,
                old.len() + shells_start(b),
            )
        }
}

/// Each lifted shell came from the record written for a shell of `b`, and
/// lists the records written for that shell's faces.
pub open spec fn shells_come_back(old: Seq<RecordView>, b: Body, lifted: Body) -> bool {
    forall|s: int|
        0 <= s < lifted.shells@.len() ==> {
            let k = source_id((#[trigger] lifted.shells@[s]).provenance) - old.len() - shells_start(b);
            &&& 0 <= k < b.shells@.len()
            &&& listed(face_sources(lifted.faces@), lifted.shells@[s].faces@) == written_ids(
                b.shells@[k].faces@,
                old.len() + faces_start(b),
            )
        }
}

/// Each lifted face came from the record written for a face of `b`, and
/// lists the records written for that face's loops.
pub open spec fn faces_come_back(old: Seq<RecordView>, b: Body, lifted: Body) -> bool {
    forall|f: int|
        0 <= f < lifted.faces@.len() ==> {
            let k = source_id((#[trigger] lifted.faces@[f]).provenance) - old.len() - faces_start(b);
            &&& 0 <= k < b.faces@.len()
            &&& listed(loop_sources(lifted.loops@), lifted.faces@[f].loops@) == written_ids(
                b.faces@[k].loops@,
                old.len() + loops_start(b),
            )
        }
}

/// Each lifted loop came from the record written for a loop of `b`, and
/// lists the records written for that loop's coedges, in ring order.
pub open spec fn loops_come_back(old: Seq<RecordView>, b: Body, lifted: Body) -> bool {
    forall|l: int|
        0 <= l < lifted.loops@.len() ==> {
            let k = source_id((#[trigger] lifted.loops@[l]).provenance) - old.len() - loops_start(b);
            &&& 0 <= k < b.loops@.len()
            &&& listed(coedge_sources(lifted.coedges@), lifted.loops@[l].coedges@) == written_ids(
                b.loops@[k].coedges@,
                old.len() + coedges_start(b),
            )
        }
}

/// What the premises of the round trip are.
pub open spec fn round_trip_premises(old: Seq<RecordView>, b: Body, reads: Seq<Reading>, lifted: Body) -> bool {
    &&& lists_hold(b)
    &&& ids_below_end(old)
    &&& old.len() + record_total(b) <= i32::MAX
    &&& geometry_readable(old, b, reads)
    &&& lifted_body(
        with_appended(old, b),
        reads,
        with_appended(old, b)[old.len() + body_offset(b)],
        lifted,
    )
}

/// An id in a list of written ids is one of the list's nodes.
pub(crate) proof fn lemma_listed_member(
    sources: Seq<int>,
    list: Seq<usize>,
    written: Seq<usize>,
    offset: int,
    x: int,
) -> (j: int)
    requires
        listed(sources, list) == written_ids(written, offset),
        0 <= x <= usize::MAX,
        list.contains(x as usize),
    ensures
        0 <= j < written.len(),
        sources[x] == offset + written[j],
{
    let j = choose|j: int| 0 <= j < list.len() && list[j] == x as usize;
    assert(listed(sources, list).len() == list.len());
    assert(written_ids(written, offset).len() == written.len());
    assert(listed(sources, list)[j] == sources[x as int]);
    assert(written_ids(written, offset)[j] == offset + written[j]);
    j
}

proof fn lemma_roots_come_back(old: Seq<RecordView>, b: Body, reads: Seq<Reading>, lifted: Body)
    requires
        round_trip_premises(old, b, reads, lifted),
    ensures
        listed(lump_sources(lifted.lumps@), lifted.roots@) == written_ids(b.roots@, old.len() + lumps_start(b)),
{
    lemma_written_record_named(old, b, body_offset(b));
    lemma_lumps_walk(old, b);
}

proof fn lemma_lumps_come_back(old: Seq<RecordView>, b: Body, reads: Seq<Reading>, lifted: Body)
    requires
        round_trip_premises(old, b, reads, lifted),
        listed(lump_sources(lifted.lumps@), lifted.roots@) == written_ids(b.roots@, old.len() + lumps_start(b)),
    ensures
        lumps_come_back(old, b, lifted),
{
    let d = with_appended(old, b);
    let ids = choose|ids: LiftIds| #[trigger] nodes_from(d, reads, lifted, ids);
    assert forall|u: int| 0 <= u < lifted.lumps@.len() implies {
        let k = source_id((#[trigger] lifted.lumps@[u]).provenance) - old.len() - lumps_start(b);
        &&& 0 <= k < b.lumps@.len()
        &&& listed(shell_sources(lifted.shells@), lifted.lumps@[u].shells@) == written_ids(
            b.lumps@[k].shells@,
            old.len() + shells_start(b),
        )
    } by {
        assert(lump_from(d, lifted, u));
        let src = lump_sources(lifted.lumps@);
        assert(src[u] == source_id(lifted.lumps@[u].provenance));
        assert(lifted.lumps@.len() == lifted.lumps.len());
        let j = lemma_listed_member(src, lifted.roots@, b.roots@, old.len() + lumps_start(b), u);
        assert(writable_topology(b));
        assert(b.roots@[j] < b.lumps@.len());
        let k = b.roots@[j] as int;
        assert(lump_complete(d, shell_sources(lifted.shells@), lifted.lumps@, u));
        lemma_shells_walk(old, b, k);
    }
}

proof fn lemma_shells_come_back(old: Seq<RecordView>, b: Body, reads: Seq<Reading>, lifted: Body)
    requires
        round_trip_premises(old, b, reads, lifted),
        lumps_come_back(old, b, lifted),
    ensures
        shells_come_back(old, b, lifted),
{
    let d = with_appended(old, b);
    let ids = choose|ids: LiftIds| #[trigger] nodes_from(d, reads, lifted, ids);
    assert forall|s: int| 0 <= s < lifted.shells@.len() implies {
        let k = source_id((#[trigger] lifted.shells@[s]).provenance) - old.len() - shells_start(b);
        &&& 0 <= k < b.shells@.len()
        &&& listed(face_sources(lifted.faces@), lifted.shells@[s].faces@) == written_ids(
            b.shells@[k].faces@,
            old.len() + faces_start(b),
        )
    } by {
        assert(shell_from(d, lifted, s));
        let o = lifted.shells@[s].owner as int;
        let ko = source_id(lifted.lumps@[o].provenance) - old.len() - lumps_start(b);
        assert(0 <= ko < b.lumps@.len());
        let src = shell_sources(lifted.shells@);
        assert(src[s] == source_id(lifted.shells@[s].provenance));
        assert(lifted.shells@.len() == lifted.shells.len());
        let j = lemma_listed_member(
            src,
            lifted.lumps@[o].shells@,
            b.lumps@[ko].shells@,
            old.len() + shells_start(b),
            s,
        );
        assert(writable_topology(b));
        assert(lump_ok(b, ko));
        assert(b.lumps@[ko].shells@[j] < b.shells@.len());
        let k = b.lumps@[ko].shells@[j] as int;
        assert(shell_complete(d, reads, face_sources(lifted.faces@), lifted.shells@, s));
        lemma_faces_walk(old, b, reads, k);
    }
}

proof fn lemma_faces_come_back(old: Seq<RecordView>, b: Body, reads: Seq<Reading>, lifted: Body)
    requires
        round_trip_premises(old, b, reads, lifted),
        shells_come_back(old, b, lifted),
    ensures
        faces_come_back(old, b, lifted),
{
    let d = with_appended(old, b);
    let ids = choose|ids: LiftIds| #[trigger] nodes_from(d, reads, lifted, ids);
    assert forall|f: int| 0 <= f < lifted.faces@.len() implies {
        let k = source_id((#[trigger] lifted.faces@[f]).provenance) - old.len() - faces_start(b);
        &&& 0 <= k < b.faces@.len()
        &&& listed(loop_sources(lifted.loops@), lifted.faces@[f].loops@) == written_ids(
            b.faces@[k].loops@,
            old.len() + loops_start(b),
        )
    } by {
        assert(face_from(d, lifted, ids, f));
        let o = lifted.faces@[f].owner as int;
        let ko = source_id(lifted.shells@[o].provenance) - old.len() - shells_start(b);
        assert(0 <= ko < b.shells@.len());
        let src = face_sources(lifted.faces@);
        assert(src[f] == source_id(lifted.faces@[f].provenance));
        assert(lifted.faces@.len() == lifted.faces.len());
        let j = lemma_listed_member(
            src,
            lifted.shells@[o].faces@,
            b.shells@[ko].faces@,
            old.len() + faces_start(b),
            f,
        );
        assert(writable_topology(b));
        assert(shell_ok(b, ko));
        assert(b.shells@[ko].faces@[j] < b.faces@.len());
        let k = b.shells@[ko].faces@[j] as int;
        assert(face_complete(d, loop_sources(lifted.loops@), lifted.faces@, f));
        lemma_loops_walk(old, b, k);
    }
}

proof fn lemma_loops_come_back(old: Seq<RecordView>, b: Body, reads: Seq<Reading>, lifted: Body)
    requires
        round_trip_premises(old, b, reads, lifted),
        faces_come_back(old, b, lifted),
    ensures
        loops_come_back(old, b, lifted),
{
    let d = with_appended(old, b);
    let ids = choose|ids: LiftIds| #[trigger] nodes_from(d, reads, lifted, ids);
    assert forall|l: int| 0 <= l < lifted.loops@.len() implies {
        let k = source_id((#[trigger] lifted.loops@[l]).provenance) - old.len() - loops_start(b);
        &&& 0 <= k < b.loops@.len()
        &&& listed(coedge_sources(lifted.coedges@), lifted.loops@[l].coedges@) == written_ids(
            b.loops@[k].coedges@,
            old.len() + coedges_start(b),
        )
    } by {
        assert(loop_from(d, lifted, l));
        let o = lifted.loops@[l].owner as int;
        let ko = source_id(lifted.faces@[o].provenance) - old.len() - faces_start(b);
        assert(0 <= ko < b.faces@.len());
        let src = loop_sources(lifted.loops@);
        assert(src[l] == source_id(lifted.loops@[l].provenance));
        assert(lifted.loops@.len() == lifted.loops.len());
        let j = lemma_listed_member(
            src,
            lifted.faces@[o].loops@,
            b.faces@[ko].loops@,
            old.len() + loops_start(b),
            l,
        );
        assert(writable_topology(b));
        assert(face_ok(b, ko));
        assert(b.faces@[ko].loops@[j] < b.loops@.len());
        let k = b.faces@[ko].loops@[j] as int;
        assert(ring_complete(d, reads, coedge_sources(lifted.coedges@), lifted.loops@, l));
        lemma_ring_walk(old, b, reads, k);
    }
}

/// A body written out whole comes back the same: when `append` has written
/// a body whose lists hold together after the records of a document whose
/// ids are below the new ones, and the kernel reads every curve and surface
/// it wrote, lifting the body record it wrote gives a body whose roots, and
/// each lump's shells, each shell's faces, each face's loops and each loop's
/// coedges, are the records written for those of `b`, in the same order.
pub proof fn lemma_appended_body_lifts_back(old: Seq<RecordView>, b: Body, reads: Seq<Reading>, lifted: Body)
    requires
        lists_hold(b),
        ids_below_end(old),
        old.len() + record_total(b) <= i32::MAX,
        geometry_readable(old, b, reads),
        lifted_body(
            with_appended(old, b),
            reads,
            with_appended(old, b)[old.len() + body_offset(b)],
            lifted,
        ),
    ensures
        listed(lump_sources(lifted.lumps@), lifted.roots@) == written_ids(b.roots@, old.len() + lumps_start(b)),
        lumps_come_back(old, b, lifted),
        shells_come_back(old, b, lifted),
        faces_come_back(old, b, lifted),
        loops_come_back(old, b, lifted),
{
    lemma_roots_come_back(old, b, reads, lifted);
    lemma_lumps_come_back(old, b, reads, lifted);
    lemma_shells_come_back(old, b, reads, lifted);
    lemma_faces_come_back(old, b, reads, lifted);
    lemma_loops_come_back(old, b, reads, lifted);
}

/// A body with at least one lump, written out whole, lifts: the body record
/// `append` wrote names the record written for its first lump.
pub proof fn lemma_appended_body_lifts(old: Seq<RecordView>, b: Body)
    requires
        lists_hold(b),
        ids_below_end(old),
        old.len() + record_total(b) <= i32::MAX,
        b.roots@.len() > 0,
    ensures
        lifts_body(with_appended(old, b), old.len() + body_offset(b)),
{
    lemma_written_record_named(old, b, body_offset(b));
    assert(writable_topology(b));
    assert(b.roots@[0] < b.lumps@.len());
    lemma_lump_written(old, b, b.roots@[0] as int);
}

} // verus!
