//! Package diagnostics, and the order a validation report lists them in.
//!
//! A report sorts its diagnostics by resource, location, severity, code and
//! finally the JSON text of their context, so two implementations that find
//! the same problems print them in the same order.

use vstd::prelude::*;
use vstd::utf8::encode_utf8;
use super::context::{context_json, DiagnosticContext};
use super::order::{
    lex_order, lex_order_exec, lemma_lex_antisymmetric, lemma_lex_transitive,
    lemma_lex_zero_iff_equal,
};

verus! {

broadcast use {vstd::seq_lib::group_to_multiset_ensures, vstd::seq_lib::to_multiset_insert};

#[derive(Debug, Clone, Copy, PartialEq, Eq, Structural)]
pub enum PackageDiagnosticSeverity {
    Error,
    Warning,
    Info,
}

/// One problem found in a package.
#[derive(Debug, Clone, PartialEq)]
pub struct PackageDiagnostic {
    pub code: String,
    pub severity: PackageDiagnosticSeverity,
    pub resource_uri: Option<String>,
    pub location: Option<String>,
    pub context: DiagnosticContext,
    pub message: String,
}

/// Every problem found in a package, in report order.
#[derive(Debug, Clone, PartialEq)]
pub struct PackageValidationReport {
    pub diagnostics: Vec<PackageDiagnostic>,
}

/// Errors sort before warnings, warnings before information.
pub open spec fn spec_severity_rank(severity: PackageDiagnosticSeverity) -> u8 {
    match severity {
        PackageDiagnosticSeverity::Error => 0,
        PackageDiagnosticSeverity::Warning => 1,
        PackageDiagnosticSeverity::Info => 2,
    }
}

pub fn severity_rank(severity: PackageDiagnosticSeverity) -> (r: u8)
    ensures
        r == spec_severity_rank(severity),
{
    match severity {
        PackageDiagnosticSeverity::Error => 0,
        PackageDiagnosticSeverity::Warning => 1,
        PackageDiagnosticSeverity::Info => 2,
    }
}

/// The bytes an optional text sorts by: its UTF-8, or nothing when absent.
pub open spec fn optional_text_bytes(text: Option<String>) -> Seq<u8> {
    match text {
        Some(s) => encode_utf8(s@),
        None => seq![],
    }
}

/// Three-way comparison of two diagnostics by their sort key: resource,
/// location, severity rank, code, and the JSON text of the context, each
/// compared in turn.
pub open spec fn diagnostic_order(a: PackageDiagnostic, b: PackageDiagnostic) -> int {
    let r = lex_order(optional_text_bytes(a.resource_uri), optional_text_bytes(b.resource_uri));
    let l = lex_order(optional_text_bytes(a.location), optional_text_bytes(b.location));
    let ra = spec_severity_rank(a.severity);
    let rb = spec_severity_rank(b.severity);
    let c = lex_order(encode_utf8(a.code@), encode_utf8(b.code@));
    if r != 0 {
        r
    } else if l != 0 {
        l
    } else if ra < rb {
        -1
    } else if ra > rb {
        1
    } else if c != 0 {
        c
    } else {
        lex_order(context_json(a.context), context_json(b.context))
    }
}

/// Where a stable insertion puts `x` into `s`: before the first element
/// that sorts after it.
pub open spec fn first_after(s: Seq<PackageDiagnostic>, x: PackageDiagnostic) -> int
    decreases s.len(),
{
    if s.len() == 0 {
        0
    } else if diagnostic_order(s[0], x) > 0 {
        0
    } else {
        1 + first_after(s.drop_first(), x)
    }
}

/// `s` with `x` inserted after every element that does not sort after it.
pub open spec fn insert_stable(s: Seq<PackageDiagnostic>, x: PackageDiagnostic) -> Seq<
    PackageDiagnostic,
> {
    s.insert(first_after(s, x), x)
}

/// The stable sort of `s` by the diagnostic order: each element in turn
/// inserted after everything before it that does not sort after it.
pub open spec fn stable_sort(s: Seq<PackageDiagnostic>) -> Seq<PackageDiagnostic>
    decreases s.len(),
{
    if s.len() == 0 {
        s
    } else {
        insert_stable(stable_sort(s.drop_last()), s.last())
    }
}

/// Whether `s` is in diagnostic order.
pub open spec fn is_sorted(s: Seq<PackageDiagnostic>) -> bool {
    forall|i: int, j: int|
        0 <= i < j < s.len() ==> diagnostic_order(#[trigger] s[i], #[trigger] s[j]) <= 0
}

/// Whether some diagnostic in `s` is an error.
pub open spec fn has_error(s: Seq<PackageDiagnostic>) -> bool {
    exists|i: int| 0 <= i < s.len() && #[trigger] s[i].severity == PackageDiagnosticSeverity::Error
}

/// The diagnostic order is a total preorder: antisymmetric in sign and
/// transitive.
pub proof fn lemma_diagnostic_order_laws(a: PackageDiagnostic, b: PackageDiagnostic, c: PackageDiagnostic)
    ensures
        -1 <= diagnostic_order(a, b) <= 1,
        diagnostic_order(a, b) == -diagnostic_order(b, a),
        diagnostic_order(a, b) <= 0 && diagnostic_order(b, c) <= 0 ==> diagnostic_order(a, c) <= 0,
        diagnostic_order(a, b) <= 0 && diagnostic_order(b, c) < 0 ==> diagnostic_order(a, c) < 0,
        diagnostic_order(a, b) < 0 && diagnostic_order(b, c) <= 0 ==> diagnostic_order(a, c) < 0,
{
    let (ra, rb, rc) = (
        optional_text_bytes(a.resource_uri),
        optional_text_bytes(b.resource_uri),
        optional_text_bytes(c.resource_uri),
    );
    let (la, lb, lc) = (
        optional_text_bytes(a.location),
        optional_text_bytes(b.location),
        optional_text_bytes(c.location),
    );
    let (ca, cb, cc) = (encode_utf8(a.code@), encode_utf8(b.code@), encode_utf8(c.code@));
    let (xa, xb, xc) = (context_json(a.context), context_json(b.context), context_json(c.context));
    lemma_lex_antisymmetric(ra, rb);
    lemma_lex_antisymmetric(rb, rc);
    lemma_lex_antisymmetric(ra, rc);
    lemma_lex_antisymmetric(la, lb);
    lemma_lex_antisymmetric(lb, lc);
    lemma_lex_antisymmetric(la, lc);
    lemma_lex_antisymmetric(ca, cb);
    lemma_lex_antisymmetric(cb, cc);
    lemma_lex_antisymmetric(ca, cc);
    lemma_lex_antisymmetric(xa, xb);
    lemma_lex_antisymmetric(xb, xc);
    lemma_lex_antisymmetric(xa, xc);
    lemma_lex_zero_iff_equal(ra, rb);
    lemma_lex_zero_iff_equal(rb, rc);
    lemma_lex_zero_iff_equal(ra, rc);
    lemma_lex_zero_iff_equal(la, lb);
    lemma_lex_zero_iff_equal(lb, lc);
    lemma_lex_zero_iff_equal(la, lc);
    lemma_lex_zero_iff_equal(ca, cb);
    lemma_lex_zero_iff_equal(cb, cc);
    lemma_lex_zero_iff_equal(ca, cc);
    if lex_order(ra, rb) <= 0 && lex_order(rb, rc) <= 0 {
        lemma_lex_transitive(ra, rb, rc);
    }
    if lex_order(la, lb) <= 0 && lex_order(lb, lc) <= 0 {
        lemma_lex_transitive(la, lb, lc);
    }
    if lex_order(ca, cb) <= 0 && lex_order(cb, cc) <= 0 {
        lemma_lex_transitive(ca, cb, cc);
    }
    if lex_order(xa, xb) <= 0 && lex_order(xb, xc) <= 0 {
        lemma_lex_transitive(xa, xb, xc);
    }
}

/// `first_after` lands inside the sequence, after only elements that do not
/// sort after `x`, and, in a sorted sequence, before only elements that do.
proof fn lemma_first_after(s: Seq<PackageDiagnostic>, x: PackageDiagnostic)
    ensures
        0 <= first_after(s, x) <= s.len(),
        forall|i: int| 0 <= i < first_after(s, x) ==> diagnostic_order(#[trigger] s[i], x) <= 0,
        first_after(s, x) < s.len() ==> diagnostic_order(s[first_after(s, x)], x) > 0,
    decreases s.len(),
{
    if s.len() > 0 && diagnostic_order(s[0], x) <= 0 {
        lemma_first_after(s.drop_first(), x);
        assert forall|i: int| 0 <= i < first_after(s, x) implies diagnostic_order(
            #[trigger] s[i],
            x,
        ) <= 0 by {
            if i > 0 {
                assert(s[i] == s.drop_first()[i - 1]);
            }
        }
    }
}

/// A stable insertion into a sorted sequence keeps it sorted.
proof fn lemma_insert_stable_sorted(s: Seq<PackageDiagnostic>, x: PackageDiagnostic)
    requires
        is_sorted(s),
    ensures
        is_sorted(insert_stable(s, x)),
{
    lemma_first_after(s, x);
    let p = first_after(s, x);
    let t = insert_stable(s, x);
    assert forall|i: int, j: int| 0 <= i < j < t.len() implies diagnostic_order(
        #[trigger] t[i],
        #[trigger] t[j],
    ) <= 0 by {
        if j < p {
            assert(t[i] == s[i] && t[j] == s[j]);
        } else if j == p {
            assert(t[i] == s[i] && t[j] == x);
        } else if i < p {
            assert(t[i] == s[i] && t[j] == s[j - 1]);
            lemma_diagnostic_order_laws(s[p], x, s[j - 1]);
            lemma_diagnostic_order_laws(x, s[p], s[j - 1]);
            lemma_diagnostic_order_laws(s[i], x, s[j - 1]);
        } else if i == p {
            assert(t[i] == x && t[j] == s[j - 1]);
            lemma_diagnostic_order_laws(s[p], x, s[j - 1]);
            lemma_diagnostic_order_laws(x, s[p], s[j - 1]);
        } else {
            assert(t[i] == s[i - 1] && t[j] == s[j - 1]);
        }
    }
}

/// Sorting a list of diagnostics leaves it in diagnostic order.
pub proof fn lemma_stable_sort_sorted(s: Seq<PackageDiagnostic>)
    ensures
        is_sorted(stable_sort(s)),
    decreases s.len(),
{
    if s.len() > 0 {
        lemma_stable_sort_sorted(s.drop_last());
        lemma_insert_stable_sorted(stable_sort(s.drop_last()), s.last());
    }
}

/// Sorting a list of diagnostics neither loses nor adds nor duplicates one:
/// the result holds exactly the same diagnostics.
pub proof fn lemma_stable_sort_permutes(s: Seq<PackageDiagnostic>)
    ensures
        stable_sort(s).to_multiset() == s.to_multiset(),
        stable_sort(s).len() == s.len(),
    decreases s.len(),
{
    if s.len() > 0 {
        let t = stable_sort(s.drop_last());
        lemma_stable_sort_permutes(s.drop_last());
        lemma_first_after(t, s.last());
        assert(s =~= s.drop_last().push(s.last()));
        vstd::seq_lib::lemma_multiset_commutative(s.drop_last(), seq![s.last()]);
        assert(s.drop_last() + seq![s.last()] =~= s);
    }
}

/// Sorting does not change whether a report is valid: the sorted list holds
/// an error exactly when the unsorted one does.
pub proof fn lemma_stable_sort_keeps_errors(s: Seq<PackageDiagnostic>)
    ensures
        has_error(stable_sort(s)) == has_error(s),
{
    lemma_stable_sort_permutes(s);
    let t = stable_sort(s);
    if has_error(s) {
        let i = choose|i: int| 0 <= i < s.len() && #[trigger] s[i].severity == PackageDiagnosticSeverity::Error;
        assert(s.to_multiset().count(s[i]) > 0);
        assert(t.to_multiset().count(s[i]) > 0);
        assert(t.contains(s[i]));
        let j = choose|j: int| 0 <= j < t.len() && t[j] == s[i];
        assert(t[j].severity == PackageDiagnosticSeverity::Error);
    }
    if has_error(t) {
        let i = choose|i: int| 0 <= i < t.len() && #[trigger] t[i].severity == PackageDiagnosticSeverity::Error;
        assert(t.to_multiset().count(t[i]) > 0);
        assert(s.to_multiset().count(t[i]) > 0);
        assert(s.contains(t[i]));
        let j = choose|j: int| 0 <= j < s.len() && s[j] == t[i];
        assert(s[j].severity == PackageDiagnosticSeverity::Error);
    }
}

/// In a sorted report, of two diagnostics the earlier one has the resource
/// that sorts first or the same one; with the same resource, the location
/// that sorts first or the same one, whatever their severities; with the
/// same resource and location, the more severe or equally severe one (an
/// error before a warning, a warning before information); then
/// the code, then the JSON text of the context, in the same way.
pub proof fn lemma_report_key_order(ds: Seq<PackageDiagnostic>, i: int, j: int)
    requires
        0 <= i < j < ds.len(),
    ensures
        ({
            let a = stable_sort(ds)[i];
            let b = stable_sort(ds)[j];
            let (ra, rb) = (optional_text_bytes(a.resource_uri), optional_text_bytes(b.resource_uri));
            let (la, lb) = (optional_text_bytes(a.location), optional_text_bytes(b.location));
            let (ca, cb) = (encode_utf8(a.code@), encode_utf8(b.code@));
            &&& lex_order(ra, rb) <= 0
            &&& ra == rb ==> lex_order(la, lb) <= 0
            &&& ra == rb && la != lb ==> lex_order(la, lb) < 0
            &&& ra == rb && la == lb ==> spec_severity_rank(a.severity) <= spec_severity_rank(
                b.severity,
            )
            &&& ra == rb && la == lb && b.severity == PackageDiagnosticSeverity::Error ==> a.severity
                == PackageDiagnosticSeverity::Error
            &&& ra == rb && la == lb && a.severity == PackageDiagnosticSeverity::Info ==> b.severity
                == PackageDiagnosticSeverity::Info
            &&& ra == rb && la == lb && a.severity == b.severity ==> lex_order(ca, cb) <= 0
            &&& ra == rb && la == lb && a.severity == b.severity && ca == cb ==> lex_order(
                context_json(a.context),
                context_json(b.context),
            ) <= 0
        }),
{
    lemma_stable_sort_permutes(ds);
    lemma_stable_sort_sorted(ds);
    let a = stable_sort(ds)[i];
    let b = stable_sort(ds)[j];
    assert(diagnostic_order(a, b) <= 0);
    let (ra, rb) = (optional_text_bytes(a.resource_uri), optional_text_bytes(b.resource_uri));
    let (la, lb) = (optional_text_bytes(a.location), optional_text_bytes(b.location));
    let (ca, cb) = (encode_utf8(a.code@), encode_utf8(b.code@));
    lemma_lex_zero_iff_equal(ra, rb);
    lemma_lex_zero_iff_equal(la, lb);
    lemma_lex_zero_iff_equal(ca, cb);
}

/// Filtering a sequence none of whose elements passes gives nothing.
proof fn lemma_filter_none(s: Seq<PackageDiagnostic>, pred: spec_fn(PackageDiagnostic) -> bool)
    requires
        forall|i: int| 0 <= i < s.len() ==> !pred(#[trigger] s[i]),
    ensures
        s.filter(pred) =~= Seq::<PackageDiagnostic>::empty(),
    decreases s.len(),
{
    reveal(Seq::filter);
    if s.len() > 0 {
        let rest = s.drop_last();
        assert forall|i: int| 0 <= i < rest.len() implies !pred(#[trigger] rest[i]) by {
            assert(rest[i] == s[i]);
        }
        lemma_filter_none(rest, pred);
    }
}

/// Filtering one element keeps it exactly when it passes.
proof fn lemma_filter_single(y: PackageDiagnostic, pred: spec_fn(PackageDiagnostic) -> bool)
    ensures
        seq![y].filter(pred) =~= (if pred(y) {
            seq![y]
        } else {
            Seq::<PackageDiagnostic>::empty()
        }),
{
    reveal(Seq::filter);
    let none = Seq::<PackageDiagnostic>::empty();
    assert(none.filter(pred) =~= none);
    assert(seq![y].drop_last() =~= none);
    assert(seq![y].last() == y);
}

/// In a sorted sequence, nothing from where a stable insertion puts `y`
/// onwards ties with anything `y` ties with.
proof fn lemma_no_tie_after_insertion(s: Seq<PackageDiagnostic>, y: PackageDiagnostic, x: PackageDiagnostic)
    requires
        is_sorted(s),
        diagnostic_order(y, x) == 0,
    ensures
        forall|i: int|
            0 <= i < s.skip(first_after(s, y)).len() ==> diagnostic_order(
                #[trigger] s.skip(first_after(s, y))[i],
                x,
            ) != 0,
{
    lemma_first_after(s, y);
    let p = first_after(s, y);
    let tail = s.skip(p);
    assert forall|i: int| 0 <= i < tail.len() implies diagnostic_order(#[trigger] tail[i], x) != 0 by {
        let j = p + i;
        assert(tail[i] == s[j]);
        if j > p {
            assert(diagnostic_order(s[p], s[j]) <= 0);
            lemma_diagnostic_order_laws(y, s[p], s[j]);
        }
        lemma_diagnostic_order_laws(y, s[j], x);
        lemma_diagnostic_order_laws(s[j], x, y);
        lemma_diagnostic_order_laws(y, x, s[j]);
    }
}

/// Sorting is stable: the diagnostics that tie with any `x` on the whole
/// sort key come out in the order they went in.
pub proof fn lemma_stable_sort_keeps_ties_in_order(ds: Seq<PackageDiagnostic>, x: PackageDiagnostic)
    ensures
        stable_sort(ds).filter(|d: PackageDiagnostic| diagnostic_order(d, x) == 0) == ds.filter(
            |d: PackageDiagnostic| diagnostic_order(d, x) == 0,
        ),
    decreases ds.len(),
{
    let tie = |d: PackageDiagnostic| diagnostic_order(d, x) == 0;
    if ds.len() > 0 {
        let rest = ds.drop_last();
        let y = ds.last();
        let s = stable_sort(rest);
        lemma_stable_sort_keeps_ties_in_order(rest, x);
        lemma_first_after(s, y);
        let p = first_after(s, y);
        let head = s.take(p);
        let tail = s.skip(p);
        assert(ds =~= rest + seq![y]);
        Seq::filter_distributes_over_add(rest, seq![y], tie);
        assert(stable_sort(ds) =~= head + seq![y] + tail);
        assert(s =~= head + tail);
        Seq::filter_distributes_over_add(head + seq![y], tail, tie);
        Seq::filter_distributes_over_add(head, seq![y], tie);
        Seq::filter_distributes_over_add(head, tail, tie);
        lemma_filter_single(y, tie);
        if tie(y) {
            lemma_stable_sort_sorted(rest);
            lemma_no_tie_after_insertion(s, y, x);
            assert forall|i: int| 0 <= i < tail.len() implies !tie(#[trigger] tail[i]) by {}
            lemma_filter_none(tail, tie);
        }
    }
}

/// A diagnostic's sort key, computed once.
struct SortKey {
    resource: Vec<u8>,
    location: Vec<u8>,
    rank: u8,
    code: Vec<u8>,
    context: Vec<u8>,
}

spec fn key_of(k: SortKey, d: PackageDiagnostic) -> bool {
    &&& k.resource@ == optional_text_bytes(d.resource_uri)
    &&& k.location@ == optional_text_bytes(d.location)
    &&& k.rank == spec_severity_rank(d.severity)
    &&& k.code@ == encode_utf8(d.code@)
    &&& k.context@ == context_json(d.context)
}

fn optional_bytes(text: &Option<String>) -> (b: Vec<u8>)
    ensures
        b@ == optional_text_bytes(*text),
{
    match text {
        Some(s) => s.as_str().as_bytes_vec(),
        None => Vec::new(),
    }
}

fn sort_key(d: &PackageDiagnostic) -> (k: SortKey)
    ensures
        key_of(k, *d),
{
    SortKey {
        resource: optional_bytes(&d.resource_uri),
        location: optional_bytes(&d.location),
        rank: severity_rank(d.severity),
        code: d.code.as_str().as_bytes_vec(),
        context: d.context.to_json(),
    }
}

fn key_order(a: &SortKey, b: &SortKey) -> (r: i8)
    requires
        exists|x: PackageDiagnostic, y: PackageDiagnostic| key_of(*a, x) && key_of(*b, y),
    ensures
        forall|x: PackageDiagnostic, y: PackageDiagnostic|
            key_of(*a, x) && key_of(*b, y) ==> r as int == diagnostic_order(x, y),
{
    let r = lex_order_exec(a.resource.as_slice(), b.resource.as_slice());
    if r != 0 {
        return r;
    }
    let l = lex_order_exec(a.location.as_slice(), b.location.as_slice());
    if l != 0 {
        return l;
    }
    if a.rank < b.rank {
        return -1;
    }
    if a.rank > b.rank {
        return 1;
    }
    let c = lex_order_exec(a.code.as_slice(), b.code.as_slice());
    if c != 0 {
        return c;
    }
    lex_order_exec(a.context.as_slice(), b.context.as_slice())
}

impl PackageValidationReport {
    /// A report listing `diagnostics` in diagnostic order; diagnostics with
    /// equal sort keys keep the order they came in.
    pub fn from_diagnostics(diagnostics: Vec<PackageDiagnostic>) -> (report: Self)
        ensures
            report.diagnostics@ == stable_sort(diagnostics@),
    {
        let ghost all = diagnostics@;
        let mut input = diagnostics;
        let mut sorted: Vec<PackageDiagnostic> = Vec::new();
        let mut keys: Vec<SortKey> = Vec::new();
        let mut done: usize = 0;
        assert(all.len() == input.len());
        assert(all.skip(0) =~= all);
        assert(all.take(0) =~= Seq::<PackageDiagnostic>::empty());
        while input.len() > 0
            invariant
                done <= all.len(),
                all.len() <= usize::MAX,
                input@ == all.skip(done as int),
                sorted@ == stable_sort(all.take(done as int)),
                keys@.len() == sorted@.len(),
                forall|i: int| 0 <= i < keys@.len() ==> key_of(#[trigger] keys@[i], sorted@[i]),
            decreases input.len(),
        {
            let d = input.remove(0);
            let key = sort_key(&d);
            let ghost before = sorted@;
            let mut p: usize = 0;
            assert(before.skip(0) =~= before);
            while p < sorted.len() && key_order(&keys[p], &key) <= 0
                invariant
                    sorted@ == before,
                    keys@.len() == before.len(),
                    forall|i: int| 0 <= i < keys@.len() ==> key_of(#[trigger] keys@[i], before[i]),
                    key_of(key, d),
                    p <= before.len(),
                    first_after(before, d) == p + first_after(before.skip(p as int), d),
                decreases before.len() - p,
            {
                assert(key_of(keys@[p as int], before[p as int]));
                assert(before.skip(p as int).drop_first() =~= before.skip(p + 1));
                p = p + 1;
            }
            if p < sorted.len() {
                assert(key_of(keys@[p as int], before[p as int]));
            }
            assert(first_after(before, d) == p);
            let ghost keys_before = keys@;
            sorted.insert(p, d);
            keys.insert(p, key);
            proof {
                let next = all.take(done + 1);
                assert(next.drop_last() =~= all.take(done as int));
                assert(next.last() == d);
                assert(all.skip(done as int).drop_first() =~= all.skip(done + 1));
                assert forall|i: int| 0 <= i < keys@.len() implies key_of(
                    #[trigger] keys@[i],
                    sorted@[i],
                ) by {
                    if i < p {
                        assert(keys@[i] == keys_before[i] && sorted@[i] == before[i]);
                    } else if i > p {
                        assert(keys@[i] == keys_before[i - 1] && sorted@[i] == before[i - 1]);
                    }
                }
            }
            done = done + 1;
        }
        assert(all.take(all.len() as int) =~= all);
        PackageValidationReport { diagnostics: sorted }
    }

    /// Whether the report holds no error.
    pub fn is_valid(&self) -> (valid: bool)
        ensures
            valid == !has_error(self.diagnostics@),
    {
        let mut i: usize = 0;
        while i < self.diagnostics.len()
            invariant
                i <= self.diagnostics@.len(),
                forall|j: int|
                    0 <= j < i ==> #[trigger] self.diagnostics@[j].severity
                        != PackageDiagnosticSeverity::Error,
            decreases self.diagnostics@.len() - i,
        {
            match self.diagnostics[i].severity {
                PackageDiagnosticSeverity::Error => {
                    return false;
                },
                _ => {},
            }
            i = i + 1;
        }
        true
    }
}

} // verus!
