//! The ACIS record document: a flat array of records that name each other by
//! id.
//!
//! Each record is its entity type and its tokens; a token is a pointer to
//! another record (by id, with -1 for null), an identifier, or geometry.
//! Geometry is carried as the raw bits of its floating-point values: nothing
//! here computes with it, it is only copied from one place to another.

use vstd::prelude::*;

verus! {

/// The null pointer.
pub const NULL: i32 = -1;

/// One token of a record.
#[derive(Debug, Clone, PartialEq)]
pub enum SatToken {
    /// A pointer to the record with this id; -1 is null.
    Pointer(i32),
    /// A bare identifier such as `forward`.
    Ident(String),
    /// A floating-point value, as its bits.
    Float(u64),
    /// A point or vector, as the bits of its three coordinates.
    Position(u64, u64, u64),
}

/// A token as a value.
pub enum TokenView {
    Pointer(i32),
    Ident(Seq<char>),
    Float(u64),
    Position(u64, u64, u64),
}

impl View for SatToken {
    type V = TokenView;

    open spec fn view(&self) -> TokenView {
        match self {
            SatToken::Pointer(p) => TokenView::Pointer(*p),
            SatToken::Ident(s) => TokenView::Ident(s@),
            SatToken::Float(f) => TokenView::Float(*f),
            SatToken::Position(x, y, z) => TokenView::Position(*x, *y, *z),
        }
    }
}

/// A sequence of tokens as values.
pub open spec fn tokens_view(tokens: Seq<SatToken>) -> Seq<TokenView> {
    tokens.map_values(|t: SatToken| t@)
}

/// One record of the document.
#[derive(Debug, Clone, PartialEq)]
pub struct SatRecord {
    /// The record's id; -1 before it is added to a document.
    pub index: i32,
    /// The entity type, such as `face` or `plane-surface`.
    pub entity_type: String,
    /// The record's tokens, its attribute pointer first.
    pub tokens: Vec<SatToken>,
}

/// A record as a value.
pub struct RecordView {
    pub index: i32,
    pub kind: Seq<char>,
    pub tokens: Seq<TokenView>,
}

impl View for SatRecord {
    type V = RecordView;

    open spec fn view(&self) -> RecordView {
        RecordView { index: self.index, kind: self.entity_type@, tokens: tokens_view(self.tokens@) }
    }
}

/// The records of a document, in array order.
#[derive(Debug, Clone, PartialEq)]
pub struct SatDocument {
    pub records: Vec<SatRecord>,
}

impl View for SatDocument {
    type V = Seq<RecordView>;

    open spec fn view(&self) -> Seq<RecordView> {
        self.records@.map_values(|r: SatRecord| r@)
    }
}

/// The first array position holding the record with id `id`.
pub open spec fn first_slot(records: Seq<RecordView>, id: i32) -> Option<int>
    decreases records.len(),
{
    if records.len() == 0 {
        None
    } else {
        match first_slot(records.drop_last(), id) {
            Some(slot) => Some(slot),
            None => if records.last().index == id {
                Some(records.len() - 1)
            } else {
                None
            },
        }
    }
}

/// What `first_slot` finds is a record with that id, and nothing before it
/// has the id.
pub proof fn lemma_first_slot(records: Seq<RecordView>, id: i32)
    ensures
        match first_slot(records, id) {
            Some(slot) => 0 <= slot < records.len() && records[slot].index == id && forall|i: int|
                0 <= i < slot ==> #[trigger] records[i].index != id,
            None => forall|i: int| 0 <= i < records.len() ==> #[trigger] records[i].index != id,
        },
    decreases records.len(),
{
    if records.len() > 0 {
        let prefix = records.drop_last();
        lemma_first_slot(prefix, id);
        assert forall|i: int| 0 <= i < prefix.len() implies #[trigger] records[i] == prefix[i] by {}
    }
}

/// The record a pointer names: none for null, else the first with that id.
pub open spec fn resolve_slot(records: Seq<RecordView>, pointer: i32) -> Option<int> {
    if pointer < 0 {
        None
    } else {
        first_slot(records, pointer)
    }
}

/// The pointer at token `i` of a record, or null when that token is missing
/// or is not a pointer.
pub open spec fn pointer_field(r: RecordView, i: int) -> i32 {
    if 0 <= i < r.tokens.len() {
        match r.tokens[i] {
            TokenView::Pointer(p) => p,
            _ => -1i32,
        }
    } else {
        -1i32
    }
}

/// Whether token `i` of a record is the identifier `forward`.
pub open spec fn forward_field(r: RecordView, i: int) -> bool {
    0 <= i < r.tokens.len() && r.tokens[i] == TokenView::Ident("forward"@)
}

/// Whether two strings hold the same characters.
pub fn same_text(a: &str, b: &str) -> (r: bool)
    ensures
        r == (a@ == b@),
{
    let n = a.unicode_len();
    if n != b.unicode_len() {
        return false;
    }
    let mut i: usize = 0;
    while i < n
        invariant
            n == a@.len(),
            n == b@.len(),
            i <= n,
            forall|j: int| 0 <= j < i ==> a@[j] == b@[j],
        decreases n - i,
    {
        if a.get_char(i) != b.get_char(i) {
            return false;
        }
        i = i + 1;
    }
    assert(a@ =~= b@);
    true
}

impl SatToken {
    /// A token with the same value.
    pub fn duplicate(&self) -> (t: SatToken)
        ensures
            t@ == self@,
    {
        match self {
            SatToken::Pointer(p) => SatToken::Pointer(*p),
            SatToken::Ident(s) => SatToken::Ident(s.clone()),
            SatToken::Float(f) => SatToken::Float(*f),
            SatToken::Position(x, y, z) => SatToken::Position(*x, *y, *z),
        }
    }
}

/// Tokens with the same values, in the same order.
pub fn duplicate_tokens(tokens: &Vec<SatToken>) -> (r: Vec<SatToken>)
    ensures
        tokens_view(r@) == tokens_view(tokens@),
{
    let mut r: Vec<SatToken> = Vec::new();
    let mut i: usize = 0;
    while i < tokens.len()
        invariant
            i <= tokens@.len(),
            tokens_view(r@) =~= tokens_view(tokens@.take(i as int)),
        decreases tokens@.len() - i,
    {
        let t = tokens[i].duplicate();
        let ghost before = r@;
        r.push(t);
        proof {
            assert(r@ =~= before.push(t));
            assert(tokens@.take(i + 1) =~= tokens@.take(i as int).push(tokens@[i as int]));
            assert(tokens_view(r@) =~= tokens_view(before).push(t@));
            assert(tokens_view(tokens@.take(i + 1)) =~= tokens_view(tokens@.take(i as int)).push(
                tokens@[i as int]@,
            ));
        }
        i = i + 1;
    }
    assert(tokens@.take(tokens@.len() as int) =~= tokens@);
    r
}

impl SatDocument {
    /// An empty document.
    pub fn new() -> (d: Self)
        ensures
            d@ == Seq::<RecordView>::empty(),
    {
        SatDocument { records: Vec::new() }
    }

    /// The number of records.
    pub fn record_count(&self) -> (n: usize)
        ensures
            n == self@.len(),
    {
        self.records.len()
    }

    /// Adds a record at the end, giving it its array position as its id.
    pub fn add_record(&mut self, record: SatRecord) -> (id: i32)
        requires
            old(self)@.len() < i32::MAX,
        ensures
            id == old(self)@.len(),
            final(self)@ == old(self)@.push(RecordView { index: id, ..record@ }),
    {
        let id = self.records.len() as i32;
        let mut record = record;
        record.index = id;
        self.records.push(record);
        assert(self@ =~= old(self)@.push(RecordView { index: id, ..record@ }));
        id
    }

    /// The record at an array position.
    pub fn record(&self, slot: usize) -> (r: Option<&SatRecord>)
        ensures
            match r {
                Some(record) => slot < self@.len() && record@ == self@[slot as int],
                None => slot >= self@.len(),
            },
    {
        if slot < self.records.len() {
            Some(&self.records[slot])
        } else {
            None
        }
    }

    /// The array position of the first record with this id.
    pub fn slot_of(&self, id: i32) -> (slot: Option<usize>)
        ensures
            slot matches Some(s) ==> first_slot(self@, id) == Some(s as int),
            slot is None ==> first_slot(self@, id) is None,
    {
        let mut i: usize = 0;
        proof {
            lemma_first_slot(self@, id);
        }
        while i < self.records.len()
            invariant
                i <= self@.len(),
                forall|j: int| 0 <= j < i ==> #[trigger] self@[j].index != id,
                match first_slot(self@, id) {
                    Some(slot) => 0 <= slot < self@.len() && self@[slot].index == id && forall|j: int|
                        0 <= j < slot ==> #[trigger] self@[j].index != id,
                    None => forall|j: int| 0 <= j < self@.len() ==> #[trigger] self@[j].index != id,
                },
            decreases self@.len() - i,
        {
            if self.records[i].index == id {
                assert(self@[i as int].index == id);
                return Some(i);
            }
            assert(self@[i as int].index != id);
            i = i + 1;
        }
        None
    }

    /// The array position of the record a pointer names.
    pub fn resolve(&self, pointer: i32) -> (slot: Option<usize>)
        ensures
            slot matches Some(s) ==> resolve_slot(self@, pointer) == Some(s as int),
            slot is None ==> resolve_slot(self@, pointer) is None,
    {
        if pointer < 0 {
            None
        } else {
            self.slot_of(pointer)
        }
    }

    /// Replaces the tokens of the record at an array position.
    pub fn set_tokens(&mut self, slot: usize, tokens: Vec<SatToken>)
        requires
            slot < old(self)@.len(),
        ensures
            final(self)@ == old(self)@.update(
                slot as int,
                RecordView { tokens: tokens_view(tokens@), ..old(self)@[slot as int] },
            ),
    {
        let mut record = self.records.remove(slot);
        record.tokens = tokens;
        self.records.insert(slot, record);
        assert(self@ =~= old(self)@.update(
            slot as int,
            RecordView { tokens: tokens_view(tokens@), ..old(self)@[slot as int] },
        ));
    }
}

} // verus!
