//! Where things were written: spans of files, and the anchors that name a
//! node of a definition without a byte offset.
use vstd::prelude::*;

use crate::symbol::Symbol;

verus! {

/// A registered file; the first one stands for generated code.
#[derive(Debug, Clone, Copy, PartialEq, Eq, Structural, PartialOrd, Ord, Hash)]
pub struct FileID(pub usize);

/// `width` bytes of a file from `start`.
#[derive(Debug, Clone, Copy, PartialEq, Eq, Structural, PartialOrd, Ord, Hash)]
pub struct Span {
    pub file_id: FileID,
    pub start: usize,
    pub width: usize,
}

/// A value and the span it was written at.
#[derive(Debug, Clone, Copy, PartialEq, Eq, Default, Hash)]
pub struct Spanned<T> {
    pub item: T,
    pub span: Span,
}

/// One node of a definition's lowered form: its offset from the start of
/// its definition and its width, packed so that nodes order the way spans
/// do. A generated span is numbered by its absolute position under a flag.
#[derive(Debug, Clone, Copy, PartialEq, Eq, Structural, PartialOrd, Ord, Hash)]
pub struct NodeId(pub u64);

/// Where something in the semantic program came from: which definition, and
/// which node of it.
#[derive(Debug, Clone, Copy, PartialEq, Eq, Structural, PartialOrd, Ord, Hash)]
pub struct Anchor {
    pub definition: Symbol,
    pub node: NodeId,
}

/// A value and the anchor of where it was written.
#[derive(Debug, Clone, Copy, PartialEq, Eq, Hash)]
pub struct Anchored<T> {
    pub anchored: T,
    pub at: Anchor,
}

/// Where a program's definitions stand relative to each other: the
/// definitions in the order they were declared.
#[derive(Debug, Clone, Default, PartialEq, Eq)]
pub struct Order {
    ranks: Vec<Symbol>,
}

/// Where every anchor of a program points: its records in the order they
/// were made, a later record of an anchor standing over an earlier one.
#[derive(Debug, Clone, Default, PartialEq, Eq)]
pub struct SourceMap {
    spans: Vec<(Anchor, Span)>,
}

#[derive(Debug, Clone, PartialEq, Eq)]
pub struct RegisteredFile {
    pub path: String,
    pub content: String,
}

/// The files of one compilation, each at the index its id names.
pub struct FileManager {
    files: Vec<RegisteredFile>,
}

pub open spec fn generated_file() -> FileID {
    FileID(0)
}

impl FileID {
    pub fn is_generated(self) -> (b: bool)
        ensures
            b == (self == generated_file()),
    {
        self.0 == 0
    }

    pub fn span(&self, start: usize, width: usize) -> (span: Span)
        ensures
            span == (Span { file_id: *self, start, width }),
    {
        Span { file_id: *self, start, width }
    }
}

impl Default for Span {
    fn default() -> (span: Span)
        ensures
            span == (Span { file_id: generated_file(), start: 0, width: 0 }),
    {
        Span { file_id: FileID(0), start: 0, width: 0 }
    }
}

impl Span {
    pub open spec fn end_of(self) -> int {
        self.start + self.width
    }

    pub fn generated(start: usize, width: usize) -> (span: Span)
        ensures
            span == (Span { file_id: generated_file(), start, width }),
    {
        Span { file_id: FileID(0), start, width }
    }

    pub fn is_generated(self) -> (b: bool)
        ensures
            b == (self.file_id == generated_file()),
    {
        self.file_id.is_generated()
    }

    /// The exclusive end offset of this span.
    pub fn end(self) -> (end: usize)
        requires
            self.start + self.width <= usize::MAX,
        ensures
            end == self.end_of(),
    {
        self.start + self.width
    }

    /// The smallest span covering both; the receiver's file wins.
    pub fn merge(self, other: Span) -> (merged: Span)
        requires
            self.end_of() <= usize::MAX,
            other.end_of() <= usize::MAX,
        ensures
            merged.file_id == self.file_id,
            merged.start == if self.start < other.start { self.start } else { other.start },
            merged.end_of() == if self.end_of() > other.end_of() {
                self.end_of()
            } else {
                other.end_of()
            },
    {
        let start = if self.start < other.start {
            self.start
        } else {
            other.start
        };
        let end = if self.end() > other.end() {
            self.end()
        } else {
            other.end()
        };
        Span { file_id: self.file_id, start, width: end - start }
    }

    pub fn track<T>(self, t: T) -> (item: Spanned<T>)
        ensures
            item == (Spanned { item: t, span: self }),
    {
        Spanned { item: t, span: self }
    }
}

/// A merged span covers both of the spans it was made of, and starts and
/// ends at one of theirs.
pub proof fn lemma_merge_covers(a: Span, b: Span, merged: Span)
    requires
        merged.start == if a.start < b.start { a.start } else { b.start },
        merged.end_of() == if a.end_of() > b.end_of() { a.end_of() } else { b.end_of() },
    ensures
        merged.start <= a.start && merged.start <= b.start,
        merged.end_of() >= a.end_of() && merged.end_of() >= b.end_of(),
        merged.start == a.start || merged.start == b.start,
        merged.end_of() == a.end_of() || merged.end_of() == b.end_of(),
{
}

impl<T> Spanned<T> {
    pub fn new(item: T, span: Span) -> (t: Spanned<T>)
        ensures
            t == (Spanned { item, span }),
    {
        Spanned { item, span }
    }

    pub fn into_tracked(self) -> (t: T)
        ensures
            t == self.item,
    {
        self.item
    }
}

/// The largest offset or width a node number holds.
pub open spec fn node_cap(v: int) -> u64 {
    if v < 0xFFFF_FFFE {
        v as u64
    } else {
        0xFFFF_FFFE
    }
}

/// The flag that marks a node numbered by absolute position.
pub open spec fn absolute_flag() -> u64 {
    0x8000_0000_0000_0000
}

/// The number of the node at `span` in a definition starting at `base`.
pub open spec fn node_number(base: usize, span: Span) -> u64 {
    let width = node_cap(span.width as int);
    if span.file_id == generated_file() {
        absolute_flag() | ((node_cap(span.start as int) * 0x1_0000_0000 + width) as u64)
    } else {
        let relative = if span.start >= base {
            span.start - base
        } else {
            0
        };
        (node_cap(relative) * 0x1_0000_0000 + width) as u64
    }
}

fn cap_u32(v: usize) -> (c: u64)
    ensures
        c == node_cap(v as int),
        c < 0x1_0000_0000,
{
    if v < 0xFFFF_FFFE {
        v as u64
    } else {
        0xFFFF_FFFE
    }
}

impl NodeId {
    /// The node of `span` in a definition starting at `base`.
    fn of(base: usize, span: Span) -> (id: NodeId)
        ensures
            id.0 == node_number(base, span),
    {
        let width = cap_u32(span.width);
        if span.is_generated() {
            let start = cap_u32(span.start);
            assert((start << 32u64) | width == start * 0x1_0000_0000 + width) by (bit_vector)
                requires
                    start < 0x1_0000_0000,
                    width < 0x1_0000_0000,
            ;
            return NodeId(0x8000_0000_0000_0000u64 | ((start << 32u64) | width));
        }
        let relative = if span.start >= base {
            span.start - base
        } else {
            0
        };
        let start = cap_u32(relative);
        assert((start << 32u64) | width == start * 0x1_0000_0000 + width) by (bit_vector)
            requires
                start < 0x1_0000_0000,
                width < 0x1_0000_0000,
        ;
        NodeId((start << 32u64) | width)
    }
}

/// Written nodes of one definition order the way their spans do: by start,
/// then by width (while both stay below the largest number a node holds).
pub proof fn lemma_nodes_order_like_spans(base: usize, a: Span, b: Span)
    requires
        a.file_id != generated_file(),
        b.file_id != generated_file(),
        base <= a.start,
        base <= b.start,
        a.start - base < 0xFFFF_FFFE,
        b.start - base < 0xFFFF_FFFE,
        a.width < 0xFFFF_FFFE,
        b.width < 0xFFFF_FFFE,
    ensures
        node_number(base, a) < node_number(base, b) <==> (a.start < b.start || (a.start == b.start
            && a.width < b.width)),
        node_number(base, a) == node_number(base, b) <==> (a.start == b.start && a.width
            == b.width),
{
    let sa = (a.start - base) as int;
    let sb = (b.start - base) as int;
    assert(node_number(base, a) == sa * 0x1_0000_0000 + a.width);
    assert(node_number(base, b) == sb * 0x1_0000_0000 + b.width);
    if sa < sb {
        assert(sa * 0x1_0000_0000 + a.width < sb * 0x1_0000_0000) by (nonlinear_arith)
            requires
                sa < sb,
                a.width < 0x1_0000_0000,
        ;
    } else if sb < sa {
        assert(sb * 0x1_0000_0000 + b.width < sa * 0x1_0000_0000) by (nonlinear_arith)
            requires
                sb < sa,
                b.width < 0x1_0000_0000,
        ;
    }
}

/// Whether a node number stands for generated code: the node of nothing,
/// or one numbered under the absolute flag.
pub open spec fn is_generated_node(n: u64) -> bool {
    n == u64::MAX || n & absolute_flag() != 0
}

/// A generated span's node is generated; a written one's is not, while its
/// offset into the definition stays below the flag.
pub proof fn lemma_generated_nodes_kept_apart(base: usize, span: Span)
    requires
        span.file_id != generated_file() ==> span.start < base + 0x8000_0000,
    ensures
        is_generated_node(node_number(base, span)) == (span.file_id == generated_file()),
{
    let width = node_cap(span.width as int);
    if span.file_id == generated_file() {
        let low = (node_cap(span.start as int) * 0x1_0000_0000 + width) as u64;
        assert((0x8000_0000_0000_0000u64 | low) & 0x8000_0000_0000_0000u64 != 0) by (bit_vector);
    } else {
        let relative = if span.start >= base {
            span.start - base
        } else {
            0
        };
        let start = node_cap(relative);
        assert(start < 0x8000_0000);
        let n = (start * 0x1_0000_0000 + width) as u64;
        assert(start * 0x1_0000_0000 + width < 0x8000_0000_0000_0000) by (nonlinear_arith)
            requires
                start < 0x8000_0000,
                width < 0x1_0000_0000,
        ;
        assert(n < 0x8000_0000_0000_0000);
        assert(n < 0x8000_0000_0000_0000u64 ==> n & 0x8000_0000_0000_0000u64 == 0) by (bit_vector);
    }
}

/// The anchor of what the compiler made up.
pub open spec fn generated_anchor() -> Anchor {
    Anchor { definition: Symbol::spec_generated(), node: NodeId(u64::MAX) }
}

impl Anchor {
    pub fn is_generated(self) -> (b: bool)
        ensures
            b == is_generated_node(self.node.0),
    {
        self.node.0 == u64::MAX || self.node.0 & 0x8000_0000_0000_0000u64 != 0
    }

    pub fn anchor<T>(self, anchored: T) -> (a: Anchored<T>)
        ensures
            a == (Anchored { anchored, at: self }),
    {
        Anchored { anchored, at: self }
    }
}

impl Default for Anchor {
    fn default() -> (anchor: Anchor)
        ensures
            anchor == generated_anchor(),
    {
        Anchor { definition: Symbol::generated(), node: NodeId(u64::MAX) }
    }
}

impl<T> Anchored<T> {
    pub fn new(anchored: T, at: Anchor) -> (a: Anchored<T>)
        ensures
            a == (Anchored { anchored, at }),
    {
        Anchored { anchored, at }
    }

    pub fn into_anchored(self) -> (t: T)
        ensures
            t == self.anchored,
    {
        self.anchored
    }
}

/// The last place `x` stands in `s`, or -1.
pub open spec fn last_index<A>(s: Seq<A>, x: A) -> int
    decreases s.len(),
{
    if s.len() == 0 {
        -1
    } else if s.last() == x {
        s.len() - 1
    } else {
        last_index(s.drop_last(), x)
    }
}

proof fn lemma_last_index<A>(s: Seq<A>, x: A)
    ensures
        -1 <= last_index(s, x) < s.len(),
        last_index(s, x) >= 0 ==> s[last_index(s, x)] == x,
        last_index(s, x) >= 0 ==> forall|j: int| last_index(s, x) < j < s.len() ==> s[j] != x,
        last_index(s, x) < 0 ==> forall|j: int| 0 <= j < s.len() ==> s[j] != x,
    decreases s.len(),
{
    if s.len() > 0 {
        lemma_last_index(s.drop_last(), x);
        assert(forall|j: int| 0 <= j < s.len() - 1 ==> s.drop_last()[j] == s[j]);
    }
}

impl View for Order {
    type V = Seq<Symbol>;

    closed spec fn view(&self) -> Seq<Symbol> {
        self.ranks@
    }
}

/// The rank of a definition: where it was last declared, or the largest
/// rank for what was never declared.
pub open spec fn rank_in(declared: Seq<Symbol>, definition: Symbol) -> usize {
    if last_index(declared, definition) < 0 {
        usize::MAX
    } else {
        last_index(declared, definition) as usize
    }
}

impl Order {
    /// The definitions in the order they stand, earliest first.
    pub fn of(definitions: Vec<Symbol>) -> (order: Order)
        ensures
            order@ == definitions@,
    {
        Order { ranks: definitions }
    }

    /// Where `definition` stands.
    pub fn rank(&self, definition: Symbol) -> (rank: usize)
        ensures
            rank == rank_in(self@, definition),
    {
        let mut i = self.ranks.len();
        assert(self.ranks@.take(i as int) =~= self.ranks@);
        while i > 0
            invariant
                i <= self.ranks.len(),
                last_index(self.ranks@, definition) == last_index(
                    self.ranks@.take(i as int),
                    definition,
                ),
            decreases i,
        {
            assert(self.ranks@.take(i as int).drop_last() =~= self.ranks@.take(i - 1));
            if self.ranks[i - 1] == definition {
                return i - 1;
            }
            i = i - 1;
        }
        usize::MAX
    }

    /// A sort key for what was written at `at`: its definition's rank, then
    /// its place in the definition.
    pub fn key(&self, at: Anchor) -> (key: (usize, NodeId))
        ensures
            key == (rank_in(self@, at.definition), at.node),
    {
        (self.rank(at.definition), at.node)
    }
}

/// Declared definitions sort in the order of their last declaration, and
/// everything never declared sorts after all of them.
pub proof fn lemma_rank_orders_declarations(declared: Seq<Symbol>, a: Symbol, b: Symbol)
    requires
        declared.len() <= usize::MAX,
    ensures
        last_index(declared, a) >= 0 ==> rank_in(declared, a) < declared.len() && declared[rank_in(
            declared,
            a,
        ) as int] == a,
        last_index(declared, a) < 0 ==> rank_in(declared, a) == usize::MAX,
        last_index(declared, a) >= 0 && last_index(declared, b) < 0 ==> rank_in(declared, a)
            < rank_in(declared, b),
{
    lemma_last_index(declared, a);
    lemma_last_index(declared, b);
}

/// The map a list of records makes, a later record of a key standing over
/// an earlier one.
pub open spec fn records_map(s: Seq<(Anchor, Span)>) -> Map<Anchor, Span>
    decreases s.len(),
{
    if s.len() == 0 {
        Map::empty()
    } else {
        records_map(s.drop_last()).insert(s.last().0, s.last().1)
    }
}

proof fn lemma_records_append(s: Seq<(Anchor, Span)>, t: Seq<(Anchor, Span)>)
    ensures
        records_map(s + t) == records_map(s).union_prefer_right(records_map(t)),
    decreases t.len(),
{
    if t.len() == 0 {
        assert(s + t =~= s);
        assert(records_map(s).union_prefer_right(records_map(t)) =~= records_map(s));
    } else {
        assert((s + t).drop_last() =~= s + t.drop_last());
        lemma_records_append(s, t.drop_last());
        assert(records_map(s + t) =~= records_map(s).union_prefer_right(records_map(t)));
    }
}

impl View for SourceMap {
    type V = Map<Anchor, Span>;

    closed spec fn view(&self) -> Map<Anchor, Span> {
        records_map(self.spans@)
    }
}

impl SourceMap {
    /// The span recorded for `at`, if any.
    fn find(&self, at: Anchor) -> (found: Option<Span>)
        ensures
            found == if self@.contains_key(at) {
                Some(self@[at])
            } else {
                None::<Span>
            },
    {
        let mut i = self.spans.len();
        assert(self.spans@.take(i as int) =~= self.spans@);
        while i > 0
            invariant
                i <= self.spans.len(),
                records_map(self.spans@).contains_key(at) == records_map(
                    self.spans@.take(i as int),
                ).contains_key(at),
                records_map(self.spans@).contains_key(at) ==> records_map(self.spans@)[at]
                    == records_map(self.spans@.take(i as int))[at],
            decreases i,
        {
            assert(self.spans@.take(i as int).drop_last() =~= self.spans@.take(i - 1));
            let (anchor, span) = self.spans[i - 1];
            if anchor == at {
                return Some(span);
            }
            i = i - 1;
        }
        None
    }

    /// Record where a node of `definition`, whose text starts at `base`, was
    /// written, and answer its anchor. An anchor already recorded keeps the
    /// span it was first recorded with.
    pub fn record(&mut self, definition: Symbol, base: usize, span: Span) -> (at: Anchor)
        ensures
            at == (Anchor { definition, node: NodeId(node_number(base, span)) }),
            final(self)@ == if old(self)@.contains_key(at) {
                old(self)@
            } else {
                old(self)@.insert(at, span)
            },
    {
        let at = Anchor { definition, node: NodeId::of(base, span) };
        if self.find(at).is_none() {
            let ghost before = self.spans@;
            self.spans.push((at, span));
            assert(self.spans@.drop_last() =~= before);
        }
        at
    }

    /// Where `at` was written: a generated span for an anchor never recorded.
    pub fn span(&self, at: Anchor) -> (span: Span)
        ensures
            span == if self@.contains_key(at) {
                self@[at]
            } else {
                Span { file_id: generated_file(), start: 0, width: 0 }
            },
    {
        match self.find(at) {
            Some(span) => span,
            None => Span::default(),
        }
    }

    /// Where `at` was written, when it was written somewhere.
    pub fn located(&self, at: Anchor) -> (span: Option<Span>)
        ensures
            span == if self@.contains_key(at) && self@[at].file_id != generated_file() {
                Some(self@[at])
            } else {
                None::<Span>
            },
    {
        let span = self.span(at);
        if !span.is_generated() {
            Some(span)
        } else {
            None
        }
    }

    /// Take another map's records; where both record an anchor, the other
    /// map's span wins.
    pub fn extend(&mut self, other: SourceMap)
        ensures
            final(self)@ == old(self)@.union_prefer_right(other@),
    {
        let ghost before = self.spans@;
        let mut i: usize = 0;
        while i < other.spans.len()
            invariant
                i <= other.spans.len(),
                self.spans@ == before + other.spans@.take(i as int),
            decreases other.spans.len() - i,
        {
            self.spans.push(other.spans[i]);
            assert(other.spans@.take(i + 1) =~= other.spans@.take(i as int).push(other.spans@[i as int]));
            i = i + 1;
        }
        proof {
            assert(other.spans@.take(other.spans.len() as int) =~= other.spans@);
            lemma_records_append(before, other.spans@);
        }
    }
}

impl RegisteredFile {
    fn generated() -> (file: RegisteredFile)
        ensures
            file.path@ == "@GENERATED-CODE"@,
            file.content@ == ""@,
    {
        RegisteredFile { path: "@GENERATED-CODE".to_owned(), content: "".to_owned() }
    }
}

impl View for FileManager {
    type V = Seq<(Seq<char>, Seq<char>)>;

    closed spec fn view(&self) -> Seq<(Seq<char>, Seq<char>)> {
        self.files@.map_values(|f: RegisteredFile| (f.path@, f.content@))
    }
}

impl FileManager {
    /// A manager holding only the file that stands for generated code.
    pub fn new() -> (manager: FileManager)
        ensures
            manager@ == seq![("@GENERATED-CODE"@, ""@)],
    {
        let mut files = Vec::new();
        files.push(RegisteredFile::generated());
        let manager = FileManager { files };
        assert(manager@ =~= seq![("@GENERATED-CODE"@, ""@)]);
        manager
    }

    /// Register a file under the next id.
    pub fn register_new_file(&mut self, path: String, content: String) -> (id: FileID)
        requires
            old(self)@.len() < usize::MAX,
        ensures
            id.0 == old(self)@.len(),
            final(self)@ == old(self)@.push((path@, content@)),
    {
        let id = FileID(self.files.len());
        self.files.push(RegisteredFile { path, content });
        assert(self@ =~= old(self)@.push((path@, content@)));
        id
    }

    /// The file registered under `file_id`.
    pub fn get_file(&mut self, file_id: FileID) -> (file: &RegisteredFile)
        requires
            file_id.0 < old(self)@.len(),
        ensures
            *final(self) == *old(self),
            (file.path@, file.content@) == old(self)@[file_id.0 as int],
    {
        &self.files[file_id.0]
    }
}

} // verus!
