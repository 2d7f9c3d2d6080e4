//! The piece-table text buffer: buffers, pieces, nodes and the document API.

use vstd::prelude::*;

use crate::line_index::all_ascii;
use crate::line_index::as_ints;
use crate::line_index::break_ends_from;
use crate::line_index::break_kinds_from;
use crate::line_index::check_all_ascii;
use crate::line_index::compute_line_starts;
use crate::line_index::count_break_kinds;
use crate::line_index::count_line_breaks;
use crate::line_index::lemma_break_count_bound;
use crate::line_index::lemma_break_ends_concat;
use crate::line_index::lemma_break_ends_props;
use crate::line_index::lemma_line_break_count_concat;
use crate::line_index::lemma_line_of_prefix;
use crate::line_index::line_content_spec;
use crate::line_index::line_of;
use crate::line_index::line_break_count;
use crate::line_index::lemma_break_kinds_total;
use crate::line_index::line_starts_spec;
use vstd::string::StrSliceExecFns;

verus! {

/// The end-of-line preference supplied at construction, used to disambiguate
/// the document's terminator style when the payload contains none.
#[derive(Clone, Copy, PartialEq, Eq, Structural, Debug)]
pub enum DefaultEOL {
    LF,
    CRLF,
}

/// The dominant end-of-line style detected in (or defaulted for) a document.
#[derive(Clone, Copy, PartialEq, Eq, Structural, Debug)]
enum EOL {
    LF,
    CR,
    CRLF,
}

/// Whether the payload began with a byte-order mark.
#[derive(Clone, Copy, PartialEq, Eq, Structural, Debug)]
enum CharacterEncoding {
    Utf8,
    Utf8WithBom,
}

/// Why an edit or query was rejected. Boundary errors are detected before
/// any mutation begins: a rejected operation leaves the document unchanged.
#[derive(Clone, Copy, PartialEq, Eq, Structural, Debug)]
pub enum BufferError {
    /// An offset, line or column lies beyond the current document bounds.
    OutOfRange,
    /// A delete count extends past the document end.
    InvalidEdit,
    /// Internal defect: a query reached an empty tree through a path that
    /// should have early-returned. The verified operations prove their
    /// invariants, so they never return this kind; it is retained for hosts
    /// that match on the full error model.
    EmptyTreeInvariantViolation,
}

/// A position local to one buffer's content, as a line number and a column
/// within that line, so that it stays valid as earlier buffers grow.
#[derive(Clone, Copy, PartialEq, Eq, Structural, Debug)]
pub struct BufferCursor {
    line: usize,
    column: usize,
}

/// One buffer: a block of content plus the offset of each of its line starts.
#[derive(Clone, Debug)]
struct Buffer {
    value: Vec<char>,
    line_starts: Vec<usize>,
}

/// A descriptor referencing the contiguous character range `[start, end)` of
/// one buffer, with its length and terminator count cached.
#[derive(Clone, Copy, PartialEq, Eq, Structural, Debug)]
struct Piece {
    /// `None` references the original buffer, `Some(i)` the i-th changed one.
    buffer_index: Option<usize>,
    start: BufferCursor,
    end: BufferCursor,
    len: usize,
    line_feed_count: usize,
}

/// One entry of the piece sequence, augmented with the total character count
/// and terminator count of everything strictly before it in document order.
#[derive(Clone, Copy, PartialEq, Eq, Structural, Debug)]
pub struct Node {
    piece: Piece,
    left_size: usize,
    left_line_feed_count: usize,
}

/// One remembered offset lookup: a node index and the document offset at
/// which that node's piece starts.
#[derive(Clone, Copy, PartialEq, Eq, Structural, Debug)]
struct CachedPosition {
    node_index: usize,
    node_start_offset: usize,
}

/// A small bounded cache of recently resolved offset lookups, exploiting
/// the locality of real editing sessions. It is a pure hint store:
/// an entry is used only after being checked against the maintained
/// aggregates, so correctness holds identically with the cache disabled.
#[derive(Debug)]
struct PieceTreeSearchCache {
    limit: usize,
    positions: Vec<CachedPosition>,
}

impl PieceTreeSearchCache {
    /// An empty cache holding at most four entries.
    fn new() -> PieceTreeSearchCache {
        PieceTreeSearchCache { limit: 4, positions: Vec::new() }
    }

    /// The most recent remembered lookup whose piece could cover `offset`.
    fn get_position(&self, offset: usize) -> (r: Option<CachedPosition>) {
        let mut k = self.positions.len();
        while k > 0
            invariant
                k <= self.positions@.len(),
            decreases k,
        {
            k = k - 1;
            let p = self.positions[k];
            if p.node_start_offset <= offset {
                return Some(p);
            }
        }
        None
    }

    /// Remembers a lookup, evicting the oldest entry at capacity.
    fn set_position(&mut self, position: CachedPosition) {
        if self.positions.len() >= self.limit && self.positions.len() > 0 {
            self.positions.remove(0);
        }
        self.positions.push(position);
    }

    /// Drops every entry at or past `offset`: a structural change there has
    /// invalidated their recorded absolute offsets.
    fn validate(&mut self, offset: usize) {
        let mut kept: Vec<CachedPosition> = Vec::new();
        let mut k: usize = 0;
        while k < self.positions.len()
            decreases self.positions@.len() - k,
        {
            let p = self.positions[k];
            if p.node_start_offset < offset {
                kept.push(p);
            }
            k = k + 1;
        }
        self.positions = kept;
    }
}

/// Metadata detected from the construction payload.
#[derive(Clone, Copy, Debug)]
pub struct TextBufferInfo {
    encoding: CharacterEncoding,
    eol: EOL,
    eos_normalized: bool,
    is_ascii: bool,
}

/// The document: original and changed buffers, plus the ordered pieces whose
/// concatenated contents are the text.
#[derive(Debug)]
pub struct TextBuffer {
    info: TextBufferInfo,
    original: Buffer,
    changed: Vec<Buffer>,
    nodes: Vec<Node>,
    cache: PieceTreeSearchCache,
    total_len: usize,
    total_lines: usize,
}

// ---------------------------------------------------------------------------
// The mathematical model.
// ---------------------------------------------------------------------------

/// A buffer is well formed when its recorded line starts are exactly the
/// line starts of its content.
spec fn buffer_wf(b: Buffer) -> bool {
    as_ints(b.line_starts@) == line_starts_spec(b.value@)
}

/// The buffer a piece references, out of the original and the changed list.
spec fn piece_buffer(original: Buffer, changed: Seq<Buffer>, p: Piece) -> Buffer {
    match p.buffer_index {
        None => original,
        Some(i) => changed[i as int],
    }
}

/// The referenced buffer index is in range.
spec fn piece_buffer_ok(changed: Seq<Buffer>, p: Piece) -> bool {
    match p.buffer_index {
        None => true,
        Some(i) => i < changed.len(),
    }
}

/// The absolute offset a cursor denotes within buffer `b`.
spec fn cursor_off(b: Buffer, c: BufferCursor) -> int {
    b.line_starts@[c.line as int] as int + c.column as int
}

/// The characters a piece denotes.
spec fn piece_chars(original: Buffer, changed: Seq<Buffer>, p: Piece) -> Seq<char> {
    let b = piece_buffer(original, changed, p);
    b.value@.subrange(cursor_off(b, p.start), cursor_off(b, p.end))
}

/// A piece is valid: it references an existing, well-formed buffer through
/// in-bounds cursors, is never empty, and its cached length and terminator
/// count match the characters it denotes.
spec fn piece_valid(original: Buffer, changed: Seq<Buffer>, p: Piece) -> bool {
    &&& piece_buffer_ok(changed, p)
    &&& {
        let b = piece_buffer(original, changed, p);
        &&& buffer_wf(b)
        &&& (p.start.line as int) < b.line_starts@.len()
        &&& (p.end.line as int) < b.line_starts@.len()
        &&& 0 <= cursor_off(b, p.start)
        &&& cursor_off(b, p.start) <= cursor_off(b, p.end)
        &&& cursor_off(b, p.end) <= b.value@.len()
        &&& p.len as int == cursor_off(b, p.end) - cursor_off(b, p.start)
        &&& p.len > 0
        &&& p.line_feed_count as int == line_break_count(piece_chars(original, changed, p))
    }
}

/// The concatenation, in order, of the contents the pieces denote.
spec fn cat(original: Buffer, changed: Seq<Buffer>, ns: Seq<Node>) -> Seq<char>
    decreases ns.len(),
{
    if ns.len() == 0 {
        Seq::empty()
    } else {
        piece_chars(original, changed, ns[0].piece) + cat(original, changed, ns.drop_first())
    }
}

/// Total character count of a piece run.
spec fn sum_len(ns: Seq<Node>) -> int
    decreases ns.len(),
{
    if ns.len() == 0 {
        0
    } else {
        sum_len(ns.drop_last()) + ns.last().piece.len
    }
}

/// Total terminator count of a piece run.
spec fn sum_lfc(ns: Seq<Node>) -> int
    decreases ns.len(),
{
    if ns.len() == 0 {
        0
    } else {
        sum_lfc(ns.drop_last()) + ns.last().piece.line_feed_count
    }
}

/// First character of the text a piece denotes.
spec fn head_ch(original: Buffer, changed: Seq<Buffer>, p: Piece) -> char {
    piece_chars(original, changed, p)[0]
}

/// Last character of the text a piece denotes.
spec fn tail_ch(original: Buffer, changed: Seq<Buffer>, p: Piece) -> char {
    piece_chars(original, changed, p).last()
}

/// No CRLF pair is split across the boundary of pieces `k` and `k + 1`.
spec fn no_split_at(original: Buffer, changed: Seq<Buffer>, ns: Seq<Node>, k: int) -> bool {
    !(tail_ch(original, changed, ns[k].piece) == '\r' && head_ch(original, changed, ns[k + 1].piece)
        == '\n')
}

/// No CRLF pair is split across any piece boundary of the run.
spec fn crlf_unsplit(original: Buffer, changed: Seq<Buffer>, ns: Seq<Node>) -> bool {
    forall|k: int| 0 <= k && k + 1 < ns.len() ==> no_split_at(original, changed, ns, k)
}

impl TextBuffer {
    /// The original buffer and every changed buffer are well formed.
    spec fn buffers_ok(&self) -> bool {
        &&& buffer_wf(self.original)
        &&& forall|k: int| 0 <= k < self.changed@.len() ==> buffer_wf(#[trigger] self.changed@[k])
    }

    /// All pieces of the document are valid.
    spec fn pieces_ok(&self) -> bool {
        forall|k: int|
            0 <= k < self.nodes@.len() ==> piece_valid(
                self.original,
                self.changed@,
                (#[trigger] self.nodes@[k]).piece,
            )
    }

    /// Every node caches the exact totals of the run strictly before it.
    spec fn aggregates_ok(&self) -> bool {
        forall|k: int|
            0 <= k < self.nodes@.len() ==> {
                &&& (#[trigger] self.nodes@[k]).left_size as int == sum_len(
                    self.nodes@.subrange(0, k),
                )
                &&& self.nodes@[k].left_line_feed_count as int == sum_lfc(
                    self.nodes@.subrange(0, k),
                )
            }
    }

    /// The cached document totals match the piece run.
    spec fn cache_ok(&self) -> bool {
        &&& self.total_len as int == sum_len(self.nodes@)
        &&& self.total_lines as int == sum_lfc(self.nodes@) + 1
    }

    /// The document invariant: well-formed buffers, valid pieces, exact
    /// aggregates, no split CRLF pair, and exact cached totals.
    pub closed spec fn wf(&self) -> bool {
        &&& self.buffers_ok()
        &&& self.pieces_ok()
        &&& self.aggregates_ok()
        &&& crlf_unsplit(self.original, self.changed@, self.nodes@)
        &&& self.cache_ok()
    }
}

impl View for TextBuffer {
    type V = Seq<char>;

    /// The document text: the concatenation of what the pieces denote.
    closed spec fn view(&self) -> Seq<char> {
        cat(self.original, self.changed@, self.nodes@)
    }
}

// ---------------------------------------------------------------------------
// Lemmas about piece runs.
// ---------------------------------------------------------------------------

/// Concatenated contents of a run split as two runs.
proof fn lemma_cat_app(original: Buffer, changed: Seq<Buffer>, x: Seq<Node>, y: Seq<Node>)
    ensures
        cat(original, changed, x + y) == cat(original, changed, x) + cat(original, changed, y),
    decreases x.len(),
{
    if x.len() == 0 {
        assert(x + y =~= y);
        assert(cat(original, changed, x) + cat(original, changed, y) =~= cat(
            original,
            changed,
            y,
        ));
    } else {
        lemma_cat_app(original, changed, x.drop_first(), y);
        assert((x + y).drop_first() =~= x.drop_first() + y);
        assert((x + y)[0] == x[0]);
        assert(piece_chars(original, changed, x[0].piece) + (cat(original, changed, x.drop_first())
            + cat(original, changed, y)) =~= (piece_chars(original, changed, x[0].piece) + cat(
            original,
            changed,
            x.drop_first(),
        )) + cat(original, changed, y));
    }
}

/// A single-piece run denotes exactly its piece's characters, and its sums
/// are that piece's caches.
proof fn lemma_cat_singleton(original: Buffer, changed: Seq<Buffer>, n: Node)
    ensures
        cat(original, changed, seq![n]) == piece_chars(original, changed, n.piece),
        sum_len(seq![n]) == n.piece.len as int,
        sum_lfc(seq![n]) == n.piece.line_feed_count as int,
{
    let one = seq![n];
    assert(one.drop_first() =~= Seq::<Node>::empty());
    assert(one.drop_last() =~= Seq::<Node>::empty());
    assert(cat(original, changed, Seq::<Node>::empty()) =~= Seq::<char>::empty());
    assert(sum_len(Seq::<Node>::empty()) == 0);
    assert(sum_lfc(Seq::<Node>::empty()) == 0);
    assert(piece_chars(original, changed, n.piece) + Seq::<char>::empty() =~= piece_chars(
        original,
        changed,
        n.piece,
    ));
}

/// Sums of cached lengths and terminator counts split over two runs.
proof fn lemma_sum_app(x: Seq<Node>, y: Seq<Node>)
    ensures
        sum_len(x + y) == sum_len(x) + sum_len(y),
        sum_lfc(x + y) == sum_lfc(x) + sum_lfc(y),
    decreases y.len(),
{
    if y.len() == 0 {
        assert(x + y =~= x);
    } else {
        lemma_sum_app(x, y.drop_last());
        assert((x + y).drop_last() =~= x + y.drop_last());
        assert((x + y).last() == y.last());
    }
}

/// For a run of valid pieces the concatenated length is the sum of the
/// cached piece lengths, which is non-negative and at least the run length.
proof fn lemma_cat_len(original: Buffer, changed: Seq<Buffer>, ns: Seq<Node>)
    requires
        forall|k: int|
            0 <= k < ns.len() ==> piece_valid(original, changed, (#[trigger] ns[k]).piece),
    ensures
        cat(original, changed, ns).len() == sum_len(ns),
        sum_len(ns) >= ns.len(),
    decreases ns.len(),
{
    if ns.len() == 0 {
    } else {
        assert(forall|k: int|
            0 <= k < ns.drop_last().len() ==> piece_valid(
                original,
                changed,
                (#[trigger] ns.drop_last()[k]).piece,
            ));
        lemma_cat_len(original, changed, ns.drop_last());
        lemma_cat_app(original, changed, ns.drop_last(), seq![ns.last()]);
        assert(ns =~= ns.drop_last() + seq![ns.last()]);
        lemma_cat_singleton(original, changed, ns.last());
        assert(piece_valid(original, changed, ns.last().piece));
    }
}

/// The first character of a non-empty run's content is the first character
/// of its first piece.
proof fn lemma_cat_head(original: Buffer, changed: Seq<Buffer>, ns: Seq<Node>)
    requires
        ns.len() > 0,
        forall|k: int|
            0 <= k < ns.len() ==> piece_valid(original, changed, (#[trigger] ns[k]).piece),
    ensures
        cat(original, changed, ns).len() > 0,
        cat(original, changed, ns)[0] == head_ch(original, changed, ns[0].piece),
{
    lemma_cat_len(original, changed, ns);
    assert(piece_valid(original, changed, ns[0].piece));
    assert(piece_chars(original, changed, ns[0].piece).len() > 0);
}

/// For a run of valid pieces with no CRLF pair split across a boundary, the
/// terminator count of the concatenation is the sum of the cached counts.
proof fn lemma_cat_lfc(original: Buffer, changed: Seq<Buffer>, ns: Seq<Node>)
    requires
        forall|k: int|
            0 <= k < ns.len() ==> piece_valid(original, changed, (#[trigger] ns[k]).piece),
        crlf_unsplit(original, changed, ns),
    ensures
        line_break_count(cat(original, changed, ns)) == sum_lfc(ns),
        sum_lfc(ns) >= 0,
    decreases ns.len(),
{
    if ns.len() == 0 {
    } else {
        let rest = ns.drop_first();
        assert(forall|k: int|
            0 <= k < rest.len() ==> piece_valid(original, changed, (#[trigger] rest[k]).piece));
        assert forall|k: int| 0 <= k && k + 1 < rest.len() implies no_split_at(
            original,
            changed,
            rest,
            k,
        ) by {
            assert(rest[k] == ns[k + 1]);
            assert(rest[k + 1] == ns[k + 2]);
            assert(no_split_at(original, changed, ns, k + 1));
        }
        lemma_cat_lfc(original, changed, rest);
        let pc = piece_chars(original, changed, ns[0].piece);
        let rc = cat(original, changed, rest);
        assert(piece_valid(original, changed, ns[0].piece));
        if rest.len() > 0 {
            lemma_cat_head(original, changed, rest);
            assert(rc[0] == head_ch(original, changed, ns[1].piece));
            assert(no_split_at(original, changed, ns, 0));
            assert(pc.len() > 0 && rc.len() > 0 ==> !(pc[pc.len() - 1] == '\r' && rc[0] == '\n'));
        } else {
            assert(rc =~= Seq::<char>::empty());
        }
        lemma_line_break_count_concat(pc, rc);
        assert(cat(original, changed, ns) == pc + rc);
        lemma_sum_app(seq![ns[0]], rest);
        assert(ns =~= seq![ns[0]] + rest);
        lemma_cat_singleton(original, changed, ns[0]);
        assert(line_break_count(pc) == ns[0].piece.line_feed_count as int);
    }
}

/// Extending the changed-buffer list moves no existing piece: validity and
/// denoted contents are unchanged.
proof fn lemma_cat_grow(
    original: Buffer,
    changed: Seq<Buffer>,
    extended: Seq<Buffer>,
    ns: Seq<Node>,
)
    requires
        changed.len() <= extended.len(),
        forall|j: int| 0 <= j < changed.len() ==> #[trigger] extended[j] == changed[j],
        forall|k: int|
            0 <= k < ns.len() ==> piece_valid(original, changed, (#[trigger] ns[k]).piece),
    ensures
        forall|k: int|
            0 <= k < ns.len() ==> piece_valid(original, extended, (#[trigger] ns[k]).piece),
        forall|k: int|
            0 <= k < ns.len() ==> piece_chars(original, extended, (#[trigger] ns[k]).piece)
                == piece_chars(original, changed, ns[k].piece),
        cat(original, extended, ns) == cat(original, changed, ns),
    decreases ns.len(),
{
    assert forall|k: int| 0 <= k < ns.len() implies piece_valid(
        original,
        extended,
        (#[trigger] ns[k]).piece,
    ) && piece_chars(original, extended, ns[k].piece) == piece_chars(
        original,
        changed,
        ns[k].piece,
    ) by {
        assert(piece_valid(original, changed, ns[k].piece));
        assert(piece_buffer(original, extended, ns[k].piece) == piece_buffer(
            original,
            changed,
            ns[k].piece,
        ));
    }
    if ns.len() == 0 {
    } else {
        lemma_cat_grow(original, changed, extended, ns.drop_first());
    }
}

// ---------------------------------------------------------------------------
// Buffers.
// ---------------------------------------------------------------------------

/// Facts about a well-formed buffer's line starts: the first is zero, they
/// are strictly increasing, and all lie within the content.
proof fn lemma_buffer_line_starts(b: Buffer)
    requires
        buffer_wf(b),
    ensures
        b.line_starts@.len() >= 1,
        b.line_starts@.len() == line_break_count(b.value@) + 1,
        b.line_starts@[0] == 0,
        forall|j: int|
            0 <= j < b.line_starts@.len() ==> #[trigger] b.line_starts@[j] as int
                <= b.value@.len(),
        forall|j: int|
            0 <= j && j + 1 < b.line_starts@.len() ==> #[trigger] b.line_starts@[j]
                < b.line_starts@[j + 1],
{
    let s = b.value@;
    let ls = b.line_starts@;
    lemma_break_ends_props(s, 0);
    assert(as_ints(ls).len() == line_starts_spec(s).len());
    assert forall|j: int| 0 <= j < ls.len() implies #[trigger] ls[j] as int <= s.len() && (j + 1
        < ls.len() ==> ls[j] < ls[j + 1]) by {
        assert(as_ints(ls)[j] == ls[j] as int);
        assert(line_starts_spec(s)[j] == ls[j] as int);
        if j == 0 {
            assert(ls[0] as int == line_starts_spec(s)[0]);
            if 1 < ls.len() {
                assert(line_starts_spec(s)[1] == break_ends_from(s, 0)[0]);
                assert(as_ints(ls)[1] == ls[1] as int);
            }
        } else {
            assert(line_starts_spec(s)[j] == break_ends_from(s, 0)[j - 1]);
            if j + 1 < ls.len() {
                assert(line_starts_spec(s)[j + 1] == break_ends_from(s, 0)[j]);
                assert(as_ints(ls)[j + 1] == ls[j + 1] as int);
            }
        }
    }
    assert(ls[0] as int == line_starts_spec(s)[0]);
}

impl Buffer {
    /// Builds a buffer owning `value`, computing its line index.
    fn from_chars(value: Vec<char>) -> (r: Buffer)
        ensures
            buffer_wf(r),
            r.value@ == value@,
            r.line_starts@.len() == line_break_count(value@) + 1,
    {
        let line_starts = compute_line_starts(&value);
        Buffer { value, line_starts }
    }

    /// Resolves a cursor to the absolute character offset it denotes.
    fn offset_of(&self, cursor: BufferCursor) -> (r: usize)
        requires
            buffer_wf(*self),
            (cursor.line as int) < self.line_starts@.len(),
            cursor_off(*self, cursor) <= self.value@.len(),
        ensures
            r as int == cursor_off(*self, cursor),
    {
        proof {
            lemma_buffer_line_starts(*self);
        }
        let n = self.value.len();
        assert(self.line_starts@[cursor.line as int] as int + cursor.column as int <= n as int);
        self.line_starts[cursor.line] + cursor.column
    }

    /// The canonical cursor for an absolute offset: the line containing it,
    /// found by binary search in the line starts, plus the column within it.
    fn cursor_at(&self, off: usize) -> (r: BufferCursor)
        requires
            buffer_wf(*self),
            off as int <= self.value@.len(),
        ensures
            (r.line as int) < self.line_starts@.len(),
            cursor_off(*self, r) == off as int,
            self.line_starts@[r.line as int] <= off,
            (r.line as int) + 1 < self.line_starts@.len() ==> (off as int) < self.line_starts@[
                r.line as int + 1] as int,
    {
        proof {
            lemma_buffer_line_starts(*self);
        }
        let ghost ls = self.line_starts@;
        let mut lo: usize = 0;
        let mut hi: usize = self.line_starts.len();
        while lo + 1 < hi
            invariant
                0 <= lo < hi <= ls.len(),
                ls == self.line_starts@,
                ls[lo as int] <= off,
                (hi as int) < ls.len() ==> (off as int) < ls[hi as int] as int,
            decreases hi - lo,
        {
            let mid = lo + (hi - lo) / 2;
            if self.line_starts[mid] <= off {
                lo = mid;
            } else {
                hi = mid;
            }
        }
        BufferCursor { line: lo, column: off - self.line_starts[lo] }
    }
}

/// Piece sums are non-negative.
proof fn lemma_sum_nonneg(ns: Seq<Node>)
    ensures
        sum_len(ns) >= 0,
        sum_lfc(ns) >= 0,
    decreases ns.len(),
{
    if ns.len() > 0 {
        lemma_sum_nonneg(ns.drop_last());
    }
}

/// Extending a prefix run by one node adds that node's caches to the sums.
proof fn lemma_sum_prefix_step(ns: Seq<Node>, k: int)
    requires
        0 <= k < ns.len(),
    ensures
        sum_len(ns.subrange(0, k + 1)) == sum_len(ns.subrange(0, k)) + ns[k].piece.len,
        sum_lfc(ns.subrange(0, k + 1)) == sum_lfc(ns.subrange(0, k))
            + ns[k].piece.line_feed_count,
{
    assert(ns.subrange(0, k + 1).drop_last() =~= ns.subrange(0, k));
    assert(ns.subrange(0, k + 1).last() == ns[k]);
}

/// Two runs with pointwise equal pieces denote the same content and sums.
proof fn lemma_run_pieces_eq(original: Buffer, changed: Seq<Buffer>, x: Seq<Node>, y: Seq<Node>)
    requires
        x.len() == y.len(),
        forall|k: int| 0 <= k < x.len() ==> (#[trigger] x[k]).piece == y[k].piece,
    ensures
        cat(original, changed, x) == cat(original, changed, y),
        sum_len(x) == sum_len(y),
        sum_lfc(x) == sum_lfc(y),
    decreases x.len(),
{
    if x.len() > 0 {
        assert(forall|k: int|
            0 <= k < x.drop_first().len() ==> (#[trigger] x.drop_first()[k]).piece
                == y.drop_first()[k].piece);
        assert(forall|k: int|
            0 <= k < x.drop_last().len() ==> (#[trigger] x.drop_last()[k]).piece
                == y.drop_last()[k].piece);
        lemma_run_pieces_eq(original, changed, x.drop_first(), y.drop_first());
        lemma_run_pieces_eq(original, changed, x.drop_last(), y.drop_last());
        assert(x[0].piece == y[0].piece);
        assert(x.last() == x[x.len() - 1] && y.last() == y[y.len() - 1]);
    }
}

impl TextBuffer {
    /// The buffer a piece references.
    fn get_buffer(&self, buffer_index: Option<usize>) -> (r: &Buffer)
        requires
            match buffer_index {
                None => true,
                Some(i) => i < self.changed@.len(),
            },
        ensures
            match buffer_index {
                None => *r == self.original,
                Some(i) => *r == self.changed@[i as int],
            },
    {
        match buffer_index {
            None => &self.original,
            Some(i) => &self.changed[i],
        }
    }

    /// Locates the node whose piece covers `offset`: a checked recent
    /// lookup when one applies, else a descent of the size order.
    fn locate_by_offset(&self, offset: usize) -> (r: (usize, usize))
        requires
            self.pieces_ok(),
            self.aggregates_ok(),
            (offset as int) < sum_len(self.nodes@),
        ensures
            (r.0 as int) < self.nodes@.len(),
            r.1 == self.nodes@[r.0 as int].left_size,
            r.1 as int == sum_len(self.nodes@.subrange(0, r.0 as int)),
            r.1 <= offset,
            (offset as int) < r.1 as int + self.nodes@[r.0 as int].piece.len,
    {
        match self.locate_cached(offset) {
            Some(hit) => hit,
            None => self.locate_by_offset_search(offset),
        }
    }

    #[verifier::spinoff_prover]
    #[verifier::rlimit(100)]
    fn locate_by_offset_search(&self, offset: usize) -> (r: (usize, usize))
        requires
            self.pieces_ok(),
            self.aggregates_ok(),
            (offset as int) < sum_len(self.nodes@),
        ensures
            (r.0 as int) < self.nodes@.len(),
            r.1 == self.nodes@[r.0 as int].left_size,
            r.1 as int == sum_len(self.nodes@.subrange(0, r.0 as int)),
            r.1 <= offset,
            (offset as int) < r.1 as int + self.nodes@[r.0 as int].piece.len,
    {
        let ghost ns = self.nodes@;
        let n = self.nodes.len();
        proof {
            if n == 0 {
                assert(ns.subrange(0, 0) =~= ns);
                lemma_sum_nonneg(ns);
            }
            assert(ns.subrange(0, 0) =~= Seq::<Node>::empty());
        }
        let mut lo: usize = 0;
        let mut hi: usize = n;
        while lo + 1 < hi
            invariant
                0 <= lo < hi <= n,
                n == ns.len(),
                ns == self.nodes@,
                self.pieces_ok(),
                self.aggregates_ok(),
                (offset as int) < sum_len(ns),
                self.nodes@[lo as int].left_size <= offset,
                (hi as int) < n ==> (offset as int) < self.nodes@[hi as int].left_size,
            decreases hi - lo,
        {
            let mid = lo + (hi - lo) / 2;
            if self.nodes[mid].left_size <= offset {
                lo = mid;
            } else {
                hi = mid;
            }
        }
        proof {
            lemma_sum_prefix_step(ns, lo as int);
            if lo + 1 < n {
                assert(self.nodes@[lo as int + 1].left_size as int == sum_len(
                    ns.subrange(0, lo as int + 1),
                ));
            } else {
                assert(ns.subrange(0, n as int) =~= ns);
            }
        }
        (lo, self.nodes[lo].left_size)
    }

    /// A recent lookup may already name the node covering `offset`; trust
    /// it only after checking it against the maintained aggregates.
    #[verifier::spinoff_prover]
    fn locate_cached(&self, offset: usize) -> (r: Option<(usize, usize)>)
        requires
            self.pieces_ok(),
            self.aggregates_ok(),
        ensures
            r is Some ==> ({
                let (k, st) = r->Some_0;
                &&& (k as int) < self.nodes@.len()
                &&& st == self.nodes@[k as int].left_size
                &&& st as int == sum_len(self.nodes@.subrange(0, k as int))
                &&& st <= offset
                &&& (offset as int) < st as int + self.nodes@[k as int].piece.len
            }),
    {
        match self.cache.get_position(offset) {
            Some(p) => {
                if p.node_index < self.nodes.len() {
                    let nd = self.nodes[p.node_index];
                    if nd.left_size == p.node_start_offset && nd.left_size <= offset && offset
                        - nd.left_size < nd.piece.len {
                        return Some((p.node_index, nd.left_size));
                    }
                }
                None
            },
            None => None,
        }
    }

    /// The sub-piece of a node's piece covering its characters `[from, to)`.
    fn sub_piece(&self, node: Node, from: usize, to: usize) -> (p: Piece)
        requires
            piece_valid(self.original, self.changed@, node.piece),
            from < to,
            (to as int) <= node.piece.len,
        ensures
            piece_valid(self.original, self.changed@, p),
            piece_chars(self.original, self.changed@, p) == piece_chars(
                self.original,
                self.changed@,
                node.piece,
            ).subrange(from as int, to as int),
            p.buffer_index == node.piece.buffer_index,
            p.len == to - from,
    {
        let b = self.get_buffer(node.piece.buffer_index);
        let so = b.offset_of(node.piece.start);
        let vlen = b.value.len();
        assert(so + to <= vlen);
        let start = b.cursor_at(so + from);
        let end = b.cursor_at(so + to);
        let lfc = count_line_breaks(&b.value, so + from, so + to);
        proof {
            let ghost pc = piece_chars(self.original, self.changed@, node.piece);
            assert(b.value@.subrange(so + from, so + to) =~= pc.subrange(from as int, to as int));
        }
        Piece {
            buffer_index: node.piece.buffer_index,
            start,
            end,
            len: to - from,
            line_feed_count: lfc,
        }
    }

    /// Appends a fresh changed buffer holding `text` and returns a node
    /// whose piece covers exactly that buffer. Existing pieces still denote
    /// what they did: the buffer list only grew.
    fn push_text_node(&mut self, text: Vec<char>) -> (node: Node)
        requires
            text@.len() > 0,
        ensures
            final(self).original == old(self).original,
            final(self).nodes == old(self).nodes,
            final(self).info == old(self).info,
            final(self).total_len == old(self).total_len,
            final(self).total_lines == old(self).total_lines,
            final(self).changed@.len() == old(self).changed@.len() + 1,
            forall|j: int|
                0 <= j < old(self).changed@.len() ==> #[trigger] final(self).changed@[j] == old(self).changed@[j],
            node.piece.buffer_index == Some(old(self).changed@.len() as usize),
            old(self).buffers_ok() ==> final(self).buffers_ok(),
            piece_valid(final(self).original, final(self).changed@, node.piece),
            piece_chars(final(self).original, final(self).changed@, node.piece) == text@,
            node.piece.len == text@.len(),
            node.piece.line_feed_count as int == line_break_count(text@),
    {
        let ghost t = text@;
        let n = text.len();
        let b = Buffer::from_chars(text);
        proof {
            lemma_buffer_line_starts(b);
        }
        let idx = self.changed.len();
        let lslen = b.line_starts.len();
        let last_start = b.line_starts[lslen - 1];
        let piece = Piece {
            buffer_index: Some(idx),
            start: BufferCursor { line: 0, column: 0 },
            end: BufferCursor { line: lslen - 1, column: n - last_start },
            len: n,
            line_feed_count: lslen - 1,
        };
        self.changed.push(b);
        proof {
            let ch = self.changed@;
            assert(ch[idx as int] == b);
            assert(cursor_off(b, piece.start) == 0);
            assert(cursor_off(b, piece.end) == n as int);
            assert(piece_chars(self.original, ch, piece) =~= b.value@);
            assert(piece_valid(self.original, ch, piece));
        }
        Node { piece, left_size: 0, left_line_feed_count: 0 }
    }

    /// The given piece without its first character, which must be a line
    /// feed; `None` when nothing remains.
    fn shrink_piece_front(&self, p: Piece) -> (r: Option<Piece>)
        requires
            piece_valid(self.original, self.changed@, p),
            head_ch(self.original, self.changed@, p) == '\n',
        ensures
            (r is Some) <==> p.len > 1,
            r is Some ==> {
                let q = r->Some_0;
                &&& piece_valid(self.original, self.changed@, q)
                &&& piece_chars(self.original, self.changed@, q) == piece_chars(
                    self.original,
                    self.changed@,
                    p,
                ).subrange(1, p.len as int)
                &&& q.len + 1 == p.len
            },
    {
        if p.len == 1 {
            return None;
        }
        let node = Node { piece: p, left_size: 0, left_line_feed_count: 0 };
        let q = self.sub_piece(node, 1, p.len);
        Some(q)
    }

    /// The given piece without its last character, which must be a carriage
    /// return; `None` when nothing remains.
    fn shrink_piece_back(&self, p: Piece) -> (r: Option<Piece>)
        requires
            piece_valid(self.original, self.changed@, p),
            tail_ch(self.original, self.changed@, p) == '\r',
        ensures
            (r is Some) <==> p.len > 1,
            r is Some ==> {
                let q = r->Some_0;
                &&& piece_valid(self.original, self.changed@, q)
                &&& piece_chars(self.original, self.changed@, q) == piece_chars(
                    self.original,
                    self.changed@,
                    p,
                ).subrange(0, p.len - 1)
                &&& q.len + 1 == p.len
            },
    {
        if p.len == 1 {
            return None;
        }
        let node = Node { piece: p, left_size: 0, left_line_feed_count: 0 };
        let q = self.sub_piece(node, 0, p.len - 1);
        Some(q)
    }

    /// Recomputes every node's left-subtree aggregates and the cached
    /// document totals from the piece caches, in one in-order pass.
    #[verifier::spinoff_prover]
    #[verifier::rlimit(100)]
    fn recompute_metadata(&mut self)
        requires
            old(self).buffers_ok(),
            old(self).pieces_ok(),
            sum_len(old(self).nodes@) <= usize::MAX,
            sum_lfc(old(self).nodes@) + 1 <= usize::MAX,
        ensures
            final(self).original == old(self).original,
            final(self).changed == old(self).changed,
            final(self).info == old(self).info,
            final(self).nodes@.len() == old(self).nodes@.len(),
            forall|k: int|
                0 <= k < old(self).nodes@.len() ==> (#[trigger] final(self).nodes@[k]).piece == old(self).nodes@[k].piece,
            final(self).pieces_ok(),
            final(self).aggregates_ok(),
            final(self).cache_ok(),
            final(self)@ == cat(old(self).original, old(self).changed@, old(self).nodes@),
            crlf_unsplit(old(self).original, old(self).changed@, old(self).nodes@) ==> final(self).wf(),
    {
        let ghost ns0 = old(self).nodes@;
        let n = self.nodes.len();
        let mut acc_len: usize = 0;
        let mut acc_lfc: usize = 0;
        let mut k: usize = 0;
        proof {
            assert(ns0.subrange(0, 0) =~= Seq::<Node>::empty());
        }
        while k < n
            invariant
                k <= n,
                n == self.nodes@.len(),
                self.nodes@.len() == ns0.len(),
                self.original == old(self).original,
                self.changed == old(self).changed,
                self.info == old(self).info,
                self.total_len == old(self).total_len,
                self.total_lines == old(self).total_lines,
                forall|j: int| 0 <= j < ns0.len() ==> (#[trigger] self.nodes@[j]).piece == ns0[j].piece,
                forall|j: int|
                    0 <= j < k ==> (#[trigger] self.nodes@[j]).left_size as int == sum_len(
                        self.nodes@.subrange(0, j),
                    ) && self.nodes@[j].left_line_feed_count as int == sum_lfc(
                        self.nodes@.subrange(0, j),
                    ),
                acc_len as int == sum_len(self.nodes@.subrange(0, k as int)),
                acc_lfc as int == sum_lfc(self.nodes@.subrange(0, k as int)),
                sum_len(self.nodes@) == sum_len(ns0),
                sum_lfc(self.nodes@) == sum_lfc(ns0),
                sum_len(ns0) <= usize::MAX,
                sum_lfc(ns0) + 1 <= usize::MAX,
            decreases n - k,
        {
            let ghost ns_before = self.nodes@;
            let mut node = self.nodes[k];
            node.left_size = acc_len;
            node.left_line_feed_count = acc_lfc;
            self.nodes.set(k, node);
            proof {
                assert(forall|j: int|
                    0 <= j < ns0.len() ==> (#[trigger] self.nodes@[j]).piece == ns_before[j].piece);
                lemma_run_pieces_eq(self.original, self.changed@, self.nodes@, ns_before);
                assert forall|j: int| 0 <= j <= k implies sum_len(
                    #[trigger] self.nodes@.subrange(0, j),
                ) == sum_len(ns_before.subrange(0, j)) && sum_lfc(self.nodes@.subrange(0, j))
                    == sum_lfc(ns_before.subrange(0, j)) by {
                    assert(forall|i: int|
                        0 <= i < j ==> (#[trigger] self.nodes@.subrange(0, j)[i]).piece
                            == ns_before.subrange(0, j)[i].piece);
                    lemma_run_pieces_eq(
                        self.original,
                        self.changed@,
                        self.nodes@.subrange(0, j),
                        ns_before.subrange(0, j),
                    );
                }
                lemma_sum_prefix_step(self.nodes@, k as int);
                lemma_sum_app(
                    self.nodes@.subrange(0, k + 1),
                    self.nodes@.subrange(k + 1, n as int),
                );
                assert(self.nodes@.subrange(0, k + 1) + self.nodes@.subrange(k + 1, n as int)
                    =~= self.nodes@);
                lemma_sum_nonneg(self.nodes@.subrange(k + 1, n as int));
            }
            acc_len = acc_len + node.piece.len;
            acc_lfc = acc_lfc + node.piece.line_feed_count;
            k = k + 1;
        }
        proof {
            assert(self.nodes@.subrange(0, n as int) =~= self.nodes@);
        }
        self.total_len = acc_len;
        self.total_lines = acc_lfc + 1;
        proof {
            lemma_run_pieces_eq(self.original, self.changed@, self.nodes@, ns0);
            if crlf_unsplit(old(self).original, old(self).changed@, ns0) {
                assert forall|j: int| 0 <= j && j + 1 < self.nodes@.len() implies no_split_at(
                    self.original,
                    self.changed@,
                    self.nodes@,
                    j,
                ) by {
                    assert(no_split_at(old(self).original, old(self).changed@, ns0, j));
                    assert(self.nodes@[j].piece == ns0[j].piece);
                    assert(self.nodes@[j + 1].piece == ns0[j + 1].piece);
                }
            }
        }
    }

    /// Replaces the node range `[lo, hi)` with the given run.
    fn splice_nodes(&mut self, lo: usize, hi: usize, mid: Vec<Node>)
        requires
            lo <= hi <= old(self).nodes@.len(),
        ensures
            final(self).original == old(self).original,
            final(self).changed == old(self).changed,
            final(self).info == old(self).info,
            final(self).total_len == old(self).total_len,
            final(self).total_lines == old(self).total_lines,
            final(self).nodes@ == old(self).nodes@.subrange(0, lo as int) + mid@ + old(self).nodes@.subrange(hi as int, old(self).nodes@.len() as int),
    {
        let ghost ns0 = self.nodes@;
        let n = self.nodes.len();
        let mut out: Vec<Node> = Vec::new();
        let mut j: usize = 0;
        proof {
            assert(out@ =~= ns0.subrange(0, 0));
        }
        while j < lo
            invariant
                j <= lo <= n,
                n == ns0.len(),
                ns0 == self.nodes@,
                out@ == ns0.subrange(0, j as int),
            decreases lo - j,
        {
            proof {
                assert(ns0.subrange(0, j as int).push(ns0[j as int]) =~= ns0.subrange(0, j + 1));
            }
            let node = self.nodes[j];
            out.push(node);
            j = j + 1;
        }
        let mut m: usize = 0;
        while m < mid.len()
            invariant
                m <= mid@.len(),
                ns0 == self.nodes@,
                lo <= n == ns0.len(),
                out@ == ns0.subrange(0, lo as int) + mid@.subrange(0, m as int),
            decreases mid@.len() - m,
        {
            proof {
                assert((ns0.subrange(0, lo as int) + mid@.subrange(0, m as int)).push(
                    mid@[m as int],
                ) =~= ns0.subrange(0, lo as int) + mid@.subrange(0, m + 1));
            }
            let node = mid[m];
            out.push(node);
            m = m + 1;
        }
        proof {
            assert(mid@.subrange(0, mid@.len() as int) =~= mid@);
        }
        let mut h: usize = hi;
        while h < n
            invariant
                hi <= h <= n,
                n == ns0.len(),
                ns0 == self.nodes@,
                lo <= hi,
                out@ == ns0.subrange(0, lo as int) + mid@ + ns0.subrange(hi as int, h as int),
            decreases n - h,
        {
            proof {
                assert((ns0.subrange(0, lo as int) + mid@ + ns0.subrange(hi as int, h as int)).push(
                    ns0[h as int],
                ) =~= ns0.subrange(0, lo as int) + mid@ + ns0.subrange(hi as int, h + 1));
            }
            let node = self.nodes[h];
            out.push(node);
            h = h + 1;
        }
        self.nodes = out;
    }
}

/// A piece valid for a changed-buffer list stays valid, denoting the same
/// characters, when that list is extended.
proof fn lemma_piece_grow(original: Buffer, changed: Seq<Buffer>, extended: Seq<Buffer>, p: Piece)
    requires
        changed.len() <= extended.len(),
        forall|j: int| 0 <= j < changed.len() ==> #[trigger] extended[j] == changed[j],
        piece_valid(original, changed, p),
    ensures
        piece_valid(original, extended, p),
        piece_chars(original, extended, p) == piece_chars(original, changed, p),
{
    assert(piece_buffer(original, extended, p) == piece_buffer(original, changed, p));
}

impl TextBuffer {
    /// First character of the text a valid piece denotes.
    fn piece_first_char(&self, p: Piece) -> (c: char)
        requires
            piece_valid(self.original, self.changed@, p),
        ensures
            c == head_ch(self.original, self.changed@, p),
    {
        let b = self.get_buffer(p.buffer_index);
        let so = b.offset_of(p.start);
        b.value[so]
    }

    /// Last character of the text a valid piece denotes.
    fn piece_last_char(&self, p: Piece) -> (c: char)
        requires
            piece_valid(self.original, self.changed@, p),
        ensures
            c == tail_ch(self.original, self.changed@, p),
    {
        let b = self.get_buffer(p.buffer_index);
        let eo = b.offset_of(p.end);
        b.value[eo - 1]
    }

    /// Rebuilds a short run of pieces so that no CRLF pair is split across a
    /// piece boundary: wherever a piece ending in CR meets one starting with
    /// LF, both are shrunk away from the boundary and a fresh two-character
    /// CRLF piece takes their place, so the pair counts as one terminator.
    /// The run's concatenated content is unchanged.
    #[verifier::spinoff_prover]
    #[verifier::rlimit(100)]
    fn normalize(&mut self, input: Vec<Node>) -> (out: Vec<Node>)
        requires
            old(self).buffers_ok(),
            forall|k: int|
                0 <= k < input@.len() ==> piece_valid(
                    old(self).original,
                    old(self).changed@,
                    (#[trigger] input@[k]).piece,
                ),
        ensures
            final(self).original == old(self).original,
            final(self).nodes == old(self).nodes,
            final(self).info == old(self).info,
            final(self).total_len == old(self).total_len,
            final(self).total_lines == old(self).total_lines,
            old(self).changed@.len() <= final(self).changed@.len(),
            forall|j: int|
                0 <= j < old(self).changed@.len() ==> #[trigger] final(self).changed@[j] == old(
                    self,
                ).changed@[j],
            final(self).buffers_ok(),
            forall|k: int|
                0 <= k < out@.len() ==> piece_valid(
                    final(self).original,
                    final(self).changed@,
                    (#[trigger] out@[k]).piece,
                ),
            cat(final(self).original, final(self).changed@, out@) == cat(
                old(self).original,
                old(self).changed@,
                input@,
            ),
            crlf_unsplit(final(self).original, final(self).changed@, out@),
            out@.len() > 0 <==> input@.len() > 0,
            input@.len() > 0 ==> (head_ch(final(self).original, final(self).changed@, out@[0].piece)
                == head_ch(old(self).original, old(self).changed@, input@[0].piece) || head_ch(
                final(self).original,
                final(self).changed@,
                out@[0].piece,
            ) == '\r'),
            input@.len() > 0 ==> (tail_ch(
                final(self).original,
                final(self).changed@,
                out@.last().piece,
            ) == tail_ch(old(self).original, old(self).changed@, input@.last().piece) || tail_ch(
                final(self).original,
                final(self).changed@,
                out@.last().piece,
            ) == '\n'),
    {
        let ghost orig = self.original;
        let ghost inp = input@;
        let mut out: Vec<Node> = Vec::new();
        let mut j: usize = input.len();
        while j > 0
            invariant
                j <= inp.len(),
                inp == input@,
                orig == self.original,
                self.original == old(self).original,
                self.nodes == old(self).nodes,
                self.info == old(self).info,
                self.total_len == old(self).total_len,
                self.total_lines == old(self).total_lines,
                old(self).changed@.len() <= self.changed@.len(),
                forall|i: int|
                    0 <= i < old(self).changed@.len() ==> #[trigger] self.changed@[i] == old(
                        self,
                    ).changed@[i],
                self.buffers_ok(),
                forall|k: int|
                    0 <= k < inp.len() ==> piece_valid(
                        self.original,
                        self.changed@,
                        (#[trigger] inp[k]).piece,
                    ),
                forall|k: int|
                    0 <= k < out@.len() ==> piece_valid(
                        self.original,
                        self.changed@,
                        (#[trigger] out@[k]).piece,
                    ),
                cat(self.original, self.changed@, out@) == cat(
                    self.original,
                    self.changed@,
                    inp.subrange(j as int, inp.len() as int),
                ),
                crlf_unsplit(self.original, self.changed@, out@),
                out@.len() > 0 <==> j < inp.len(),
                j < inp.len() ==> (head_ch(self.original, self.changed@, out@[0].piece) == head_ch(
                    self.original,
                    self.changed@,
                    inp[j as int].piece,
                ) || head_ch(self.original, self.changed@, out@[0].piece) == '\r'),
                j < inp.len() ==> (tail_ch(self.original, self.changed@, out@.last().piece)
                    == tail_ch(self.original, self.changed@, inp.last().piece) || tail_ch(
                    self.original,
                    self.changed@,
                    out@.last().piece,
                ) == '\n'),
            decreases j,
        {
            j = j - 1;
            let x = input[j];
            let ghost out_before = out@;
            let ghost ch_before = self.changed@;
            let ghost pcx = piece_chars(self.original, self.changed@, x.piece);
            proof {
                assert(piece_valid(self.original, self.changed@, x.piece));
            }
            let mut fixed = false;
            if out.len() > 0 {
                let xt = self.piece_last_char(x.piece);
                let yh = self.piece_first_char(out[0].piece);
                if xt == '\r' && yh == '\n' {
                    fixed = true;
                    let y = out[0];
                    let ghost pcy = piece_chars(self.original, self.changed@, y.piece);
                    let xp = self.shrink_piece_back(x.piece);
                    let yp = self.shrink_piece_front(y.piece);
                    let mut two: Vec<char> = Vec::new();
                    two.push('\r');
                    two.push('\n');
                    proof {
                        assert(two@ =~= seq!['\r', '\n']);
                    }
                    let rn = self.push_text_node(two);
                    proof {
                        assert(self.original == orig);
                        assert(forall|k: int|
                            0 <= k < inp.len() ==> piece_valid(
                                orig,
                                ch_before,
                                (#[trigger] inp[k]).piece,
                            ));
                        assert(forall|k: int|
                            0 <= k < out_before.len() ==> piece_valid(
                                orig,
                                ch_before,
                                (#[trigger] out_before[k]).piece,
                            ));
                        assert(forall|k: int|
                            0 <= k < inp.subrange(j + 1, inp.len() as int).len() ==> piece_valid(
                                orig,
                                ch_before,
                                (#[trigger] inp.subrange(j + 1, inp.len() as int)[k]).piece,
                            ));
                        lemma_cat_grow(orig, ch_before, self.changed@, inp);
                        lemma_cat_grow(orig, ch_before, self.changed@, out_before);
                        lemma_cat_grow(
                            orig,
                            ch_before,
                            self.changed@,
                            inp.subrange(j + 1, inp.len() as int),
                        );
                        lemma_piece_grow(orig, ch_before, self.changed@, x.piece);
                        lemma_piece_grow(orig, ch_before, self.changed@, y.piece);
                        if xp is Some {
                            lemma_piece_grow(orig, ch_before, self.changed@, xp->Some_0);
                        }
                        if yp is Some {
                            lemma_piece_grow(orig, ch_before, self.changed@, yp->Some_0);
                        }
                    }
                    let ghost ch = self.changed@;
                    let ghost pcrn = piece_chars(orig, ch, rn.piece);
                    out.remove(0);
                    match yp {
                        Some(q) => {
                            out.insert(0, Node { piece: q, left_size: 0, left_line_feed_count: 0 });
                        },
                        None => {},
                    }
                    out.insert(0, rn);
                    match xp {
                        Some(q) => {
                            out.insert(0, Node { piece: q, left_size: 0, left_line_feed_count: 0 });
                        },
                        None => {},
                    }
                    proof {
                        let rest = out_before.drop_first();
                        let g = out@.subrange(0, out@.len() - rest.len());
                        assert(out@ =~= g + rest);
                        // The group denotes exactly the two pieces' contents.
                        assert(pcrn =~= seq!['\r', '\n']);
                        lemma_group_content(
                            orig,
                            ch,
                            g,
                            pcx,
                            pcy,
                            xp,
                            yp,
                            rn,
                            x.piece,
                            y.piece,
                        );
                        lemma_cat_app(orig, ch, g, rest);
                        assert(out_before =~= seq![y] + rest);
                        lemma_cat_app(orig, ch, seq![y], rest);
                        lemma_cat_singleton(orig, ch, y);
                        assert(cat(orig, ch, g) + cat(orig, ch, rest) =~= pcx + (pcy + cat(
                            orig,
                            ch,
                            rest,
                        )));
                        assert(inp.subrange(j as int, inp.len() as int) =~= seq![inp[j as int]]
                            + inp.subrange(j + 1, inp.len() as int));
                        lemma_cat_app(
                            orig,
                            ch,
                            seq![inp[j as int]],
                            inp.subrange(j + 1, inp.len() as int),
                        );
                        lemma_cat_singleton(orig, ch, inp[j as int]);
                        // Junctions: inside the group, at the group/rest
                        // seam, and inside the untouched rest.
                        assert forall|k: int| 0 <= k && k + 1 < out@.len() implies no_split_at(
                            orig,
                            ch,
                            out@,
                            k,
                        ) by {
                            if k + 1 < g.len() {
                                assert(no_split_at(orig, ch, g, k));
                                assert(out@[k] == g[k] && out@[k + 1] == g[k + 1]);
                            } else if k + 1 == g.len() {
                                assert(out@[k] == g.last());
                                assert(out@[k + 1] == rest[0]);
                                assert(rest[0] == out_before[1]);
                                assert(no_split_at(orig, ch_before, out_before, 0));
                                lemma_piece_grow(orig, ch_before, self.changed@, out_before[1].piece);
                                assert(tail_ch(orig, ch, g.last().piece) == pcy.last() || tail_ch(
                                    orig,
                                    ch,
                                    g.last().piece,
                                ) == '\n');
                            } else {
                                let k0 = k - g.len() + 1;
                                assert(out@[k] == out_before[k0]);
                                assert(out@[k + 1] == out_before[k0 + 1]);
                                assert(no_split_at(orig, ch_before, out_before, k0));
                                lemma_piece_grow(orig, ch_before, self.changed@, out_before[k0].piece);
                                lemma_piece_grow(
                                    orig,
                                    ch_before,
                                    self.changed@,
                                    out_before[k0 + 1].piece,
                                );
                            }
                        }
                        // Head and tail characters of the rebuilt run.
                        assert(out@[0] == g[0]);
                        if rest.len() > 0 {
                            assert(out@.last() == out_before.last());
                            lemma_piece_grow(orig, ch_before, self.changed@, out_before.last().piece);
                        } else {
                            assert(out@.last() == g.last());
                            assert(out_before.last() == y);
                        }
                    }
                }
            }
            if !fixed {
                out.insert(0, x);
                proof {
                    let ch = self.changed@;
                    assert(out@ =~= seq![x] + out_before);
                    lemma_cat_app(orig, ch, seq![x], out_before);
                    lemma_cat_singleton(orig, ch, x);
                    assert(inp.subrange(j as int, inp.len() as int) =~= seq![inp[j as int]]
                        + inp.subrange(j + 1, inp.len() as int));
                    lemma_cat_app(
                        orig,
                        ch,
                        seq![inp[j as int]],
                        inp.subrange(j + 1, inp.len() as int),
                    );
                    lemma_cat_singleton(orig, ch, inp[j as int]);
                    assert forall|k: int| 0 <= k && k + 1 < out@.len() implies no_split_at(
                        orig,
                        ch,
                        out@,
                        k,
                    ) by {
                        if k == 0 {
                            assert(out@[0] == x);
                            assert(out@[1] == out_before[0]);
                            assert(piece_chars(orig, ch, x.piece).len() > 0);
                        } else {
                            assert(out@[k] == out_before[k - 1]);
                            assert(out@[k + 1] == out_before[k]);
                            assert(no_split_at(orig, ch, out_before, k - 1));
                        }
                    }
                }
            }
        }
        proof {
            assert(inp.subrange(0, inp.len() as int) =~= inp);
            assert(forall|k: int|
                0 <= k < inp.len() ==> piece_valid(
                    orig,
                    old(self).changed@,
                    (#[trigger] inp[k]).piece,
                ));
            lemma_cat_grow(orig, old(self).changed@, self.changed@, inp);
        }
        out
    }
}

/// The replacement group built for one split CRLF boundary denotes exactly
/// the two boundary pieces' contents, splits no CRLF pair internally, keeps
/// the first piece's first character (or starts with CR) and keeps the last
/// piece's last character (or ends with LF).
#[verifier::spinoff_prover]
#[verifier::rlimit(100)]
proof fn lemma_group_content(
    original: Buffer,
    changed: Seq<Buffer>,
    g: Seq<Node>,
    pcx: Seq<char>,
    pcy: Seq<char>,
    xp: Option<Piece>,
    yp: Option<Piece>,
    rn: Node,
    px: Piece,
    py: Piece,
)
    requires
        piece_valid(original, changed, px),
        piece_valid(original, changed, py),
        pcx == piece_chars(original, changed, px),
        pcy == piece_chars(original, changed, py),
        pcx.last() == '\r',
        pcy[0] == '\n',
        (xp is Some) <==> px.len > 1,
        xp is Some ==> piece_valid(original, changed, xp->Some_0) && piece_chars(
            original,
            changed,
            xp->Some_0,
        ) == pcx.subrange(0, px.len - 1),
        (yp is Some) <==> py.len > 1,
        yp is Some ==> piece_valid(original, changed, yp->Some_0) && piece_chars(
            original,
            changed,
            yp->Some_0,
        ) == pcy.subrange(1, py.len as int),
        piece_valid(original, changed, rn.piece),
        piece_chars(original, changed, rn.piece) == seq!['\r', '\n'],
        g.len() == 1 + (if xp is Some {
            1int
        } else {
            0int
        }) + (if yp is Some {
            1int
        } else {
            0int
        }),
        xp is Some ==> g[0].piece == xp->Some_0,
        g[if xp is Some {
            1int
        } else {
            0int
        }] == rn,
        yp is Some ==> g.last().piece == yp->Some_0,
    ensures
        cat(original, changed, g) == pcx + pcy,
        forall|k: int| 0 <= k < g.len() ==> piece_valid(original, changed, (#[trigger] g[k]).piece),
        crlf_unsplit(original, changed, g),
        head_ch(original, changed, g[0].piece) == pcx[0] || head_ch(original, changed, g[0].piece)
            == '\r',
        tail_ch(original, changed, g.last().piece) == pcy.last() || tail_ch(
            original,
            changed,
            g.last().piece,
        ) == '\n',
{
    let rnc = seq!['\r', '\n'];
    assert(pcx.len() == px.len && pcy.len() == py.len);
    if xp is Some {
        assert(pcx =~= pcx.subrange(0, px.len - 1) + seq!['\r']);
    } else {
        assert(pcx =~= seq!['\r']);
    }
    if yp is Some {
        assert(pcy =~= seq!['\n'] + pcy.subrange(1, py.len as int));
    } else {
        assert(pcy =~= seq!['\n']);
    }
    match (xp, yp) {
        (Some(qx), Some(qy)) => {
            let nx = g[0];
            let ny = g[2];
            assert(g =~= seq![nx] + (seq![rn] + seq![ny]));
            lemma_cat_app(original, changed, seq![nx], seq![rn] + seq![ny]);
            lemma_cat_app(original, changed, seq![rn], seq![ny]);
            lemma_cat_singleton(original, changed, nx);
            lemma_cat_singleton(original, changed, rn);
            lemma_cat_singleton(original, changed, ny);
            assert(cat(original, changed, g) =~= pcx.subrange(0, px.len - 1) + rnc + pcy.subrange(
                1,
                py.len as int,
            ));
            assert(cat(original, changed, g) =~= pcx + pcy);
            assert(head_ch(original, changed, nx.piece) == pcx[0]);
            assert(tail_ch(original, changed, ny.piece) == pcy.last());
            assert forall|k: int| 0 <= k && k + 1 < g.len() implies no_split_at(
                original,
                changed,
                g,
                k,
            ) by {
                if k == 0 {
                    assert(head_ch(original, changed, g[1].piece) == '\r');
                } else {
                    assert(tail_ch(original, changed, g[1].piece) == '\n');
                }
            }
        },
        (Some(qx), None) => {
            let nx = g[0];
            assert(g =~= seq![nx] + seq![rn]);
            lemma_cat_app(original, changed, seq![nx], seq![rn]);
            lemma_cat_singleton(original, changed, nx);
            lemma_cat_singleton(original, changed, rn);
            assert(cat(original, changed, g) =~= pcx.subrange(0, px.len - 1) + rnc);
            assert(cat(original, changed, g) =~= pcx + pcy);
            assert(head_ch(original, changed, nx.piece) == pcx[0]);
            assert(tail_ch(original, changed, rn.piece) == '\n');
            assert forall|k: int| 0 <= k && k + 1 < g.len() implies no_split_at(
                original,
                changed,
                g,
                k,
            ) by {
                assert(head_ch(original, changed, g[1].piece) == '\r');
            }
        },
        (None, Some(qy)) => {
            let ny = g[1];
            assert(g =~= seq![rn] + seq![ny]);
            lemma_cat_app(original, changed, seq![rn], seq![ny]);
            lemma_cat_singleton(original, changed, rn);
            lemma_cat_singleton(original, changed, ny);
            assert(cat(original, changed, g) =~= rnc + pcy.subrange(1, py.len as int));
            assert(cat(original, changed, g) =~= pcx + pcy);
            assert(head_ch(original, changed, rn.piece) == '\r');
            assert(tail_ch(original, changed, ny.piece) == pcy.last());
            assert forall|k: int| 0 <= k && k + 1 < g.len() implies no_split_at(
                original,
                changed,
                g,
                k,
            ) by {
                assert(tail_ch(original, changed, g[0].piece) == '\n');
            }
        },
        (None, None) => {
            assert(g =~= seq![rn]);
            lemma_cat_singleton(original, changed, rn);
            assert(cat(original, changed, g) =~= pcx + pcy);
            assert(head_ch(original, changed, rn.piece) == '\r');
            assert(tail_ch(original, changed, rn.piece) == '\n');
        },
    }
}

/// Prefix sums of piece lengths are monotone.
proof fn lemma_sum_prefix_mono(ns: Seq<Node>, k1: int, k2: int)
    requires
        0 <= k1 <= k2 <= ns.len(),
    ensures
        sum_len(ns.subrange(0, k1)) <= sum_len(ns.subrange(0, k2)),
    decreases k2 - k1,
{
    if k1 < k2 {
        lemma_sum_prefix_step(ns, k2 - 1);
        lemma_sum_prefix_mono(ns, k1, k2 - 1);
    }
}

/// A run of valid pieces splits as three consecutive segments whose lengths
/// are the corresponding prefix-sum differences.
proof fn lemma_cat_split3(original: Buffer, changed: Seq<Buffer>, ns: Seq<Node>, lo: int, hi: int)
    requires
        0 <= lo <= hi <= ns.len(),
        forall|k: int|
            0 <= k < ns.len() ==> piece_valid(original, changed, (#[trigger] ns[k]).piece),
    ensures
        cat(original, changed, ns) == cat(original, changed, ns.subrange(0, lo)) + cat(
            original,
            changed,
            ns.subrange(lo, hi),
        ) + cat(original, changed, ns.subrange(hi, ns.len() as int)),
        cat(original, changed, ns.subrange(0, lo)).len() == sum_len(ns.subrange(0, lo)),
        cat(original, changed, ns.subrange(lo, hi)).len() == sum_len(ns.subrange(0, hi)) - sum_len(
            ns.subrange(0, lo),
        ),
        cat(original, changed, ns.subrange(hi, ns.len() as int)).len() == sum_len(ns) - sum_len(
            ns.subrange(0, hi),
        ),
{
    let pre = ns.subrange(0, lo);
    let seg = ns.subrange(lo, hi);
    let suf = ns.subrange(hi, ns.len() as int);
    assert(ns =~= (pre + seg) + suf);
    lemma_cat_app(original, changed, pre + seg, suf);
    lemma_cat_app(original, changed, pre, seg);
    assert(forall|k: int|
        0 <= k < pre.len() ==> piece_valid(original, changed, (#[trigger] pre[k]).piece));
    assert(forall|k: int|
        0 <= k < seg.len() ==> piece_valid(original, changed, (#[trigger] seg[k]).piece));
    assert(forall|k: int|
        0 <= k < suf.len() ==> piece_valid(original, changed, (#[trigger] suf[k]).piece));
    lemma_cat_len(original, changed, pre);
    lemma_cat_len(original, changed, seg);
    lemma_cat_len(original, changed, suf);
    lemma_cat_len(original, changed, ns);
    lemma_sum_app(pre, seg);
    assert(pre + seg =~= ns.subrange(0, hi));
    lemma_sum_app(ns.subrange(0, hi), suf);
    assert(ns.subrange(0, hi) + suf =~= ns);
}

/// The characters a single node of a valid run denotes are the slice of the
/// run's content between the node's prefix sums.
proof fn lemma_node_content(original: Buffer, changed: Seq<Buffer>, ns: Seq<Node>, k: int)
    requires
        0 <= k < ns.len(),
        forall|j: int|
            0 <= j < ns.len() ==> piece_valid(original, changed, (#[trigger] ns[j]).piece),
    ensures
        piece_chars(original, changed, ns[k].piece) == cat(original, changed, ns).subrange(
            sum_len(ns.subrange(0, k)),
            sum_len(ns.subrange(0, k + 1)),
        ),
{
    lemma_cat_split3(original, changed, ns, k, k + 1);
    lemma_sum_prefix_step(ns, k);
    assert(ns.subrange(k, k + 1) =~= seq![ns[k]]);
    lemma_cat_singleton(original, changed, ns[k]);
    lemma_sum_nonneg(ns.subrange(0, k));
    let s = cat(original, changed, ns);
    let a = sum_len(ns.subrange(0, k));
    let b = sum_len(ns.subrange(0, k + 1));
    assert(s.subrange(a, b) =~= piece_chars(original, changed, ns[k].piece));
}

/// Contents of short explicit runs.
proof fn lemma_cat2(original: Buffer, changed: Seq<Buffer>, a: Node, b: Node)
    ensures
        cat(original, changed, seq![a, b]) == piece_chars(original, changed, a.piece)
            + piece_chars(original, changed, b.piece),
{
    assert(seq![a, b] =~= seq![a] + seq![b]);
    lemma_cat_app(original, changed, seq![a], seq![b]);
    lemma_cat_singleton(original, changed, a);
    lemma_cat_singleton(original, changed, b);
}


/// The facts a prepared replacement run must satisfy: the range `[lo, hi)`
/// of the node run will be replaced by `mid`, whose concatenated content is
/// the old segment's content with `[offset, offset + del)` replaced by `t`,
/// and whose edge pieces keep the old edge characters for the boundary
/// fix-up to inspect.
spec fn replacement_ok(
    tb: TextBuffer,
    offset: int,
    del: int,
    t: Seq<char>,
    lo: usize,
    hi: usize,
    mid: Seq<Node>,
) -> bool {
    let ns = tb.nodes@;
    let s = cat(tb.original, tb.changed@, ns);
    let e = offset + del;
    let s_lo = sum_len(ns.subrange(0, lo as int));
    let s_hi = sum_len(ns.subrange(0, hi as int));
    &&& lo <= hi <= ns.len()
    &&& (lo > 0 ==> (lo as int) < ns.len())
    &&& ((hi as int) < ns.len() ==> hi > 0)
    &&& forall|k: int|
        0 <= k < mid.len() ==> piece_valid(tb.original, tb.changed@, (#[trigger] mid[k]).piece)
    &&& 0 <= s_lo <= offset
    &&& e <= s_hi
    &&& s_hi <= s.len()
    &&& cat(tb.original, tb.changed@, mid) == s.subrange(s_lo, offset) + t + s.subrange(e, s_hi)
    &&& (mid.len() == 0 ==> lo == 0 && hi as int == ns.len())
    &&& (lo > 0 ==> mid.len() > 0 && head_ch(tb.original, tb.changed@, mid[0].piece) == head_ch(
        tb.original,
        tb.changed@,
        ns[lo as int].piece,
    ))
    &&& ((hi as int) < ns.len() ==> mid.len() > 0 && tail_ch(
        tb.original,
        tb.changed@,
        mid.last().piece,
    ) == tail_ch(tb.original, tb.changed@, ns[hi as int - 1].piece))
}

impl TextBuffer {
    /// Prepares the replacement run for splicing `t` over the character
    /// range `[offset, offset + del)`: locates the boundary pieces, trims
    /// them to the surviving prefix and suffix, and includes one adjacent
    /// piece on each side so the CRLF fix-up sees every new boundary.
    #[verifier::spinoff_prover]
    #[verifier::rlimit(100)]
    fn build_replacement(
        &self,
        offset: usize,
        del: usize,
        ins: Option<Node>,
        Ghost(t): Ghost<Seq<char>>,
    ) -> (r: (usize, usize, Vec<Node>))
        requires
            self.buffers_ok(),
            self.pieces_ok(),
            self.aggregates_ok(),
            self.cache_ok(),
            offset as int + del as int <= self@.len(),
            match ins {
                Some(node) => piece_valid(self.original, self.changed@, node.piece) && piece_chars(
                    self.original,
                    self.changed@,
                    node.piece,
                ) == t && t.len() > 0,
                None => t.len() == 0,
            },
        ensures
            replacement_ok(*self, offset as int, del as int, t, r.0, r.1, r.2@),
    {
        let ghost orig = self.original;
        let ghost ch0 = self.changed@;
        let ghost ns = self.nodes@;
        let ghost s = self@;
        proof {
            lemma_cat_len(orig, ch0, ns);
        }
        let n = self.nodes.len();
        let total = self.total_len;
        let e = offset + del;
        let mut mid: Vec<Node> = Vec::new();
        let mut lo: usize = 0;
        let mut hi: usize = 0;
        if n == 0 {
            match ins {
                Some(nd) => {
                    mid.push(nd);
                    proof {
                        lemma_cat_singleton(orig, ch0, nd);
                        assert(mid@ =~= seq![nd]);
                    }
                },
                None => {},
            }
            proof {
                assert(ns.subrange(0, 0) =~= Seq::<Node>::empty());
                assert(s =~= Seq::<char>::empty());
                assert(cat(orig, ch0, mid@) =~= s.subrange(0, 0) + t + s.subrange(0, 0));
            }
        } else if offset == total {
            lo = n - 1;
            hi = n;
            let left = self.nodes[n - 1];
            mid.push(left);
            match ins {
                Some(nd) => {
                    mid.push(nd);
                    proof {
                        assert(mid@ =~= seq![left, nd]);
                        lemma_cat2(orig, ch0, left, nd);
                    }
                },
                None => {
                    proof {
                        assert(mid@ =~= seq![left]);
                        lemma_cat_singleton(orig, ch0, left);
                    }
                },
            }
            proof {
                lemma_node_content(orig, ch0, ns, n - 1);
                lemma_sum_prefix_step(ns, n - 1);
                assert(ns.subrange(0, n as int) =~= ns);
                let s_lo = sum_len(ns.subrange(0, lo as int));
                lemma_sum_nonneg(ns.subrange(0, lo as int));
                assert(piece_chars(orig, ch0, left.piece) =~= s.subrange(s_lo, total as int));
                assert(cat(orig, ch0, mid@) =~= s.subrange(s_lo, offset as int) + t + s.subrange(
                    e as int,
                    total as int,
                ));
            }
        } else {
            let r3 = self.build_replacement_interior(offset, del, ins, Ghost(t));
            lo = r3.0;
            hi = r3.1;
            mid = r3.2;
        }
        proof {
            if n == 0 || offset == total {
                lemma_sum_nonneg(ns.subrange(0, lo as int));
                lemma_sum_prefix_mono(ns, lo as int, hi as int);
                lemma_sum_prefix_mono(ns, hi as int, n as int);
                assert(ns.subrange(0, n as int) =~= ns);
            }
        }
        (lo, hi, mid)
    }

    /// The interior case of `build_replacement`: the splice point lies
    /// strictly inside the document, so both boundary pieces exist.
    #[verifier::spinoff_prover]
    #[verifier::rlimit(100)]
    fn build_replacement_interior(
        &self,
        offset: usize,
        del: usize,
        ins: Option<Node>,
        Ghost(t): Ghost<Seq<char>>,
    ) -> (r: (usize, usize, Vec<Node>))
        requires
            self.buffers_ok(),
            self.pieces_ok(),
            self.aggregates_ok(),
            self.cache_ok(),
            offset as int + del as int <= self@.len(),
            (offset as int) < sum_len(self.nodes@),
            match ins {
                Some(node) => piece_valid(self.original, self.changed@, node.piece) && piece_chars(
                    self.original,
                    self.changed@,
                    node.piece,
                ) == t && t.len() > 0,
                None => t.len() == 0,
            },
        ensures
            replacement_ok(*self, offset as int, del as int, t, r.0, r.1, r.2@),
    {
        let ghost orig = self.original;
        let ghost ch0 = self.changed@;
        let ghost ns = self.nodes@;
        let ghost s = self@;
        proof {
            lemma_cat_len(orig, ch0, ns);
            assert(s == cat(orig, ch0, ns));
        }
        let n = self.nodes.len();
        let total = self.total_len;
        let e = offset + del;
        let lead = self.leading_run(offset);
        let lo = lead.0;
        let k1 = lead.1;
        let mut mid = lead.2;
        let ghost mid_a = mid@;
        let ghost s_lo = sum_len(ns.subrange(0, lo as int));
        match ins {
            Some(nd) => {
                mid.push(nd);
                proof {
                    assert(mid@ =~= mid_a + seq![nd]);
                    lemma_cat_app(orig, ch0, mid_a, seq![nd]);
                    lemma_cat_singleton(orig, ch0, nd);
                }
            },
            None => {
                proof {
                    assert(cat(orig, ch0, mid@) + t =~= cat(orig, ch0, mid@));
                }
            },
        }
        let ghost mid_b = mid@;
        proof {
            assert(cat(orig, ch0, mid_b) =~= s.subrange(s_lo, offset as int) + t);
        }
        let hi: usize;
        if e == total {
            hi = n;
            proof {
                assert(ns.subrange(0, n as int) =~= ns);
                assert(s.subrange(e as int, sum_len(ns.subrange(0, hi as int))) =~= Seq::<
                    char,
                >::empty());
                assert(cat(orig, ch0, mid@) =~= s.subrange(s_lo, offset as int) + t + s.subrange(
                    e as int,
                    sum_len(ns.subrange(0, hi as int)),
                ));
            }
        } else {
            proof {
                assert((e as int) < sum_len(ns));
                lemma_sum_prefix_mono(ns, lo as int, k1 as int);
            }
            let rv = self.trailing_piece(e, k1);
            hi = rv.0;
            let bnode = rv.1;
            mid.push(bnode);
            proof {
                assert(mid@ =~= mid_b + seq![bnode]);
                lemma_cat_app(orig, ch0, mid_b, seq![bnode]);
                lemma_cat_singleton(orig, ch0, bnode);
                assert(cat(orig, ch0, mid@) =~= s.subrange(s_lo, offset as int) + t + s.subrange(
                    e as int,
                    sum_len(ns.subrange(0, hi as int)),
                ));
            }
        }
        proof {
            lemma_sum_nonneg(ns.subrange(0, lo as int));
            lemma_sum_prefix_mono(ns, lo as int, hi as int);
            lemma_sum_prefix_mono(ns, hi as int, n as int);
            assert(ns.subrange(0, n as int) =~= ns);
            if hi < n {
                assert(mid@.len() > 0);
            }
            if lo > 0 {
                assert(mid@[0] == mid_a[0]);
            }
        }
        (lo, hi, mid)
    }

    /// The start of the replacement run: the surviving prefix of the piece
    /// containing `offset`, or the whole neighboring piece when `offset`
    /// falls on a boundary, so the CRLF fix-up sees the left junction.
    /// Returns the replacement range start, the index of the piece
    /// containing `offset`, and the run.
    #[verifier::spinoff_prover]
    #[verifier::rlimit(100)]
    fn leading_run(&self, offset: usize) -> (r: (usize, usize, Vec<Node>))
        requires
            self.buffers_ok(),
            self.pieces_ok(),
            self.aggregates_ok(),
            (offset as int) < sum_len(self.nodes@),
        ensures
            ({
                let ns = self.nodes@;
                let s = cat(self.original, self.changed@, ns);
                let lo = r.0;
                let k1 = r.1;
                let s_lo = sum_len(ns.subrange(0, lo as int));
                &&& (lo as int) <= k1 as int && (k1 as int) < ns.len()
                &&& sum_len(ns.subrange(0, k1 as int)) <= offset as int
                &&& s_lo <= offset as int
                &&& forall|k: int|
                    0 <= k < r.2@.len() ==> piece_valid(
                        self.original,
                        self.changed@,
                        (#[trigger] r.2@[k]).piece,
                    )
                &&& cat(self.original, self.changed@, r.2@) == s.subrange(s_lo, offset as int)
                &&& (r.2@.len() == 0 ==> lo == 0)
                &&& (lo > 0 ==> r.2@.len() > 0 && head_ch(
                    self.original,
                    self.changed@,
                    r.2@[0].piece,
                ) == head_ch(self.original, self.changed@, ns[lo as int].piece))
            }),
    {
        let ghost orig = self.original;
        let ghost ch0 = self.changed@;
        let ghost ns = self.nodes@;
        let ghost s = cat(orig, ch0, ns);
        let loc1 = self.locate_by_offset(offset);
        let k1 = loc1.0;
        let s1 = loc1.1;
        let r1 = offset - s1;
        proof {
            lemma_cat_len(orig, ch0, ns);
            lemma_node_content(orig, ch0, ns, k1 as int);
            lemma_sum_prefix_step(ns, k1 as int);
            lemma_sum_nonneg(ns.subrange(0, k1 as int));
            lemma_sum_prefix_mono(ns, k1 as int + 1, ns.len() as int);
            assert(ns.subrange(0, ns.len() as int) =~= ns);
        }
        let ghost pc1 = piece_chars(orig, ch0, self.nodes@[k1 as int].piece);
        let mut mid: Vec<Node> = Vec::new();
        let lo: usize;
        if r1 > 0 {
            lo = k1;
            let node1 = self.nodes[k1];
            let a = self.sub_piece(node1, 0, r1);
            mid.push(Node { piece: a, left_size: 0, left_line_feed_count: 0 });
            proof {
                assert(mid@ =~= seq![mid@[0]]);
                lemma_cat_singleton(orig, ch0, mid@[0]);
                assert(piece_chars(orig, ch0, mid@[0].piece) =~= pc1.subrange(0, r1 as int));
                assert(pc1 =~= s.subrange(s1 as int, s1 as int + ns[k1 as int].piece.len));
                assert(pc1.subrange(0, r1 as int) =~= s.subrange(s1 as int, offset as int));
                assert(head_ch(orig, ch0, mid@[0].piece) == head_ch(
                    orig,
                    ch0,
                    ns[k1 as int].piece,
                ));
            }
        } else if k1 > 0 {
            lo = k1 - 1;
            let left = self.nodes[k1 - 1];
            mid.push(left);
            proof {
                lemma_node_content(orig, ch0, ns, k1 as int - 1);
                lemma_sum_prefix_step(ns, k1 as int - 1);
                lemma_sum_nonneg(ns.subrange(0, lo as int));
                assert(mid@ =~= seq![left]);
                lemma_cat_singleton(orig, ch0, left);
                assert(piece_chars(orig, ch0, left.piece) =~= s.subrange(
                    sum_len(ns.subrange(0, lo as int)),
                    offset as int,
                ));
            }
        } else {
            lo = 0;
            proof {
                assert(mid@ =~= Seq::<Node>::empty());
                assert(ns.subrange(0, 0) =~= Seq::<Node>::empty());
                assert(s.subrange(0, 0) =~= Seq::<char>::empty());
            }
        }
        (lo, k1, mid)
    }

    /// The node run index just past the piece containing character `e`, and
    /// that piece trimmed to its suffix from `e` on (the whole piece when
    /// `e` falls on its start boundary).
    #[verifier::spinoff_prover]
    #[verifier::rlimit(100)]
    fn trailing_piece(&self, e: usize, k1: usize) -> (r: (usize, Node))
        requires
            self.pieces_ok(),
            self.aggregates_ok(),
            (e as int) < sum_len(self.nodes@),
            (k1 as int) < self.nodes@.len(),
            sum_len(self.nodes@.subrange(0, k1 as int)) <= e as int,
        ensures
            ({
                let ns = self.nodes@;
                let s = cat(self.original, self.changed@, ns);
                let s_hi = sum_len(ns.subrange(0, r.0 as int));
                &&& (k1 as int) < r.0 as int <= ns.len()
                &&& piece_valid(self.original, self.changed@, r.1.piece)
                &&& (e as int) <= s_hi <= s.len()
                &&& piece_chars(self.original, self.changed@, r.1.piece) == s.subrange(
                    e as int,
                    s_hi,
                )
                &&& tail_ch(self.original, self.changed@, r.1.piece) == tail_ch(
                    self.original,
                    self.changed@,
                    ns[r.0 as int - 1].piece,
                )
            }),
    {
        let ghost orig = self.original;
        let ghost ch0 = self.changed@;
        let ghost ns = self.nodes@;
        let ghost s = cat(orig, ch0, ns);
        proof {
            lemma_cat_len(orig, ch0, ns);
        }
        let n = self.nodes.len();
        let loc2 = self.locate_by_offset(e);
        let k2 = loc2.0;
        let s2 = loc2.1;
        let r2 = e - s2;
        proof {
            if (k2 as int) < k1 as int {
                lemma_sum_prefix_mono(ns, k2 as int + 1, k1 as int);
                lemma_sum_prefix_step(ns, k2 as int);
            }
        }
        assert(k2 >= k1);
        let hi = k2 + 1;
        let node2 = self.nodes[k2];
        proof {
            lemma_node_content(orig, ch0, ns, k2 as int);
            lemma_sum_prefix_step(ns, k2 as int);
            lemma_sum_nonneg(ns.subrange(0, k2 as int));
            lemma_sum_prefix_mono(ns, hi as int, n as int);
            assert(ns.subrange(0, n as int) =~= ns);
        }
        let ghost pc2 = piece_chars(orig, ch0, node2.piece);
        let b: Node;
        if r2 > 0 {
            let q = self.sub_piece(node2, r2, node2.piece.len);
            b = Node { piece: q, left_size: 0, left_line_feed_count: 0 };
        } else {
            b = node2;
            proof {
                assert(pc2.subrange(0, pc2.len() as int) =~= pc2);
            }
        }
        proof {
            let s_hi = sum_len(ns.subrange(0, hi as int));
            assert(s_hi == s2 as int + node2.piece.len);
            assert(pc2 =~= s.subrange(s2 as int, s_hi));
            if r2 > 0 {
                assert(piece_chars(orig, ch0, b.piece) =~= pc2.subrange(
                    r2 as int,
                    node2.piece.len as int,
                ));
                assert(pc2.subrange(r2 as int, node2.piece.len as int) =~= s.subrange(
                    e as int,
                    s_hi,
                ));
            } else {
                assert(piece_chars(orig, ch0, b.piece) =~= pc2);
            }
            assert(piece_chars(orig, ch0, b.piece) =~= s.subrange(e as int, s_hi));
            assert(tail_ch(orig, ch0, b.piece) == tail_ch(orig, ch0, ns[hi - 1].piece));
        }
        (hi, b)
    }

    /// Replaces the document character range `[offset, offset + del)` with
    /// the text the optional prepared node denotes: locates the boundary
    /// pieces, trims them to the surviving prefix and suffix, splices the
    /// replacement run in (with one adjacent piece on each side so the
    /// CRLF fix-up sees every new boundary), and recomputes the aggregates.
    #[verifier::spinoff_prover]
    #[verifier::rlimit(100)]
    fn splice_text(
        &mut self,
        offset: usize,
        del: usize,
        ins: Option<Node>,
        Ghost(t): Ghost<Seq<char>>,
    )
        requires
            old(self).wf(),
            offset as int + del as int <= old(self)@.len(),
            old(self)@.len() - del as int + t.len() < usize::MAX,
            match ins {
                Some(node) => piece_valid(old(self).original, old(self).changed@, node.piece)
                    && piece_chars(old(self).original, old(self).changed@, node.piece) == t
                    && t.len() > 0,
                None => t.len() == 0,
            },
        ensures
            final(self).wf(),
            final(self)@ == old(self)@.subrange(0, offset as int) + t + old(self)@.subrange(
                offset as int + del as int,
                old(self)@.len() as int,
            ),
    {
        let ghost orig = self.original;
        let ghost ch0 = self.changed@;
        let ghost ns = self.nodes@;
        let ghost s = self@;
        proof {
            lemma_cat_len(orig, ch0, ns);
        }
        let n = self.nodes.len();
        let e = offset + del;
        let built = self.build_replacement(offset, del, ins, Ghost(t));
        let lo = built.0;
        let hi = built.1;
        let mid = built.2;
        // Fix CRLF boundaries, install the run, re-derive the aggregates.
        let ghost s_lo = sum_len(ns.subrange(0, lo as int));
        let ghost s_hi = sum_len(ns.subrange(0, hi as int));
        proof {
            lemma_sum_nonneg(ns.subrange(0, lo as int));
            lemma_sum_prefix_mono(ns, lo as int, hi as int);
            lemma_sum_prefix_mono(ns, hi as int, n as int);
            assert(ns.subrange(0, n as int) =~= ns);
        }
        let out = self.normalize(mid);
        let ghost ch1 = self.changed@;
        proof {
            assert(forall|k: int|
                0 <= k < ns.len() ==> piece_valid(orig, ch0, (#[trigger] ns[k]).piece));
            lemma_cat_grow(orig, ch0, ch1, ns);
            assert(forall|k: int|
                0 <= k < ns.subrange(0, lo as int).len() ==> piece_valid(
                    orig,
                    ch0,
                    (#[trigger] ns.subrange(0, lo as int)[k]).piece,
                ));
            assert(forall|k: int|
                0 <= k < ns.subrange(hi as int, n as int).len() ==> piece_valid(
                    orig,
                    ch0,
                    (#[trigger] ns.subrange(hi as int, n as int)[k]).piece,
                ));
            lemma_cat_grow(orig, ch0, ch1, ns.subrange(0, lo as int));
            lemma_cat_grow(orig, ch0, ch1, ns.subrange(hi as int, n as int));
        }
        self.splice_nodes(lo, hi, out);
        let ghost pre = ns.subrange(0, lo as int);
        let ghost suf = ns.subrange(hi as int, n as int);
        let ghost outs = out@;
        let ghost newns = self.nodes@;
        proof {
            assert(newns == pre + outs + suf);
            // Validity of every piece of the new run.
            assert forall|k: int| 0 <= k < newns.len() implies piece_valid(
                orig,
                ch1,
                (#[trigger] newns[k]).piece,
            ) by {
                if k < pre.len() {
                    assert(newns[k] == ns[k]);
                    assert(piece_valid(orig, ch1, ns[k].piece));
                } else if k < pre.len() + outs.len() {
                    assert(newns[k] == outs[k - pre.len()]);
                } else {
                    assert(newns[k] == ns[k - pre.len() - outs.len() + hi]);
                    assert(piece_valid(orig, ch1, ns[k - pre.len() - outs.len() + hi].piece));
                }
            }
            // No CRLF pair split at any boundary of the new run.
            assert forall|k: int| 0 <= k && k + 1 < newns.len() implies no_split_at(
                orig,
                ch1,
                newns,
                k,
            ) by {
                lemma_splice_junctions(orig, ch0, ch1, ns, lo as int, hi as int, mid@, outs, k);
            }
            // The new content is the requested splice.
            lemma_splice_content(
                orig,
                ch0,
                ch1,
                ns,
                lo,
                hi,
                mid@,
                outs,
                t,
                offset as int,
                del as int,
            );
            // Bounds for the metadata pass.
            lemma_cat_len(orig, ch1, newns);
            lemma_cat_lfc(orig, ch1, newns);
            lemma_break_count_bound(cat(orig, ch1, newns), 0);
        }
        self.recompute_metadata();
        // Remember where this edit landed, and drop every cached lookup at
        // or past it: their recorded absolute offsets are no longer valid.
        self.cache.validate(offset);
        if lo < self.nodes.len() {
            let st = self.nodes[lo].left_size;
            if st <= offset {
                self.cache.set_position(
                    CachedPosition { node_index: lo, node_start_offset: st },
                );
            }
        }
    }
}

/// Installing the rebuilt run between the untouched prefix and suffix
/// yields exactly the old content with `[offset, offset + del)` replaced.
#[verifier::spinoff_prover]
#[verifier::rlimit(100)]
proof fn lemma_splice_content(
    orig: Buffer,
    ch0: Seq<Buffer>,
    ch1: Seq<Buffer>,
    ns: Seq<Node>,
    lo: usize,
    hi: usize,
    mid: Seq<Node>,
    outs: Seq<Node>,
    t: Seq<char>,
    offset: int,
    del: int,
)
    requires
        ch0.len() <= ch1.len(),
        forall|j: int| 0 <= j < ch0.len() ==> #[trigger] ch1[j] == ch0[j],
        forall|j: int| 0 <= j < ns.len() ==> piece_valid(orig, ch0, (#[trigger] ns[j]).piece),
        forall|j: int| 0 <= j < outs.len() ==> piece_valid(orig, ch1, (#[trigger] outs[j]).piece),
        cat(orig, ch1, outs) == cat(orig, ch0, mid),
        0 <= offset,
        0 <= del,
        (lo as int) <= hi as int <= ns.len(),
        sum_len(ns.subrange(0, lo as int)) <= offset,
        offset + del <= sum_len(ns.subrange(0, hi as int)),
        cat(orig, ch0, mid) == cat(orig, ch0, ns).subrange(
            sum_len(ns.subrange(0, lo as int)),
            offset,
        ) + t + cat(orig, ch0, ns).subrange(offset + del, sum_len(ns.subrange(0, hi as int))),
    ensures
        cat(orig, ch1, ns.subrange(0, lo as int) + outs + ns.subrange(hi as int, ns.len() as int))
            == cat(orig, ch0, ns).subrange(0, offset) + t + cat(orig, ch0, ns).subrange(
            offset + del,
            cat(orig, ch0, ns).len() as int,
        ),
{
    let s = cat(orig, ch0, ns);
    let pre = ns.subrange(0, lo as int);
    let suf = ns.subrange(hi as int, ns.len() as int);
    let newns = pre + outs + suf;
    let s_lo = sum_len(ns.subrange(0, lo as int));
    let s_hi = sum_len(ns.subrange(0, hi as int));
    let e = offset + del;
    lemma_cat_app(orig, ch1, pre + outs, suf);
    lemma_cat_app(orig, ch1, pre, outs);
    assert((pre + outs) + suf =~= newns);
    lemma_cat_split3(orig, ch0, ns, lo as int, hi as int);
    assert(forall|k: int|
        0 <= k < pre.len() ==> piece_valid(orig, ch0, (#[trigger] pre[k]).piece));
    assert(forall|k: int|
        0 <= k < suf.len() ==> piece_valid(orig, ch0, (#[trigger] suf[k]).piece));
    lemma_cat_grow(orig, ch0, ch1, pre);
    lemma_cat_grow(orig, ch0, ch1, suf);
    assert(cat(orig, ch0, pre) =~= s.subrange(0, s_lo));
    assert(cat(orig, ch0, suf) =~= s.subrange(s_hi, s.len() as int));
    assert(cat(orig, ch1, newns) =~= s.subrange(0, s_lo) + (s.subrange(s_lo, offset) + t
        + s.subrange(e, s_hi)) + s.subrange(s_hi, s.len() as int));
    assert(cat(orig, ch1, newns) =~= s.subrange(0, offset) + t + s.subrange(e, s.len() as int));
}

/// At every boundary of the spliced run `pre + out + suf`, no CRLF pair is
/// split: inside `pre` and `suf` the old boundaries are untouched, inside
/// `out` the fix-up pass just ran, and at the two seams the neighboring
/// characters are the ones the fix-up pass saw.
#[verifier::spinoff_prover]
#[verifier::rlimit(100)]
proof fn lemma_splice_junctions(
    orig: Buffer,
    ch0: Seq<Buffer>,
    ch1: Seq<Buffer>,
    ns: Seq<Node>,
    lo: int,
    hi: int,
    mid: Seq<Node>,
    outs: Seq<Node>,
    k: int,
)
    requires
        0 <= lo <= hi <= ns.len(),
        ch0.len() <= ch1.len(),
        forall|j: int| 0 <= j < ch0.len() ==> #[trigger] ch1[j] == ch0[j],
        forall|j: int| 0 <= j < ns.len() ==> piece_valid(orig, ch0, (#[trigger] ns[j]).piece),
        crlf_unsplit(orig, ch0, ns),
        forall|j: int| 0 <= j < outs.len() ==> piece_valid(orig, ch1, (#[trigger] outs[j]).piece),
        crlf_unsplit(orig, ch1, outs),
        outs.len() > 0 <==> mid.len() > 0,
        forall|j: int| 0 <= j < mid.len() ==> piece_valid(orig, ch0, (#[trigger] mid[j]).piece),
        mid.len() > 0 ==> (head_ch(orig, ch1, outs[0].piece) == head_ch(orig, ch0, mid[0].piece)
            || head_ch(orig, ch1, outs[0].piece) == '\r'),
        mid.len() > 0 ==> (tail_ch(orig, ch1, outs.last().piece) == tail_ch(
            orig,
            ch0,
            mid.last().piece,
        ) || tail_ch(orig, ch1, outs.last().piece) == '\n'),
        mid.len() == 0 ==> lo == 0 && hi == ns.len(),
        lo > 0 ==> lo < ns.len(),
        hi < ns.len() ==> hi > 0,
        lo > 0 ==> mid.len() > 0 && head_ch(orig, ch0, mid[0].piece) == head_ch(
            orig,
            ch0,
            ns[lo].piece,
        ),
        hi < ns.len() ==> mid.len() > 0 && tail_ch(orig, ch0, mid.last().piece) == tail_ch(
            orig,
            ch0,
            ns[hi - 1].piece,
        ),
        0 <= k,
        k + 1 < ns.subrange(0, lo).len() + outs.len() + ns.subrange(hi, ns.len() as int).len(),
    ensures
        no_split_at(
            orig,
            ch1,
            ns.subrange(0, lo) + outs + ns.subrange(hi, ns.len() as int),
            k,
        ),
{
    let pre = ns.subrange(0, lo);
    let suf = ns.subrange(hi, ns.len() as int);
    let newns = pre + outs + suf;
    assert forall|j: int| 0 <= j < ns.len() implies piece_valid(orig, ch1, (#[trigger] ns[j]).piece)
        && piece_chars(orig, ch1, ns[j].piece) == piece_chars(orig, ch0, ns[j].piece) by {
        lemma_piece_grow(orig, ch0, ch1, ns[j].piece);
    }
    if k + 1 < lo {
        assert(newns[k] == ns[k]);
        assert(newns[k + 1] == ns[k + 1]);
        assert(no_split_at(orig, ch0, ns, k));
    } else if k + 1 == lo {
        // Seam between the untouched prefix and the rebuilt run.
        assert(newns[k] == ns[k]);
        assert(newns[k + 1] == outs[0]);
        assert(no_split_at(orig, ch0, ns, k));
        assert(head_ch(orig, ch0, mid[0].piece) == head_ch(orig, ch0, ns[lo].piece));
    } else if k + 1 < lo + outs.len() {
        assert(newns[k] == outs[k - lo]);
        assert(newns[k + 1] == outs[k + 1 - lo]);
        assert(no_split_at(orig, ch1, outs, k - lo));
    } else if k + 1 == lo + outs.len() {
        // Seam between the rebuilt run and the untouched suffix.
        assert(k + 1 < newns.len());
        assert(suf.len() > 0);
        assert(hi < ns.len());
        assert(newns[k + 1] == ns[hi]);
        assert(outs.len() > 0);
        assert(newns[k] == outs.last());
        assert(no_split_at(orig, ch0, ns, hi - 1));
        assert(tail_ch(orig, ch0, mid.last().piece) == tail_ch(orig, ch0, ns[hi - 1].piece));
    } else {
        let j = k - lo - outs.len() + hi;
        assert(newns[k] == ns[j]);
        assert(newns[k + 1] == ns[j + 1]);
        assert(no_split_at(orig, ch0, ns, j));
    }
}

/// The last character of a non-empty run's content is the last character of
/// its last piece.
proof fn lemma_cat_last(original: Buffer, changed: Seq<Buffer>, ns: Seq<Node>)
    requires
        ns.len() > 0,
        forall|k: int|
            0 <= k < ns.len() ==> piece_valid(original, changed, (#[trigger] ns[k]).piece),
    ensures
        cat(original, changed, ns).len() > 0,
        cat(original, changed, ns).last() == tail_ch(original, changed, ns.last().piece),
{
    assert(ns =~= ns.drop_last() + seq![ns.last()]);
    lemma_cat_app(original, changed, ns.drop_last(), seq![ns.last()]);
    lemma_cat_singleton(original, changed, ns.last());
    assert(forall|k: int|
        0 <= k < ns.drop_last().len() ==> piece_valid(
            original,
            changed,
            (#[trigger] ns.drop_last()[k]).piece,
        ));
    lemma_cat_len(original, changed, ns.drop_last());
    lemma_sum_nonneg(ns.drop_last());
    assert(piece_valid(original, changed, ns.last().piece));
    assert(piece_chars(original, changed, ns.last().piece).len() > 0);
}

/// The `j`-th terminator end of piece `q`, seen from the whole run: it is
/// entry number `sum_lfc(prefix) + j`, at offset `sum_len(prefix)` plus the
/// piece-local end.
proof fn lemma_cat_entry(original: Buffer, changed: Seq<Buffer>, ns: Seq<Node>, q: int, j: int)
    requires
        forall|k: int|
            0 <= k < ns.len() ==> piece_valid(original, changed, (#[trigger] ns[k]).piece),
        crlf_unsplit(original, changed, ns),
        0 <= q < ns.len(),
        0 <= j < ns[q].piece.line_feed_count,
    ensures
        0 <= sum_lfc(ns.subrange(0, q)) + j < line_break_count(cat(original, changed, ns)),
        break_ends_from(cat(original, changed, ns), 0)[sum_lfc(ns.subrange(0, q)) + j] == sum_len(
            ns.subrange(0, q),
        ) + break_ends_from(piece_chars(original, changed, ns[q].piece), 0)[j],
    decreases q,
{
    let pc0 = piece_chars(original, changed, ns[0].piece);
    let rest = ns.drop_first();
    let rc = cat(original, changed, rest);
    assert(forall|k: int|
        0 <= k < rest.len() ==> piece_valid(original, changed, (#[trigger] rest[k]).piece));
    assert forall|k: int| 0 <= k && k + 1 < rest.len() implies no_split_at(
        original,
        changed,
        rest,
        k,
    ) by {
        assert(rest[k] == ns[k + 1]);
        assert(rest[k + 1] == ns[k + 2]);
        assert(no_split_at(original, changed, ns, k + 1));
    }
    lemma_cat_lfc(original, changed, ns);
    lemma_cat_lfc(original, changed, rest);
    assert(piece_valid(original, changed, ns[0].piece));
    if rest.len() > 0 {
        lemma_cat_head(original, changed, rest);
        assert(rc[0] == head_ch(original, changed, ns[1].piece));
        assert(no_split_at(original, changed, ns, 0));
    }
    lemma_break_ends_concat(pc0, rc, 0);
    assert(cat(original, changed, ns) == pc0 + rc);
    lemma_sum_app(seq![ns[0]], rest);
    assert(ns =~= seq![ns[0]] + rest);
    lemma_cat_singleton(original, changed, ns[0]);
    if q == 0 {
        assert(ns.subrange(0, 0) =~= Seq::<Node>::empty());
        assert(break_ends_from(cat(original, changed, ns), 0)[j] == break_ends_from(pc0, 0)[j]);
    } else {
        lemma_cat_entry(original, changed, rest, q - 1, j);
        assert(rest[q - 1] == ns[q]);
        assert(ns.subrange(0, q) =~= seq![ns[0]] + rest.subrange(0, q - 1));
        lemma_sum_app(seq![ns[0]], rest.subrange(0, q - 1));
        let m = sum_lfc(rest.subrange(0, q - 1)) + j;
        lemma_sum_nonneg(rest.subrange(0, q - 1));
        assert(break_ends_from(cat(original, changed, ns), 0)[break_ends_from(pc0, 0).len() + m]
            == break_ends_from(rc, 0)[m] + pc0.len());
        lemma_cat_len(original, changed, seq![ns[0]]);
    }
}

/// The terminator count of the run's content up to a cut `r` characters
/// into piece `q`: the full pieces before contribute their caches, and the
/// cut piece its own prefix count.
#[verifier::spinoff_prover]
#[verifier::rlimit(100)]
proof fn lemma_prefix_lfc(original: Buffer, changed: Seq<Buffer>, ns: Seq<Node>, q: int, r: int)
    requires
        forall|k: int|
            0 <= k < ns.len() ==> piece_valid(original, changed, (#[trigger] ns[k]).piece),
        crlf_unsplit(original, changed, ns),
        0 <= q < ns.len(),
        0 <= r <= ns[q].piece.len,
    ensures
        line_break_count(
            cat(original, changed, ns).subrange(0, sum_len(ns.subrange(0, q)) + r),
        ) == sum_lfc(ns.subrange(0, q)) + line_break_count(
            piece_chars(original, changed, ns[q].piece).subrange(0, r),
        ),
{
    let s = cat(original, changed, ns);
    let pre = ns.subrange(0, q);
    let pcq = piece_chars(original, changed, ns[q].piece);
    lemma_cat_split3(original, changed, ns, q, q + 1);
    lemma_node_content(original, changed, ns, q);
    lemma_sum_nonneg(pre);
    lemma_sum_prefix_step(ns, q);
    let a = cat(original, changed, pre);
    assert(forall|k: int|
        0 <= k < pre.len() ==> piece_valid(original, changed, (#[trigger] pre[k]).piece));
    assert forall|k: int| 0 <= k && k + 1 < pre.len() implies no_split_at(
        original,
        changed,
        pre,
        k,
    ) by {
        assert(pre[k] == ns[k]);
        assert(pre[k + 1] == ns[k + 1]);
        assert(no_split_at(original, changed, ns, k));
    }
    lemma_cat_lfc(original, changed, pre);
    let cutpc = pcq.subrange(0, r);
    assert(s.subrange(0, sum_len(pre) + r) =~= a + cutpc);
    if pre.len() > 0 && r > 0 {
        lemma_cat_last(original, changed, pre);
        assert(a.last() == tail_ch(original, changed, ns[q - 1].piece));
        assert(no_split_at(original, changed, ns, q - 1));
        assert(cutpc[0] == head_ch(original, changed, ns[q].piece));
        assert(piece_valid(original, changed, ns[q].piece));
    }
    lemma_line_break_count_concat(a, cutpc);
}

/// Extending a buffer's content without joining a CRLF pair across the old
/// end preserves every old line-start entry.
proof fn lemma_line_starts_prefix(v: Seq<char>, t: Seq<char>)
    requires
        v.len() > 0 && t.len() > 0 ==> !(v[v.len() - 1] == '\r' && t[0] == '\n'),
    ensures
        line_starts_spec(v).len() <= line_starts_spec(v + t).len(),
        forall|m: int|
            0 <= m < line_starts_spec(v).len() ==> #[trigger] line_starts_spec(v + t)[m]
                == line_starts_spec(v)[m],
{
    lemma_break_ends_concat(v, t, 0);
    assert forall|m: int| 0 <= m < line_starts_spec(v).len() implies #[trigger] line_starts_spec(
        v + t,
    )[m] == line_starts_spec(v)[m] by {
        if m > 0 {
            assert(line_starts_spec(v + t)[m] == break_ends_from(v + t, 0)[m - 1]);
            assert(break_ends_from(v + t, 0)[m - 1] == break_ends_from(v, 0)[m - 1]);
        }
    }
}

/// Replacing one changed buffer by an extension of itself (same content
/// prefix, same line-start prefix) moves no existing piece: validity and
/// denoted contents are unchanged.
proof fn lemma_cat_extend(
    original: Buffer,
    changed: Seq<Buffer>,
    changed2: Seq<Buffer>,
    ci: int,
    ns: Seq<Node>,
)
    requires
        changed2.len() == changed.len(),
        0 <= ci < changed.len(),
        forall|j: int| 0 <= j < changed.len() && j != ci ==> #[trigger] changed2[j] == changed[j],
        changed[ci].value@.len() <= changed2[ci].value@.len(),
        forall|m: int|
            0 <= m < changed[ci].value@.len() ==> #[trigger] changed2[ci].value@[m]
                == changed[ci].value@[m],
        changed[ci].line_starts@.len() <= changed2[ci].line_starts@.len(),
        forall|m: int|
            0 <= m < changed[ci].line_starts@.len() ==> #[trigger] changed2[ci].line_starts@[m]
                == changed[ci].line_starts@[m],
        buffer_wf(changed2[ci]),
        forall|k: int|
            0 <= k < ns.len() ==> piece_valid(original, changed, (#[trigger] ns[k]).piece),
    ensures
        forall|k: int|
            0 <= k < ns.len() ==> piece_valid(original, changed2, (#[trigger] ns[k]).piece),
        forall|k: int|
            0 <= k < ns.len() ==> piece_chars(original, changed2, (#[trigger] ns[k]).piece)
                == piece_chars(original, changed, ns[k].piece),
        cat(original, changed2, ns) == cat(original, changed, ns),
    decreases ns.len(),
{
    assert forall|k: int| 0 <= k < ns.len() implies piece_valid(
        original,
        changed2,
        (#[trigger] ns[k]).piece,
    ) && piece_chars(original, changed2, ns[k].piece) == piece_chars(
        original,
        changed,
        ns[k].piece,
    ) by {
        let p = ns[k].piece;
        assert(piece_valid(original, changed, p));
        let b = piece_buffer(original, changed, p);
        let b2 = piece_buffer(original, changed2, p);
        match p.buffer_index {
            Some(i) => {
                if i as int == ci {
                    assert(b == changed[ci] && b2 == changed2[ci]);
                    assert(cursor_off(b2, p.start) == cursor_off(b, p.start));
                    assert(cursor_off(b2, p.end) == cursor_off(b, p.end));
                    assert(b2.value@.subrange(cursor_off(b, p.start), cursor_off(b, p.end))
                        =~= b.value@.subrange(cursor_off(b, p.start), cursor_off(b, p.end)));
                } else {
                    assert(b2 == b);
                }
            },
            None => {
                assert(b2 == b);
            },
        }
    }
    if ns.len() > 0 {
        lemma_cat_extend(original, changed, changed2, ci, ns.drop_first());
    }
}

/// Growing the piece at `idx` by the typed text `t` yields the old content
/// with `t` inserted at that piece's end, keeps every piece valid, and
/// splits no CRLF pair, provided the two new character adjacencies are not
/// a CR meeting an LF.
#[verifier::spinoff_prover]
#[verifier::rlimit(100)]
proof fn lemma_append_result(
    orig: Buffer,
    ch0: Seq<Buffer>,
    ch1: Seq<Buffer>,
    ns: Seq<Node>,
    ns2: Seq<Node>,
    idx: int,
    oldpc: Seq<char>,
    t: Seq<char>,
    s: Seq<char>,
    offset: int,
)
    requires
        0 <= idx < ns.len(),
        ns2.len() == ns.len(),
        forall|k: int| 0 <= k < ns.len() && k != idx ==> #[trigger] ns2[k] == ns[k],
        forall|k: int| 0 <= k < ns.len() ==> piece_valid(orig, ch0, (#[trigger] ns[k]).piece),
        forall|k: int| 0 <= k < ns.len() ==> piece_valid(orig, ch1, (#[trigger] ns[k]).piece),
        forall|k: int|
            0 <= k < ns.len() ==> piece_chars(orig, ch1, (#[trigger] ns[k]).piece) == piece_chars(
                orig,
                ch0,
                ns[k].piece,
            ),
        crlf_unsplit(orig, ch0, ns),
        piece_valid(orig, ch1, ns2[idx].piece),
        piece_chars(orig, ch1, ns2[idx].piece) == oldpc + t,
        oldpc == piece_chars(orig, ch0, ns[idx].piece),
        t.len() > 0,
        s == cat(orig, ch0, ns),
        offset == sum_len(ns.subrange(0, idx)) + ns[idx].piece.len,
        !(oldpc.last() == '\r' && t[0] == '\n'),
        idx + 1 < ns.len() ==> !(t.last() == '\r' && head_ch(orig, ch0, ns[idx + 1].piece)
            == '\n'),
    ensures
        forall|k: int| 0 <= k < ns2.len() ==> piece_valid(orig, ch1, (#[trigger] ns2[k]).piece),
        crlf_unsplit(orig, ch1, ns2),
        cat(orig, ch1, ns2) == inserted(s, offset, t),
{
    let pre = ns.subrange(0, idx);
    let suf = ns.subrange(idx + 1, ns.len() as int);
    assert forall|k: int| 0 <= k < ns2.len() implies piece_valid(
        orig,
        ch1,
        (#[trigger] ns2[k]).piece,
    ) by {
        if k != idx {
            assert(ns2[k] == ns[k]);
        }
    }
    lemma_cat_split3(orig, ch0, ns, idx, idx + 1);
    assert(ns.subrange(idx, idx + 1) =~= seq![ns[idx]]);
    lemma_cat_singleton(orig, ch0, ns[idx]);
    lemma_sum_nonneg(pre);
    // The updated run, split the same way.
    assert(ns2.subrange(0, idx) =~= pre);
    assert(ns2.subrange(idx + 1, ns2.len() as int) =~= suf);
    lemma_cat_split3(orig, ch1, ns2, idx, idx + 1);
    assert(ns2.subrange(idx, idx + 1) =~= seq![ns2[idx]]);
    lemma_cat_singleton(orig, ch1, ns2[idx]);
    assert(forall|k: int|
        0 <= k < pre.len() ==> piece_valid(orig, ch0, (#[trigger] pre[k]).piece));
    assert(forall|k: int|
        0 <= k < suf.len() ==> piece_valid(orig, ch0, (#[trigger] suf[k]).piece));
    lemma_cat_grow_eqs(orig, ch0, ch1, pre);
    lemma_cat_grow_eqs(orig, ch0, ch1, suf);
    lemma_cat_len(orig, ch0, pre);
    assert(cat(orig, ch1, ns2) =~= cat(orig, ch0, pre) + (oldpc + t) + cat(orig, ch0, suf));
    assert(inserted(s, offset, t) =~= cat(orig, ch0, pre) + (oldpc + t) + cat(orig, ch0, suf));
    // Junctions: only the two around `idx` gained characters to inspect.
    assert forall|k: int| 0 <= k && k + 1 < ns2.len() implies no_split_at(orig, ch1, ns2, k) by {
        if k + 1 == idx {
            assert(no_split_at(orig, ch0, ns, k));
            assert(head_ch(orig, ch1, ns2[idx].piece) == oldpc[0]);
            assert(head_ch(orig, ch0, ns[idx].piece) == oldpc[0]);
        } else if k == idx {
            assert(tail_ch(orig, ch1, ns2[idx].piece) == t.last());
            assert(head_ch(orig, ch1, ns2[k + 1].piece) == head_ch(orig, ch0, ns[k + 1].piece));
        } else {
            assert(ns2[k] == ns[k] && ns2[k + 1] == ns[k + 1]);
            assert(no_split_at(orig, ch0, ns, k));
        }
    }
}

/// The contents and piece texts of a run agree between two buffer lists
/// under which every piece is valid and denotes the same characters.
proof fn lemma_cat_grow_eqs(orig: Buffer, ch0: Seq<Buffer>, ch1: Seq<Buffer>, ns: Seq<Node>)
    requires
        forall|k: int| 0 <= k < ns.len() ==> piece_valid(orig, ch0, (#[trigger] ns[k]).piece),
        forall|k: int|
            0 <= k < ns.len() ==> piece_chars(orig, ch1, (#[trigger] ns[k]).piece) == piece_chars(
                orig,
                ch0,
                ns[k].piece,
            ),
    ensures
        cat(orig, ch1, ns) == cat(orig, ch0, ns),
    decreases ns.len(),
{
    if ns.len() > 0 {
        lemma_cat_grow_eqs(orig, ch0, ch1, ns.drop_first());
    }
}

// ---------------------------------------------------------------------------
// Conversions between strings and character vectors.
// ---------------------------------------------------------------------------

/// Collects the characters of a string into a vector.
fn str_to_char_vec(s: &str) -> (v: Vec<char>)
    ensures
        v@ == s@,
{
    let n = s.unicode_len();
    let mut v: Vec<char> = Vec::new();
    let mut i: usize = 0;
    while i < n
        invariant
            i <= n,
            n == s@.len(),
            v@ == s@.subrange(0, i as int),
        decreases n - i,
    {
        let c = s.get_char(i);
        proof {
            assert(v@.push(c) =~= s@.subrange(0, i + 1));
        }
        v.push(c);
        i = i + 1;
    }
    proof {
        assert(s@.subrange(0, n as int) =~= s@);
    }
    v
}

/// Relies on `String`'s `FromIterator` implementation: collecting the
/// characters of a vector yields the string of exactly those characters.
#[verifier::external_body]
fn char_vec_to_string(v: &Vec<char>) -> (r: String)
    ensures
        r@ == v@,
{
    v.iter().collect()
}

// ---------------------------------------------------------------------------
// Detected metadata.
// ---------------------------------------------------------------------------

/// The encoding a leading byte-order mark indicates.
spec fn detected_encoding(s: Seq<char>) -> CharacterEncoding {
    if s.len() > 0 && s[0] == '\u{feff}' {
        CharacterEncoding::Utf8WithBom
    } else {
        CharacterEncoding::Utf8
    }
}

/// The dominant end-of-line style of `s`: carriage returns must account for
/// more than half of all terminators to select CRLF; text without any
/// terminator falls back to the supplied preference.
spec fn detected_eol(s: Seq<char>, d: DefaultEOL) -> EOL {
    let k = break_kinds_from(s, 0);
    let total = k.0 + k.1 + k.2;
    let total_cr = k.0 + k.2;
    if total == 0 && d == DefaultEOL::LF {
        EOL::LF
    } else if total == 0 || total_cr > total / 2 {
        EOL::CRLF
    } else {
        EOL::LF
    }
}

/// Whether the CRLF terminator style is detected for payload `s` under
/// preference `d`: carriage returns account for more than half of its
/// terminators, or it has none and the preference says CRLF.
pub open spec fn crlf_detected(s: Seq<char>, d: DefaultEOL) -> bool {
    let k = break_kinds_from(s, 0);
    let total = k.0 + k.1 + k.2;
    let total_cr = k.0 + k.2;
    (total == 0 && d == DefaultEOL::CRLF) || (total > 0 && total_cr > total / 2)
}

/// The metadata detected for payload `s` under preference `d`.
spec fn info_ok(info: TextBufferInfo, s: Seq<char>, d: DefaultEOL) -> bool {
    &&& info.encoding == detected_encoding(s)
    &&& info.eol == detected_eol(s, d)
    &&& !info.eos_normalized
    &&& info.is_ascii == all_ascii(s)
}

impl TextBufferInfo {
    /// Scans the payload once for its metadata: encoding marker, terminator
    /// style statistics and ASCII-ness.
    fn new_with_meta(value: &Vec<char>, default_eol: DefaultEOL) -> (r: TextBufferInfo)
        ensures
            info_ok(r, value@, default_eol),
    {
        let has_bom = value.len() > 0 && value[0] == '\u{feff}';
        let encoding = if has_bom {
            CharacterEncoding::Utf8WithBom
        } else {
            CharacterEncoding::Utf8
        };
        let kinds = count_break_kinds(value);
        proof {
            lemma_break_kinds_total(value@, 0);
            lemma_break_count_bound(value@, 0);
        }
        let total = kinds.0 + kinds.1 + kinds.2;
        let total_cr = kinds.0 + kinds.2;
        let eol = if total == 0 && default_eol == DefaultEOL::LF {
            EOL::LF
        } else if total == 0 || total_cr > total / 2 {
            EOL::CRLF
        } else {
            EOL::LF
        };
        let is_ascii = check_all_ascii(value);
        TextBufferInfo { encoding, eol, eos_normalized: false, is_ascii }
    }

}

// ---------------------------------------------------------------------------
// Construction and whole-document queries.
// ---------------------------------------------------------------------------

impl TextBuffer {
    /// Builds a document from an owned character payload.
    fn from_chars(chars: Vec<char>, default_eol: DefaultEOL) -> (r: TextBuffer)
        ensures
            r.wf(),
            r@ == chars@,
            info_ok(r.info, chars@, default_eol),
    {
        let info = TextBufferInfo::new_with_meta(&chars, default_eol);
        let n = chars.len();
        let original = Buffer::from_chars(chars);
        let mut tb = TextBuffer {
            info,
            original,
            changed: Vec::new(),
            nodes: Vec::new(),
            cache: PieceTreeSearchCache::new(),
            total_len: 0,
            total_lines: 1,
        };
        proof {
            assert(tb.nodes@.len() == 0);
            assert(cat(tb.original, tb.changed@, tb.nodes@) =~= Seq::<char>::empty());
            assert(sum_len(tb.nodes@) == 0);
            assert(sum_lfc(tb.nodes@) == 0);
        }
        if n > 0 {
            proof {
                lemma_buffer_line_starts(tb.original);
            }
            let lslen = tb.original.line_starts.len();
            let last_start = tb.original.line_starts[lslen - 1];
            let piece = Piece {
                buffer_index: None,
                start: BufferCursor { line: 0, column: 0 },
                end: BufferCursor { line: lslen - 1, column: n - last_start },
                len: n,
                line_feed_count: lslen - 1,
            };
            let node = Node { piece, left_size: 0, left_line_feed_count: 0 };
            proof {
                assert(cursor_off(tb.original, piece.start) == 0);
                assert(cursor_off(tb.original, piece.end) == n as int);
                assert(piece_chars(tb.original, tb.changed@, piece) =~= tb.original.value@);
                assert(piece_valid(tb.original, tb.changed@, piece));
            }
            tb.nodes.push(node);
            tb.total_len = n;
            tb.total_lines = lslen;
            proof {
                lemma_cat_singleton(tb.original, tb.changed@, node);
                assert(tb.nodes@ =~= seq![node]);
                assert(tb.nodes@.subrange(0, 0) =~= Seq::<Node>::empty());
                assert(tb@ =~= tb.original.value@);
            }
        }
        tb
    }

    /// Builds a document holding exactly the given text. A leading
    /// byte-order mark flips the encoding flag but stays part of the text;
    /// the end-of-line preference only disambiguates terminator style for
    /// payloads that contain no terminator.
    pub fn new(text: &str, default_eol: DefaultEOL) -> (r: TextBuffer)
        ensures
            r.wf(),
            r@ == text@,
            r.has_bom_spec() == (text@.len() > 0 && text@[0] == '\u{feff}'),
            r.is_ascii_spec() == all_ascii(text@),
            r.uses_crlf_spec() == crlf_detected(text@, default_eol),
    {
        let chars = str_to_char_vec(text);
        proof {
            lemma_break_kinds_total(text@, 0);
            assert(default_eol == DefaultEOL::LF || default_eol == DefaultEOL::CRLF);
        }
        TextBuffer::from_chars(chars, default_eol)
    }

    /// Whether the construction payload began with a byte-order mark. The
    /// flag affects serialization choices of the host, never indexing: the
    /// mark stays part of the text.
    pub closed spec fn has_bom_spec(&self) -> bool {
        self.info.encoding == CharacterEncoding::Utf8WithBom
    }

    /// Whether the construction payload was pure ASCII.
    pub closed spec fn is_ascii_spec(&self) -> bool {
        self.info.is_ascii
    }

    /// Whether the document's detected terminator style is CRLF.
    pub closed spec fn uses_crlf_spec(&self) -> bool {
        self.info.eol == EOL::CRLF
    }

    /// Whether the construction payload began with a byte-order mark.
    pub fn has_bom(&self) -> (r: bool)
        ensures
            r == self.has_bom_spec(),
    {
        matches!(self.info.encoding, CharacterEncoding::Utf8WithBom)
    }

    /// Whether the construction payload was pure ASCII.
    pub fn is_ascii_text(&self) -> (r: bool)
        ensures
            r == self.is_ascii_spec(),
    {
        self.info.is_ascii
    }

    /// Whether the document's detected terminator style is CRLF.
    pub fn uses_crlf(&self) -> (r: bool)
        ensures
            r == self.uses_crlf_spec(),
    {
        matches!(self.info.eol, EOL::CRLF)
    }

    /// The document's total character count.
    pub fn length(&self) -> (r: usize)
        requires
            self.wf(),
        ensures
            r == self@.len(),
    {
        proof {
            lemma_cat_len(self.original, self.changed@, self.nodes@);
        }
        self.total_len
    }

    /// The document's line count: its terminator count (a CRLF pair counting
    /// once) plus one.
    pub fn line_count(&self) -> (r: usize)
        requires
            self.wf(),
        ensures
            r as int == line_break_count(self@) + 1,
    {
        proof {
            lemma_cat_lfc(self.original, self.changed@, self.nodes@);
        }
        self.total_lines
    }

    /// The full document text, as a character vector, by in-order traversal
    /// of the pieces.
    #[verifier::spinoff_prover]
    #[verifier::rlimit(100)]
    pub fn to_char_vec(&self) -> (r: Vec<char>)
        requires
            self.wf(),
        ensures
            r@ == self@,
    {
        let ghost orig = self.original;
        let ghost ch = self.changed@;
        let mut out: Vec<char> = Vec::new();
        let mut k: usize = 0;
        proof {
            assert(self.nodes@.subrange(0, 0) =~= Seq::<Node>::empty());
        }
        while k < self.nodes.len()
            invariant
                self.wf(),
                orig == self.original,
                ch == self.changed@,
                k <= self.nodes@.len(),
                out@ == cat(orig, ch, self.nodes@.subrange(0, k as int)),
            decreases self.nodes@.len() - k,
        {
            let node = self.nodes[k];
            proof {
                assert(piece_valid(orig, ch, node.piece));
            }
            let b: &Buffer = match node.piece.buffer_index {
                None => &self.original,
                Some(bi) => {
                    assert(bi < self.changed@.len());
                    &self.changed[bi]
                },
            };
            let so = b.offset_of(node.piece.start);
            let eo = b.offset_of(node.piece.end);
            let ghost pc = piece_chars(orig, ch, node.piece);
            let mut i = so;
            while i < eo
                invariant
                    so <= i <= eo,
                    eo as int <= b.value@.len(),
                    pc == b.value@.subrange(so as int, eo as int),
                    out@ == cat(orig, ch, self.nodes@.subrange(0, k as int)) + pc.subrange(
                        0,
                        i - so,
                    ),
                    orig == self.original,
                    ch == self.changed@,
                decreases eo - i,
            {
                proof {
                    assert(pc.subrange(0, i - so).push(b.value@[i as int]) =~= pc.subrange(
                        0,
                        i + 1 - so,
                    ));
                }
                out.push(b.value[i]);
                i = i + 1;
            }
            proof {
                assert(pc.subrange(0, eo - so) =~= pc);
                lemma_cat_app(orig, ch, self.nodes@.subrange(0, k as int), seq![node]);
                lemma_cat_singleton(orig, ch, node);
                assert(self.nodes@.subrange(0, k as int) + seq![node] =~= self.nodes@.subrange(
                    0,
                    k + 1,
                ));
            }
            k = k + 1;
        }
        proof {
            assert(self.nodes@.subrange(0, self.nodes@.len() as int) =~= self.nodes@);
        }
        out
    }

    /// The full document text as a string.
    pub fn to_text(&self) -> (r: String)
        requires
            self.wf(),
        ensures
            r@ == self@,
    {
        let v = self.to_char_vec();
        char_vec_to_string(&v)
    }

    /// The full document text as a string.
    pub fn to_string(&self) -> (r: String)
        requires
            self.wf(),
        ensures
            r@ == self@,
    {
        self.to_text()
    }
}

impl TextBuffer {
    /// Inserts `value` at character offset `offset`. An offset beyond the
    /// document end is rejected before any mutation; empty text is a no-op.
    #[verifier::spinoff_prover]
    #[verifier::rlimit(100)]
    pub fn insert(&mut self, offset: usize, value: &str) -> (r: Result<(), BufferError>)
        requires
            old(self).wf(),
            old(self)@.len() + value@.len() < usize::MAX,
        ensures
            final(self).wf(),
            r is Ok <==> offset as int <= old(self)@.len(),
            r is Ok ==> final(self)@ == inserted(old(self)@, offset as int, value@),
            r is Err ==> final(self)@ == old(self)@ && r == Err::<(), BufferError>(
                BufferError::OutOfRange,
            ),
    {
        let len = self.length();
        if offset > len {
            return Err(BufferError::OutOfRange);
        }
        let chars = str_to_char_vec(value);
        if chars.len() == 0 {
            proof {
                assert(inserted(self@, offset as int, value@) =~= self@);
            }
            return Ok(());
        }
        if self.try_append(offset, &chars) {
            return Ok(());
        }
        let ghost orig = self.original;
        let ghost ch_before = self.changed@;
        let ghost ns = self.nodes@;
        let node = self.push_text_node(chars);
        proof {
            assert(forall|k: int|
                0 <= k < ns.len() ==> piece_valid(orig, ch_before, (#[trigger] ns[k]).piece));
            lemma_cat_grow(orig, ch_before, self.changed@, ns);
            assert forall|k: int| 0 <= k && k + 1 < ns.len() implies no_split_at(
                orig,
                self.changed@,
                ns,
                k,
            ) by {
                assert(no_split_at(orig, ch_before, ns, k));
            }
            assert(self.wf());
            assert(self@ == old(self)@);
        }
        self.splice_text(offset, 0, Some(node), Ghost(value@));
        proof {
            assert(final(self)@ == inserted(old(self)@, offset as int, value@));
        }
        Ok(())
    }

    /// Deletes `count` characters starting at offset `offset`. A start
    /// beyond the document end, or a count extending past it, is rejected
    /// before any mutation; a zero count is a no-op.
    #[verifier::spinoff_prover]
    #[verifier::rlimit(100)]
    pub fn delete(&mut self, offset: usize, count: usize) -> (r: Result<(), BufferError>)
        requires
            old(self).wf(),
        ensures
            final(self).wf(),
            r is Ok <==> offset as int + count as int <= old(self)@.len(),
            r is Ok ==> final(self)@ == deleted(old(self)@, offset as int, count as int),
            r is Err ==> final(self)@ == old(self)@,
            (offset as int) > old(self)@.len() ==> r == Err::<(), BufferError>(
                BufferError::OutOfRange,
            ),
            (offset as int) <= old(self)@.len() && offset as int + count as int > old(
                self,
            )@.len() ==> r == Err::<(), BufferError>(BufferError::InvalidEdit),
    {
        let len = self.length();
        if offset > len {
            return Err(BufferError::OutOfRange);
        }
        if count > len - offset {
            return Err(BufferError::InvalidEdit);
        }
        if count == 0 {
            proof {
                assert(deleted(self@, offset as int, 0) =~= self@);
            }
            return Ok(());
        }
        self.splice_text(offset, count, None, Ghost(Seq::<char>::empty()));
        proof {
            assert(final(self)@ == deleted(old(self)@, offset as int, count as int));
        }
        Ok(())
    }

    /// The append fast path for consecutive typing: when the insert point
    /// is exactly the end of a piece that ends the current changed buffer,
    /// the buffer grows and the piece's end cursor and caches grow in
    /// place; no node is created. Returns whether it applied; boundaries
    /// that would need the CRLF fix-up fall back to the general path.
    #[verifier::spinoff_prover]
    #[verifier::rlimit(100)]
    fn try_append(&mut self, offset: usize, chars: &Vec<char>) -> (applied: bool)
        requires
            old(self).wf(),
            chars@.len() > 0,
            offset as int <= old(self)@.len(),
            old(self)@.len() + chars@.len() < usize::MAX,
        ensures
            final(self).wf(),
            applied ==> final(self)@ == inserted(old(self)@, offset as int, chars@),
            !applied ==> *final(self) == *old(self),
    {
        let ghost orig = self.original;
        let ghost ch0 = self.changed@;
        let ghost ns = self.nodes@;
        let ghost s = self@;
        proof {
            lemma_cat_len(orig, ch0, ns);
        }
        if offset == 0 || self.changed.len() == 0 {
            return false;
        }
        let loc = self.locate_by_offset(offset - 1);
        let idx = loc.0;
        let st = loc.1;
        let node = self.nodes[idx];
        proof {
            lemma_sum_prefix_step(ns, idx as int);
            lemma_sum_prefix_mono(ns, idx as int + 1, ns.len() as int);
            assert(ns.subrange(0, ns.len() as int) =~= ns);
        }
        if st + node.piece.len != offset {
            return false;
        }
        let ci = self.changed.len() - 1;
        let eligible = match node.piece.buffer_index {
            Some(i) => i == ci,
            None => false,
        };
        if !eligible {
            return false;
        }
        proof {
            assert(piece_valid(orig, ch0, node.piece));
        }
        let ghost oldpc = piece_chars(orig, ch0, node.piece);
        let so: usize;
        let eo: usize;
        {
            let b = self.get_buffer(node.piece.buffer_index);
            so = b.offset_of(node.piece.start);
            eo = b.offset_of(node.piece.end);
            if eo != b.value.len() {
                return false;
            }
        }
        // A CRLF pair forming at either end of the appended text would call
        // for the boundary fix-up: leave those to the general path.
        if self.piece_last_char(node.piece) == '\r' && chars[0] == '\n' {
            return false;
        }
        if chars[chars.len() - 1] == '\r' && idx + 1 < self.nodes.len() {
            proof {
                assert(piece_valid(orig, ch0, ns[idx as int + 1].piece));
            }
            let nxt = self.nodes[idx + 1];
            if self.piece_first_char(nxt.piece) == '\n' {
                return false;
            }
        }
        let ghost vold = self.changed@[ci as int].value@;
        let ghost lsold = self.changed@[ci as int].line_starts@;
        // Grow the buffer: its old content, then the typed text.
        let mut newval: Vec<char> = Vec::new();
        let mut i: usize = 0;
        while i < self.changed[ci].value.len()
            invariant
                ci < self.changed@.len(),
                vold == self.changed@[ci as int].value@,
                i <= vold.len(),
                newval@ == vold.subrange(0, i as int),
            decreases vold.len() - i,
        {
            proof {
                assert(vold.subrange(0, i as int).push(vold[i as int]) =~= vold.subrange(
                    0,
                    i + 1,
                ));
            }
            let c = self.changed[ci].value[i];
            newval.push(c);
            i = i + 1;
        }
        proof {
            assert(vold.subrange(0, vold.len() as int) =~= vold);
        }
        let mut j: usize = 0;
        while j < chars.len()
            invariant
                j <= chars@.len(),
                newval@ == vold + chars@.subrange(0, j as int),
            decreases chars@.len() - j,
        {
            proof {
                assert((vold + chars@.subrange(0, j as int)).push(chars@[j as int]) =~= vold
                    + chars@.subrange(0, j + 1));
            }
            let c = chars[j];
            newval.push(c);
            j = j + 1;
        }
        proof {
            assert(vold + chars@.subrange(0, chars@.len() as int) =~= vold + chars@);
        }
        let nb = Buffer::from_chars(newval);
        proof {
            // The old buffer ends with the piece's last character, which is
            // not a CR met by an arriving LF: every old line start stays.
            assert(vold.len() > 0 && vold[vold.len() - 1] == oldpc.last());
            lemma_line_starts_prefix(vold, chars@);
            lemma_buffer_line_starts(self.changed@[ci as int]);
            lemma_buffer_line_starts(nb);
            assert forall|m: int| 0 <= m < lsold.len() implies #[trigger] nb.line_starts@[m]
                == lsold[m] by {
                assert(as_ints(lsold)[m] == line_starts_spec(vold)[m]);
                assert(as_ints(nb.line_starts@)[m] == line_starts_spec(vold + chars@)[m]);
            }
        }
        self.changed.set(ci, nb);
        let ghost ch1 = self.changed@;
        proof {
            assert(forall|k: int|
                0 <= k < ns.len() ==> piece_valid(orig, ch0, (#[trigger] ns[k]).piece));
            lemma_cat_extend(orig, ch0, ch1, ci as int, ns);
        }
        // Grow the piece: same start, end at the new buffer end, caches up
        // by the typed text's measures.
        let newend_off: usize;
        let newend: BufferCursor;
        {
            let b2 = self.get_buffer(node.piece.buffer_index);
            newend_off = b2.value.len();
            newend = b2.cursor_at(newend_off);
        }
        let tlfc = count_line_breaks(chars, 0, chars.len());
        proof {
            assert(chars@.subrange(0, chars@.len() as int) =~= chars@);
            assert(oldpc =~= vold.subrange(so as int, eo as int));
            lemma_line_break_count_concat(oldpc, chars@);
            lemma_break_count_bound(chars@, 0);
            lemma_break_count_bound(oldpc + chars@, 0);
        }
        let newpiece = Piece {
            buffer_index: node.piece.buffer_index,
            start: node.piece.start,
            end: newend,
            len: node.piece.len + chars.len(),
            line_feed_count: node.piece.line_feed_count + tlfc,
        };
        let ghost newpc = oldpc + chars@;
        proof {
            let b2 = ch1[ci as int];
            assert(cursor_off(b2, newpiece.start) == so as int);
            assert(cursor_off(b2, newpiece.end) == newend_off as int);
            assert(b2.value@.subrange(so as int, newend_off as int) =~= newpc);
            assert(piece_valid(orig, ch1, newpiece));
            assert(piece_chars(orig, ch1, newpiece) == newpc);
        }
        self.nodes.set(
            idx,
            Node {
                piece: newpiece,
                left_size: node.left_size,
                left_line_feed_count: node.left_line_feed_count,
            },
        );
        let ghost ns2 = self.nodes@;
        proof {
            lemma_append_result(orig, ch0, ch1, ns, ns2, idx as int, oldpc, chars@, s, offset as int);
            lemma_cat_len(orig, ch1, ns2);
            lemma_cat_lfc(orig, ch1, ns2);
            lemma_break_count_bound(cat(orig, ch1, ns2), 0);
        }
        self.recompute_metadata();
        self.cache.validate(offset);
        if idx < self.nodes.len() {
            let st2 = self.nodes[idx].left_size;
            if st2 <= offset {
                self.cache.set_position(
                    CachedPosition { node_index: idx, node_start_offset: st2 },
                );
            }
        }
        true
    }

    /// Aggregate-integrity hook: recomputes from scratch what every cache
    /// holds -- each piece's length and terminator count from its buffer,
    /// each node's left-subtree totals, and the document totals -- and
    /// compares with the maintained values. Proved to always pass.
    #[verifier::spinoff_prover]
    #[verifier::rlimit(100)]
    pub fn check_integrity(&self) -> (r: bool)
        requires
            self.wf(),
        ensures
            r,
    {
        let ghost orig = self.original;
        let ghost ch = self.changed@;
        let ghost ns = self.nodes@;
        let mut acc_len: usize = 0;
        let mut acc_lfc: usize = 0;
        let mut k: usize = 0;
        proof {
            assert(ns.subrange(0, 0) =~= Seq::<Node>::empty());
        }
        while k < self.nodes.len()
            invariant
                self.wf(),
                orig == self.original,
                ch == self.changed@,
                ns == self.nodes@,
                k <= ns.len(),
                acc_len as int == sum_len(ns.subrange(0, k as int)),
                acc_lfc as int == sum_lfc(ns.subrange(0, k as int)),
            decreases ns.len() - k,
        {
            let node = self.nodes[k];
            proof {
                assert(piece_valid(orig, ch, node.piece));
            }
            let b = self.get_buffer(node.piece.buffer_index);
            let so = b.offset_of(node.piece.start);
            let eo = b.offset_of(node.piece.end);
            let lfc = count_line_breaks(&b.value, so, eo);
            if node.piece.len != eo - so || node.piece.len == 0 {
                return false;
            }
            if node.piece.line_feed_count != lfc {
                return false;
            }
            if node.left_size != acc_len || node.left_line_feed_count != acc_lfc {
                return false;
            }
            proof {
                lemma_sum_prefix_step(ns, k as int);
                lemma_sum_app(ns.subrange(0, k + 1), ns.subrange(k + 1, ns.len() as int));
                assert(ns.subrange(0, k + 1) + ns.subrange(k + 1, ns.len() as int) =~= ns);
                lemma_sum_nonneg(ns.subrange(k + 1, ns.len() as int));
                lemma_cat_len(orig, ch, ns);
                lemma_cat_lfc(orig, ch, ns);
                lemma_sum_nonneg(ns.subrange(0, k as int));
            }
            acc_len = acc_len + node.piece.len;
            acc_lfc = acc_lfc + node.piece.line_feed_count;
            k = k + 1;
        }
        proof {
            assert(ns.subrange(0, ns.len() as int) =~= ns);
        }
        if self.total_len != acc_len {
            return false;
        }
        if self.total_lines != acc_lfc + 1 {
            return false;
        }
        true
    }

    /// CRLF-integrity hook: checks that no piece boundary splits a CR-LF
    /// pair, so a pair is never counted as two terminators. Proved to
    /// always pass.
    pub fn check_crlf_unsplit(&self) -> (r: bool)
        requires
            self.wf(),
        ensures
            r,
    {
        let ghost orig = self.original;
        let ghost ch = self.changed@;
        let ghost ns = self.nodes@;
        let n = self.nodes.len();
        if n == 0 {
            return true;
        }
        let mut k: usize = 0;
        while k + 1 < n
            invariant
                self.wf(),
                orig == self.original,
                ch == self.changed@,
                ns == self.nodes@,
                n == ns.len(),
                k < n,
            decreases n - k,
        {
            proof {
                assert(piece_valid(orig, ch, ns[k as int].piece));
                assert(piece_valid(orig, ch, ns[k as int + 1].piece));
            }
            let last = self.piece_last_char(self.nodes[k].piece);
            let first = self.piece_first_char(self.nodes[k + 1].piece);
            if last == '\r' && first == '\n' {
                proof {
                    assert(no_split_at(orig, ch, ns, k as int));
                }
                return false;
            }
            k = k + 1;
        }
        true
    }
}

/// The text that results from inserting `t` at offset `o` of `s`.
pub open spec fn inserted(s: Seq<char>, o: int, t: Seq<char>) -> Seq<char> {
    s.subrange(0, o) + t + s.subrange(o, s.len() as int)
}

/// The text that results from deleting `c` characters at offset `o` of `s`.
pub open spec fn deleted(s: Seq<char>, o: int, c: int) -> Seq<char> {
    s.subrange(0, o) + s.subrange(o + c, s.len() as int)
}

/// Law: deleting, right after an insertion, the inserted text's range
/// restores the original document exactly.
pub proof fn lemma_insert_delete_inverse(s: Seq<char>, o: int, t: Seq<char>)
    requires
        0 <= o <= s.len(),
    ensures
        deleted(inserted(s, o, t), o, t.len() as int) == s,
{
    assert(deleted(inserted(s, o, t), o, t.len() as int) =~= s);
}

impl TextBuffer {
    /// The character at document offset `offset`.
    pub fn char_at(&self, offset: usize) -> (c: char)
        requires
            self.wf(),
            (offset as int) < self@.len(),
        ensures
            c == self@[offset as int],
    {
        proof {
            lemma_cat_len(self.original, self.changed@, self.nodes@);
        }
        self.char_at_inner(offset)
    }

    /// The character at document offset `offset`, against the bare piece
    /// and aggregate invariants.
    #[verifier::spinoff_prover]
    #[verifier::rlimit(100)]
    fn char_at_inner(&self, offset: usize) -> (c: char)
        requires
            self.pieces_ok(),
            self.aggregates_ok(),
            (offset as int) < sum_len(self.nodes@),
        ensures
            c == self@[offset as int],
    {
        let ghost orig = self.original;
        let ghost ch = self.changed@;
        let ghost ns = self.nodes@;
        proof {
            lemma_cat_len(orig, ch, ns);
        }
        let loc = self.locate_by_offset(offset);
        let k = loc.0;
        let sk = loc.1;
        let rr = offset - sk;
        proof {
            lemma_node_content(orig, ch, ns, k as int);
            lemma_sum_prefix_step(ns, k as int);
            lemma_sum_prefix_mono(ns, k as int + 1, ns.len() as int);
            assert(ns.subrange(0, ns.len() as int) =~= ns);
            assert(piece_valid(orig, ch, ns[k as int].piece));
        }
        let node = self.nodes[k];
        let b = self.get_buffer(node.piece.buffer_index);
        let so = b.offset_of(node.piece.start);
        let vlen = b.value.len();
        assert(so + rr < vlen);
        proof {
            assert(piece_chars(orig, ch, node.piece)[rr as int] == self@[offset as int]);
        }
        b.value[so + rr]
    }

    /// The offset of the first character of line `line` (line 0 starts at
    /// offset 0): locates the piece holding the line's opening terminator
    /// through the cached aggregates, then scans only that piece.
    #[verifier::spinoff_prover]
    #[verifier::rlimit(100)]
    #[verifier::loop_isolation(false)]
    fn line_start(&self, line: usize) -> (r: usize)
        requires
            self.wf(),
            (line as int) <= line_break_count(self@),
        ensures
            r as int == line_starts_spec(self@)[line as int],
    {
        let ghost orig = self.original;
        let ghost ch = self.changed@;
        let ghost ns = self.nodes@;
        let ghost s = self@;
        if line == 0 {
            return 0;
        }
        proof {
            lemma_cat_lfc(orig, ch, ns);
            lemma_cat_len(orig, ch, ns);
            assert(ns.subrange(0, 0) =~= Seq::<Node>::empty());
            assert(ns.subrange(0, ns.len() as int) =~= ns);
        }
        let mut q: usize = 0;
        proof {
            if ns.len() == 0 {
                assert(sum_lfc(ns) == 0);
            }
            lemma_sum_prefix_step(ns, 0);
        }
        while self.nodes[q].piece.line_feed_count < line - self.nodes[q].left_line_feed_count
            invariant
                (q as int) < ns.len(),
                sum_lfc(ns.subrange(0, q as int)) < line,
            decreases ns.len() - q,
        {
            proof {
                lemma_sum_prefix_step(ns, q as int);
                if q as int + 1 == ns.len() {
                    assert(ns.subrange(0, ns.len() as int) =~= ns);
                    assert(false);
                }
                lemma_sum_prefix_step(ns, q as int + 1);
            }
            q = q + 1;
        }
        let node = self.nodes[q];
        proof {
            lemma_sum_prefix_step(ns, q as int);
            assert(piece_valid(orig, ch, node.piece));
            lemma_sum_nonneg(ns.subrange(0, q as int));
        }
        let j = line - 1 - node.left_line_feed_count;
        let b = self.get_buffer(node.piece.buffer_index);
        let so = b.offset_of(node.piece.start);
        let eo = b.offset_of(node.piece.end);
        let ghost pcq = piece_chars(orig, ch, node.piece);
        proof {
            assert(b.value@.subrange(so as int, eo as int) =~= pcq);
        }
        let p = nth_break_end(&b.value, so, eo, j);
        proof {
            lemma_cat_entry(orig, ch, ns, q as int, j as int);
            lemma_break_ends_props(s, 0);
            assert(break_ends_from(s, 0)[line - 1] == node.left_size as int + p as int);
            assert(line_starts_spec(s)[line as int] == break_ends_from(s, 0)[line - 1]);
            assert(node.left_size as int + p as int <= s.len());
        }
        node.left_size + p
    }

    /// The (line, column) position of character offset `offset`: the line
    /// holding it, and the distance from that line's start. An offset
    /// beyond the document end is rejected.
    #[verifier::spinoff_prover]
    #[verifier::rlimit(100)]
    pub fn position_at(&self, offset: usize) -> (r: Result<(usize, usize), BufferError>)
        requires
            self.wf(),
        ensures
            r is Ok <==> offset as int <= self@.len(),
            r is Ok ==> ({
                let line = line_of(self@, offset as int);
                r->Ok_0.0 as int == line && r->Ok_0.1 as int == offset - line_starts_spec(self@)[
                    line]
            }),
            r is Err ==> r == Err::<(usize, usize), BufferError>(BufferError::OutOfRange),
    {
        let ghost orig = self.original;
        let ghost ch = self.changed@;
        let ghost ns = self.nodes@;
        let ghost s = self@;
        let len = self.length();
        if offset > len {
            return Err(BufferError::OutOfRange);
        }
        let part: usize;
        if offset == len {
            proof {
                lemma_cat_lfc(orig, ch, ns);
                assert(s.subrange(0, offset as int) =~= s);
            }
            part = self.total_lines - 1;
        } else {
            proof {
                lemma_cat_len(orig, ch, ns);
            }
            let loc = self.locate_by_offset(offset);
            let q = loc.0;
            let sq = loc.1;
            let rr = offset - sq;
            proof {
                assert(piece_valid(orig, ch, ns[q as int].piece));
                lemma_prefix_lfc(orig, ch, ns, q as int, rr as int);
                lemma_break_count_bound(s.subrange(0, offset as int), 0);
            }
            let node = self.nodes[q];
            let b = self.get_buffer(node.piece.buffer_index);
            let so = b.offset_of(node.piece.start);
            let vlen = b.value.len();
            assert(so + rr <= vlen);
            let ghost pcq = piece_chars(orig, ch, node.piece);
            proof {
                assert(b.value@.subrange(so as int, so as int + rr as int) =~= pcq.subrange(
                    0,
                    rr as int,
                ));
            }
            let local = count_line_breaks(&b.value, so, so + rr);
            part = node.left_line_feed_count + local;
        }
        proof {
            lemma_line_of_prefix(s, offset as int);
        }
        let cut = offset > 0 && offset < len && self.char_at(offset - 1) == '\r' && self.char_at(
            offset,
        ) == '\n';
        let line = if cut {
            part - 1
        } else {
            part
        };
        let start = self.line_start(line);
        Ok((line, offset - start))
    }

    /// The character offset of position (`line`, `column`): the line's
    /// start plus the column. Rejected when the line does not exist or the
    /// column runs past the line's span (its content and terminator).
    #[verifier::spinoff_prover]
    #[verifier::rlimit(100)]
    pub fn offset_at(&self, line: usize, column: usize) -> (r: Result<usize, BufferError>)
        requires
            self.wf(),
        ensures
            r is Ok <==> ({
                let ls = line_starts_spec(self@);
                &&& (line as int) < ls.len()
                &&& ls[line as int] + column <= self@.len()
                &&& (line as int + 1 < ls.len() ==> ls[line as int] + column < ls[line as int + 1])
            }),
            r is Ok ==> r->Ok_0 as int == line_starts_spec(self@)[line as int] + column,
            r is Err ==> r == Err::<usize, BufferError>(BufferError::OutOfRange),
    {
        let ghost s = self@;
        let lines = self.line_count();
        let len = self.length();
        if line >= lines {
            return Err(BufferError::OutOfRange);
        }
        let start = self.line_start(line);
        proof {
            lemma_break_ends_props(s, 0);
        }
        if column > len - start {
            return Err(BufferError::OutOfRange);
        }
        if line + 1 < lines {
            let next = self.line_start(line + 1);
            if start + column >= next {
                return Err(BufferError::OutOfRange);
            }
        }
        Ok(start + column)
    }

    /// The text of line `line`, without its terminator. Rejected when the
    /// line does not exist.
    #[verifier::spinoff_prover]
    #[verifier::rlimit(100)]
    pub fn line_content(&self, line: usize) -> (r: Result<String, BufferError>)
        requires
            self.wf(),
        ensures
            r is Ok <==> (line as int) < line_starts_spec(self@).len(),
            r is Ok ==> r->Ok_0@ == line_content_spec(self@, line as int),
            r is Err ==> r == Err::<String, BufferError>(BufferError::OutOfRange),
    {
        let ghost s = self@;
        let lines = self.line_count();
        let len = self.length();
        if line >= lines {
            return Err(BufferError::OutOfRange);
        }
        let start = self.line_start(line);
        proof {
            lemma_break_ends_props(s, 0);
        }
        let content_end: usize;
        if line + 1 < lines {
            let e = self.line_start(line + 1);
            let term: usize = if self.char_at(e - 1) == '\n' && e >= 2 && e - 2 >= start
                && self.char_at(e - 2) == '\r' {
                2
            } else {
                1
            };
            content_end = e - term;
        } else {
            content_end = len;
        }
        let mut v: Vec<char> = Vec::new();
        let mut i = start;
        proof {
            assert(v@ =~= s.subrange(start as int, start as int));
        }
        while i < content_end
            invariant
                self.wf(),
                s == self@,
                start <= i <= content_end,
                content_end as int <= s.len(),
                v@ == s.subrange(start as int, i as int),
            decreases content_end - i,
    {
            proof {
                assert(s.subrange(start as int, i as int).push(s[i as int]) =~= s.subrange(
                    start as int,
                    i + 1,
                ));
            }
            let c = self.char_at(i);
            v.push(c);
            i = i + 1;
        }
        Ok(char_vec_to_string(&v))
    }

    /// The text of the character range `[from, to)`. Rejected when the
    /// bounds are out of order or run past the document end.
    pub fn text_range(&self, from: usize, to: usize) -> (r: Result<String, BufferError>)
        requires
            self.wf(),
        ensures
            r is Ok <==> from <= to && to as int <= self@.len(),
            r is Ok ==> r->Ok_0@ == self@.subrange(from as int, to as int),
            r is Err ==> r == Err::<String, BufferError>(BufferError::OutOfRange),
    {
        let ghost s = self@;
        let len = self.length();
        if from > to || to > len {
            return Err(BufferError::OutOfRange);
        }
        let mut v: Vec<char> = Vec::new();
        let mut i = from;
        proof {
            assert(v@ =~= s.subrange(from as int, from as int));
        }
        while i < to
            invariant
                self.wf(),
                s == self@,
                from <= i <= to,
                to as int <= s.len(),
                v@ == s.subrange(from as int, i as int),
            decreases to - i,
        {
            proof {
                assert(s.subrange(from as int, i as int).push(s[i as int]) =~= s.subrange(
                    from as int,
                    i + 1,
                ));
            }
            let c = self.char_at(i);
            v.push(c);
            i = i + 1;
        }
        Ok(char_vec_to_string(&v))
    }
}

/// Finds the end offset, relative to `from`, of the `idx`-th line
/// terminator in the character range `[from, to)` of `text`.
#[verifier::spinoff_prover]
#[verifier::rlimit(100)]
fn nth_break_end(text: &Vec<char>, from: usize, to: usize, idx: usize) -> (r: usize)
    requires
        from <= to <= text@.len(),
        (idx as int) < line_break_count(text@.subrange(from as int, to as int)),
    ensures
        r as int == break_ends_from(text@.subrange(from as int, to as int), 0)[idx as int],
{
    let ghost sub = text@.subrange(from as int, to as int);
    let n = to - from;
    let mut cnt: usize = 0;
    let mut j: usize = 0;
    while j < n
        invariant
            from + n <= text@.len(),
            n == to - from,
            sub == text@.subrange(from as int, to as int),
            j <= n,
            cnt <= idx,
            (idx as int) < line_break_count(sub),
            cnt as int + break_ends_from(sub, j as int).len() == line_break_count(sub),
            forall|m: int|
                cnt <= m < line_break_count(sub) ==> #[trigger] break_ends_from(sub, 0)[m]
                    == break_ends_from(sub, j as int)[m - cnt],
        decreases n - j,
    {
        let c = text[from + j];
        assert(c == sub[j as int]);
        let d: usize;
        if c == '\r' {
            if j + 1 < n && text[from + j + 1] == '\n' {
                assert(text@[from + j + 1] == sub[j + 1int]);
                d = 2;
            } else {
                if j + 1 < n {
                    assert(text@[from + j + 1] == sub[j + 1int]);
                }
                d = 1;
            }
        } else if c == '\n' {
            d = 1;
        } else {
            d = 0;
        }
        if d > 0 {
            proof {
                assert(break_ends_from(sub, j as int) == seq![j + d] + break_ends_from(
                    sub,
                    j as int + d,
                ));
            }
            if cnt == idx {
                proof {
                    assert(break_ends_from(sub, 0)[idx as int] == break_ends_from(
                        sub,
                        j as int,
                    )[0]);
                }
                return j + d;
            }
            cnt = cnt + 1;
            j = j + d;
        } else {
            j = j + 1;
        }
    }
    proof {
        assert(break_ends_from(sub, n as int).len() == 0);
        assert(false);
    }
    0
}

impl Default for TextBuffer {
    /// An empty document with the LF end-of-line preference.
    fn default() -> (r: TextBuffer)
        ensures
            r.wf(),
            r@ == Seq::<char>::empty(),
    {
        let r = TextBuffer::new("", DefaultEOL::LF);
        proof {
            reveal_strlit("");
            assert(r@ =~= Seq::<char>::empty());
        }
        r
    }
}

} // verus!
