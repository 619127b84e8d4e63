use vstd::prelude::*;

verus! {

/// The glyph id of the missing glyph.
pub const MISSING_GLYPH: u16 = 0;

/// An inclusive range of codepoints.
#[derive(Clone, Copy, Debug, PartialEq, Eq, Structural)]
pub struct CodepointRange {
    pub start: u32,
    pub end: u32,
}

impl CodepointRange {
    pub open spec fn contains(self, c: int) -> bool {
        self.start <= c <= self.end
    }
}

/// An inclusive range of glyph ids.
#[derive(Clone, Copy, Debug, PartialEq, Eq, Structural)]
pub struct GlyphRange {
    pub start: u16,
    pub end: u16,
}

/// A run of codepoints, starting at `codepoint_start`, mapped to a run of glyph ids.
#[derive(Clone, Copy, Debug, PartialEq, Eq, Structural)]
pub struct MappedGlyphRange {
    pub codepoint_start: u32,
    pub glyphs: GlyphRange,
}

/// The answer to a query: mapped runs in the order their codepoints were consumed.
#[derive(Clone, Debug)]
pub struct GlyphMapping {
    pub ranges: Vec<MappedGlyphRange>,
}

impl View for GlyphMapping {
    type V = Seq<MappedGlyphRange>;

    open spec fn view(&self) -> Seq<MappedGlyphRange> {
        self.ranges@
    }
}

impl GlyphMapping {
    pub fn new() -> (r: GlyphMapping)
        ensures
            r@ == Seq::<MappedGlyphRange>::empty(),
    {
        GlyphMapping { ranges: Vec::new() }
    }

    pub fn push(&mut self, range: MappedGlyphRange)
        ensures
            final(self)@ == old(self)@.push(range),
    {
        self.ranges.push(range);
    }
}

/// An emitted entry together with the last codepoint it covers.
///
/// The entry itself does not record where its codepoints end; the model of a query keeps
/// that bound beside it.
pub struct Run {
    pub entry: MappedGlyphRange,
    pub last: int,
}

impl Run {
    pub open spec fn first(self) -> int {
        self.entry.codepoint_start as int
    }

    pub open spec fn covers(self, c: int) -> bool {
        self.first() <= c <= self.last
    }
}

/// `x` reduced modulo 2^16.
pub open spec fn wrap16(x: int) -> int {
    x % 0x10000
}

/// The run `[first, last]` mapped to glyphs `[g_first, g_last]`.
pub open spec fn run(first: int, last: int, g_first: int, g_last: int) -> Run {
    Run {
        entry: MappedGlyphRange {
            codepoint_start: first as u32,
            glyphs: GlyphRange { start: g_first as u16, end: g_last as u16 },
        },
        last,
    }
}

/// The one-codepoint run of `c` to the missing glyph.
pub open spec fn missing_run(c: int) -> Run {
    run(c, c, MISSING_GLYPH as int, MISSING_GLYPH as int)
}

/// The entries of a sequence of runs.
pub open spec fn entries(rs: Seq<Run>) -> Seq<MappedGlyphRange> {
    rs.map_values(|r: Run| r.entry)
}

/// The entries of the runs of every range, range after range.
pub open spec fn flat_entries(rss: Seq<Seq<Run>>) -> Seq<MappedGlyphRange>
    decreases rss.len(),
{
    if rss.len() == 0 {
        Seq::empty()
    } else {
        flat_entries(rss.drop_last()) + entries(rss.last())
    }
}

/// The runs `rs` cover `[first, last]` in ascending order, each codepoint once.
pub open spec fn tiles(rs: Seq<Run>, first: int, last: int) -> bool {
    if first > last {
        rs.len() == 0
    } else {
        &&& rs.len() > 0
        &&& rs[0].first() == first
        &&& rs.last().last == last
        &&& forall|i: int| 0 <= i < rs.len() ==> #[trigger] rs[i].first() <= rs[i].last
        &&& forall|i: int|
            0 <= i < rs.len() - 1 ==> #[trigger] rs[i + 1].first() == rs[i].last + 1
    }
}

/// The glyph range of `r` is as long as its codepoint range, counted modulo 2^16.
pub open spec fn glyph_span_matches(r: Run) -> bool {
    wrap16(r.entry.glyphs.end - r.entry.glyphs.start) == wrap16(r.last - r.first())
}

/// Prefixes one run to a sequence of runs, passing an error through.
pub open spec fn prepend<E>(x: Run, rest: Result<Seq<Run>, E>) -> Result<Seq<Run>, E> {
    match rest {
        Ok(rs) => Ok(seq![x] + rs),
        Err(e) => Err(e),
    }
}

/// Concatenates two outcomes, the first error winning.
pub open spec fn concat<E>(a: Result<Seq<Run>, E>, b: Result<Seq<Run>, E>) -> Result<
    Seq<Run>,
    E,
> {
    match a {
        Ok(xs) => match b {
            Ok(ys) => Ok(xs + ys),
            Err(e) => Err(e),
        },
        Err(e) => Err(e),
    }
}

pub proof fn lemma_concat_prepend<E>(acc: Seq<Run>, x: Run, rest: Result<Seq<Run>, E>)
    ensures
        concat(Ok(acc), prepend(x, rest)) == concat(Ok(acc.push(x)), rest),
{
    if let Ok(rs) = rest {
        assert(acc + (seq![x] + rs) =~= acc.push(x) + rs);
    }
}

pub proof fn lemma_concat_assoc<E>(
    a: Result<Seq<Run>, E>,
    b: Result<Seq<Run>, E>,
    c: Result<Seq<Run>, E>,
)
    ensures
        concat(concat(a, b), c) == concat(a, concat(b, c)),
{
    if let (Ok(x), Ok(y), Ok(z)) = (a, b, c) {
        assert(x + y + z =~= x + (y + z));
    }
}

pub proof fn lemma_flat_entries_push(rss: Seq<Seq<Run>>, rs: Seq<Run>)
    ensures
        flat_entries(rss.push(rs)) == flat_entries(rss) + entries(rs),
{
    assert(rss.push(rs).drop_last() =~= rss);
}

pub proof fn lemma_entries_push(rs: Seq<Run>, x: Run)
    ensures
        entries(rs.push(x)) == entries(rs).push(x.entry),
{
    assert(entries(rs.push(x)) =~= entries(rs).push(x.entry));
}

pub proof fn lemma_entries_concat(a: Seq<Run>, b: Seq<Run>)
    ensures
        entries(a + b) == entries(a) + entries(b),
{
    assert(entries(a + b) =~= entries(a) + entries(b));
}

} // verus!
