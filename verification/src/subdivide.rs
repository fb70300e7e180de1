//! Dividing the angular span of a directory among its entries.
//!
//! Each entry owns the part of the span that lies between two boundaries, and
//! a boundary depends only on the bytes listed before it. Entries too narrow
//! to be worth a pixel are merged with their neighbours into one piece, which
//! is shown in place of all of them.

use vstd::prelude::*;
use vstd::arithmetic::div_mod::{lemma_div_is_ordered, lemma_div_multiples_vanish};
use vstd::arithmetic::mul::lemma_mul_is_commutative;
use crate::geometry::{is_wide_enough, wide_enough};
use crate::tree::{lemma_weight_before_monotonic, total_weight, views, weight_before, Tree, TreeNode};

verus! {

/// One piece of a divided span, as a mathematical value.
pub struct Span {
    /// The entry that is shown: the entry itself, or the first of those merged.
    pub child: int,
    /// Where the piece begins, in angle units.
    pub start: int,
    /// Where the piece ends, in angle units.
    pub end: int,
    /// Whether the entry is laid out with its own entries; merged pieces are not.
    pub recurse: bool,
}

/// One piece of a divided span.
#[derive(Clone, Copy, Debug)]
pub struct Piece {
    /// The entry that is shown: the entry itself, or the first of those merged.
    pub child: usize,
    /// Where the piece begins, in angle units.
    pub start: u64,
    /// Where the piece ends, in angle units.
    pub end: u64,
    /// Whether the entry is laid out with its own entries; merged pieces are not.
    pub recurse: bool,
}

impl View for Piece {
    type V = Span;

    open spec fn view(&self) -> Span {
        Span {
            child: self.child as int,
            start: self.start as int,
            end: self.end as int,
            recurse: self.recurse,
        }
    }
}

/// The pieces in a run, as mathematical values.
pub open spec fn spans(pieces: Seq<Piece>) -> Seq<Span> {
    Seq::new(pieces.len(), |i: int| pieces[i]@)
}

/// The angle at which entry `index` begins, where `total` bytes share the
/// span from `start` to `end`: the entries before it take their share of the
/// span, rounded down to a whole angle unit.
pub open spec fn boundary(children: Seq<Tree>, total: nat, start: int, end: int, index: int) -> int {
    start + ((end - start) * weight_before(children, index)) / (total as int)
}

/// The pieces that the entries from `index` on are shown as. `pending` is the
/// first of the narrow entries before `index` that have not been shown yet.
pub open spec fn spans_from(
    children: Seq<Tree>,
    total: nat,
    start: int,
    end: int,
    scale: int,
    index: int,
    pending: Option<int>,
) -> Seq<Span>
    decreases children.len() - index,
{
    if index >= children.len() {
        match pending {
            Some(first) => seq![
                Span {
                    child: first,
                    start: boundary(children, total, start, end, first),
                    end: boundary(children, total, start, end, children.len() as int),
                    recurse: false,
                },
            ],
            None => Seq::empty(),
        }
    } else if children[index].size() == 0 {
        spans_from(children, total, start, end, scale, index + 1, pending)
    } else {
        let low = boundary(children, total, start, end, index);
        let high = boundary(children, total, start, end, index + 1);
        if wide_enough(high - low, scale) {
            let merged = match pending {
                Some(first) => seq![
                    Span {
                        child: first,
                        start: boundary(children, total, start, end, first),
                        end: low,
                        recurse: false,
                    },
                ],
                None => Seq::empty(),
            };
            merged + seq![Span { child: index, start: low, end: high, recurse: true }] + spans_from(
                children,
                total,
                start,
                end,
                scale,
                index + 1,
                None,
            )
        } else {
            let first = match pending {
                Some(first) => first,
                None => index,
            };
            let from = boundary(children, total, start, end, first);
            if wide_enough(high - from, scale) {
                seq![Span { child: first, start: from, end: high, recurse: false }] + spans_from(
                    children,
                    total,
                    start,
                    end,
                    scale,
                    index + 1,
                    None,
                )
            } else {
                spans_from(children, total, start, end, scale, index + 1, Some(first))
            }
        }
    }
}

/// The pieces that the span from `start` to `end` of `tree` is divided into
/// at `scale`, in listing order. Entries of no bytes are left out. An entry
/// wide enough to be worth a pixel is a piece of its own; narrower ones are
/// merged, from the first of them on, until they are wide enough together,
/// until a wide entry follows, or until the listing ends. A file, and a
/// directory of no bytes, is not divided.
pub open spec fn subdivision(tree: Tree, start: int, end: int, scale: int) -> Seq<Span> {
    if tree is Directory && tree.size() > 0 {
        spans_from(tree.children(), tree.size(), start, end, scale, 0, None)
    } else {
        Seq::empty()
    }
}

/// The pieces follow one another from `from` to `to` without gap or overlap.
pub open spec fn chained(pieces: Seq<Span>, from: int, to: int) -> bool
    decreases pieces.len(),
{
    if pieces.len() == 0 {
        from == to
    } else {
        &&& pieces[0].start == from
        &&& pieces[0].start <= pieces[0].end
        &&& chained(pieces.drop_first(), pieces[0].end, to)
    }
}

/// The sum of the widths of the pieces.
pub open spec fn total_width(pieces: Seq<Span>) -> int
    decreases pieces.len(),
{
    if pieces.len() == 0 {
        0
    } else {
        pieces[0].end - pieces[0].start + total_width(pieces.drop_first())
    }
}

/// Boundaries are ordered as the entries are, and lie within the span.
pub proof fn lemma_boundary_ordered(
    children: Seq<Tree>,
    total: nat,
    start: int,
    end: int,
    low: int,
    high: int,
)
    requires
        total > 0,
        start <= end,
        low <= high,
        weight_before(children, high) <= total,
    ensures
        start <= boundary(children, total, start, end, low) <= boundary(
            children,
            total,
            start,
            end,
            high,
        ) <= end,
{
    let span = end - start;
    let below = weight_before(children, low) as int;
    let above = weight_before(children, high) as int;
    let whole = total as int;
    lemma_weight_before_monotonic(children, low, high);
    assert(0 <= span * below <= span * above <= span * whole) by (nonlinear_arith)
        requires
            0 <= span,
            0 <= below <= above <= whole,
    ;
    lemma_div_is_ordered(0, span * below, whole);
    lemma_div_is_ordered(span * below, span * above, whole);
    lemma_div_is_ordered(span * above, span * whole, whole);
    lemma_mul_is_commutative(span, whole);
    lemma_div_multiples_vanish(span, whole);
}

/// The first boundary is the start of the span, and the boundary after all
/// the bytes is its end.
pub proof fn lemma_boundary_ends(children: Seq<Tree>, total: nat, start: int, end: int, count: int)
    requires
        total > 0,
    ensures
        boundary(children, total, start, end, 0) == start,
        weight_before(children, count) == total ==> boundary(children, total, start, end, count)
            == end,
{
    let span = end - start;
    let whole = total as int;
    assert(span * 0 == 0) by (nonlinear_arith);
    lemma_mul_is_commutative(span, whole);
    lemma_div_multiples_vanish(span, whole);
}

/// From entry `index` on, the pieces lead from where the pending entries
/// begin to the end of the span, and each shows an entry of the listing.
proof fn lemma_spans_from_chained(
    children: Seq<Tree>,
    total: nat,
    start: int,
    end: int,
    scale: int,
    index: int,
    pending: Option<int>,
)
    requires
        total > 0,
        total == total_weight(children),
        start <= end,
        0 <= index <= children.len(),
        pending matches Some(first) ==> 0 <= first < index,
    ensures
        chained(
            spans_from(children, total, start, end, scale, index, pending),
            boundary(
                children,
                total,
                start,
                end,
                match pending {
                    Some(first) => first,
                    None => index,
                },
            ),
            end,
        ),
        forall|k: int|
            0 <= k < spans_from(children, total, start, end, scale, index, pending).len() ==> 0 <= (
            #[trigger] spans_from(children, total, start, end, scale, index, pending)[k]).child
                < children.len(),
    decreases children.len() - index,
{
    let count = children.len() as int;
    let all = spans_from(children, total, start, end, scale, index, pending);
    let first = match pending {
        Some(first) => first,
        None => index,
    };
    lemma_boundary_ends(children, total, start, end, count);
    lemma_weight_before_monotonic(children, index, count);
    lemma_boundary_ordered(children, total, start, end, first, index);
    let from = boundary(children, total, start, end, first);
    if index >= count {
        if pending is Some {
            assert(all.drop_first() =~= Seq::<Span>::empty());
            assert(chained(all.drop_first(), end, end));
        }
    } else {
        lemma_weight_before_monotonic(children, index + 1, count);
        lemma_boundary_ordered(children, total, start, end, index, index + 1);
        lemma_boundary_ordered(children, total, start, end, first, index + 1);
        let low = boundary(children, total, start, end, index);
        let high = boundary(children, total, start, end, index + 1);
        if children[index].size() == 0 {
            lemma_spans_from_chained(children, total, start, end, scale, index + 1, pending);
        } else if wide_enough(high - low, scale) {
            lemma_spans_from_chained(children, total, start, end, scale, index + 1, None);
            let rest = spans_from(children, total, start, end, scale, index + 1, None);
            let own = Span { child: index, start: low, end: high, recurse: true };
            if pending is Some {
                let merged = Span {
                    child: first,
                    start: boundary(children, total, start, end, first),
                    end: low,
                    recurse: false,
                };
                assert(all =~= seq![merged, own] + rest);
                assert(all.drop_first() =~= seq![own] + rest);
                assert(all.drop_first().drop_first() =~= rest);
                assert(chained(all.drop_first(), low, end));
            } else {
                assert(all =~= seq![own] + rest);
                assert(all.drop_first() =~= rest);
            }
        } else if wide_enough(high - boundary(children, total, start, end, first), scale) {
            lemma_spans_from_chained(children, total, start, end, scale, index + 1, None);
            let rest = spans_from(children, total, start, end, scale, index + 1, None);
            assert(all.drop_first() =~= rest);
        } else {
            lemma_spans_from_chained(children, total, start, end, scale, index + 1, Some(first));
        }
    }
}

/// Pieces that follow one another begin where the one before them ends, and
/// their widths add up to the distance they cover.
pub proof fn lemma_chained_properties(pieces: Seq<Span>, from: int, to: int)
    requires
        chained(pieces, from, to),
    ensures
        from <= to,
        total_width(pieces) == to - from,
        pieces.len() > 0 ==> pieces[0].start == from && pieces.last().end == to,
        forall|k: int|
            0 <= k < pieces.len() ==> from <= (#[trigger] pieces[k]).start <= pieces[k].end <= to,
        forall|k: int|
            0 <= k < pieces.len() - 1 ==> (#[trigger] pieces[k]).end == pieces[k + 1].start,
    decreases pieces.len(),
{
    if pieces.len() > 0 {
        let rest = pieces.drop_first();
        lemma_chained_properties(rest, pieces[0].end, to);
        assert forall|k: int| 0 <= k < pieces.len() implies from <= (#[trigger] pieces[k]).start
            <= pieces[k].end <= to by {
            if k > 0 {
                assert(pieces[k] == rest[k - 1]);
            }
        }
        assert forall|k: int| 0 <= k < pieces.len() - 1 implies (#[trigger] pieces[k]).end
            == pieces[k + 1].start by {
            assert(pieces[k + 1] == rest[k]);
            if k > 0 {
                assert(pieces[k] == rest[k - 1]);
            }
        }
        if rest.len() > 0 {
            assert(pieces.last() == rest.last());
        }
    }
}

/// The pieces of a directory that holds any bytes cover its span exactly:
/// the first begins at `start`, each begins where the one before it ends,
/// the last ends at `end`, and the widths add up to the width of the span.
/// Each piece shows an entry of the directory.
pub proof fn lemma_subdivision_partitions(tree: Tree, start: int, end: int, scale: int)
    requires
        tree.well_formed(),
        tree is Directory,
        tree.size() > 0,
        start <= end,
    ensures
        chained(subdivision(tree, start, end, scale), start, end),
        total_width(subdivision(tree, start, end, scale)) == end - start,
        start < end ==> subdivision(tree, start, end, scale).len() > 0,
        subdivision(tree, start, end, scale).len() > 0 ==> subdivision(tree, start, end, scale)[0].start
            == start && subdivision(tree, start, end, scale).last().end == end,
        forall|k: int|
            0 <= k < subdivision(tree, start, end, scale).len() ==> start <= (
            #[trigger] subdivision(tree, start, end, scale)[k]).start <= subdivision(
                tree,
                start,
                end,
                scale,
            )[k].end <= end,
        forall|k: int|
            0 <= k < subdivision(tree, start, end, scale).len() - 1 ==> (#[trigger] subdivision(
                tree,
                start,
                end,
                scale,
            )[k]).end == subdivision(tree, start, end, scale)[k + 1].start,
        forall|k: int|
            0 <= k < subdivision(tree, start, end, scale).len() ==> 0 <= (#[trigger] subdivision(
                tree,
                start,
                end,
                scale,
            )[k]).child < tree.children().len(),
{
    lemma_spans_from_chained(tree.children(), tree.size(), start, end, scale, 0, None);
    lemma_boundary_ends(tree.children(), tree.size(), start, end, 0);
    lemma_chained_properties(subdivision(tree, start, end, scale), start, end);
}

/// Whether `piece`, if it is laid out with its entries, is one entry with
/// exactly the angles between its two boundaries.
pub open spec fn whole_entry(
    children: Seq<Tree>,
    total: nat,
    start: int,
    end: int,
    piece: Span,
) -> bool {
    piece.recurse ==> {
        &&& piece.start == boundary(children, total, start, end, piece.child)
        &&& piece.end == boundary(children, total, start, end, piece.child + 1)
    }
}

/// From entry `index` on, a piece that is laid out with its entries is one
/// entry with the angles that it owns.
proof fn lemma_spans_from_entries(
    children: Seq<Tree>,
    total: nat,
    start: int,
    end: int,
    scale: int,
    index: int,
    pending: Option<int>,
)
    requires
        0 <= index <= children.len(),
    ensures
        forall|k: int|
            0 <= k < spans_from(children, total, start, end, scale, index, pending).len()
                ==> whole_entry(
                children,
                total,
                start,
                end,
                #[trigger] spans_from(children, total, start, end, scale, index, pending)[k],
            ),
    decreases children.len() - index,
{
    let all = spans_from(children, total, start, end, scale, index, pending);
    if index < children.len() {
        let low = boundary(children, total, start, end, index);
        let high = boundary(children, total, start, end, index + 1);
        let first = match pending {
            Some(first) => first,
            None => index,
        };
        if children[index].size() == 0 {
            lemma_spans_from_entries(children, total, start, end, scale, index + 1, pending);
            assert(all == spans_from(children, total, start, end, scale, index + 1, pending));
        } else if wide_enough(high - low, scale) {
            lemma_spans_from_entries(children, total, start, end, scale, index + 1, None);
            let rest = spans_from(children, total, start, end, scale, index + 1, None);
            let lead = all.len() - rest.len();
            assert forall|k: int| 0 <= k < all.len() implies whole_entry(
                children,
                total,
                start,
                end,
                #[trigger] all[k],
            ) by {
                if k >= lead {
                    assert(all[k] == rest[k - lead]);
                }
            }
        } else if wide_enough(high - boundary(children, total, start, end, first), scale) {
            lemma_spans_from_entries(children, total, start, end, scale, index + 1, None);
            let rest = spans_from(children, total, start, end, scale, index + 1, None);
            assert forall|k: int| 0 <= k < all.len() implies whole_entry(
                children,
                total,
                start,
                end,
                #[trigger] all[k],
            ) by {
                if k >= 1 {
                    assert(all[k] == rest[k - 1]);
                }
            }
        } else {
            lemma_spans_from_entries(children, total, start, end, scale, index + 1, Some(first));
            assert(all == spans_from(children, total, start, end, scale, index + 1, Some(first)));
        }
    }
}

/// A piece that is laid out with its entries is one entry of the directory,
/// with exactly the angles between its two boundaries.
pub proof fn lemma_recursing_pieces_are_entries(tree: Tree, start: int, end: int, scale: int)
    ensures
        forall|k: int|
            0 <= k < subdivision(tree, start, end, scale).len() ==> whole_entry(
                tree.children(),
                tree.size(),
                start,
                end,
                #[trigger] subdivision(tree, start, end, scale)[k],
            ),
{
    if tree is Directory && tree.size() > 0 {
        lemma_spans_from_entries(tree.children(), tree.size(), start, end, scale, 0, None);
    }
}

/// The entry that a waiting run of narrow entries begins with.
pub open spec fn pending_first(pending: Option<(usize, u64)>) -> Option<int> {
    match pending {
        Some((first, _)) => Some(first as int),
        None => None,
    }
}

/// Divides the span from `start` to `end` among the entries of `node`, as they
/// are shown at `scale`.
pub fn subdivide(node: &TreeNode, start: u64, end: u64, scale: u64) -> (pieces: Vec<Piece>)
    requires
        start <= end,
    ensures
        spans(pieces@) == subdivision(node@, start as int, end as int, scale as int),
        node@ is Directory && node@.size() > 0 ==> chained(
            spans(pieces@),
            start as int,
            end as int,
        ) && total_width(spans(pieces@)) == end - start,
{
    let mut pieces: Vec<Piece> = Vec::new();
    proof {
        use_type_invariant(node);
        if node@ is Directory && node@.size() > 0 {
            lemma_subdivision_partitions(node@, start as int, end as int, scale as int);
        }
    }
    let total = node.size();
    let kids = match node.children() {
        Some(kids) => kids,
        None => {
            return pieces;
        },
    };
    if total == 0 {
        return pieces;
    }
    let ghost children = node@.children();
    let ghost whole = subdivision(node@, start as int, end as int, scale as int);
    let span: u64 = end - start;
    let mut seen: u64 = 0;
    let mut low: u64 = start;
    let mut pending: Option<(usize, u64)> = None;
    let mut index: usize = 0;
    proof {
        lemma_boundary_ends(children, total as nat, start as int, end as int, 0);
        assert(spans(pieces@) + whole =~= whole);
    }
    while index < kids.len()
        invariant
            index <= kids.len(),
            views(kids@) == children,
            total as nat == total_weight(children),
            total > 0,
            start <= end,
            span == end - start,
            seen == weight_before(children, index as int),
            low == boundary(children, total as nat, start as int, end as int, index as int),
            pending matches Some((first, from)) ==> first < index && from == boundary(
                children,
                total as nat,
                start as int,
                end as int,
                first as int,
            ),
            whole == spans(pieces@) + spans_from(
                children,
                total as nat,
                start as int,
                end as int,
                scale as int,
                index as int,
                pending_first(pending),
            ),
        decreases kids.len() - index,
    {
        let size = kids[index].size();
        assert(children[index as int] == kids@[index as int]@);
        if size != 0 {
            proof {
                lemma_weight_before_monotonic(children, index + 1, children.len() as int);
                lemma_boundary_ordered(
                    children,
                    total as nat,
                    start as int,
                    end as int,
                    index as int,
                    index + 1,
                );
                assert(span * (seen + size) <= 0xffff_ffff_ffff_ffff * 0xffff_ffff_ffff_ffff)
                    by (nonlinear_arith)
                    requires
                        0 <= span <= 0xffff_ffff_ffff_ffff,
                        0 <= seen + size <= 0xffff_ffff_ffff_ffff,
                ;
            }
            let next: u64 = seen + size;
            let share: u128 = (span as u128 * next as u128) / (total as u128);
            let high: u64 = start + share as u64;
            let ghost before = spans(pieces@);
            let ghost first_index: int = match pending {
                Some((first, _)) => first as int,
                None => index as int,
            };
            proof {
                if pending is Some {
                    lemma_boundary_ordered(
                        children,
                        total as nat,
                        start as int,
                        end as int,
                        first_index,
                        index + 1,
                    );
                }
            }
            if is_wide_enough(high - low, scale) {
                if let Some((first, from)) = pending {
                    pieces.push(Piece { child: first, start: from, end: low, recurse: false });
                }
                pieces.push(Piece { child: index, start: low, end: high, recurse: true });
                pending = None;
            } else {
                let (first, from) = match pending {
                    Some(waiting) => waiting,
                    None => (index, low),
                };
                if is_wide_enough(high - from, scale) {
                    pieces.push(Piece { child: first, start: from, end: high, recurse: false });
                    pending = None;
                } else {
                    pending = Some((first, from));
                }
            }
            seen = next;
            low = high;
            assert(whole =~= spans(pieces@) + spans_from(
                children,
                total as nat,
                start as int,
                end as int,
                scale as int,
                index + 1,
                pending_first(pending),
            ));
        }
        index += 1;
    }
    if let Some((first, from)) = pending {
        pieces.push(Piece { child: first, start: from, end: low, recurse: false });
    }
    assert(whole =~= spans(pieces@));
    pieces
}

} // verus!
