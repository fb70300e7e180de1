//! Laying a size tree out as arcs.
//!
//! A node is drawn as a wedge from the centre of the chart to its ring, over
//! the angles it owns. The entries of a directory are drawn before the
//! directory itself, which then covers them up to its own ring, so that each
//! node stays visible between the ring of its parent and its own.

use vstd::prelude::*;
use crate::color::{color_after, lemma_color_after_sum, next_color_count, ColorCounter};
use crate::geometry::{
    depth_below, inner_radius, inner_radius_at, lemma_ring_radius_monotonic, next_depth,
    ring_radius, ring_radius_at, OUTER_RADIUS,
};
use crate::subdivide::{lemma_subdivision_partitions, spans, subdivide, subdivision, Span};
use crate::tree::{views, Tree, TreeNode};

verus! {

/// The part of the chart that the window shows: no further out than
/// `max_radius`, and between `min_angle` and `max_angle`. Where `min_angle` is
/// the greater of the two, the part passes through the zero angle.
#[derive(Clone, Copy, Debug, PartialEq, Eq, Structural)]
pub struct CullBounds {
    pub max_radius: u64,
    pub min_angle: u64,
    pub max_angle: u64,
}

impl CullBounds {
    /// Whether `angle` lies in the visible part.
    pub open spec fn sees(self, angle: int) -> bool {
        if self.min_angle <= self.max_angle {
            self.min_angle <= angle <= self.max_angle
        } else {
            angle >= self.min_angle || angle <= self.max_angle
        }
    }

    /// Whether the angles from `start` to `end` are left out of the drawing.
    pub open spec fn hides(self, start: int, end: int) -> bool {
        if self.min_angle > self.max_angle {
            start > self.max_angle && end < self.min_angle
        } else {
            start > self.max_angle || end < self.min_angle
        }
    }

    /// Bounds that leave nothing out.
    pub fn everything() -> (bounds: CullBounds)
        ensures
            bounds == (CullBounds { max_radius: u64::MAX, min_angle: 0, max_angle: u64::MAX }),
    {
        CullBounds { max_radius: u64::MAX, min_angle: 0, max_angle: u64::MAX }
    }

    /// Whether the angles from `start` to `end` are left out of the drawing.
    pub fn is_hidden(&self, start: u64, end: u64) -> (hidden: bool)
        ensures
            hidden == self.hides(start as int, end as int),
    {
        if self.min_angle > self.max_angle {
            start > self.max_angle && end < self.min_angle
        } else {
            start > self.max_angle || end < self.min_angle
        }
    }
}

/// A span of angles is left out exactly when the window sees none of it.
pub proof fn lemma_hidden_iff_out_of_sight(bounds: CullBounds, start: int, end: int)
    requires
        start <= end,
    ensures
        bounds.hides(start, end) <==> forall|angle: int|
            start <= angle <= end ==> !#[trigger] bounds.sees(angle),
{
    if !bounds.hides(start, end) {
        if bounds.min_angle <= bounds.max_angle {
            let witness = if start >= bounds.min_angle {
                start
            } else {
                bounds.min_angle as int
            };
            assert(bounds.sees(witness));
        } else if start <= bounds.max_angle {
            assert(bounds.sees(start));
        } else {
            assert(bounds.sees(end));
        }
    }
}

/// One arc of a layout, as a mathematical value.
pub struct Slice {
    /// The child indices that lead from the node laid out to the node drawn.
    pub path: Seq<int>,
    /// Where the arc begins, in angle units.
    pub start: int,
    /// Where the arc ends, in angle units.
    pub end: int,
    /// The radius up to which the parent covers the arc.
    pub inner: int,
    /// The radius of the arc.
    pub outer: int,
    /// The number of levels between the root of the view and the node.
    pub depth: u32,
    /// Whether the node is a directory.
    pub directory: bool,
    /// Whether the arc stands for a run of narrow entries.
    pub merged: bool,
}

/// One arc to draw.
#[derive(Clone, Copy, Debug, PartialEq, Eq, Structural)]
pub struct DrawArc {
    /// Where the arc begins, in angle units.
    pub start: u64,
    /// Where the arc ends, in angle units.
    pub end: u64,
    /// The radius up to which the parent covers the arc.
    pub inner: u64,
    /// The radius of the arc.
    pub outer: u64,
    /// The number of levels between the root of the view and the node.
    pub depth: u32,
    /// Whether the node is a directory.
    pub directory: bool,
    /// Whether the arc stands for a run of narrow entries.
    pub merged: bool,
    /// The place of the arc in the colour sequence.
    pub color: u64,
}

/// The radius at which a node is drawn: a directory that is laid out with its
/// entries has the ring of its depth, everything else the outer radius.
pub open spec fn drawn_radius(tree: Tree, depth: u32, recurse: bool) -> int {
    if recurse && tree is Directory {
        ring_radius(depth as nat) as int
    } else {
        OUTER_RADIUS as int
    }
}

/// The arcs of `slices`, each one level further from the node laid out:
/// reached through entry `index`.
pub open spec fn below_entry(index: int, slices: Seq<Slice>) -> Seq<Slice> {
    Seq::new(
        slices.len(),
        |k: int|
            Slice {
                path: seq![index] + slices[k].path,
                start: slices[k].start,
                end: slices[k].end,
                inner: slices[k].inner,
                outer: slices[k].outer,
                depth: slices[k].depth,
                directory: slices[k].directory,
                merged: slices[k].merged,
            },
    )
}

/// The arcs of a node, in drawing order.
///
/// A node whose angles the window does not see has none. Otherwise its own
/// arc comes last, after the arcs of its entries. Entries are drawn only for
/// a directory that is laid out with its entries (`recurse`) and whose ring
/// lies within the visible radius; they are drawn piece by piece, as the span
/// is divided at `scale`.
pub open spec fn slices(
    tree: Tree,
    depth: u32,
    inner: int,
    start: int,
    end: int,
    recurse: bool,
    scale: int,
    cull: CullBounds,
) -> Seq<Slice>
    decreases tree, 0nat,
{
    if cull.hides(start, end) {
        Seq::empty()
    } else {
        let outer = drawn_radius(tree, depth, recurse);
        let own = Slice {
            path: Seq::empty(),
            start,
            end,
            inner,
            outer,
            depth,
            directory: tree is Directory,
            merged: !recurse,
        };
        match tree {
            Tree::Directory { children, .. } => {
                if recurse && outer < cull.max_radius {
                    let pieces = subdivision(tree, start, end, scale);
                    slices_of_pieces(
                        children,
                        pieces,
                        pieces.len(),
                        next_depth(depth),
                        outer,
                        scale,
                        cull,
                    ).push(own)
                } else {
                    seq![own]
                }
            },
            Tree::File { .. } => seq![own],
        }
    }
}

/// The arcs of the first `count` of `pieces`, in drawing order.
pub open spec fn slices_of_pieces(
    children: Seq<Tree>,
    pieces: Seq<Span>,
    count: nat,
    depth: u32,
    inner: int,
    scale: int,
    cull: CullBounds,
) -> Seq<Slice>
    decreases children, count,
{
    if count == 0 || count > pieces.len() {
        Seq::empty()
    } else {
        let piece = pieces[count - 1];
        let before = slices_of_pieces(
            children,
            pieces,
            (count - 1) as nat,
            depth,
            inner,
            scale,
            cull,
        );
        if 0 <= piece.child < children.len() {
            before + below_entry(
                piece.child,
                slices(
                    children[piece.child],
                    depth,
                    inner,
                    piece.start,
                    piece.end,
                    piece.recurse,
                    scale,
                    cull,
                ),
            )
        } else {
            before
        }
    }
}

/// The arcs to draw for `slices`, coloured in drawing order from `first` on.
pub open spec fn arcs_of(slices: Seq<Slice>, first: u64) -> Seq<DrawArc> {
    Seq::new(
        slices.len(),
        |k: int|
            DrawArc {
                start: slices[k].start as u64,
                end: slices[k].end as u64,
                inner: slices[k].inner as u64,
                outer: slices[k].outer as u64,
                depth: slices[k].depth,
                directory: slices[k].directory,
                merged: slices[k].merged,
                color: color_after(first, k as nat),
            },
    )
}

/// What holds of an arc in the layout of a node that owns the angles from
/// `start` to `end` and whose parent has a ring of radius `inner`: the arc
/// keeps within those angles, begins no further in than that ring, and the
/// window sees some of it.
pub open spec fn slice_within(slice: Slice, inner: int, start: int, end: int, cull: CullBounds) -> bool {
    &&& start <= slice.start <= slice.end <= end
    &&& inner <= slice.inner
    &&& !cull.hides(slice.start, slice.end)
}

/// Every arc of a layout keeps within the angles of the node laid out, lies
/// no further in than the ring of its parent, and is seen by the window.
/// Every arc but the node's own begins within the visible radius.
pub proof fn lemma_slices_within(
    tree: Tree,
    depth: u32,
    inner: int,
    start: int,
    end: int,
    recurse: bool,
    scale: int,
    cull: CullBounds,
)
    requires
        tree.well_formed(),
        start <= end,
        inner <= drawn_radius(tree, depth, recurse),
    ensures
        forall|k: int|
            0 <= k < slices(tree, depth, inner, start, end, recurse, scale, cull).len()
                ==> slice_within(
                #[trigger] slices(tree, depth, inner, start, end, recurse, scale, cull)[k],
                inner,
                start,
                end,
                cull,
            ),
        forall|k: int|
            0 <= k < slices(tree, depth, inner, start, end, recurse, scale, cull).len() - 1 ==> (
            #[trigger] slices(tree, depth, inner, start, end, recurse, scale, cull)[k]).inner
                < cull.max_radius,
    decreases tree, 0nat,
{
    let all = slices(tree, depth, inner, start, end, recurse, scale, cull);
    if !cull.hides(start, end) {
        let outer = drawn_radius(tree, depth, recurse);
        match tree {
            Tree::Directory { children, .. } => {
                if recurse && outer < cull.max_radius {
                    let pieces = subdivision(tree, start, end, scale);
                    let deeper = next_depth(depth);
                    if tree.size() > 0 {
                        lemma_subdivision_partitions(tree, start, end, scale);
                    }
                    lemma_ring_radius_monotonic(depth as nat, deeper as nat);
                    lemma_pieces_within(
                        children,
                        pieces,
                        pieces.len(),
                        deeper,
                        outer,
                        scale,
                        cull,
                        start,
                        end,
                    );
                    let below = slices_of_pieces(
                        children,
                        pieces,
                        pieces.len(),
                        deeper,
                        outer,
                        scale,
                        cull,
                    );
                    assert forall|k: int| 0 <= k < all.len() implies slice_within(
                        #[trigger] all[k],
                        inner,
                        start,
                        end,
                        cull,
                    ) by {
                        if k < below.len() {
                            assert(all[k] == below[k]);
                        }
                    }
                    assert forall|k: int| 0 <= k < all.len() - 1 implies (#[trigger] all[k]).inner
                        < cull.max_radius by {
                        assert(all[k] == below[k]);
                    }
                }
            },
            Tree::File { .. } => {},
        }
    }
}

/// Every arc of the first `count` pieces keeps within the angles that the
/// pieces share, and begins at the ring of radius `inner` or further out.
pub proof fn lemma_pieces_within(
    children: Seq<Tree>,
    pieces: Seq<Span>,
    count: nat,
    depth: u32,
    inner: int,
    scale: int,
    cull: CullBounds,
    start: int,
    end: int,
)
    requires
        count <= pieces.len(),
        forall|i: int| 0 <= i < children.len() ==> (#[trigger] children[i]).well_formed(),
        forall|j: int| 0 <= j < count ==> start <= (#[trigger] pieces[j]).start <= pieces[j].end <= end,
        inner <= ring_radius(depth as nat),
        inner < cull.max_radius,
    ensures
        forall|k: int|
            0 <= k < slices_of_pieces(children, pieces, count, depth, inner, scale, cull).len()
                ==> slice_within(
                #[trigger] slices_of_pieces(children, pieces, count, depth, inner, scale, cull)[k],
                inner,
                start,
                end,
                cull,
            ) && slices_of_pieces(children, pieces, count, depth, inner, scale, cull)[k].inner
                < cull.max_radius,
    decreases children, count,
{
    let all = slices_of_pieces(children, pieces, count, depth, inner, scale, cull);
    if count > 0 {
        let piece = pieces[count - 1];
        let before = slices_of_pieces(
            children,
            pieces,
            (count - 1) as nat,
            depth,
            inner,
            scale,
            cull,
        );
        lemma_pieces_within(children, pieces, (count - 1) as nat, depth, inner, scale, cull, start, end);
        if 0 <= piece.child < children.len() {
            let entry = slices(
                children[piece.child],
                depth,
                inner,
                piece.start,
                piece.end,
                piece.recurse,
                scale,
                cull,
            );
            lemma_ring_radius_monotonic(depth as nat, depth as nat);
            lemma_slices_within(
                children[piece.child],
                depth,
                inner,
                piece.start,
                piece.end,
                piece.recurse,
                scale,
                cull,
            );
            let moved = below_entry(piece.child, entry);
            assert forall|k: int| 0 <= k < all.len() implies slice_within(
                #[trigger] all[k],
                inner,
                start,
                end,
                cull,
            ) && all[k].inner < cull.max_radius by {
                if k < before.len() {
                    assert(all[k] == before[k]);
                } else {
                    let at = k - before.len();
                    assert(all[k] == moved[at]);
                    assert(slice_within(entry[at], inner, piece.start, piece.end, cull));
                    if at < entry.len() - 1 {
                        assert(entry[at].inner < cull.max_radius);
                    } else {
                        assert(entry[at].inner == inner);
                    }
                }
            }
        } else {
            assert(all == before);
        }
    }
}

/// The piece that an arc of the first `count` pieces belongs to, and the
/// place of the arc in the layout of the entry that the piece shows.
pub proof fn lemma_slice_origin(
    children: Seq<Tree>,
    pieces: Seq<Span>,
    count: nat,
    depth: u32,
    inner: int,
    scale: int,
    cull: CullBounds,
    k: int,
) -> (origin: (int, int))
    requires
        count <= pieces.len(),
        0 <= k < slices_of_pieces(children, pieces, count, depth, inner, scale, cull).len(),
    ensures
        0 <= origin.0 < count,
        0 <= pieces[origin.0].child < children.len(),
        0 <= origin.1 < slices(
            children[pieces[origin.0].child],
            depth,
            inner,
            pieces[origin.0].start,
            pieces[origin.0].end,
            pieces[origin.0].recurse,
            scale,
            cull,
        ).len(),
        slices_of_pieces(children, pieces, count, depth, inner, scale, cull)[k] == below_entry(
            pieces[origin.0].child,
            slices(
                children[pieces[origin.0].child],
                depth,
                inner,
                pieces[origin.0].start,
                pieces[origin.0].end,
                pieces[origin.0].recurse,
                scale,
                cull,
            ),
        )[origin.1],
    decreases count,
{
    let piece = pieces[count - 1];
    let before = slices_of_pieces(children, pieces, (count - 1) as nat, depth, inner, scale, cull);
    if k < before.len() {
        lemma_slice_origin(children, pieces, (count - 1) as nat, depth, inner, scale, cull, k)
    } else {
        (count - 1, k - before.len())
    }
}

/// A piece that the window sees is drawn: the layout of a directory whose
/// ring lies within the visible radius holds an arc for the entry that the
/// piece shows, over exactly the angles of the piece. The result is the place
/// of that arc in the layout.
pub proof fn lemma_piece_in_sight_is_drawn(
    tree: Tree,
    depth: u32,
    inner: int,
    start: int,
    end: int,
    scale: int,
    cull: CullBounds,
    j: int,
) -> (k: int)
    requires
        tree.well_formed(),
        tree is Directory,
        start <= end,
        !cull.hides(start, end),
        drawn_radius(tree, depth, true) < cull.max_radius,
        0 <= j < subdivision(tree, start, end, scale).len(),
        !cull.hides(
            subdivision(tree, start, end, scale)[j].start,
            subdivision(tree, start, end, scale)[j].end,
        ),
    ensures
        0 <= k < slices(tree, depth, inner, start, end, true, scale, cull).len(),
        slices(tree, depth, inner, start, end, true, scale, cull)[k] == (Slice {
            path: seq![subdivision(tree, start, end, scale)[j].child],
            start: subdivision(tree, start, end, scale)[j].start,
            end: subdivision(tree, start, end, scale)[j].end,
            inner: drawn_radius(tree, depth, true),
            outer: drawn_radius(
                tree.children()[subdivision(tree, start, end, scale)[j].child],
                next_depth(depth),
                subdivision(tree, start, end, scale)[j].recurse,
            ),
            depth: next_depth(depth),
            directory: tree.children()[subdivision(tree, start, end, scale)[j].child] is Directory,
            merged: !subdivision(tree, start, end, scale)[j].recurse,
        }),
{
    let pieces = subdivision(tree, start, end, scale);
    lemma_subdivision_partitions(tree, start, end, scale);
    let k = lemma_piece_drawn_among(
        tree.children(),
        pieces,
        pieces.len(),
        next_depth(depth),
        drawn_radius(tree, depth, true),
        scale,
        cull,
        j,
    );
    k
}

/// The place, among the arcs of the first `count` pieces, of the arc for the
/// entry that piece `j` shows.
proof fn lemma_piece_drawn_among(
    children: Seq<Tree>,
    pieces: Seq<Span>,
    count: nat,
    depth: u32,
    inner: int,
    scale: int,
    cull: CullBounds,
    j: int,
) -> (k: int)
    requires
        count <= pieces.len(),
        0 <= j < count,
        0 <= pieces[j].child < children.len(),
        !cull.hides(pieces[j].start, pieces[j].end),
    ensures
        0 <= k < slices_of_pieces(children, pieces, count, depth, inner, scale, cull).len(),
        slices_of_pieces(children, pieces, count, depth, inner, scale, cull)[k] == (Slice {
            path: seq![pieces[j].child],
            start: pieces[j].start,
            end: pieces[j].end,
            inner,
            outer: drawn_radius(children[pieces[j].child], depth, pieces[j].recurse),
            depth,
            directory: children[pieces[j].child] is Directory,
            merged: !pieces[j].recurse,
        }),
    decreases count,
{
    let before = slices_of_pieces(children, pieces, (count - 1) as nat, depth, inner, scale, cull);
    if j < count - 1 {
        lemma_piece_drawn_among(children, pieces, (count - 1) as nat, depth, inner, scale, cull, j)
    } else {
        let piece = pieces[j];
        let entry = slices(
            children[piece.child],
            depth,
            inner,
            piece.start,
            piece.end,
            piece.recurse,
            scale,
            cull,
        );
        let moved = below_entry(piece.child, entry);
        assert(moved[entry.len() - 1].path =~= seq![piece.child]);
        before.len() + entry.len() - 1
    }
}

/// Arcs drawn one after the other are coloured one after the other, and how
/// an arc is reached does not change what is drawn.
pub proof fn lemma_arcs_of_concat(before: Seq<Slice>, index: int, after: Seq<Slice>, first: u64)
    ensures
        arcs_of(before + below_entry(index, after), first) == arcs_of(before, first) + arcs_of(
            after,
            color_after(first, before.len()),
        ),
{
    let whole = arcs_of(before + below_entry(index, after), first);
    let parts = arcs_of(before, first) + arcs_of(after, color_after(first, before.len()));
    assert(whole.len() == parts.len());
    assert forall|k: int| 0 <= k < whole.len() implies whole[k] == parts[k] by {
        if k >= before.len() {
            lemma_color_after_sum(first, before.len(), (k - before.len()) as nat);
        }
    }
    assert(whole =~= parts);
}

/// Appends the arcs of `node` to `arcs`, in drawing order, and takes their
/// colours from `colors`.
///
/// `depth` counts the levels from the root of the view, `inner` is the radius
/// of the ring of the parent, `start` and `end` bound the angles of the node,
/// and `recurse` says whether its entries are to be drawn as well.
pub fn layout_into(
    node: &TreeNode,
    depth: u32,
    inner: u64,
    start: u64,
    end: u64,
    recurse: bool,
    scale: u64,
    cull: &CullBounds,
    colors: &mut ColorCounter,
    arcs: &mut Vec<DrawArc>,
)
    requires
        start <= end,
    ensures
        final(arcs)@ == old(arcs)@ + arcs_of(
            slices(
                node@,
                depth,
                inner as int,
                start as int,
                end as int,
                recurse,
                scale as int,
                *cull,
            ),
            old(colors).upcoming(),
        ),
        final(colors).upcoming() == color_after(
            old(colors).upcoming(),
            slices(
                node@,
                depth,
                inner as int,
                start as int,
                end as int,
                recurse,
                scale as int,
                *cull,
            ).len(),
        ),
    decreases node@,
{
    let ghost first = colors.upcoming();
    let ghost given = arcs@;
    let ghost whole = slices(
        node@,
        depth,
        inner as int,
        start as int,
        end as int,
        recurse,
        scale as int,
        *cull,
    );
    proof {
        lemma_color_after_sum(first, 0, 0);
        use_type_invariant(node);
    }
    if cull.is_hidden(start, end) {
        assert(given + arcs_of(whole, first) =~= given);
        return ;
    }
    let directory = node.is_directory();
    let outer: u64 = if recurse && directory {
        ring_radius_at(depth)
    } else {
        OUTER_RADIUS
    };
    let ghost below: Seq<Slice> = Seq::empty();
    assert(given + arcs_of(below, first) =~= given);
    if recurse && outer < cull.max_radius {
        if let Some(kids) = node.children() {
            let pieces = subdivide(node, start, end, scale);
            let deeper = depth_below(depth);
            let ghost children = node@->Directory_children;
            let ghost parts = spans(pieces@);
            proof {
                if node@.size() > 0 {
                    lemma_subdivision_partitions(node@, start as int, end as int, scale as int);
                }
                assert forall|j: int| 0 <= j < pieces.len() implies (#[trigger] pieces[j]).child
                    < kids.len() && pieces[j].start <= pieces[j].end by {
                    assert(parts[j] == pieces[j]@);
                }
            }
            let mut done: usize = 0;
            while done < pieces.len()
                invariant
                    done <= pieces.len(),
                    node@ is Directory,
                    children == node@->Directory_children,
                    views(kids@) == children,
                    parts == spans(pieces@),
                    forall|j: int|
                        0 <= j < pieces.len() ==> (#[trigger] pieces[j]).child < kids.len()
                            && pieces[j].start <= pieces[j].end,
                    below == slices_of_pieces(
                        children,
                        parts,
                        done as nat,
                        deeper,
                        outer as int,
                        scale as int,
                        *cull,
                    ),
                    arcs@ == given + arcs_of(below, first),
                    colors.upcoming() == color_after(first, below.len()),
                decreases pieces.len() - done,
            {
                let piece = pieces[done];
                let child = &kids[piece.child];
                let ghost entry = slices(
                    child@,
                    deeper,
                    outer as int,
                    piece.start as int,
                    piece.end as int,
                    piece.recurse,
                    scale as int,
                    *cull,
                );
                proof {
                    assert(parts[done as int] == piece@);
                    assert(children[piece.child as int] == child@);
                }
                layout_into(
                    child,
                    deeper,
                    outer,
                    piece.start,
                    piece.end,
                    piece.recurse,
                    scale,
                    cull,
                    colors,
                    arcs,
                );
                proof {
                    lemma_arcs_of_concat(below, piece.child as int, entry, first);
                    lemma_color_after_sum(first, below.len(), entry.len());
                    below = below + below_entry(piece.child as int, entry);
                }
                done += 1;
            }
        }
    }
    let color = next_color_count(colors);
    arcs.push(
        DrawArc { start, end, inner, outer, depth, directory, merged: !recurse, color },
    );
    proof {
        assert(whole =~= below.push(whole.last()));
        lemma_color_after_sum(first, below.len(), 1);
        assert(arcs@ =~= given + arcs_of(whole, first));
    }
}

/// The arcs of `node`, in drawing order, coloured from `colors`.
///
/// `depth` counts the levels from the root of the view, and is at least one
/// for a node that is to have a ring of its own.
pub fn layout(
    node: &TreeNode,
    depth: u32,
    start: u64,
    end: u64,
    recurse: bool,
    scale: u64,
    cull: &CullBounds,
    colors: &mut ColorCounter,
) -> (arcs: Vec<DrawArc>)
    requires
        start <= end,
    ensures
        arcs@ == arcs_of(
            slices(
                node@,
                depth,
                inner_radius(depth as nat) as int,
                start as int,
                end as int,
                recurse,
                scale as int,
                *cull,
            ),
            old(colors).upcoming(),
        ),
        final(colors).upcoming() == color_after(old(colors).upcoming(), arcs@.len()),
{
    let mut arcs: Vec<DrawArc> = Vec::new();
    let inner = inner_radius_at(depth);
    layout_into(node, depth, inner, start, end, recurse, scale, cull, colors, &mut arcs);
    assert(Seq::<DrawArc>::empty() + arcs@ =~= arcs@);
    arcs
}

} // verus!
