//! Finding the node under a point of the chart.
//!
//! A point is given by its angle and its distance from the centre. The search
//! divides the span of each directory exactly as the layout does, and goes
//! down to the node itself even where the layout shows a merged piece.

use vstd::prelude::*;
use crate::geometry::{
    depth_below, lemma_ring_radius_monotonic, next_depth, ring_radius, ring_radius_at,
    OUTER_RADIUS,
};
use crate::layout::{
    below_entry, drawn_radius, lemma_slice_origin, lemma_slices_within, slice_within, slices,
    slices_of_pieces, CullBounds,
};
use crate::subdivide::{
    boundary, lemma_boundary_ends, lemma_boundary_ordered, lemma_recursing_pieces_are_entries,
    lemma_subdivision_partitions, subdivision, whole_entry,
};
use crate::tree::{indices, lemma_weight_before_monotonic, total_weight, views, weight_before, Tree, TreeNode};

verus! {

/// The first entry from `index` on whose angles end after `angle`.
pub open spec fn entry_from(
    children: Seq<Tree>,
    total: nat,
    start: int,
    end: int,
    angle: int,
    index: int,
) -> Option<int>
    decreases children.len() - index,
{
    if index >= children.len() {
        None
    } else if boundary(children, total, start, end, index + 1) > angle {
        Some(index)
    } else {
        entry_from(children, total, start, end, angle, index + 1)
    }
}

/// The entry of `tree` that owns `angle`, where the entries share the span
/// from `start` to `end`: the first one whose angles end after `angle`. A
/// file, and a directory of no bytes, has no such entry.
pub open spec fn entry_at(tree: Tree, start: int, end: int, angle: int) -> Option<int> {
    if tree is Directory && tree.size() > 0 {
        entry_from(tree.children(), tree.size(), start, end, angle, 0)
    } else {
        None
    }
}

/// The radius of the ring of a node at `depth`: that of its depth for a
/// directory, the outer radius for a file.
pub open spec fn own_radius(tree: Tree, depth: u32) -> int {
    if tree is Directory {
        ring_radius(depth as nat) as int
    } else {
        OUTER_RADIUS as int
    }
}

/// The child indices that lead from `tree` to the node under the point at
/// `angle` and `radius`. The path is empty where the point lies within the
/// ring of `tree` itself, and where no entry owns the angle.
pub open spec fn locate_path(
    tree: Tree,
    angle: int,
    radius: int,
    depth: u32,
    start: int,
    end: int,
) -> Seq<int>
    decreases tree,
{
    if radius < own_radius(tree, depth) {
        Seq::empty()
    } else {
        match tree {
            Tree::Directory { children, size, .. } => {
                match entry_at(tree, start, end, angle) {
                    Some(index) => {
                        if 0 <= index < children.len() {
                            seq![index] + locate_path(
                                children[index],
                                angle,
                                radius,
                                next_depth(depth),
                                boundary(children, size, start, end, index),
                                boundary(children, size, start, end, index + 1),
                            )
                        } else {
                            Seq::empty()
                        }
                    },
                    None => Seq::empty(),
                }
            },
            Tree::File { .. } => Seq::empty(),
        }
    }
}

/// The path that a search returns leads to a node of the tree.
pub proof fn lemma_located_is_in_tree(
    tree: Tree,
    angle: int,
    radius: int,
    depth: u32,
    start: int,
    end: int,
)
    ensures
        tree.descend(locate_path(tree, angle, radius, depth, start, end)) is Some,
    decreases tree,
{
    let path = locate_path(tree, angle, radius, depth, start, end);
    if path.len() > 0 {
        let children = tree->Directory_children;
        let size = tree->Directory_size;
        let index = entry_at(tree, start, end, angle)->0;
        let deeper = locate_path(
            children[index],
            angle,
            radius,
            next_depth(depth),
            boundary(children, size, start, end, index),
            boundary(children, size, start, end, index + 1),
        );
        lemma_located_is_in_tree(
            children[index],
            angle,
            radius,
            next_depth(depth),
            boundary(children, size, start, end, index),
            boundary(children, size, start, end, index + 1),
        );
        assert(path == seq![index] + deeper);
        assert(path.drop_first() =~= deeper);
    }
}

/// An angle between the two boundaries of an entry is owned by that entry.
pub proof fn lemma_entry_owns_its_angles(
    tree: Tree,
    start: int,
    end: int,
    angle: int,
    index: int,
)
    requires
        tree.well_formed(),
        tree is Directory,
        tree.size() > 0,
        start <= end,
        0 <= index < tree.children().len(),
        boundary(tree.children(), tree.size(), start, end, index) <= angle < boundary(
            tree.children(),
            tree.size(),
            start,
            end,
            index + 1,
        ),
    ensures
        entry_at(tree, start, end, angle) == Some(index),
{
    lemma_entry_from_reaches(tree.children(), tree.size(), start, end, angle, index, 0);
}

/// A search that begins at or before the owner of an angle ends at the owner.
proof fn lemma_entry_from_reaches(
    children: Seq<Tree>,
    total: nat,
    start: int,
    end: int,
    angle: int,
    index: int,
    from: int,
)
    requires
        total > 0,
        total == total_weight(children),
        start <= end,
        0 <= from <= index < children.len(),
        boundary(children, total, start, end, index) <= angle < boundary(
            children,
            total,
            start,
            end,
            index + 1,
        ),
    ensures
        entry_from(children, total, start, end, angle, from) == Some(index),
    decreases index - from,
{
    if from < index {
        lemma_weight_before_monotonic(children, index, children.len() as int);
        lemma_boundary_ordered(children, total, start, end, from + 1, index);
        lemma_entry_from_reaches(children, total, start, end, angle, index, from + 1);
    }
}

/// The search undoes the layout. Take any arc of the layout of `tree` that
/// does not stand for a merged run, and any point of it: an angle from its
/// start up to, but not including, its end, and a radius from the ring of its
/// parent up to, but not including, its own. The search for that point, made
/// with the depth and the angles that the layout was made with, returns the
/// path of the node that the arc was drawn for.
pub proof fn lemma_locate_inverts_layout(
    tree: Tree,
    depth: u32,
    inner: int,
    start: int,
    end: int,
    scale: int,
    cull: CullBounds,
    k: int,
    angle: int,
    radius: int,
)
    requires
        tree.well_formed(),
        start <= end,
        0 <= k < slices(tree, depth, inner, start, end, true, scale, cull).len(),
        !slices(tree, depth, inner, start, end, true, scale, cull)[k].merged,
        slices(tree, depth, inner, start, end, true, scale, cull)[k].start <= angle < slices(
            tree,
            depth,
            inner,
            start,
            end,
            true,
            scale,
            cull,
        )[k].end,
        slices(tree, depth, inner, start, end, true, scale, cull)[k].inner <= radius < slices(
            tree,
            depth,
            inner,
            start,
            end,
            true,
            scale,
            cull,
        )[k].outer,
    ensures
        locate_path(tree, angle, radius, depth, start, end) == slices(
            tree,
            depth,
            inner,
            start,
            end,
            true,
            scale,
            cull,
        )[k].path,
    decreases tree,
{
    let all = slices(tree, depth, inner, start, end, true, scale, cull);
    let outer = drawn_radius(tree, depth, true);
    if k < all.len() - 1 {
        let children = tree->Directory_children;
        let pieces = subdivision(tree, start, end, scale);
        let deeper = next_depth(depth);
        let below = slices_of_pieces(children, pieces, pieces.len(), deeper, outer, scale, cull);
        assert(all[k] == below[k]);
        let origin = lemma_slice_origin(children, pieces, pieces.len(), deeper, outer, scale, cull, k);
        let piece = pieces[origin.0];
        let child = children[piece.child];
        let entry = slices(child, deeper, outer, piece.start, piece.end, piece.recurse, scale, cull);
        let found = entry[origin.1];
        assert(below[k] == below_entry(piece.child, entry)[origin.1]);
        assert(all[k].path == seq![piece.child] + found.path);
        lemma_subdivision_partitions(tree, start, end, scale);
        lemma_recursing_pieces_are_entries(tree, start, end, scale);
        assert(whole_entry(children, tree.size(), start, end, piece));
        assert(piece.recurse);
        lemma_ring_radius_monotonic(depth as nat, deeper as nat);
        lemma_ring_radius_monotonic(deeper as nat, deeper as nat);
        lemma_slices_within(child, deeper, outer, piece.start, piece.end, true, scale, cull);
        assert(slice_within(found, outer, piece.start, piece.end, cull));
        lemma_entry_owns_its_angles(tree, start, end, angle, piece.child);
        lemma_locate_inverts_layout(
            child,
            deeper,
            outer,
            piece.start,
            piece.end,
            scale,
            cull,
            origin.1,
            angle,
            radius,
        );
    }
}

/// What a search for the owner of an angle returns: the entry, and the
/// angles at which it begins and ends.
#[derive(Clone, Copy, Debug, PartialEq, Eq, Structural)]
pub struct Owner {
    pub index: usize,
    pub start: u64,
    pub end: u64,
}

/// The entry of `node` that owns `angle`, where the entries share the span
/// from `start` to `end`.
pub fn find_entry(node: &TreeNode, start: u64, end: u64, angle: u64) -> (found: Option<Owner>)
    requires
        start <= end,
    ensures
        match found {
            Some(owner) => {
                &&& entry_at(node@, start as int, end as int, angle as int) == Some(
                    owner.index as int,
                )
                &&& owner.index < node@.children().len()
                &&& owner.start == boundary(
                    node@.children(),
                    node@.size(),
                    start as int,
                    end as int,
                    owner.index as int,
                )
                &&& owner.end == boundary(
                    node@.children(),
                    node@.size(),
                    start as int,
                    end as int,
                    owner.index + 1,
                )
                &&& owner.start <= owner.end
            },
            None => entry_at(node@, start as int, end as int, angle as int) is None,
        },
{
    proof {
        use_type_invariant(node);
    }
    let total = node.size();
    let kids = match node.children() {
        Some(kids) => kids,
        None => {
            return None;
        },
    };
    if total == 0 {
        return None;
    }
    let ghost children = node@.children();
    let span: u64 = end - start;
    let mut seen: u64 = 0;
    let mut low: u64 = start;
    let mut index: usize = 0;
    proof {
        lemma_boundary_ends(children, total as nat, start as int, end as int, 0);
    }
    while index < kids.len()
        invariant
            index <= kids.len(),
            node@ is Directory,
            node@.size() == total,
            children == node@.children(),
            views(kids@) == children,
            total as nat == total_weight(children),
            total > 0,
            start <= end,
            span == end - start,
            seen == weight_before(children, index as int),
            low == boundary(children, total as nat, start as int, end as int, index as int),
            entry_from(children, total as nat, start as int, end as int, angle as int, 0)
                == entry_from(
                children,
                total as nat,
                start as int,
                end as int,
                angle as int,
                index as int,
            ),
        decreases kids.len() - index,
    {
        let size = kids[index].size();
        proof {
            assert(children[index as int] == kids@[index as int]@);
            lemma_weight_before_monotonic(children, index + 1, children.len() as int);
            lemma_boundary_ordered(
                children,
                total as nat,
                start as int,
                end as int,
                index as int,
                index + 1,
            );
            assert(span * (seen + size) <= 0xffff_ffff_ffff_ffff * 0xffff_ffff_ffff_ffff)
                by (nonlinear_arith)
                requires
                    0 <= span <= 0xffff_ffff_ffff_ffff,
                    0 <= seen + size <= 0xffff_ffff_ffff_ffff,
            ;
        }
        let next: u64 = seen + size;
        let share: u128 = (span as u128 * next as u128) / (total as u128);
        let high: u64 = start + share as u64;
        if high > angle {
            return Some(Owner { index, start: low, end: high });
        }
        seen = next;
        low = high;
        index += 1;
    }
    None
}

/// The child indices that lead from `node` to the node under the point at
/// `angle` and `radius`, where `node` lies `depth` levels below the root of
/// the view and owns the angles from `start` to `end`.
pub fn locate(node: &TreeNode, angle: u64, radius: u64, depth: u32, start: u64, end: u64) -> (path:
    Vec<usize>)
    requires
        start <= end,
    ensures
        indices(path@) == locate_path(
            node@,
            angle as int,
            radius as int,
            depth,
            start as int,
            end as int,
        ),
{
    let ghost whole = locate_path(
        node@,
        angle as int,
        radius as int,
        depth,
        start as int,
        end as int,
    );
    let mut path: Vec<usize> = Vec::new();
    let mut current: &TreeNode = node;
    let mut level: u32 = depth;
    let mut low: u64 = start;
    let mut high: u64 = end;
    assert(indices(path@) + whole =~= whole);
    loop
        invariant
            low <= high,
            whole == indices(path@) + locate_path(
                current@,
                angle as int,
                radius as int,
                level,
                low as int,
                high as int,
            ),
        ensures
            whole == indices(path@),
        decreases current@,
    {
        let ghost rest = locate_path(
            current@,
            angle as int,
            radius as int,
            level,
            low as int,
            high as int,
        );
        let own: u64 = if current.is_directory() {
            ring_radius_at(level)
        } else {
            OUTER_RADIUS
        };
        if radius < own {
            assert(indices(path@) + rest =~= indices(path@));
            break ;
        }
        let kids = match current.children() {
            Some(kids) => kids,
            None => {
                assert(indices(path@) + rest =~= indices(path@));
                break ;
            },
        };
        let owner = match find_entry(current, low, high, angle) {
            Some(owner) => owner,
            None => {
                assert(indices(path@) + rest =~= indices(path@));
                break ;
            },
        };
        let ghost before = indices(path@);
        let child = &kids[owner.index];
        proof {
            assert(current@.children()[owner.index as int] == child@);
        }
        path.push(owner.index);
        proof {
            let deeper = locate_path(
                child@,
                angle as int,
                radius as int,
                next_depth(level),
                owner.start as int,
                owner.end as int,
            );
            assert(rest == seq![owner.index as int] + deeper);
            assert(indices(path@) =~= before + seq![owner.index as int]);
            assert(before + rest =~= indices(path@) + deeper);
        }
        current = child;
        level = depth_below(level);
        low = owner.start;
        high = owner.end;
    }
    path
}

} // verus!
