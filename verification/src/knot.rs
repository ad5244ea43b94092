//! The circuit-side interface of a knot: crossing kinds, notation
//! generators, and the wrap-around neighbor arithmetic of a closed
//! polyline, which a renderer needs to frame each vertex between its two
//! topological neighbors.

use vstd::prelude::*;

use vstd::arithmetic::div_mod::lemma_small_mod;

verus! {

/// A generator of a textual knot notation.
pub trait Notation {
    fn generate(&self) -> &str;
}

/// How a strand behaves at a point where the curve's projection crosses
/// itself.
pub enum Crossing {
    Under,
    Over,
    Neither,
}

/// Wraps an index onto a closed polyline of `number_of_vertices` points:
/// the result is the index reduced modulo `number_of_vertices + 1`.
pub fn get_wrapped_index(number_of_vertices: usize, index: usize) -> (r: usize)
    requires
        number_of_vertices < usize::MAX,
    ensures
        r == index as int % (number_of_vertices + 1),
{
    index % (number_of_vertices + 1)
}

/// The indices of the left and right neighbors of the vertex at
/// `center_index` on a closed polyline: the neighbors of the first vertex
/// wrap to the last one, and the other way round.
pub fn get_neighboring_indices_wrapped(number_of_vertices: usize, center_index: usize) -> (r: (
    usize,
    usize,
))
    requires
        1 <= number_of_vertices < usize::MAX,
        center_index < number_of_vertices,
    ensures
        r.0 == if center_index == 0 {
            number_of_vertices - 1
        } else {
            center_index - 1
        },
        r.1 == if center_index + 1 == number_of_vertices {
            0
        } else {
            center_index + 1
        },
        r.0 < number_of_vertices,
        r.1 < number_of_vertices,
{
    proof {
        lemma_small_mod(center_index as nat, (number_of_vertices + 1) as nat);
    }
    let wrapped_index = get_wrapped_index(number_of_vertices, center_index);

    let neighbor_l_index = if wrapped_index == 0 {
        number_of_vertices - 1
    } else {
        wrapped_index - 1
    };
    let neighbor_r_index = if wrapped_index == number_of_vertices - 1 {
        0
    } else {
        wrapped_index + 1
    };

    (neighbor_l_index, neighbor_r_index)
}

} // verus!
