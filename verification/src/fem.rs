//! The index bookkeeping of the finite element method on a 1D mesh:
//! scatter-add assembly of element contributions, homogeneous Dirichlet
//! boundary conditions, and putting interior unknowns back into a full
//! nodal vector.
//!
//! Element e joins nodes e and e+1, so the connectivity is implicit. The
//! element matrices and load vectors themselves come from the caller.
use vstd::prelude::*;
use vstd::std_specs::ops::AddSpec;
use core::ops::Add;
use crate::sparse::{
    CsrMatrix,
    Triplet,
    contributions,
    running_sum,
    partial_sums_defined,
    summable,
    sum_is_known,
    addition_is_total,
    is_default,
    last_position,
    no_repeats,
    lemma_contributions_push,
    lemma_no_repeats_last_position,
    lemma_last_position,
    lemma_last_position_push,
};

verus! {

/// What one element contributes: its local 2x2 stiffness matrix and its
/// local load vector, indexed by the element's two local nodes.
#[derive(Clone, Copy, Debug)]
pub struct ElementContribution<V> {
    pub stiffness: [[V; 2]; 2],
    pub load: [V; 2],
}

/// The contributions that the first `count` elements make to the global
/// stiffness matrix at (r, c), in the order in which assembly adds them.
///
/// Element e adds its local matrix on rows and columns {e, e+1}, so a diagonal
/// entry (i, i) receives the (1, 1) entry of element i-1 and then the (0, 0)
/// entry of element i, and each neighbouring pair receives one off-diagonal entry.
pub open spec fn stencil<V>(elements: Seq<ElementContribution<V>>, count: int, r: int, c: int) -> Seq<V> {
    if c == r + 1 && 0 <= r < count {
        seq![elements[r].stiffness[0][1]]
    } else if c == r - 1 && 0 <= c < count {
        seq![elements[c].stiffness[1][0]]
    } else if c == r && 0 <= r <= count {
        (if r >= 1 {
            seq![elements[r - 1].stiffness[1][1]]
        } else {
            Seq::<V>::empty()
        }) + (if r < count {
            seq![elements[r].stiffness[0][0]]
        } else {
            Seq::<V>::empty()
        })
    } else {
        Seq::<V>::empty()
    }
}

/// The load at `node` after the first `count` elements have been added,
/// starting from `zero`: first the right-hand entry of element node-1, then
/// the left-hand entry of element node.
pub open spec fn partial_load<V: Add<Output = V>>(
    elements: Seq<ElementContribution<V>>,
    count: int,
    node: int,
    zero: V,
) -> V {
    let from_left = if 1 <= node <= count {
        zero.add_spec(elements[node - 1].load[1])
    } else {
        zero
    };
    if 0 <= node < count {
        from_left.add_spec(elements[node].load[0])
    } else {
        from_left
    }
}

/// The additions that produce the load at `node` can be carried out.
pub open spec fn load_sums_defined<V: Add<Output = V>>(
    elements: Seq<ElementContribution<V>>,
    node: int,
    zero: V,
) -> bool {
    let from_left = if node >= 1 {
        zero.add_spec(elements[node - 1].load[1])
    } else {
        zero
    };
    &&& node >= 1 ==> zero.add_req(elements[node - 1].load[1])
    &&& node < elements.len() ==> from_left.add_req(elements[node].load[0])
}

/// Every addition that assembly performs can be carried out.
pub open spec fn assembly_sums_defined<V: Add<Output = V> + Default>(
    elements: Seq<ElementContribution<V>>,
) -> bool {
    ||| addition_is_total::<V>()
    ||| {
        &&& V::obeys_add_spec()
        &&& forall|i: int|
            1 <= i < elements.len() ==> (#[trigger] elements[i - 1]).stiffness[1][1].add_req(
                elements[i].stiffness[0][0],
            )
        &&& forall|z: V, node: int|
            #![trigger load_sums_defined(elements, node, z)]
            is_default(z) && 0 <= node <= elements.len() ==> load_sums_defined(elements, node, z)
    }
}

/// Every stored entry (r, c) has a stored mirror (c, r) with the same value.
pub open spec fn is_symmetric<V>(m: &CsrMatrix<V>) -> bool {
    forall|r: int, c: int| #[trigger]
        m@.contains_key((r, c)) ==> m@.contains_key((c, r)) && m@[(c, r)] == m@[(r, c)]
}

/// Build the global stiffness matrix and load vector by scatter-add.
///
/// For each element the four entries of its local matrix are added into the
/// global matrix at the element's global node numbers (e, e+1), and its two
/// load entries into the global load vector. Contributions are collected as
/// triplets; converting to CSR sums the duplicates, and that summation is the
/// assembly. The mesh has `elements.len() + 1` nodes.
pub fn assemble_elements<V: Copy + Default + Add<Output = V>>(
    elements: &[ElementContribution<V>],
) -> (system: (CsrMatrix<V>, Vec<V>))
    requires
        elements@.len() <= usize::MAX / 4,
        assembly_sums_defined(elements@),
    ensures
        system.0.num_rows() == elements@.len() + 1,
        system.0.num_columns() == elements@.len() + 1,
        forall|r: int, c: int| #[trigger]
            system.0@.contains_key((r, c)) <==> stencil(elements@, elements@.len() as int, r, c).len()
                > 0,
        forall|r: int, c: int| #[trigger]
            system.0@.contains_key((r, c)) && sum_is_known(
                stencil(elements@, elements@.len() as int, r, c),
            ) ==> system.0@[(r, c)] == running_sum(
                stencil(elements@, elements@.len() as int, r, c),
            ),
        system.0.is_tridiagonal_spec(),
        (forall|e: int|
            0 <= e < elements@.len() ==> (#[trigger] elements@[e]).stiffness[0][1]
                == elements@[e].stiffness[1][0]) ==> is_symmetric(&system.0),
        system.1@.len() == elements@.len() + 1,
        V::obeys_add_spec() ==> exists|z: V|
            is_default(z) && forall|node: int|
                0 <= node <= elements@.len() ==> #[trigger] system.1@[node] == partial_load(
                    elements@,
                    elements@.len() as int,
                    node,
                    z,
                ),
{
    let n_elements = elements.len();
    let n_nodes = n_elements + 1;
    let zero = V::default();

    let mut triplets: Vec<Triplet<V>> = Vec::new();
    let mut load: Vec<V> = Vec::new();
    let mut i: usize = 0;
    while i < n_nodes
        invariant
            i <= n_nodes,
            load@.len() == i,
            forall|node: int| 0 <= node < i ==> #[trigger] load@[node] == zero,
        decreases n_nodes - i,
    {
        load.push(zero);
        i += 1;
    }

    let mut element: usize = 0;
    while element < n_elements
        invariant
            n_elements == elements@.len(),
            n_nodes == n_elements + 1,
            n_elements <= usize::MAX / 4,
            element <= n_elements,
            is_default(zero),
            assembly_sums_defined(elements@),
            load@.len() == n_nodes,
            forall|t: int| 0 <= t < triplets@.len() ==> #[trigger] triplets@[t].row <= element,
            forall|r: int, c: int| #[trigger]
                contributions(triplets@, r, c) == stencil(elements@, element as int, r, c),
            forall|node: int|
                0 <= node < n_nodes && V::obeys_add_spec() ==> #[trigger] load@[node]
                    == partial_load(elements@, element as int, node, zero),
            forall|node: int| element < node < n_nodes ==> #[trigger] load@[node] == zero,
        decreases n_elements - element,
    {
        let global_indices = [element, element + 1];
        let local = elements[element];
        let ghost before = triplets@;
        let ghost ek = element as int;

        // Local node 0.
        proof {
            if !addition_is_total::<V>() {
                assert(load_sums_defined(elements@, ek, zero));
            }
        }
        let sum = load[global_indices[0]] + local.load[0];
        load.set(global_indices[0], sum);
        let t00 = Triplet { row: element, column: element, value: local.stiffness[0][0] };
        triplets.push(t00);
        let t01 = Triplet { row: element, column: element + 1, value: local.stiffness[0][1] };
        triplets.push(t01);

        // Local node 1.
        proof {
            if !addition_is_total::<V>() {
                assert(load_sums_defined(elements@, ek + 1, zero));
            }
        }
        let sum = load[global_indices[1]] + local.load[1];
        load.set(global_indices[1], sum);
        let t10 = Triplet { row: element + 1, column: element, value: local.stiffness[1][0] };
        triplets.push(t10);
        let t11 = Triplet { row: element + 1, column: element + 1, value: local.stiffness[1][1] };
        triplets.push(t11);

        proof {
            assert forall|r: int, c: int| #[trigger]
                contributions(triplets@, r, c) == stencil(elements@, ek + 1, r, c) by {
                let s1 = before.push(t00);
                let s2 = s1.push(t01);
                let s3 = s2.push(t10);
                assert(triplets@ =~= s3.push(t11));
                lemma_contributions_push(before, t00, r, c);
                lemma_contributions_push(s1, t01, r, c);
                lemma_contributions_push(s2, t10, r, c);
                lemma_contributions_push(s3, t11, r, c);
                if c == r && r == ek {
                    assert(stencil(elements@, ek + 1, r, c) =~= stencil(elements@, ek, r, c).push(
                        local.stiffness[0][0],
                    ));
                } else if c == r && r == ek + 1 {
                    assert(stencil(elements@, ek + 1, r, c) =~= seq![local.stiffness[1][1]]);
                }
            }
        }
        element += 1;
    }

    proof {
        assert forall|r: int, c: int| summable(#[trigger] contributions(triplets@, r, c)) by {
            let s = stencil(elements@, n_elements as int, r, c);
            if s.len() > 1 && !addition_is_total::<V>() {
                assert(c == r && 1 <= r < n_elements);
                assert(s.drop_last() =~= seq![elements@[r - 1].stiffness[1][1]]);
                assert(partial_sums_defined(s.drop_last()));
            }
        }
    }
    let stiffness = CsrMatrix::from_triplets(triplets.as_slice(), n_nodes, n_nodes);
    proof {
        assert forall|r: int, c: int| #[trigger]
            stiffness@.contains_key((r, c)) implies r - 1 <= c <= r + 1 by {}
        if forall|e: int|
            0 <= e < elements@.len() ==> (#[trigger] elements@[e]).stiffness[0][1]
                == elements@[e].stiffness[1][0] {
            assert forall|r: int, c: int| #[trigger]
                stiffness@.contains_key((r, c)) implies stiffness@.contains_key((c, r))
                && stiffness@[(c, r)] == stiffness@[(r, c)] by {
                assert(stiffness@.contains_key((c, r)));
                if c == r + 1 {
                } else if c == r - 1 {
                }
            }
        }
        if V::obeys_add_spec() {
            assert(is_default(zero) && forall|node: int|
                0 <= node <= elements@.len() ==> #[trigger] load@[node] == partial_load(
                    elements@,
                    elements@.len() as int,
                    node,
                    zero,
                ));
        }
    }
    (stiffness, load)
}

/// The interior nodes of a mesh with `n_nodes` nodes: 1, 2, ..., n_nodes - 2.
pub open spec fn interior_nodes(n_nodes: int) -> Seq<usize> {
    Seq::new(if n_nodes >= 2 { (n_nodes - 2) as nat } else { 0 }, |i: int| (i + 1) as usize)
}

/// Impose u(0) = u(1) = 0 by deleting the two boundary rows and columns.
///
/// The boundary values are known, so they are not unknowns. Returns the
/// reduced stiffness matrix, the reduced load vector and the interior node
/// numbers: entry (a, b) of the reduced matrix is entry (a+1, b+1) of the full
/// one, and entry a of the reduced load is entry a+1 of the full load.
pub fn apply_homogeneous_dirichlet<V: Copy + Add<Output = V>>(
    stiffness: &CsrMatrix<V>,
    load: &[V],
) -> (reduced: (CsrMatrix<V>, Vec<V>, Vec<usize>))
    requires
        stiffness.num_rows() >= 1,
        stiffness.num_rows() <= 2 || stiffness.num_rows() <= stiffness.num_columns() + 1,
        stiffness.num_rows() <= 2 || load@.len() + 1 >= stiffness.num_rows(),
        forall|r: int, c: int|
            1 <= r < stiffness.num_rows() - 1 && #[trigger] stiffness@.contains_key((r, c)) ==> c
                < stiffness.num_columns(),
    ensures
        reduced.2@ == interior_nodes(stiffness.num_rows() as int),
        reduced.0.num_rows() == reduced.2@.len(),
        reduced.0.num_columns() == reduced.2@.len(),
        forall|a: int, b: int| #[trigger]
            reduced.0@.contains_key((a, b)) <==> 0 <= a < reduced.2@.len() && 0 <= b
                < reduced.2@.len() && stiffness@.contains_key((a + 1, b + 1)),
        forall|a: int, b: int| #[trigger]
            reduced.0@.contains_key((a, b)) ==> reduced.0@[(a, b)] == stiffness@[(a + 1, b + 1)],
        reduced.1@.len() == reduced.2@.len(),
        forall|a: int| 0 <= a < reduced.1@.len() ==> #[trigger] reduced.1@[a] == load@[a + 1],
        stiffness.is_tridiagonal_spec() ==> reduced.0.is_tridiagonal_spec(),
        is_symmetric(stiffness) ==> is_symmetric(&reduced.0),
{
    let n_nodes = stiffness.n_rows();
    let ghost expected = interior_nodes(n_nodes as int);
    let mut interior: Vec<usize> = Vec::new();
    let mut node: usize = 1;
    while node < n_nodes - 1
        invariant
            n_nodes >= 1,
            1 <= node,
            node <= n_nodes - 1 || node == 1,
            interior@.len() == node - 1,
            forall|i: int| 0 <= i < interior@.len() ==> #[trigger] interior@[i] == i + 1,
        decreases n_nodes - node,
    {
        interior.push(node);
        node += 1;
    }
    assert(interior@ =~= expected);
    proof {
        assert(no_repeats(interior@));
    }
    let reduced_stiffness = stiffness.submatrix(interior.as_slice());

    let mut reduced_load: Vec<V> = Vec::new();
    let mut i: usize = 0;
    while i < interior.len()
        invariant
            interior@ == expected,
            n_nodes <= 2 || load@.len() + 1 >= n_nodes,
            n_nodes == stiffness.num_rows(),
            interior@.len() == (if n_nodes >= 2 { n_nodes - 2 } else { 0 }),
            forall|k: int| 0 <= k < interior@.len() ==> #[trigger] interior@[k] == k + 1,
            i <= interior@.len(),
            reduced_load@.len() == i,
            forall|a: int| 0 <= a < i ==> #[trigger] reduced_load@[a] == load@[a + 1],
        decreases interior@.len() - i,
    {
        assert(interior@[i as int] == i + 1);
        reduced_load.push(load[interior[i]]);
        i += 1;
    }
    proof {
        assert forall|a: int, b: int| #[trigger]
            reduced_stiffness@.contains_key((a, b)) <==> 0 <= a < interior@.len() && 0 <= b
                < interior@.len() && stiffness@.contains_key((a + 1, b + 1)) by {
            if 0 <= a < interior@.len() && 0 <= b < interior@.len() {
                assert(interior@[a] == a + 1);
                assert(interior@[b] == b + 1);
            }
        }
        if stiffness.is_tridiagonal_spec() {
            assert forall|r: int, c: int| #[trigger]
                reduced_stiffness@.contains_key((r, c)) implies r - 1 <= c <= r + 1 by {
                assert(stiffness@.contains_key((r + 1, c + 1)));
            }
        }
        if is_symmetric(stiffness) {
            assert forall|r: int, c: int| #[trigger]
                reduced_stiffness@.contains_key((r, c)) implies reduced_stiffness@.contains_key((c, r))
                && reduced_stiffness@[(c, r)] == reduced_stiffness@[(r, c)] by {
                assert(stiffness@.contains_key((r + 1, c + 1)));
                assert(stiffness@.contains_key((c + 1, r + 1)));
                assert(reduced_stiffness@.contains_key((c, r)));
            }
        }
    }
    (reduced_stiffness, reduced_load, interior)
}

/// `entry` is what scattering `values` onto the nodes `indices` leaves at
/// `node`: the value of the last position that names `node`, or a default
/// value if none does.
pub open spec fn scattered_entry<V: Default>(
    values: Seq<V>,
    indices: Seq<usize>,
    node: int,
    entry: V,
) -> bool {
    if last_position(indices, node) >= 0 {
        entry == values[last_position(indices, node)]
    } else {
        is_default(entry)
    }
}

/// Put interior unknowns back into a full nodal vector, with default values
/// (zeros) at the nodes that no interior index names.
pub fn scatter_interior_solution<V: Copy + Default>(
    interior_values: &[V],
    n_nodes: usize,
    interior_indices: &[usize],
) -> (full: Vec<V>)
    requires
        interior_values@.len() >= interior_indices@.len(),
        forall|i: int|
            0 <= i < interior_indices@.len() ==> #[trigger] interior_indices@[i] < n_nodes,
    ensures
        full@.len() == n_nodes,
        forall|node: int|
            0 <= node < n_nodes ==> scattered_entry(
                interior_values@,
                interior_indices@,
                node,
                #[trigger] full@[node],
            ),
{
    let zero = V::default();
    let mut full: Vec<V> = Vec::new();
    let mut i: usize = 0;
    while i < n_nodes
        invariant
            i <= n_nodes,
            full@.len() == i,
            forall|node: int| 0 <= node < i ==> #[trigger] full@[node] == zero,
        decreases n_nodes - i,
    {
        full.push(zero);
        i += 1;
    }
    proof {
        assert(interior_indices@.take(0) =~= Seq::<usize>::empty());
    }
    let mut position: usize = 0;
    while position < interior_indices.len()
        invariant
            is_default(zero),
            position <= interior_indices@.len(),
            interior_values@.len() >= interior_indices@.len(),
            forall|i: int|
                0 <= i < interior_indices@.len() ==> #[trigger] interior_indices@[i] < n_nodes,
            full@.len() == n_nodes,
            forall|node: int|
                0 <= node < n_nodes ==> if last_position(
                    interior_indices@.take(position as int),
                    node,
                ) >= 0 {
                    #[trigger] full@[node] == interior_values@[last_position(
                        interior_indices@.take(position as int),
                        node,
                    )]
                } else {
                    full@[node] == zero
                },
        decreases interior_indices@.len() - position,
    {
        let node = interior_indices[position];
        full.set(node, interior_values[position]);
        proof {
            assert(interior_indices@.take(position + 1) =~= interior_indices@.take(
                position as int,
            ).push(node));
            assert forall|n: int| 0 <= n < n_nodes implies if last_position(
                interior_indices@.take(position + 1),
                n,
            ) >= 0 {
                #[trigger] full@[n] == interior_values@[last_position(
                    interior_indices@.take(position + 1),
                    n,
                )]
            } else {
                full@[n] == zero
            } by {
                lemma_last_position_push(interior_indices@.take(position as int), node, n);
            }
        }
        position += 1;
    }
    proof {
        assert(interior_indices@.take(interior_indices@.len() as int) =~= interior_indices@);
    }
    full
}

// ---------------------------------------------------------------------------
// Laws
// ---------------------------------------------------------------------------
/// Scattering interior values with the interior numbering of a mesh leaves
/// default values (zeros) at both boundary nodes.
pub proof fn law_boundary_values_are_default<V: Default>(
    interior_values: Seq<V>,
    n_nodes: int,
    full: Seq<V>,
)
    requires
        2 <= n_nodes <= usize::MAX,
        full.len() == n_nodes,
        forall|node: int|
            0 <= node < n_nodes ==> scattered_entry(
                interior_values,
                interior_nodes(n_nodes),
                node,
                #[trigger] full[node],
            ),
    ensures
        is_default(full[0]),
        is_default(full[n_nodes - 1]),
{
    let interior = interior_nodes(n_nodes);
    lemma_last_position(interior, 0);
    lemma_last_position(interior, n_nodes - 1);
    let p = last_position(interior, 0);
    if p >= 0 {
        assert(interior[p] == p + 1);
    }
    let q = last_position(interior, n_nodes - 1);
    if q >= 0 {
        assert(interior[q] == q + 1);
    }
    assert(scattered_entry(interior_values, interior, 0, full[0]));
    assert(scattered_entry(interior_values, interior, n_nodes - 1, full[n_nodes - 1]));
}

/// Scattering interior values with the interior numbering of a mesh puts
/// value a at node a + 1, so restricting the result to the interior gives
/// the values back.
pub proof fn law_scatter_places_interior_values<V: Default>(
    interior_values: Seq<V>,
    n_nodes: int,
    full: Seq<V>,
)
    requires
        2 <= n_nodes <= usize::MAX,
        interior_values.len() >= n_nodes - 2,
        full.len() == n_nodes,
        forall|node: int|
            0 <= node < n_nodes ==> scattered_entry(
                interior_values,
                interior_nodes(n_nodes),
                node,
                #[trigger] full[node],
            ),
    ensures
        forall|a: int| 0 <= a < n_nodes - 2 ==> #[trigger] full[a + 1] == interior_values[a],
{
    let interior = interior_nodes(n_nodes);
    assert forall|i: int, j: int| 0 <= i < j < interior.len() implies interior[i] != interior[j] by {
        assert(interior[i] == i + 1);
        assert(interior[j] == j + 1);
    }
    assert forall|a: int| 0 <= a < n_nodes - 2 implies #[trigger] full[a + 1]
        == interior_values[a] by {
        assert(no_repeats(interior));
        assert(interior[a] == a + 1);
        lemma_no_repeats_last_position(interior, a);
        assert(scattered_entry(interior_values, interior, a + 1, full[a + 1]));
    }
}

} // verus!
