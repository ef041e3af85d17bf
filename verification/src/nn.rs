//! The shape of a feed-forward network: how wide its layers are and which
//! activation each of them applies. The arithmetic of the network is done in
//! floating point by whoever holds its weights; what must hold of its shape
//! is decided here.

use vstd::prelude::*;

verus! {

/// The activation that a layer applies to the output of each of its
/// neurons.
#[derive(Debug, Clone, Copy, PartialEq, Eq, Structural)]
pub enum ActivationFunction {
    Sigmoid,
    ReLU,
    Tanh,
    Identity,
}

/// The shape of one layer: the width of its input, the number of its
/// neurons, and its activation.
#[derive(Debug, Clone, Copy, PartialEq, Eq, Structural)]
pub struct LayerShape {
    pub inputs: usize,
    pub outputs: usize,
    pub activation: ActivationFunction,
}

/// The shapes of the layers of a network with the given widths: layer `n`
/// leads from width `n` to width `n + 1` and applies activation `n`.
pub open spec fn shapes_of(
    layer_sizes: Seq<usize>,
    activations: Seq<ActivationFunction>,
) -> Seq<LayerShape> {
    Seq::new(
        activations.len(),
        |n: int|
            LayerShape {
                inputs: layer_sizes[n],
                outputs: layer_sizes[n + 1],
                activation: activations[n],
            },
    )
}

/// Every layer takes as many inputs as the layer before it has neurons, and
/// the first takes `input_width`.
pub open spec fn chained(input_width: usize, shapes: Seq<LayerShape>) -> bool {
    forall|n: int|
        0 <= n < shapes.len() ==> (#[trigger] shapes[n]).inputs == if n == 0 {
            input_width
        } else {
            shapes[n - 1].outputs
        }
}

/// The shapes of the layers of a network with the given widths. There must
/// be one width more than there are activations.
pub fn layer_shapes(layer_sizes: &[usize], activations: &[ActivationFunction]) -> (shapes: Vec<
    LayerShape,
>)
    requires
        layer_sizes@.len() == activations@.len() + 1,
    ensures
        shapes@ == shapes_of(layer_sizes@, activations@),
        chained(layer_sizes@[0], shapes@),
{
    let mut shapes: Vec<LayerShape> = Vec::new();
    let mut n: usize = 0;
    while n < activations.len()
        invariant
            n <= activations@.len(),
            layer_sizes@.len() == activations@.len() + 1,
            shapes@.len() == n,
            forall|m: int| 0 <= m < n ==> shapes@[m] == shapes_of(layer_sizes@, activations@)[m],
        decreases activations@.len() - n,
    {
        shapes.push(
            LayerShape {
                inputs: layer_sizes[n],
                outputs: layer_sizes[n + 1],
                activation: activations[n],
            },
        );
        n = n + 1;
    }
    assert(shapes@ =~= shapes_of(layer_sizes@, activations@));
    shapes
}

/// Like [`layer_shapes`], for any lists: `None` unless there is one width
/// more than there are activations.
pub fn checked_layer_shapes(
    layer_sizes: &[usize],
    activations: &[ActivationFunction],
) -> (plan: Option<Vec<LayerShape>>)
    ensures
        plan is Some <==> layer_sizes@.len() == activations@.len() + 1,
        plan matches Some(shapes) ==> shapes@ == shapes_of(layer_sizes@, activations@) && chained(
            layer_sizes@[0],
            shapes@,
        ),
{
    if layer_sizes.len() > 0 && layer_sizes.len() - 1 == activations.len() {
        Some(layer_shapes(layer_sizes, activations))
    } else {
        None
    }
}

/// Whether the widths found in a network fit together. `widths[n]` lists,
/// for each neuron of layer `n`, how many weights it has.
pub open spec fn consistent(input_width: usize, widths: Seq<Vec<usize>>) -> bool {
    forall|n: int, k: int|
        0 <= n < widths.len() && 0 <= k < widths[n]@.len() ==> (#[trigger] widths[n]@[k]) == if n
            == 0 {
            input_width as int
        } else {
            widths[n - 1]@.len() as int
        }
}

/// Checks that every neuron of the first layer has `input_width` weights and
/// every neuron of a later layer as many weights as the layer before it has
/// neurons.
pub fn is_consistent(input_width: usize, widths: &Vec<Vec<usize>>) -> (ok: bool)
    ensures
        ok == consistent(input_width, widths@),
{
    let mut expected = input_width;
    let mut n: usize = 0;
    while n < widths.len()
        invariant
            n <= widths@.len(),
            expected == if n == 0 {
                input_width as int
            } else {
                widths@[n - 1]@.len() as int
            },
            forall|m: int, k: int|
                0 <= m < n && 0 <= k < widths@[m]@.len() ==> (#[trigger] widths@[m]@[k]) == if m
                    == 0 {
                    input_width as int
                } else {
                    widths@[m - 1]@.len() as int
                },
        decreases widths@.len() - n,
    {
        let layer = &widths[n];
        let mut k: usize = 0;
        while k < layer.len()
            invariant
                k <= layer@.len(),
                n < widths@.len(),
                layer@ == widths@[n as int]@,
                expected == if n == 0 {
                    input_width as int
                } else {
                    widths@[n - 1]@.len() as int
                },
                forall|j: int| 0 <= j < k ==> (#[trigger] widths@[n as int]@[j]) == expected,
            decreases layer@.len() - k,
        {
            if layer[k] != expected {
                assert(widths@[n as int]@[k as int] != expected);
                return false;
            }
            k = k + 1;
        }
        expected = layer.len();
        n = n + 1;
    }
    true
}

} // verus!
