//! The shapes of a dense network's layers, and the checks that turn away a
//! vector of the wrong width before anything is computed from it.

use vstd::prelude::*;

verus! {

/// The shape of one dense layer: a weight matrix of `in_size` rows and
/// `out_size` columns, a bias of `out_size` entries, and whether the layer
/// rectifies its output.
#[derive(Clone, Copy, PartialEq, Eq, Structural, Debug)]
pub struct LayerShape {
    pub in_size: usize,
    pub out_size: usize,
    pub relu: bool,
}

/// Why a vector or a batch does not fit a network.
#[derive(Clone, Copy, PartialEq, Eq, Structural, Debug)]
pub enum ShapeError {
    /// The network has no layer.
    NoLayers,
    /// The input in row `row` is `found` wide, the first layer `expected`.
    InputWidth { row: usize, expected: usize, found: usize },
    /// The target in row `row` is `found` wide, the last layer `expected`.
    TargetWidth { row: usize, expected: usize, found: usize },
    /// A batch has `inputs` input rows but `targets` target rows.
    RowCount { inputs: usize, targets: usize },
}

/// The layers of the dense network with the given widths, the input's first:
/// every layer but the last rectifies.
pub open spec fn dense_shapes(widths: Seq<usize>) -> Seq<LayerShape> {
    Seq::new(
        (widths.len() - 1) as nat,
        |i: int|
            LayerShape { in_size: widths[i], out_size: widths[i + 1], relu: i + 2 < widths.len() },
    )
}

/// `widths` describe a network: there are at least two of them, none is
/// zero, and the weights of each layer can be counted in a `usize`.
pub open spec fn widths_ok(widths: Seq<usize>) -> bool {
    &&& widths.len() >= 2
    &&& forall|i: int| 0 <= i < widths.len() ==> #[trigger] widths[i] >= 1
    &&& forall|i: int| 0 <= i < widths.len() - 1 ==> #[trigger] widths[i] * widths[i + 1] <= usize::MAX
}

/// Each layer takes what the layer before it gives, and only the last layer
/// does not rectify.
pub open spec fn chained(shapes: Seq<LayerShape>) -> bool {
    &&& shapes.len() >= 1
    &&& forall|i: int|
        0 <= i < shapes.len() ==> (#[trigger] shapes[i]).in_size >= 1 && shapes[i].out_size >= 1
            && shapes[i].in_size * shapes[i].out_size <= usize::MAX
    &&& forall|i: int|
        0 <= i < shapes.len() - 1 ==> (#[trigger] shapes[i]).out_size == shapes[i + 1].in_size
    &&& forall|i: int| 0 <= i < shapes.len() ==> ((#[trigger] shapes[i]).relu <==> i + 1 < shapes.len())
}

/// The shapes made from good widths are chained: the first layer takes the
/// first width and the last layer gives the last.
pub proof fn lemma_dense_shapes_chain(widths: Seq<usize>)
    requires
        widths_ok(widths),
    ensures
        chained(dense_shapes(widths)),
        dense_shapes(widths).len() == widths.len() - 1,
        dense_shapes(widths)[0].in_size == widths[0],
        dense_shapes(widths).last().out_size == widths.last(),
{
    let shapes = dense_shapes(widths);
    assert forall|i: int| 0 <= i < shapes.len() implies (#[trigger] shapes[i]).in_size >= 1
        && shapes[i].out_size >= 1 && shapes[i].in_size * shapes[i].out_size <= usize::MAX by {
        assert(widths[i] >= 1 && widths[i + 1] >= 1);
        assert(widths[i] * widths[i + 1] <= usize::MAX);
    }
}

/// The layers of the dense network with the given widths, or nothing where
/// the widths describe no network.
pub fn layer_shapes(widths: &Vec<usize>) -> (r: Option<Vec<LayerShape>>)
    ensures
        r is Some <==> widths_ok(widths@),
        r matches Some(shapes) ==> shapes@ == dense_shapes(widths@) && chained(shapes@),
{
    let count: usize = widths.len();
    if count < 2 {
        return None;
    }
    if widths[0] == 0 {
        return None;
    }
    let mut shapes: Vec<LayerShape> = Vec::new();
    let mut k: usize = 0;
    while k < count - 1
        invariant
            count == widths@.len(),
            count >= 2,
            k <= count - 1,
            shapes@.len() == k,
            forall|i: int| 0 <= i <= k ==> #[trigger] widths@[i] >= 1,
            forall|i: int| 0 <= i < k ==> #[trigger] widths@[i] * widths@[i + 1] <= usize::MAX,
            forall|i: int|
                0 <= i < k ==> #[trigger] shapes@[i] == (LayerShape {
                    in_size: widths@[i],
                    out_size: widths@[i + 1],
                    relu: i + 2 < count,
                }),
        decreases count - 1 - k,
    {
        let in_size: usize = widths[k];
        let out_size: usize = widths[k + 1];
        if out_size == 0 {
            return None;
        }
        if in_size.checked_mul(out_size).is_none() {
            assert(widths@[k as int] * widths@[k as int + 1] > usize::MAX);
            return None;
        }
        shapes.push(LayerShape { in_size, out_size, relu: k + 2 < count });
        k += 1;
    }
    proof {
        assert(shapes@ =~= dense_shapes(widths@));
        lemma_dense_shapes_chain(widths@);
    }
    Some(shapes)
}

/// What `check_input` answers for an input of width `len`.
pub open spec fn input_verdict(shapes: Seq<LayerShape>, len: usize) -> Result<(), ShapeError> {
    if shapes.len() == 0 {
        Err(ShapeError::NoLayers)
    } else if len != shapes[0].in_size {
        Err(ShapeError::InputWidth { row: 0, expected: shapes[0].in_size, found: len })
    } else {
        Ok(())
    }
}

/// Accepts an input vector of width `len` if it is as wide as the first layer
/// takes.
pub fn check_input(shapes: &Vec<LayerShape>, len: usize) -> (r: Result<(), ShapeError>)
    ensures
        r == input_verdict(shapes@, len),
{
    if shapes.len() == 0 {
        return Err(ShapeError::NoLayers);
    }
    let expected: usize = shapes[0].in_size;
    if len != expected {
        return Err(ShapeError::InputWidth { row: 0, expected, found: len });
    }
    Ok(())
}

/// Every input row is as wide as the first layer takes and every target row
/// as wide as the last layer gives, and there is one target row to each
/// input row.
pub open spec fn batch_fits(shapes: Seq<LayerShape>, inputs: Seq<usize>, targets: Seq<usize>) -> bool {
    &&& shapes.len() >= 1
    &&& inputs.len() == targets.len()
    &&& forall|i: int| 0 <= i < inputs.len() ==> #[trigger] inputs[i] == shapes[0].in_size
    &&& forall|i: int| 0 <= i < targets.len() ==> #[trigger] targets[i] == shapes.last().out_size
}

/// `e` names a fault of the batch: the first that is found when the number of
/// rows is looked at first and then row after row, the input before the
/// target.
pub open spec fn is_batch_fault(
    shapes: Seq<LayerShape>,
    inputs: Seq<usize>,
    targets: Seq<usize>,
    e: ShapeError,
) -> bool {
    match e {
        ShapeError::NoLayers => shapes.len() == 0,
        ShapeError::RowCount { inputs: i, targets: t } => {
            &&& shapes.len() >= 1
            &&& i == inputs.len()
            &&& t == targets.len()
            &&& i != t
        },
        ShapeError::InputWidth { row, expected, found } => {
            &&& shapes.len() >= 1
            &&& inputs.len() == targets.len()
            &&& row < inputs.len()
            &&& batch_fits(shapes, inputs.take(row as int), targets.take(row as int))
            &&& expected == shapes[0].in_size
            &&& found == inputs[row as int]
            &&& found != expected
        },
        ShapeError::TargetWidth { row, expected, found } => {
            &&& shapes.len() >= 1
            &&& inputs.len() == targets.len()
            &&& row < inputs.len()
            &&& batch_fits(shapes, inputs.take(row as int), targets.take(row as int))
            &&& inputs[row as int] == shapes[0].in_size
            &&& expected == shapes.last().out_size
            &&& found == targets[row as int]
            &&& found != expected
        },
    }
}

/// Accepts a training batch, given by the widths of its input rows and of
/// its target rows, if it fits the network; else names the first fault.
pub fn check_batch(shapes: &Vec<LayerShape>, inputs: &Vec<usize>, targets: &Vec<usize>) -> (r:
    Result<(), ShapeError>)
    ensures
        r is Ok <==> batch_fits(shapes@, inputs@, targets@),
        r matches Err(e) ==> is_batch_fault(shapes@, inputs@, targets@, e),
{
    if shapes.len() == 0 {
        return Err(ShapeError::NoLayers);
    }
    if inputs.len() != targets.len() {
        return Err(ShapeError::RowCount { inputs: inputs.len(), targets: targets.len() });
    }
    let in_width: usize = shapes[0].in_size;
    let out_width: usize = shapes[shapes.len() - 1].out_size;
    let mut row: usize = 0;
    while row < inputs.len()
        invariant
            shapes@.len() >= 1,
            inputs@.len() == targets@.len(),
            row <= inputs@.len(),
            in_width == shapes@[0].in_size,
            out_width == shapes@.last().out_size,
            batch_fits(shapes@, inputs@.take(row as int), targets@.take(row as int)),
        decreases inputs@.len() - row,
    {
        if inputs[row] != in_width {
            assert(!batch_fits(shapes@, inputs@, targets@)) by {
                assert(inputs@[row as int] != shapes@[0].in_size);
            }
            return Err(ShapeError::InputWidth { row, expected: in_width, found: inputs[row] });
        }
        if targets[row] != out_width {
            assert(!batch_fits(shapes@, inputs@, targets@)) by {
                assert(targets@[row as int] != shapes@.last().out_size);
            }
            return Err(ShapeError::TargetWidth { row, expected: out_width, found: targets[row] });
        }
        proof {
            let more_in = inputs@.take(row as int + 1);
            let more_out = targets@.take(row as int + 1);
            assert forall|i: int| 0 <= i < more_in.len() implies #[trigger] more_in[i]
                == shapes@[0].in_size by {
                if i < row {
                    assert(inputs@.take(row as int)[i] == more_in[i]);
                }
            }
            assert forall|i: int| 0 <= i < more_out.len() implies #[trigger] more_out[i]
                == shapes@.last().out_size by {
                if i < row {
                    assert(targets@.take(row as int)[i] == more_out[i]);
                }
            }
        }
        row += 1;
    }
    proof {
        assert(inputs@.take(row as int) == inputs@);
        assert(targets@.take(row as int) == targets@);
    }
    Ok(())
}

} // verus!
