# attnres

Attention residuals: a layer reads a learned mixture of the outputs of the layers
before it, in place of their plain sum. The library works on tensors of burn; what it
does with them is stated in contracts and proved with Verus.

| Module | What |
|--------|------|
| `array` | What the contracts say of a tensor, and the operations they are written with |
| `tensor` | Tensors of burn, and what is taken for granted of them |
| `score` | Scores of a source against the query |
| `depth` | Attention over all layers: `depth_attend`, `AttnRes` |
| `online` | Attention over sources that arrive one at a time |
| `block` | Attention over blocks of layers: `BlockAttnRes`, `BlockAttnState` |
| `laws` | What holds of block attention over any number of layers |
| `positions`, `locality` | No position of a result depends on another position |
| `formula`, `rowwise` | The formulas of one position over any arithmetic, and that the tensors follow them |
| `exact` | What holds of the formulas over the real numbers, where nothing is rounded |
| `fused`, `launch` | The same in chunks of layers, and how the work is divided |
| `fused_block` | A step of block attention on the fused path |
| `backward`, `graph` | The gradient of attention over layers, and its node in a graph |

`app/` wraps the library as modules of burn, with the query as a parameter, and holds
the CUDA kernels of the fused path (feature `cuda`). What the contracts say of elements
is said of the CPU backend; the kernels round in other places.

What a tensor holds is rounded after every operation, so two ways to the same number may
end in different digits. `exact` states what they have in common before rounding:
streaming, chunked and plain attention agree, orders do not matter, results stay among
the layers, and the gradient is the derivative.

A step of block attention reads the completed blocks and, from the second layer of a
block on, the partial block. The partial block is looked at without staying in the
attention; a block enters it once, with its last layer.

The state is made in the element type that the device is set to use. With layers of
another type the first completed block ends the stream: `can_step` tells so.
