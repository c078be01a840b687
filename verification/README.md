# gguf_rs

Reading and running GGUF language models, verified with Verus.

`src/` is the library. Everything in it is proved against its contract:

| Module | What it holds |
|---|---|
| `parser`, `format`, `prefix`, `types`, `error` | the GGUF file format: reading header, metadata and tensor descriptions, how they are written, and files that are cut short |
| `loader` | models that are split over several files |
| `tokenizer`, `text` | byte-level BPE, both ways |
| `quant` | quantized rows: decoding, dot products, quantizing |
| `single`, `calc` | single-precision numbers by their bits, and the formulas over them |
| `model` | configuration, weights, K/V cache, products of matrices with vectors |
| `model::llama` | loading a model, the forward pass as a program, what it means, and running it |
| `ops` | backends, and how work is laid out on a GPU |
| `sampler`, `stream`, `runner` | choosing tokens, showing their text, whole runs |
| `report`, `probe` | what is shown of a file, and which tensors are measured |
| `parallel`, `clock` | threads and wall time |

Floating point is not verified. The library holds numbers by their bits, and where
it calculates, it calls a function that it is given (`calc::Calc` lists what is asked
of it). Every contract says exactly which calculations are made, on what, and in
which order.

`app/` is the command line: files, the arithmetic of floating point, the GPU, and
what is printed.

    gguf info MODEL          inspect a file
    gguf generate MODEL      generate text
    gguf bench MODEL         measure throughput
    gguf drift MODEL         compare the tokens of the CPU and the GPU
    gguf compare MODEL       compare the logits of the CPU and the GPU
    gguf kernels MODEL       time the kernels of the GPU
    gguf check MODEL         compare the kernels of the GPU with the CPU
    gguf half, gguf matrices what the GPU can do

Functions named `law_*` state what holds of several functions together: that encoding
a text loses nothing, that the launches of a pass on the GPU amount to the operations
of a pass on the CPU, that a greedy run is determined, and so on.
