# openfan

Fan control over a graph whose connections are typed by physical quantity. Sensors feed
transforms, transforms feed fan outputs, and a graph is checked as a whole before anything is
driven by it. What a tick computes, what happens to a channel when a reading goes bad, and when
a channel goes back to the firmware are stated as contracts and proved with Verus.

## Layout

`src/` is the library. All of its own logic is verified; what it takes on trust is listed below.

| Modules | What they hold |
| --- | --- |
| `scalar`, `text`, `ordmap`, `units` | Doubles by their bit pattern, text, ordered maps, quantities |
| `node`, `graph`, `infer`, `order`, `validate` | Kinds of node, graphs, type inference, evaluation order, compiling |
| `eval`, `tick` | What a node does, and what one tick of a graph does |
| `hal`, `policy`, `engine`, `runner`, `mock` | Channels and sensors, failsafe policies, the control loop, a simulated plant |
| `offload` | Reducing a graph to curves the chip can run by itself |
| `nct6775`, `superio`, `lpc`, `pawnio` | Registers of the super I/O chip and the requests that reach them |
| `presets`, `profile`, `import`, `fancontrol` | Starting points, profiles, bringing a FanControl file across |
| `contention`, `known`, `autostart`, `plan` | Other programs that drive fans |
| `ipc`, `params`, `rpc` | What a client is shown, and the conversation with it |
| `guarantees`, `node_guarantees`, `steady`, `wires`, `wiring`, `preset_guarantees`, `import_wiring`, `import_guarantees`, `rounding`, `smoothing`, `offload_guarantees`, `offload_rounding` | Laws about all of the above |

`app/` is the ordinary Rust around it: files, pipes, threads, the Windows API, and copies of
the library's types that can be serialised.

`tests/` runs the compiled library.

## What is trusted

The proofs rest on what these items say of code outside the library.

| Where | Outside | What is taken on trust |
| --- | --- | --- |
| `order` | `petgraph`: `Graph`, `Directed` | Two declared types; `dag_size` and `dag_edges` name what a graph holds |
| `order` | `petgraph`: `Graph::with_capacity`, `add_node`, `add_edge` | What each does to the size and the edges |
| `order` | `petgraph`: `algo::toposort` | An order over every node that no edge runs against, or a node on a cycle; `toposorted` names it |
| `text` | `String::push` | It appends the character |
| `text` | `char::is_whitespace` | Which characters are white space |
| `text` | `str::to_lowercase` | Named `lowercased` |
| `text` | the `Debug` format of `str` | Named `quoted` |
| `autostart` | `String::from_utf16_lossy` | The text that code units encode, surrogates without a partner replaced |
| `autostart` | `String::from_utf8_lossy` | The text that valid UTF-8 encodes; named `utf8_text` for the rest |
| `autostart` | `char::from_u32` | Which codes have a character |
| `rpc` | `String::from_utf8` | It succeeds on valid UTF-8 alone, with the text that the bytes encode |

## Numbers

The library holds every double as its 64-bit pattern and computes on that with integers, so
what a curve or a filter returns is stated exactly: the true result rounded to the nearest
double, ties to even. The one function it does not compute is the exponential that a low-pass
filter needs; the caller of a tick hands those factors in.
