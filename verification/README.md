# SterOidSoundBoard

A real-time audio effects host that is controlled from any browser. Effects are nodes on a
pedalboard, joined by cables; the board is compiled into a schedule that the audio callback
walks through, and all clients see every change as it happens.

The library under `src/` is verified with [Verus](https://github.com/verus-lang/verus). The
program around it, under `app/`, talks to the audio system, the network and the disk.

## The library

| Module | What it holds |
|---|---|
| `sample` | samples as bit patterns: comparing, clamping, rounding, peaks, the limiter |
| `text`, `table` | decimal numbers, names, and a small table with text keys |
| `order` | sorting the nodes of a graph so that each stands behind its sources |
| `nodes` | the kinds of node with their parameters, buffers and shared cells |
| `delay` | the memory of a delay |
| `graph` | the board: nodes, cables, and which cables are refused |
| `adding` | adding two samples, rounded to the nearest |
| `block` | the processing of one block as a machine, and what every run of it has in common |
| `outcome` | what a block comes to: the output of each step and of the board, as sums of their sources |
| `replay` | what becomes of the same input a second time, on another schedule or in parts |
| `schedule` | live nodes, and a board compiled for the audio callback |
| `ring` | the lock-free rings of `rtrb` |
| `frames` | stereo frames on their way through a ring |
| `audio`, `opening` | choosing hosts, devices and formats, and opening streams step by step |
| `engine` | the control side of running audio, and the output callback |
| `state` | what all clients share: board, live nodes, engine, and every change of them |
| `web`, `args` | decisions of the web server, and the command line |

Some of what is proved:

- The graph never feeds back into itself: of the new cables that join two known ends the right
  way round, exactly those are refused that would let it. Every operation keeps the board well
  formed and every node in step with its live node.
- A compiled schedule runs each step behind all that it takes its signal from. What a cable
  begins at is among the sources of what it ends at, and a run adds up all sources: the output of
  each step is what its processor makes of their sum, or the sum itself where the step was found
  switched off.
- Whatever a processor does, nothing that is not finite gets past the node where it arises, and
  what reaches the device is finite and no louder than full scale.
- The state of a node (a delay's tail, say) goes from block to block untouched, until the board is
  compiled anew.
- Frames go through the input ring whole, and the delay of the input stays bounded.
- Both streams are opened at one rate, and every opening comes to an end.

The library carries samples as bit patterns, and adds, compares and limits them as such. The
effects (filters, delays and so on) are floating point, and live in `app/dsp.rs` as `Processor`s.
In the audio callback numbers below 2^-126 count as zero.

## Building

`app/` is the program, `src/` the library it depends on. On Linux the audio system needs
`libasound2-dev` and `pkg-config`. The user interface is taken from `web/` when the program is
built.
