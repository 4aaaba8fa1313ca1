# rdaw

The core of a small digital audio workstation, with its integer and structural
logic verified in Verus.

`src/` is the verified library:

- `tempo` — bars/beats/ticks positions and time signatures; exact tick counts.
- `automation` — breakpoint envelopes: sorted insertion with overwrite, and
  which breakpoint(s) govern any timeline frame.
- `timeline` — where a clip sounds inside a render block, and how far through
  its fade-in and fade-out each frame is.
- `transport` — the play head, loop region and control commands; splitting a
  device block into runs at the loop's wrap point.
- `routing` — the processing graph's topology and an order in which every node
  runs after the nodes that feed it (or the proof that the edges hold a cycle).
- `layout` — planar/interleaved sample layouts.
- `wav` — encoding and decoding the RIFF/WAVE container.
- `project` — the document's source references and time positions.

`app/` is the program around it: floating-point DSP nodes, the audio graph
runner, the project document with JSON persistence, the real-time engine on
the output device, WAV file I/O and the editor window.
