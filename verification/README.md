# LoopPanel

LoopPanel shows system load, temperatures, network and disk rates and an audio spectrum on the
480×480 display of a TM-360 cooler, over a picture, an animation or a built-in effect.

The logic is a verified library. What touches Windows or the file system stands around it in an
ordinary program. So do the template engine when it fills the template in, the SVG renderer, and the
transform of the sound, which takes sines and logarithms.

## Layout

- `src/`: the library, verified with Verus.
  - `protocol`, `transport`: the frame format, the start-up reports and the transfer of frames.
  - `display`: how the display is started, when it is redrawn and when a frame is sent.
  - `media`, `image`: backgrounds and pixels.
  - `float`, `single`: the arithmetic of floating-point numbers on their bit patterns.
  - `render`: what the template is told, and how the dashboard is laid over the background.
  - `audio`, `io_metrics`, `monitor`: the decoding of what the system reports.
  - `temperature`, `temperature_service`: the CPU temperature, its service and the pipe between them.
  - `tray`, `startup`, `process`, `config`, `win`, `icon`: the program around the display.
  - `bytes`, `text`: little-endian numbers, UTF-16 and decimal numbers.
- `tests/`: what the library does on concrete values.
- `app/`: the program. It performs the steps that the library decides on and reports what came of
  them.

## Conventions

- Numbers with a fraction are bit patterns of single-precision numbers. What is computed from them is
  rounded as the IEEE arithmetic of single or double precision rounds it, step by step. Temperatures
  of the sensor are thousandths of a degree, and times are nanoseconds, unless a doc comment says
  otherwise.
- What takes several calls of the system is a state machine: a function gives the first step, and
  `next` turns a step and its outcome into the step that follows. The laws about such machines, such
  as that a failed installation is undone, are public proof functions named `lemma_...`.
- The library calls the `image` crate to decode and scale pictures, `minijinja` to parse the template,
  and the font database of `resvg` to find the family of a font. The contracts of these calls are stated where they are made and are
  not proved.

The program expects `IntelMSR.bin` and `looppanel.ico` beside its executable.
