# aspectwrite

Lays formulas out in collected handwriting and draws them as PNG pictures.

A profile is a set of glyphs, each with one or more samples of pen strokes. A formula is a
tree of nodes: symbols, running text, rows, fractions, roots, scripts, accents, delimited
groups, labelled arrows and aligned rows. The layout places the strokes of the samples round
a baseline, draws bars, radicals and brackets by hand where no sample exists, and varies
every instance a little. The variation depends on a seed alone, so one seed always gives the
same picture.

## Modules

- `scalar`, `milli`: the numbers that the layout computes with. Every contract is an equation
  over the operations of `Scalar`. `Milli` counts in thousandths; the program in `app/`
  computes in single precision.
- `words`, `bits`: keys and characters, and the bits from which instances take their draws.
- `profile`, `ink`: loading a profile, looking glyphs up, and turning pressure into width.
- `strokes`, `distance`, `entry`, `variation`: strokes and boxes, how near strokes come to each
  other, entry strokes, and how an instance varies.
- `node`, `pen`, `glyphs`, `prose`, `compose`, `layout`: the formula and its layout.
- `traces`, `picture`, `canvas`: what is drawn for a layout, the picture with its size limits,
  and the page of pixels with its PNG file.
- `laws`, `entries`: what holds of every profile, pen and formula, whatever the numbers are.
- `gauge`: what holds up to roundings in every number type that computes nearly exactly, as
  single precision does: boxes hold their ink, instances keep near their sample, scripts,
  limits, numerators and denominators keep their distances, bars overhang, overlines clear
  their body, collected parentheses span their group, and pictures grow with their scale.
- `exact`: what holds beyond that in thousandths: how far lines stray and instances vary, how
  ink is calibrated, what boxes hold, and how far scripts, fractions, letters and brackets
  stand from each other.

The library plans a picture as dots, lines and curves. The program draws them with
`tiny_skia`, whose paths are made of floating-point numbers. It reads the stroke file and the
formula as JSON.
