# photonic_handlers

The rules behind the tools of a vector editor: what a request does to a document,
worked out on plain values and proved with Verus. A tool's function takes the nodes
of the document and the arguments of the request and returns a plan: the edits to
make and what to say, or why the request is refused. Nothing in the library touches
a document, a file or a clock.

- `src/` is the library. A function states what it returns and when it refuses. What
  outside crates decide (which texts a UUID or a regular expression can have, how
  letters are made small) goes by the name of the outside function, and what the host
  computes (curves, colours from texts, angles) is taken as an argument. Functions
  named `law_…` state what holds across functions.
  - Numbers: `bignum`, `double` (texts as binary64 numbers), `decimal` (binary64 numbers
    as texts) and `float` (binary64 arithmetic on bit patterns, rounded to nearest).
  - Reading React pages and components: `text`, `literals`, `jsx`, `tailwind`, `theme`,
    `css_tree`, `app_directory`, `checkin`, `connect_page`, `svg`, `svg_icon`, `paths`,
    `sources`, `page_readers`, `checkin_reader`, `react_import`; `stripped` and `hues`
    hold laws of what is read.
  - Drawing the pages: `plan`, `directory_plan`, `checkin_plan`, `connect_plan`, and
    `history`, where an import is one entry that can be undone.
  - Tools on a document: `scene` and everything that uses it, such as `selection`,
    `arrange`, `transform`, `copies`, `painting`, `recolor`, `find_replace`,
    `typography`, `path_tools`, `shapes` and `figures`; `reports` says in words what
    was done.
- `tests/` runs the library on concrete values.
- `app/` is the host side: files, fonts, curves, angles, random ids, and the plans of the
  tools and of imports carried out on a document.

Numbers are kept as the bit patterns of binary64 numbers. Cosines, sines and powers come
from the host, which is asked for them by angle.
