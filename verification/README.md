# sapio

The accounting, planning and policy logic of the Sapio Bitcoin contract
compiler, written in Verus: each function carries a contract over
mathematical models (sequences, integers, views of its types), and Verus
proves the code meets it.

## Layout

- `src/` — the verified library.
  - `context`, `builder`, `execution` — compilation contexts with their
    funds and ordinal ranges; the transaction builder, whose outputs and
    fees always account for every funded sat; running an ordinal plan.
  - `ordinals` — ordinal ranges and the planning of outputs around them.
  - `plan`, `template` — declarative transaction plans, their resolution
    into templates, and the checks of funding evidence and fee rates.
  - `policy`, `preflight`, `script`, `expand`, `lower`, `compose` — the
    policy language, its work limits and validation, the expansion of a
    policy into spending alternatives, their assembly into scripts, and the
    composition of guards and source policies.
  - `feasibility` — which policies a fixed transaction can satisfy, and
    the BIP-119 template hash.
  - `artifact` — the compiled artifact graph: its structural validation
    (template hashes, input indices and metadata, descriptor scripts), its
    explanation (node locations, source paths, funding and fees, and whether
    any script needs native CHECKTEMPLATEVERIFY), and the checks that bind
    it to funding outputs.
  - `bind` — the steps of binding an artifact to a funding output: the walk
    over the contracts it reaches, the funding each must find, the inputs
    and amounts of each template, and the bound paths of its children.
  - `actions`, `timelocks`, `reverse_path`, `interned`, `renamer`,
    `extended_address`, `encoding`, `error` — conditional compilation
    decisions and the per-action compilation rules (suggested templates
    carry no guards, a pinned internal key must be a bare-key branch),
    typed time locks, paths, interned and unique names, data
    outputs, Bitcoin encodings and errors.
- `tests/` — tests of the library on concrete values.
- `app/` — serde copies of the report types and the extraction of funding
  evidence from a PSBT.

Public proof functions named `lemma_*` state the library's laws, such as
the associativity and commutativity of merged compilation decisions, the
conservation of funds by the builder, the order of an ordinal output plan,
that relative lock requirements merge the same in either order, and that
preflight counts exactly the alternatives a policy expands into.
