# Schism

A simulation of religions that split, survive and die out over many
generations. People are born, age, die and inherit some heterodoxy; when a
faith's heterodox wing grows large enough it breaks away as a sect, and a
religion whose last adherent dies goes extinct.

## Layout

- `src/` is the library, written in Verus. Every function has a contract;
  Verus proves all of them except the few thin wrappers around `slotmap` and
  `rand` calls (in `simulation/registry.rs` and `religion/naming.rs`), whose
  contracts are taken from those crates' sources and believed:
  - `histogram` — the population of a religion, counted by age band and
    heterodoxy bin: adjusting cells, taking out the dead, adding newborns,
    ageing everyone by whole bands, regrouping converts into a new sect;
  - `simulation` — the world: the living religions (kept in a `slotmap`), the
    extinct ones in the order they died, the scale and the clock, and the
    steps of a generation; `simulation::readout` builds the sorted readout;
  - `religion` — a religion and its name; `config` — age-band validation and
    lookup; `environment`, `api` (the run status of the HTTP service),
    `output` (where a readout is uploaded), `adherent`, `probability`.
- `app/` is the program around it: the command line, the configuration file,
  the random draws from floating-point rates, the generation loop, JSON
  output, the S3 upload and the HTTP service.
- `tests/` runs the library on concrete values.

## Run

```sh
schism run                 # defaults: plains, 150 generations, 500 people
schism run -n 200 -s 7     # more generations, another seed
schism serve               # HTTP API on $SCHISM_API_ADDR (127.0.0.1:3001)
schism openapi api.json    # the API's OpenAPI document
```
