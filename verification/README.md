# nexis-ml

A small machine-learning engine as a single program. It trains a perceptron on a
CSV table (or on built-in data) or a convolutional network on folders of images,
as `train.toml` declares; it streams each run as JSON lines and keeps it under
`.nexis-ml/runs/<id>/`.

- `src/` is the library: every decision of the engine, with contracts that Verus
  proves. It computes what is to be done and returns it; it opens no file and
  holds no floating-point number.
- `app/` is the program around it: arguments, files, the standard streams, the
  floating-point arithmetic and the networks, which run on `burn`.
- `tests/` runs the library.

```sh
nexis-ml --version              # the version
nexis-ml env                    # one line of JSON: what this machine offers
nexis-ml new tabular my-run     # begin a project (tabular or image)
nexis-ml train my-run           # train it
nexis-ml --nexis-protocol train my-run   # stream the run on the standard output
nexis-ml export --onnx my-run   # train the perceptron and write my-run/model.onnx
```

While a run streams, it takes commands on the standard input, one to a line:
`{"cmd":"cancel"}`, `{"cmd":"pause"}` and `{"cmd":"resume"}`.

What the library states of itself as a whole stands in proof functions whose names
begin with `law_`: that run ids sort by time, that a shuffle loses no row, that a
written model reads back, that a cancelled run stays cancelled, that a paused one
stays at the end of its epoch, that a run can be repeated, that no two runs share
a directory.
