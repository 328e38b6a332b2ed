# wrpc_wasmtime

Component values over [wRPC](https://github.com/bytecodealliance/wrpc), with the
codec verified in [Verus](https://github.com/verus-lang/verus).

- `src/` is the library: how values of component model types become bytes and
  bytes become values, the table of shared resources, the parameters, results and
  course of a call, and the byte streams on either side. All of it is verified.
  The functions of outside crates that it relies on (`bytes`, `uuid`,
  `wasm-tokio`, `wrpc-transport`) are declared next to the code that calls them,
  with what is taken for granted of each.
- `app/` is what surrounds the library in a host: the `wasmtime` store, the wRPC
  transport, and the conversions between the values of the runtime and those of
  the codec.
- `tests/` runs the library on concrete values.

## What is proved

Each function of the library states what it returns and what it changes. Some
facts about several functions together are stated on their own:

- `roundtrip`: what one end writes, the other end reads, whatever follows it.
- `incremental`, `attempts`, `params`: reading from a stream as its bytes arrive
  gives what reading the whole of it gives, and a shared resource that was found on
  the way stays found.
- `scope`, `shared`: a handle is of use only in the scope that it was made in.
- `deferral`: the streams of a value have sub-streams of their own.
- `stream`: a bridge between streams loses no byte, doubles none and keeps their
  order; a stream that is transmitted arrives in its chunks, and ends once.
- `call`: the steps of a call come in their order.
- `items`: the resource types of a component are all found.

## Resources and streams

A resource or a stream of a value lives in a store that the library does not
reach. The library knows it by a number. Where something has to be done to one
while a value is written, the encoder says what (`EncodeError::Pending`), the
owner of the store does it and notes the outcome (`encode::resolve`), and the
encoder is run again.
