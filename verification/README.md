# gpu_document

The logic of a layered painting document whose pixels live on a graphics device: where tiles
lie in texture pages, what a stroke touches, what a commit replaces, what is read back and
when, what can be undone, and how the document is rebuilt after the device is lost.

`src/` holds the library. Every function states what it does in `requires` and `ensures`, and
Verus proves it. Laws that relate several functions are public proof functions whose names
begin with `law_`. Numbers with a fraction are held by their bits; what is computed with
them comes from the caller, as a function or as a result.

`app/` carries out on a device what the library decides. `tests/` runs the library.
