# goo

A verified library that writes and reads `.goo` files, the containers that resin printers
print from.

A container holds a header, two preview pictures and the layers of a print job. Each layer
is a picture of 8-bit pixels, coded as runs with a checksum. The library turns the masks or
runs of a slicer into containers, in version 1.2 and in version 5.1 of the format, and
reads single layers back as PNG files.

## Layout

| module         | what it holds                                                        |
|----------------|----------------------------------------------------------------------|
| `types`        | the data of a job, and the constants of the format                   |
| `error`        | refusals and their texts                                             |
| `single`       | single-precision arithmetic on bit patterns, rounded to nearest      |
| `bytes`        | numbers and texts as bytes                                           |
| `text`         | decimal and hexadecimal digits, trimming                             |
| `calendar`     | dates of the Gregorian calendar, and the clock                       |
| `stamp`        | the form and the order of the texts of seconds                       |
| `json`         | the metadata of a job, through `serde_json`                          |
| `metadata`     | thresholds, timing, machine and profile                              |
| `duration`     | how long a print takes                                               |
| `b64`, `picture`, `preview` | thumbnails, through `base64` and `png`                  |
| `rle`          | the coding of layers                                                 |
| `layers`       | from masks to coded layers                                           |
| `container`    | the container of version 1.2                                         |
| `container_v5` | the container of version 5.1, with a digest from `md-5`              |
| `reader`       | reading layers back                                                  |
| `planning`     | how many workers run, and how many masks wait                        |
| `stream`       | layers that arrive one by one                                        |
| `encoder`      | the encoder that a slicer plugs in                                   |

`app/` is the plugin itself: files, threads, environment variables and the interface of the
slicer.

## What is proved

Every function states what it returns for the inputs that it takes, and Verus proves it. Proof
functions whose names start with `law_` state what holds across functions, among them:

- decoding a coded picture gives the picture back, exactly when no run exceeds 28 bits;
- data that differs in one byte from what was written is refused;
- every layer of a container reads back as it was written;
- a header is exactly as long as it says, whatever the job is;
- a scaled thumbnail never exceeds its preview, in spite of every rounding;
- the order in which layers arrive does not matter;
- up to the year 9999 a later second has a greater text.

What `serde_json`, `base64`, `png`, `md-5` and the clock return is taken from contracts that
stand next to the calls.
