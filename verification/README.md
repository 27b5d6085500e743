# rgis_basemap

The decisions behind a basemap that follows a 2D camera, verified with Verus.

A worker thread renders an OpenStreetMap basemap with Galileo. The main thread shows it
as a Bevy sprite and asks for another rendering when the camera has zoomed or panned away
from the last one.

| module     | what it decides                                                        |
|------------|------------------------------------------------------------------------|
| `basemap`  | what a frame uploads, asks the worker for, and where the sprite goes   |
| `viewport` | whether a camera has moved away from what was rendered                 |
| `worker`   | what the worker thread does next                                       |
| `latest`   | which item is kept when a channel is drained                           |
| `render`   | the messages between the two threads                                   |
| `texture`  | the images made from RGBA bytes                                        |
| `spike`    | a one-shot run: the picture to save, the image to show, when to exit   |
| `dev_ui`   | which widgets are registered for automation, and as what               |
| `binary32` | single-precision numbers as bit patterns, and rounding                 |
| `binary64` | double-precision numbers as bit patterns, and widening                 |

The threshold tests are specified as exact rational arithmetic followed by rounding to
nearest even, operation by operation, and computed with integers.

`app/` holds the Bevy plugin and program around the library: the systems, the channels,
the worker thread and the calls into Galileo and egui.
